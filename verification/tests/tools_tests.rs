use rs_agent::error::AgentError;
use rs_agent::tools::{Tool, ToolCatalog};
use rs_agent::types::{ToolRequest, ToolResponse, ToolSpec};

struct EchoTool;

impl Tool for EchoTool {
    fn spec(&self) -> ToolSpec {
        ToolSpec {
            name: "echo".to_string(),
            description: "Echoes the input".to_string(),
            input_schema: "{\"type\": \"object\", \"properties\": {\"input\": {\"type\": \"string\", \"description\": \"Text to echo\"}}, \"required\": [\"input\"]}".to_string(),
            examples: None,
        }
    }

    fn invoke(&mut self, req: ToolRequest) -> Result<ToolResponse, AgentError> {
        let input = req
            .arguments
            .iter()
            .find(|(key, _)| key == "input")
            .map(|(_, value)| value.clone())
            .unwrap_or_default();
        Ok(ToolResponse { content: input, metadata: None })
    }
}

#[test]
fn test_tool_catalog() {
    let mut catalog = ToolCatalog::new();
    catalog.register(EchoTool).unwrap();

    let spec = catalog.lookup("echo");
    assert!(spec.is_some());

    let mut args: Vec<(String, String)> = Vec::new();
    args.push(("input".to_string(), "hello".to_string()));

    let response = catalog
        .invoke("echo", ToolRequest { session_id: "test".to_string(), arguments: args })
        .unwrap();

    assert_eq!(response.content, "hello");
}

#[test]
fn invoking_an_unknown_tool_is_a_distinct_error() {
    let mut catalog: ToolCatalog<EchoTool> = ToolCatalog::new();
    let result = catalog.invoke(
        "missing",
        ToolRequest { session_id: "test".to_string(), arguments: Vec::new() },
    );
    match result {
        Err(AgentError::ToolNotFound(name)) => assert_eq!(name, "missing"),
        other => panic!("expected a tool-not-found failure, got {:?}", other),
    }
}
