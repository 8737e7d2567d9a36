use rs_agent::catalog::{StaticSubAgentDirectory, StaticToolCatalog};
use rs_agent::error::AgentError;
use rs_agent::types::{SubAgent, SubAgentDirectory, ToolRequest, ToolResponse, ToolSpec};
use rs_agent::tools::Tool;

struct TestTool {
    name: String,
}

impl Tool for TestTool {
    fn spec(&self) -> ToolSpec {
        ToolSpec {
            name: self.name.clone(),
            description: "Test tool".into(),
            input_schema: "{}".into(),
            examples: None,
        }
    }

    fn invoke(&mut self, _req: ToolRequest) -> Result<ToolResponse, AgentError> {
        Ok(ToolResponse { content: "test".into(), metadata: None })
    }
}

#[test]
fn catalog_registers_and_lookups_tools() {
    let mut catalog = StaticToolCatalog::new();
    let tool = TestTool { name: "test.tool".into() };

    catalog.register(tool).unwrap();
    assert!(catalog.lookup("test.tool").is_some());
    assert!(catalog.lookup("unknown").is_none());
}

#[test]
fn catalog_prevents_duplicate_registration() {
    let mut catalog = StaticToolCatalog::new();
    let tool1 = TestTool { name: "test.tool".into() };
    let tool2 = TestTool { name: "test.tool".into() };

    catalog.register(tool1).unwrap();
    assert!(catalog.register(tool2).is_err());
}

#[test]
fn catalog_normalizes_names_and_keeps_order() {
    // Registration of " Echo " twice must fail the second time; lookup by
    // any casing or surrounding whitespace succeeds after the first.
    let mut catalog = StaticToolCatalog::new();
    catalog.register(TestTool { name: " Echo ".into() }).unwrap();
    let second = catalog.register(TestTool { name: " Echo ".into() });
    assert!(second.is_err());
    assert!(matches!(second, Err(AgentError::ToolError(_))));
    assert!(catalog.lookup("echo").is_some());
    assert!(catalog.lookup("ECHO").is_some());
    assert!(catalog.lookup("  echo  ").is_some());

    catalog.register(TestTool { name: "Alpha".into() }).unwrap();
    catalog.register(TestTool { name: "Beta".into() }).unwrap();
    let specs = catalog.specs();
    assert_eq!(specs.len(), 3);
    assert_eq!(specs[0].name, " Echo ");
    assert_eq!(specs[1].name, "Alpha");
    assert_eq!(specs[2].name, "Beta");
    assert_eq!(catalog.tools().len(), 3);
}

#[test]
fn catalog_rejects_empty_names() {
    let mut catalog = StaticToolCatalog::new();
    let result = catalog.register(TestTool { name: "   ".into() });
    assert!(matches!(result, Err(AgentError::ToolError(_))));
}

struct TestSubAgent {
    name: String,
}

impl SubAgent for TestSubAgent {
    fn name(&self) -> String {
        self.name.clone()
    }

    fn description(&self) -> String {
        "Test sub-agent".into()
    }

    fn run(&mut self, _input: String) -> Result<String, AgentError> {
        Ok("test output".into())
    }
}

#[test]
fn directory_registers_and_lookups_subagents() {
    let mut dir = StaticSubAgentDirectory::new();
    let subagent = TestSubAgent { name: "test.agent".into() };

    dir.register(subagent).unwrap();
    assert!(dir.lookup("test.agent").is_some());
    assert!(dir.lookup("unknown").is_none());
}

#[test]
fn directory_prevents_duplicate_registration() {
    let mut dir = StaticSubAgentDirectory::new();
    let sa1 = TestSubAgent { name: "test.agent".into() };
    let sa2 = TestSubAgent { name: "test.agent".into() };

    dir.register(sa1).unwrap();
    assert!(dir.register(sa2).is_err());
}

#[test]
fn directory_preserves_registration_order() {
    let mut dir = StaticSubAgentDirectory::new();
    dir.register(TestSubAgent { name: "first".into() }).unwrap();
    dir.register(TestSubAgent { name: "second".into() }).unwrap();
    let all = dir.all();
    assert_eq!(all.len(), 2);
    assert_eq!(all[0].name(), "first");
    assert_eq!(all[1].name(), "second");
}
