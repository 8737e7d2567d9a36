use rs_agent::agent::Agent;
use rs_agent::agent_orchestrators::{strip_code_fence, Router};
use rs_agent::error::AgentError;
use rs_agent::memory::{InMemoryStore, SessionMemory};
use rs_agent::models::LLM;
use rs_agent::record::MemoryRecord;
use rs_agent::tools::{Tool, ToolCatalog};
use rs_agent::types::{
    AgentOptions, File, GenerationResponse, Message, ToolRequest, ToolResponse, ToolSpec,
};

struct StubModel {
    reply: String,
}

impl LLM for StubModel {
    fn generate(
        &mut self,
        _messages: Vec<Message>,
        _files: Option<Vec<File>>,
    ) -> Result<GenerationResponse, AgentError> {
        Ok(GenerationResponse { content: self.reply.clone(), metadata: None })
    }

    fn model_name(&self) -> &str {
        "stub"
    }
}

struct FailingModel;

impl LLM for FailingModel {
    fn generate(
        &mut self,
        _messages: Vec<Message>,
        _files: Option<Vec<File>>,
    ) -> Result<GenerationResponse, AgentError> {
        Err(AgentError::ModelError("the backend always fails".to_string()))
    }

    fn model_name(&self) -> &str {
        "failing"
    }
}

fn fresh_memory(window: usize) -> SessionMemory<InMemoryStore> {
    SessionMemory::new(InMemoryStore::new(), window)
}

#[test]
fn strip_code_fence_removes_markdown_fences() {
    assert_eq!(strip_code_fence("```rust\nlet x = 5;\n```"), "let x = 5;");
    assert_eq!(strip_code_fence("```\ncode\n```"), "code");
    assert_eq!(strip_code_fence("plain text"), "plain text");
}

#[test]
fn default_agent_options() {
    let opts = AgentOptions::default();
    assert_eq!(opts.context_limit, Some(8192));
    assert!(opts.system_prompt.is_none());
}

#[test]
fn generate_records_both_turns() {
    let mut agent = Agent::new(
        StubModel { reply: "stub answer".to_string() },
        fresh_memory(10),
        AgentOptions::default(),
    );
    let answer = agent.generate("s", "hello there").unwrap();
    assert_eq!(answer, "stub answer");
    let recent = agent.retrieve_recent("s").unwrap();
    assert_eq!(recent.len(), 2);
    assert_eq!(recent[0].role, "user");
    assert_eq!(recent[0].content, "hello there");
    assert_eq!(recent[1].role, "assistant");
    assert_eq!(recent[1].content, "stub answer");
}

#[test]
fn failing_backend_still_stores_the_user_turn() {
    // A model backend that always errors must still have stored the user's
    // input record before the error is returned.
    let mut agent = Agent::new(FailingModel, fresh_memory(10), AgentOptions::default());
    let result = agent.generate("s", "remember me");
    assert!(matches!(result, Err(AgentError::ModelError(_))));
    let recent = agent.retrieve_recent("s").unwrap();
    assert_eq!(recent.len(), 1);
    assert_eq!(recent[0].role, "user");
    assert_eq!(recent[0].content, "remember me");
}

#[test]
fn prompt_assembly_respects_the_token_budget() {
    // Ceiling 2: "cccc" and "bbbb" cost one token each and fit; including
    // "aaaaaaaa" (two tokens) would exceed the ceiling, so older records
    // stop being included, and the kept ones stay in chronological order.
    let mut memory = fresh_memory(10);
    let contents = ["aaaaaaaa", "bbbb", "cccc"];
    let roles = ["user", "assistant", "user"];
    for (i, (content, role)) in contents.iter().zip(roles.iter()).enumerate() {
        memory
            .store(MemoryRecord {
                id: i as u128,
                session_id: "s".to_string(),
                role: role.to_string(),
                content: content.to_string(),
                importance: 500,
                timestamp: i as i64,
                metadata: None,
                embedding: None,
            })
            .unwrap();
    }
    let agent = Agent::new(
        StubModel { reply: "unused".to_string() },
        memory,
        AgentOptions { system_prompt: Some("".to_string()), context_limit: Some(2) },
    );
    let messages = agent.build_prompt("s", "the question").unwrap();
    assert_eq!(messages.len(), 3);
    assert_eq!(messages[0].content, "bbbb");
    assert_eq!(messages[1].content, "cccc");
    assert_eq!(messages[2].content, "the question");
}

struct AnsweringRouter;

impl Router for AnsweringRouter {
    fn resolve(&self, _input: &str) -> Result<Option<String>, AgentError> {
        Ok(Some("routed".to_string()))
    }
}

#[test]
fn router_short_circuits_the_model() {
    let agent = Agent::new(
        StubModel { reply: "from the model".to_string() },
        fresh_memory(10),
        AgentOptions::default(),
    );
    let mut agent = agent.with_router(AnsweringRouter);
    let answer = agent.generate("s", "anything").unwrap();
    assert_eq!(answer, "routed");
    let recent = agent.retrieve_recent("s").unwrap();
    assert_eq!(recent.len(), 2);
    assert_eq!(recent[1].role, "assistant");
    assert_eq!(recent[1].content, "routed");
    let meta = recent[1].metadata.as_ref().unwrap();
    assert_eq!(meta[0].0, "source");
    assert_eq!(meta[0].1, "codemode_orchestrator");
}

struct EchoTool;

impl Tool for EchoTool {
    fn spec(&self) -> ToolSpec {
        ToolSpec {
            name: "echo".to_string(),
            description: "Echoes the input".to_string(),
            input_schema: "{}".to_string(),
            examples: None,
        }
    }

    fn invoke(&mut self, req: ToolRequest) -> Result<ToolResponse, AgentError> {
        let input = req
            .arguments
            .iter()
            .find(|(key, _)| key == "input")
            .map(|(_, value)| value.clone())
            .unwrap_or_default();
        Ok(ToolResponse { content: input, metadata: None })
    }
}

#[test]
fn invoke_tool_records_the_call() {
    let mut catalog = ToolCatalog::new();
    catalog.register(EchoTool).unwrap();
    let agent = Agent::new(
        StubModel { reply: "unused".to_string() },
        fresh_memory(10),
        AgentOptions::default(),
    );
    let mut agent = agent.with_tools(catalog);
    let out = agent
        .invoke_tool("s", "echo", vec![("input".to_string(), "hi there".to_string())])
        .unwrap();
    assert_eq!(out, "hi there");
    let recent = agent.retrieve_recent("s").unwrap();
    assert_eq!(recent.len(), 1);
    assert_eq!(recent[0].role, "tool");
    assert_eq!(recent[0].content, "Called echo: hi there");

    let missing = agent.invoke_tool("s", "unknown", Vec::new());
    assert!(matches!(missing, Err(AgentError::ToolNotFound(_))));
    assert_eq!(agent.retrieve_recent("s").unwrap().len(), 1);
}

#[test]
fn adapter_strips_fences_from_completions() {
    let mut adapter = rs_agent::agent_orchestrators::CodemodeLlmAdapter::new(StubModel {
        reply: "```rust\nlet y = 1;\n```".to_string(),
    });
    let cleaned = adapter.complete("write code").unwrap();
    assert_eq!(cleaned, "let y = 1;");
}

#[test]
fn flush_leaves_the_cache_alone() {
    let mut agent = Agent::new(
        StubModel { reply: "answer".to_string() },
        fresh_memory(10),
        AgentOptions::default(),
    );
    agent.generate("s", "question").unwrap();
    agent.flush("s").unwrap();
    assert_eq!(agent.retrieve_recent("s").unwrap().len(), 2);
}
