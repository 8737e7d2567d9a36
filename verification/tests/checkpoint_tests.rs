use rs_agent::agent::Agent;
use rs_agent::error::AgentError;
use rs_agent::memory::{InMemoryStore, SessionMemory};
use rs_agent::models::LLM;
use rs_agent::record::MemoryRecord;
use rs_agent::types::{AgentOptions, File, GenerationResponse, Message};

struct StubModel;

impl LLM for StubModel {
    fn generate(
        &mut self,
        _messages: Vec<Message>,
        _files: Option<Vec<File>>,
    ) -> Result<GenerationResponse, AgentError> {
        Ok(GenerationResponse { content: "ok".to_string(), metadata: None })
    }

    fn model_name(&self) -> &str {
        "stub"
    }
}

fn sample_record(id: u128, role: &str, content: &str) -> MemoryRecord {
    let metadata = if id == 1 {
        Some(vec![("origin".to_string(), "sample".to_string())])
    } else {
        None
    };
    let embedding = if id == 2 { Some(vec![1000, -250, 33]) } else { None };
    MemoryRecord {
        id,
        session_id: "s".to_string(),
        role: role.to_string(),
        content: content.to_string(),
        importance: 500,
        timestamp: 40 + id as i64,
        metadata,
        embedding,
    }
}

#[test]
fn checkpoint_roundtrip_restores_the_cache() {
    // A session with records [r1, r2, r3]: restoring a checkpoint into a
    // fresh agent yields a cache with the same records, contents, roles and
    // identifiers, in the same order.
    let mut memory = SessionMemory::new(InMemoryStore::new(), 10);
    memory.store(sample_record(1, "user", "one")).unwrap();
    memory.store(sample_record(2, "assistant", "two")).unwrap();
    memory.store(sample_record(3, "user", "three")).unwrap();
    let agent = Agent::new(StubModel, memory, AgentOptions::default());

    let bytes = agent.checkpoint("s").unwrap();

    let fresh = SessionMemory::new(InMemoryStore::new(), 10);
    let mut restored = Agent::new(StubModel, fresh, AgentOptions::default());
    restored.restore("s", &bytes).unwrap();

    let recent = restored.retrieve_recent("s").unwrap();
    assert_eq!(recent.len(), 3);
    let expected = [(1u128, "user", "one"), (2, "assistant", "two"), (3, "user", "three")];
    for (record, (id, role, content)) in recent.iter().zip(expected.iter()) {
        assert_eq!(record.id, *id);
        assert_eq!(record.role, *role);
        assert_eq!(record.content, *content);
        assert_eq!(record.session_id, "s");
    }
    assert_eq!(
        recent[0].metadata,
        Some(vec![("origin".to_string(), "sample".to_string())])
    );
    assert_eq!(recent[1].embedding, Some(vec![1000, -250, 33]));
    assert_eq!(recent[2].timestamp, 43);
}

#[test]
fn restore_is_additive_within_the_window() {
    let mut memory = SessionMemory::new(InMemoryStore::new(), 10);
    memory.store(sample_record(1, "user", "one")).unwrap();
    let agent = Agent::new(StubModel, memory, AgentOptions::default());
    let bytes = agent.checkpoint("s").unwrap();

    let mut other = SessionMemory::new(InMemoryStore::new(), 10);
    other.store(sample_record(9, "user", "already here")).unwrap();
    let mut restored = Agent::new(StubModel, other, AgentOptions::default());
    restored.restore("s", &bytes).unwrap();

    let recent = restored.retrieve_recent("s").unwrap();
    assert_eq!(recent.len(), 2);
    assert_eq!(recent[0].content, "already here");
    assert_eq!(recent[1].content, "one");
}

#[test]
fn restore_rejects_bytes_that_hold_no_checkpoint() {
    let fresh = SessionMemory::new(InMemoryStore::new(), 10);
    let mut agent = Agent::new(StubModel, fresh, AgentOptions::default());
    let result = agent.restore("s", &vec![1, 2, 3]);
    assert!(matches!(result, Err(AgentError::SerializationError(_))));
    assert_eq!(agent.retrieve_recent("s").unwrap().len(), 0);
}

#[test]
fn checkpoints_with_unrelated_sessions_restore_nothing_for_them() {
    let mut memory = SessionMemory::new(InMemoryStore::new(), 10);
    memory.store(sample_record(5, "user", "mine")).unwrap();
    let agent = Agent::new(StubModel, memory, AgentOptions::default());
    let bytes = agent.checkpoint("s").unwrap();

    let fresh = SessionMemory::new(InMemoryStore::new(), 10);
    let mut restored = Agent::new(StubModel, fresh, AgentOptions::default());
    restored.restore("s", &bytes).unwrap();
    assert_eq!(restored.retrieve_recent("other").unwrap().len(), 0);
}
