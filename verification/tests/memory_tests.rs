use rs_agent::memory::{InMemoryStore, MemoryStore, SessionMemory};
use rs_agent::record::MemoryRecord;

fn record(id: u128, session_id: &str, role: &str, content: &str, importance: i64) -> MemoryRecord {
    MemoryRecord {
        id,
        session_id: session_id.to_string(),
        role: role.to_string(),
        content: content.to_string(),
        importance,
        timestamp: 0,
        metadata: None,
        embedding: None,
    }
}

#[test]
fn test_in_memory_store() {
    let mut store = InMemoryStore::new();
    let rec = record(1, "test", "user", "Hello", 800);

    store.store(rec.clone()).unwrap();
    let retrieved = store.retrieve("test", 10).unwrap();
    assert_eq!(retrieved.len(), 1);
    assert_eq!(retrieved[0].content, "Hello");
}

#[test]
fn test_session_memory() {
    let store = InMemoryStore::new();
    let mut memory = SessionMemory::new(store, 5);

    let rec = record(2, "test", "user", "Test message", 900);

    memory.store(rec).unwrap();
    let recent = memory.retrieve_recent("test").unwrap();
    assert_eq!(recent.len(), 1);
}

#[test]
fn window_evicts_oldest_records() {
    // Window size 2: storing A (user), B (assistant), C (user) for session
    // "s" leaves exactly [B, C] in the short-term cache, in order.
    let store = InMemoryStore::new();
    let mut memory = SessionMemory::new(store, 2);
    memory.store(record(1, "s", "user", "A", 500)).unwrap();
    memory.store(record(2, "assistant", "assistant", "ignored", 500)).unwrap();
    memory.store(record(3, "s", "assistant", "B", 500)).unwrap();
    memory.store(record(4, "s", "user", "C", 500)).unwrap();

    let recent = memory.retrieve_recent("s").unwrap();
    assert_eq!(recent.len(), 2);
    assert_eq!(recent[0].content, "B");
    assert_eq!(recent[0].role, "assistant");
    assert_eq!(recent[1].content, "C");
    assert_eq!(recent[1].role, "user");
}

#[test]
fn caches_are_partitioned_by_session() {
    let store = InMemoryStore::new();
    let mut memory = SessionMemory::new(store, 10);
    memory.store(record(1, "a", "user", "for a", 500)).unwrap();
    memory.store(record(2, "b", "user", "for b", 500)).unwrap();

    assert_eq!(memory.retrieve_recent("a").unwrap().len(), 1);
    assert_eq!(memory.retrieve_recent("b").unwrap().len(), 1);
    assert_eq!(memory.retrieve_recent("c").unwrap().len(), 0);
    assert_eq!(memory.retrieve_recent("a").unwrap()[0].content, "for a");
}

#[test]
fn retrieve_returns_most_recent_first() {
    let mut store = InMemoryStore::new();
    store.store(record(1, "s", "user", "one", 500)).unwrap();
    store.store(record(2, "s", "assistant", "two", 500)).unwrap();
    store.store(record(3, "other", "user", "elsewhere", 500)).unwrap();
    store.store(record(4, "s", "user", "three", 500)).unwrap();

    let out = store.retrieve("s", 2).unwrap();
    assert_eq!(out.len(), 2);
    assert_eq!(out[0].content, "three");
    assert_eq!(out[1].content, "two");
}

#[test]
fn session_memory_search_delegates_to_the_store() {
    let store = InMemoryStore::new();
    let mut memory = SessionMemory::new(store, 1);
    let mut embedded = record(1, "s", "user", "embedded", 500);
    embedded.embedding = Some(vec![1000, 0]);
    memory.store(embedded).unwrap();
    // The cache window is 1 and search bypasses the cache: the record is
    // found in the long-term store regardless.
    memory.store(record(2, "s", "user", "newer", 500)).unwrap();
    let results = memory.search("s", vec![1000, 0], 5).unwrap();
    assert_eq!(results.len(), 1);
    assert_eq!(results[0].content, "embedded");
}

#[test]
fn search_ranks_by_similarity() {
    let mut store = InMemoryStore::new();
    let mut near = record(1, "s", "user", "near", 500);
    near.embedding = Some(vec![1000, 10]);
    let mut far = record(2, "s", "user", "far", 500);
    far.embedding = Some(vec![10, 1000]);
    let unembedded = record(3, "s", "user", "plain", 500);
    store.store(far).unwrap();
    store.store(near).unwrap();
    store.store(unembedded).unwrap();

    let results = store.search("s", vec![1000, 0], 10).unwrap();
    assert_eq!(results.len(), 2);
    assert_eq!(results[0].content, "near");
    assert_eq!(results[1].content, "far");
}
