use rs_agent::record::MemoryRecord;
use rs_agent::similarity::{cosine_similarity, mmr_rerank};

fn embedded(id: u128, content: &str, embedding: Vec<i64>) -> MemoryRecord {
    MemoryRecord {
        id,
        session_id: "s".to_string(),
        role: "user".to_string(),
        content: content.to_string(),
        importance: 500,
        timestamp: 0,
        metadata: None,
        embedding: Some(embedding),
    }
}

fn plain(id: u128, content: &str) -> MemoryRecord {
    MemoryRecord {
        id,
        session_id: "s".to_string(),
        role: "user".to_string(),
        content: content.to_string(),
        importance: 500,
        timestamp: 0,
        metadata: None,
        embedding: None,
    }
}

#[test]
fn cosine_of_identical_direction_is_full_scale() {
    assert_eq!(cosine_similarity(&vec![1000, 0], &vec![1000, 0]), 1000);
    assert_eq!(cosine_similarity(&vec![500, 0], &vec![1000, 0]), 1000);
}

#[test]
fn cosine_of_orthogonal_vectors_is_zero() {
    assert_eq!(cosine_similarity(&vec![1000, 0], &vec![0, 1000]), 0);
}

#[test]
fn cosine_of_opposite_vectors_is_negative_full_scale() {
    assert_eq!(cosine_similarity(&vec![1000, 0], &vec![-1000, 0]), -1000);
}

#[test]
fn cosine_is_symmetric() {
    let a = vec![300, 400, 120];
    let b = vec![-250, 990, 5];
    assert_eq!(cosine_similarity(&a, &b), cosine_similarity(&b, &a));
}

#[test]
fn cosine_of_mismatched_lengths_is_zero() {
    assert_eq!(cosine_similarity(&vec![1000], &vec![1000, 0]), 0);
}

#[test]
fn cosine_of_zero_vector_is_zero() {
    assert_eq!(cosine_similarity(&vec![0, 0], &vec![1000, 0]), 0);
}

#[test]
fn mmr_with_full_relevance_returns_descending_relevance() {
    let query = vec![1000, 0];
    let candidates = vec![
        embedded(1, "low", vec![100, 995]),
        embedded(2, "high", vec![1000, 10]),
        embedded(3, "mid", vec![700, 700]),
    ];
    let picked = mmr_rerank(&query, candidates, 3, 1000);
    assert_eq!(picked.len(), 3);
    assert_eq!(picked[0].content, "high");
    assert_eq!(picked[1].content, "mid");
    assert_eq!(picked[2].content, "low");
}

#[test]
fn mmr_never_exceeds_k_or_embedded_count() {
    let query = vec![1000, 0];
    let candidates = vec![
        embedded(1, "a", vec![1000, 0]),
        plain(2, "no embedding"),
        embedded(3, "b", vec![0, 1000]),
    ];
    let picked = mmr_rerank(&query, candidates, 10, 700);
    assert_eq!(picked.len(), 2);
    for record in &picked {
        assert!(record.embedding.is_some());
    }

    let only_one = mmr_rerank(&vec![1000, 0], vec![embedded(1, "a", vec![1, 2])], 0, 500);
    assert_eq!(only_one.len(), 0);
}

#[test]
fn mmr_balances_relevance_and_diversity() {
    let query = vec![1000, 0];
    // Two nearly identical candidates and one distinct: with a diversity
    // weight, the distinct one is picked second.
    let candidates = vec![
        embedded(1, "first", vec![1000, 0]),
        embedded(2, "twin", vec![999, 30]),
        embedded(3, "distinct", vec![0, 1000]),
    ];
    let picked = mmr_rerank(&query, candidates, 2, 200);
    assert_eq!(picked.len(), 2);
    assert_eq!(picked[0].content, "first");
    assert_eq!(picked[1].content, "distinct");
}

#[test]
fn mmr_breaks_ties_by_first_encountered_order() {
    let query = vec![1000, 0];
    let candidates = vec![
        embedded(7, "earlier", vec![1000, 0]),
        embedded(8, "later", vec![1000, 0]),
    ];
    let picked = mmr_rerank(&query, candidates, 1, 1000);
    assert_eq!(picked.len(), 1);
    assert_eq!(picked[0].content, "earlier");
}
