use rs_agent::query::{classify_query, QueryType};

#[test]
fn test_classify_math_queries() {
    assert_eq!(classify_query("What is 5 + 3?"), QueryType::Math);
    assert_eq!(classify_query("Calculate the sum of 10 and 20"), QueryType::Math);
    assert_eq!(classify_query("Solve x^2 = 4"), QueryType::Math);
}

#[test]
fn test_classify_short_factoid() {
    assert_eq!(classify_query("What is Rust?"), QueryType::ShortFactoid);
    assert_eq!(classify_query("Who is the president?"), QueryType::ShortFactoid);
    assert_eq!(classify_query("When was Python created?"), QueryType::ShortFactoid);
}

#[test]
fn test_classify_complex_queries() {
    assert_eq!(classify_query("Explain how async/await works in Rust"), QueryType::Complex);
    assert_eq!(
        classify_query(
            "Tell me about the history of programming languages and their evolution over time"
        ),
        QueryType::Complex
    );
    assert_eq!(
        classify_query("Why does the borrow checker prevent certain patterns?"),
        QueryType::Complex
    );
}

#[test]
fn test_classify_unknown() {
    assert_eq!(classify_query("Hello"), QueryType::Unknown);
    assert_eq!(classify_query(""), QueryType::Unknown);
}

#[test]
fn test_edge_cases() {
    // "What is" but too long for a short factoid
    let long_what =
        "What is the meaning of life and how do we determine our purpose in this vast universe?";
    assert_eq!(classify_query(long_what), QueryType::Complex);

    // Math with an explanation request
    assert_eq!(classify_query("Explain how to solve quadratic equations"), QueryType::Complex);
}
