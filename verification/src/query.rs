//! Query classification used to pick a retrieval strategy.

use vstd::prelude::*;

use crate::text::{
    chars_to_string, contains_ch, contains_char, contains_chars, contains_sub, lower_chars,
    lower_seq, starts_with_chars, starts_with_spec, to_chars, trim_chars, trim_spec,
    word_count_chars, word_count_spec,
};

verus! {

/// Types of queries that determine retrieval strategy.
#[derive(Debug, Clone, Copy, PartialEq, Eq, Structural)]
pub enum QueryType {
    /// Mathematical or computational queries that don't need context.
    Math,
    /// Short factoid questions needing minimal context.
    ShortFactoid,
    /// Complex queries requiring full context retrieval.
    Complex,
    /// Unknown query type, skip retrieval.
    Unknown,
}

/// The lower-cased query contains a mathematical operator or keyword.
pub open spec fn math_spec(q: Seq<char>) -> bool {
    contains_ch(q, '+') || contains_ch(q, '-') || contains_ch(q, '*') || contains_ch(q, '/')
        || contains_ch(q, '^') || contains_ch(q, '=') || contains_sub(q, "calculate"@)
        || contains_sub(q, "compute"@) || contains_sub(q, "solve"@) || contains_sub(q, "equation"@)
        || contains_sub(q, "sum"@) || contains_sub(q, "multiply"@) || contains_sub(q, "divide"@)
        || contains_sub(q, "subtract"@) || contains_sub(q, "add"@) || contains_sub(q, "integral"@)
        || contains_sub(q, "derivative"@)
}

/// The lower-cased query starts with a question word and is short.
pub open spec fn factoid_spec(q: Seq<char>) -> bool {
    (starts_with_spec(q, "what is"@) || starts_with_spec(q, "who is"@) || starts_with_spec(
        q,
        "when was"@,
    ) || starts_with_spec(q, "where is"@) || starts_with_spec(q, "which"@) || starts_with_spec(
        q,
        "define"@,
    )) && word_count_spec(q) < 15
}

/// The lower-cased query carries a complexity indicator, or is long.
pub open spec fn complex_spec(q: Seq<char>) -> bool {
    contains_sub(q, "explain"@) || contains_sub(q, "describe"@) || contains_sub(q, "analyze"@)
        || contains_sub(q, "compare"@) || contains_sub(q, "discuss"@) || contains_sub(
        q,
        "evaluate"@,
    ) || contains_sub(q, "how does"@) || contains_sub(q, "why does"@) || contains_sub(
        q,
        "tell me about"@,
    ) || contains_sub(q, "walk me through"@) || word_count_spec(q) > 20 || (contains_ch(q, '?')
        && word_count_spec(q) > 10)
}

/// The classification of a query: complex explanation requests first (so a
/// slash or a word like "solve" inside one does not pull it into the
/// mathematical class), then mathematical queries, then short factoids,
/// with everything else unknown. The query is trimmed and lower-cased
/// before the checks.
pub open spec fn classify_spec(q: Seq<char>) -> QueryType {
    let l = lower_seq(trim_spec(q));
    if complex_spec(l) {
        QueryType::Complex
    } else if math_spec(l) {
        QueryType::Math
    } else if factoid_spec(l) {
        QueryType::ShortFactoid
    } else {
        QueryType::Unknown
    }
}

/// Decides whether the (already lower-cased) query looks mathematical.
pub fn is_math_query(query: &str) -> (r: bool)
    ensures
        r == math_spec(query@),
{
    let q = to_chars(query);
    contains_char(&q, '+') || contains_char(&q, '-') || contains_char(&q, '*') || contains_char(
        &q,
        '/',
    ) || contains_char(&q, '^') || contains_char(&q, '=') || contains_chars(&q, &to_chars("calculate"))
        || contains_chars(&q, &to_chars("compute")) || contains_chars(&q, &to_chars("solve"))
        || contains_chars(&q, &to_chars("equation")) || contains_chars(&q, &to_chars("sum"))
        || contains_chars(&q, &to_chars("multiply")) || contains_chars(&q, &to_chars("divide"))
        || contains_chars(&q, &to_chars("subtract")) || contains_chars(&q, &to_chars("add"))
        || contains_chars(&q, &to_chars("integral")) || contains_chars(&q, &to_chars("derivative"))
}

/// Decides whether the (already lower-cased) query is a short factoid
/// question.
pub fn is_short_factoid(query: &str) -> (r: bool)
    ensures
        r == factoid_spec(query@),
{
    let q = to_chars(query);
    (starts_with_chars(&q, &to_chars("what is")) || starts_with_chars(&q, &to_chars("who is"))
        || starts_with_chars(&q, &to_chars("when was")) || starts_with_chars(
        &q,
        &to_chars("where is"),
    ) || starts_with_chars(&q, &to_chars("which")) || starts_with_chars(&q, &to_chars("define")))
        && word_count_chars(&q) < 15
}

/// Decides whether the (already lower-cased) query is complex.
pub fn is_complex_query(query: &str) -> (r: bool)
    ensures
        r == complex_spec(query@),
{
    let q = to_chars(query);
    let wc = word_count_chars(&q);
    contains_chars(&q, &to_chars("explain")) || contains_chars(&q, &to_chars("describe"))
        || contains_chars(&q, &to_chars("analyze")) || contains_chars(&q, &to_chars("compare"))
        || contains_chars(&q, &to_chars("discuss")) || contains_chars(&q, &to_chars("evaluate"))
        || contains_chars(&q, &to_chars("how does")) || contains_chars(&q, &to_chars("why does"))
        || contains_chars(&q, &to_chars("tell me about")) || contains_chars(
        &q,
        &to_chars("walk me through"),
    ) || wc > 20 || (contains_char(&q, '?') && wc > 10)
}

/// Classifies a query to determine the optimal retrieval strategy.
pub fn classify_query(query: &str) -> (r: QueryType)
    ensures
        r == classify_spec(query@),
{
    let lowered = chars_to_string(&lower_chars(&trim_chars(&to_chars(query))));
    if is_complex_query(lowered.as_str()) {
        QueryType::Complex
    } else if is_math_query(lowered.as_str()) {
        QueryType::Math
    } else if is_short_factoid(lowered.as_str()) {
        QueryType::ShortFactoid
    } else {
        QueryType::Unknown
    }
}

} // verus!
