//! The memory record: one immutable turn of conversation or tool output.

use vstd::prelude::*;

verus! {

/// The mathematical model of a metadata mapping: ordered key/value pairs.
pub open spec fn pairs_view(v: Seq<(String, String)>) -> Seq<(Seq<char>, Seq<char>)> {
    v.map_values(|p: (String, String)| (p.0@, p.1@))
}

/// The mathematical model of an optional metadata mapping.
pub open spec fn opt_pairs_view(v: Option<Vec<(String, String)>>) -> Option<
    Seq<(Seq<char>, Seq<char>)>,
> {
    match v {
        Some(m) => Some(pairs_view(m@)),
        None => None,
    }
}

/// The mathematical model of an optional embedding.
pub open spec fn opt_embedding_view(v: Option<Vec<i64>>) -> Option<Seq<i64>> {
    match v {
        Some(e) => Some(e@),
        None => None,
    }
}

/// The mathematical model of a memory record.
pub ghost struct RecordView {
    pub id: u128,
    pub session_id: Seq<char>,
    pub role: Seq<char>,
    pub content: Seq<char>,
    pub importance: i64,
    pub timestamp: i64,
    pub metadata: Option<Seq<(Seq<char>, Seq<char>)>>,
    pub embedding: Option<Seq<i64>>,
}

/// Memory record storing a piece of information.
///
/// A record is immutable once created: it carries a unique identifier, the
/// session it belongs to, its role (`system`, `user`, `assistant` or `tool`),
/// the text content, an importance weight in thousandths (`0..=1000`, default
/// `500`), a creation timestamp in milliseconds since the Unix epoch, and
/// optional metadata and embedding.
#[derive(Debug, Clone)]
pub struct MemoryRecord {
    pub id: u128,
    pub session_id: String,
    pub role: String,
    pub content: String,
    pub importance: i64,
    pub timestamp: i64,
    pub metadata: Option<Vec<(String, String)>>,
    pub embedding: Option<Vec<i64>>,
}

impl View for MemoryRecord {
    type V = RecordView;

    open spec fn view(&self) -> RecordView {
        RecordView {
            id: self.id,
            session_id: self.session_id@,
            role: self.role@,
            content: self.content@,
            importance: self.importance,
            timestamp: self.timestamp,
            metadata: opt_pairs_view(self.metadata),
            embedding: opt_embedding_view(self.embedding),
        }
    }
}

/// The models of a sequence of records.
pub open spec fn records_view(v: Seq<MemoryRecord>) -> Seq<RecordView> {
    v.map_values(|r: MemoryRecord| r@)
}

/// Copies a vector of metadata pairs with known semantics.
pub fn copy_pairs(v: &Vec<(String, String)>) -> (r: Vec<(String, String)>)
    ensures
        pairs_view(r@) == pairs_view(v@),
{
    let mut out: Vec<(String, String)> = Vec::new();
    let n = v.len();
    let mut i: usize = 0;
    while i < n
        invariant
            n == v@.len(),
            i <= n,
            out@.len() == i,
            forall|j: int| 0 <= j < i ==> out@[j].0@ == v@[j].0@ && out@[j].1@ == v@[j].1@,
        decreases n - i,
    {
        let key = v[i].0.clone();
        let val = v[i].1.clone();
        out.push((key, val));
        i = i + 1;
    }
    assert(pairs_view(out@) =~= pairs_view(v@));
    out
}

/// Copies a vector of embedding components.
pub fn copy_components(v: &Vec<i64>) -> (r: Vec<i64>)
    ensures
        r@ == v@,
{
    let mut out: Vec<i64> = Vec::new();
    let n = v.len();
    let mut i: usize = 0;
    while i < n
        invariant
            n == v@.len(),
            i <= n,
            out@ == v@.subrange(0, i as int),
        decreases n - i,
    {
        out.push(v[i]);
        assert(out@ =~= v@.subrange(0, i + 1 as int));
        i = i + 1;
    }
    assert(out@ =~= v@);
    out
}

/// Copies a record; the copy has the same model as the original.
pub fn clone_record(r: &MemoryRecord) -> (c: MemoryRecord)
    ensures
        c@ == r@,
{
    let metadata = match &r.metadata {
        Some(m) => Some(copy_pairs(m)),
        None => None,
    };
    let embedding = match &r.embedding {
        Some(e) => Some(copy_components(e)),
        None => None,
    };
    MemoryRecord {
        id: r.id,
        session_id: r.session_id.clone(),
        role: r.role.clone(),
        content: r.content.clone(),
        importance: r.importance,
        timestamp: r.timestamp,
        metadata,
        embedding,
    }
}

} // verus!
