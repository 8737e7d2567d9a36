//! Session memory: a bounded per-session short-term cache in front of a
//! durable long-term store.

use vstd::prelude::*;

use vstd::math::max;
use vstd::math::min;

use crate::error::AgentError;
use crate::record::{clone_record, records_view, MemoryRecord, RecordView};
use crate::similarity::{mmr_rerank, mmr_spec, spec_cosine, valid_embedding};
use crate::text::str_eq;

verus! {

/// A record whose embedding, if present, the similarity arithmetic can
/// handle.
pub open spec fn valid_embedded(r: RecordView) -> bool {
    r.embedding is Some ==> valid_embedding(r.embedding->Some_0)
}

/// The records of session `sid`, in stored order.
pub open spec fn filter_session(s: Seq<RecordView>, sid: Seq<char>) -> Seq<RecordView>
    decreases s.len(),
{
    if s.len() == 0 {
        s
    } else {
        let rest = filter_session(s.drop_last(), sid);
        if s.last().session_id == sid {
            rest.push(s.last())
        } else {
            rest
        }
    }
}

/// Every record selected by `filter_session` belongs to the session and
/// occurs among the stored records.
pub proof fn lemma_filter_session(s: Seq<RecordView>, sid: Seq<char>)
    ensures
        forall|t: int|
            0 <= t < filter_session(s, sid).len() ==> (#[trigger] filter_session(s, sid)[t]).session_id
                == sid && s.contains(filter_session(s, sid)[t]),
    decreases s.len(),
{
    if s.len() > 0 {
        lemma_filter_session(s.drop_last(), sid);
        let f = filter_session(s, sid);
        let fd = filter_session(s.drop_last(), sid);
        assert forall|t: int| 0 <= t < f.len() implies (#[trigger] f[t]).session_id == sid
            && s.contains(f[t]) by {
            if t < fd.len() {
                assert(f[t] == fd[t]);
                assert(s.drop_last().contains(fd[t]));
                let w = choose|w: int| 0 <= w < s.drop_last().len() && s.drop_last()[w] == fd[t];
                assert(s[w] == fd[t]);
            } else {
                assert(f[t] == s.last());
                assert(s[s.len() - 1] == s.last());
            }
        }
    }
}

/// What `retrieve` returns: the session's records, most recent first, up to
/// `limit` of them.
pub open spec fn retrieve_spec(s: Seq<RecordView>, sid: Seq<char>, limit: int) -> Seq<RecordView> {
    let f = filter_session(s, sid).reverse();
    if limit <= f.len() {
        f.take(limit)
    } else {
        f
    }
}

/// What a similarity search returns: at most `limit` embedded records of the
/// session, drawn from the stored records, in non-increasing order of cosine
/// similarity to the query.
pub open spec fn search_post(
    stored: Seq<RecordView>,
    sid: Seq<char>,
    q: Seq<i64>,
    limit: int,
    results: Seq<RecordView>,
) -> bool {
    results.len() <= limit && (forall|t: int|
        0 <= t < results.len() ==> (#[trigger] results[t]).embedding is Some
            && results[t].session_id == sid && stored.contains(results[t])) && (forall|
        s: int,
        t: int,
    |
        0 <= s < t < results.len() ==> spec_cosine(q, #[trigger] results[s].embedding->Some_0)
            >= spec_cosine(q, #[trigger] results[t].embedding->Some_0))
}

/// Memory store contract for durable backends.
///
/// A failed `store` must propagate to the caller: a write is never silently
/// dropped.
pub trait MemoryStore: Sized {
    /// The records the store holds, in insertion order. Implementations
    /// that are not verified may leave the default, which specifies
    /// nothing.
    open spec fn stored(&self) -> Seq<RecordView> {
        vstd::pervasive::arbitrary()
    }

    /// Stores a memory record.
    fn store(&mut self, record: MemoryRecord) -> (r: Result<(), AgentError>)
        requires
            valid_embedded(record@),
        ensures
            r is Ok ==> final(self).stored() == old(self).stored().push(record@),
            r is Err ==> final(self).stored() == old(self).stored(),
    ;

    /// Retrieves up to `limit` records of a session, most recent first.
    fn retrieve(&self, session_id: &str, limit: usize) -> (r: Result<
        Vec<MemoryRecord>,
        AgentError,
    >)
        ensures
            r is Ok ==> records_view(r->Ok_0@) == retrieve_spec(
                self.stored(),
                session_id@,
                limit as int,
            ),
    ;

    /// Searches a session's records by embedding similarity.
    fn search(&self, session_id: &str, query_embedding: Vec<i64>, limit: usize) -> (r: Result<
        Vec<MemoryRecord>,
        AgentError,
    >)
        requires
            valid_embedding(query_embedding@),
            forall|t: int| 0 <= t < self.stored().len() ==> valid_embedded(#[trigger] self.stored()[t]),
        ensures
            r is Ok ==> search_post(
                self.stored(),
                session_id@,
                query_embedding@,
                limit as int,
                records_view(r->Ok_0@),
            ),
    ;

    /// Flushes any pending writes to durable state; a no-op is a valid
    /// implementation. The stored records are unchanged.
    fn flush(&mut self) -> (r: Result<(), AgentError>)
        ensures
            final(self).stored() == old(self).stored(),
    ;
}

/// In-memory store implementation: the whole history in a vector.
pub struct InMemoryStore {
    records: Vec<MemoryRecord>,
}

impl InMemoryStore {
    /// Creates an empty in-memory store.
    pub fn new() -> (s: Self)
        ensures
            s.stored() == Seq::<RecordView>::empty(),
    {
        let s = InMemoryStore { records: Vec::new() };
        proof {
            assert(records_view(s.records@) =~= Seq::<RecordView>::empty());
        }
        s
    }

    /// Copies the records of `session_id`, in stored order.
    fn session_records(&self, session_id: &str) -> (r: Vec<MemoryRecord>)
        ensures
            records_view(r@) == filter_session(self.stored(), session_id@),
    {
        let n = self.records.len();
        let mut out: Vec<MemoryRecord> = Vec::new();
        let mut i: usize = 0;
        proof {
            assert(records_view(self.records@).take(0) =~= Seq::<RecordView>::empty());
            assert(records_view(out@) =~= filter_session(
                records_view(self.records@).take(0),
                session_id@,
            ));
        }
        while i < n
            invariant
                n == self.records@.len(),
                i <= n,
                records_view(out@) == filter_session(
                    records_view(self.records@).take(i as int),
                    session_id@,
                ),
            decreases n - i,
        {
            let ghost pre = records_view(self.records@).take(i as int);
            let ghost cur = records_view(self.records@).take(i + 1 as int);
            proof {
                assert(cur.drop_last() =~= pre);
                assert(cur.last() == self.records@[i as int]@);
            }
            if str_eq(self.records[i].session_id.as_str(), session_id) {
                let ghost before = out@;
                out.push(clone_record(&self.records[i]));
                proof {
                    assert(records_view(out@) =~= records_view(before).push(
                        self.records@[i as int]@,
                    ));
                }
            }
            i = i + 1;
        }
        proof {
            assert(records_view(self.records@).take(n as int) =~= records_view(self.records@));
        }
        out
    }
}

impl Default for InMemoryStore {
    /// An empty store.
    fn default() -> (s: Self)
        ensures
            s.stored() == Seq::<RecordView>::empty(),
    {
        InMemoryStore::new()
    }
}

impl MemoryStore for InMemoryStore {
    closed spec fn stored(&self) -> Seq<RecordView> {
        records_view(self.records@)
    }

    fn store(&mut self, record: MemoryRecord) -> (r: Result<(), AgentError>)
        ensures
            r is Ok,
    {
        let ghost before = self.records@;
        self.records.push(record);
        proof {
            assert(records_view(self.records@) =~= records_view(before).push(
                self.records@[before.len() as int]@,
            ));
        }
        Ok(())
    }

    fn retrieve(&self, session_id: &str, limit: usize) -> (r: Result<Vec<MemoryRecord>, AgentError>)
        ensures
            r is Ok,
    {
        let matching = self.session_records(session_id);
        let m = matching.len();
        let count = if limit <= m {
            limit
        } else {
            m
        };
        let ghost rev = filter_session(self.stored(), session_id@).reverse();
        let mut out: Vec<MemoryRecord> = Vec::new();
        let mut j: usize = 0;
        while j < count
            invariant
                m == matching@.len(),
                count <= m,
                j <= count,
                records_view(matching@) == filter_session(self.stored(), session_id@),
                rev == filter_session(self.stored(), session_id@).reverse(),
                out@.len() == j,
                forall|t: int| 0 <= t < j ==> (#[trigger] out@[t])@ == rev[t],
            decreases count - j,
        {
            out.push(clone_record(&matching[m - 1 - j]));
            j = j + 1;
        }
        proof {
            assert(records_view(out@) =~= retrieve_spec(self.stored(), session_id@, limit as int));
        }
        Ok(out)
    }

    fn search(&self, session_id: &str, query_embedding: Vec<i64>, limit: usize) -> (r: Result<
        Vec<MemoryRecord>,
        AgentError,
    >)
        ensures
            r is Ok,
    {
        let matching = self.session_records(session_id);
        let ghost fviews = records_view(matching@);
        proof {
            lemma_filter_session(self.stored(), session_id@);
            assert forall|i: int|
                0 <= i < matching@.len() && (#[trigger] matching@[i])@.embedding is Some implies valid_embedding(
                matching@[i]@.embedding->Some_0,
            ) by {
                assert(records_view(matching@)[i] == matching@[i]@);
                assert(filter_session(self.stored(), session_id@)[i] == matching@[i]@);
                assert(self.stored().contains(matching@[i]@));
                let w = choose|w: int|
                    0 <= w < self.stored().len() && self.stored()[w] == matching@[i]@;
                assert(valid_embedded(self.stored()[w]));
            }
        }
        let picked = mmr_rerank(&query_embedding, matching, limit, 1000);
        proof {
            let picks = mmr_spec(query_embedding@, fviews, limit as int, 1000);
            crate::similarity::lemma_mmr_picks_props(
                query_embedding@,
                fviews,
                1000,
                if limit as int <= fviews.len() {
                    limit as int
                } else {
                    fviews.len() as int
                },
                Seq::<int>::empty(),
            );
            crate::similarity::lemma_mmr_pure_relevance_order(
                query_embedding@,
                fviews,
                limit as int,
            );
        }
        Ok(picked)
    }

    fn flush(&mut self) -> (r: Result<(), AgentError>)
        ensures
            r is Ok,
    {
        Ok(())
    }
}

/// The cached records may not exceed the window: when they do, the oldest
/// are dropped first.
pub open spec fn trim_window(s: Seq<RecordView>, w: int) -> Seq<RecordView> {
    if s.len() <= w {
        s
    } else {
        s.skip(s.len() - w)
    }
}

/// The cache contents of a session after storing `recs`, one at a time, into
/// an empty cache with window `w`: each store appends and then trims.
pub open spec fn fold_store(w: int, recs: Seq<RecordView>) -> Seq<RecordView>
    decreases recs.len(),
{
    if recs.len() == 0 {
        Seq::empty()
    } else {
        trim_window(fold_store(w, recs.drop_last()).push(recs.last()), w)
    }
}

/// After storing `N` records with window size `w`, the short-term cache
/// holds exactly `min(N, w)` records, and they are the `w` most recently
/// stored, in chronological order.
pub proof fn lemma_short_term_window(w: int, recs: Seq<RecordView>)
    requires
        w >= 0,
    ensures
        fold_store(w, recs).len() == min(recs.len() as int, w),
        fold_store(w, recs) == recs.skip(max(recs.len() - w, 0)),
    decreases recs.len(),
{
    if recs.len() == 0 {
        assert(fold_store(w, recs) =~= recs.skip(max(recs.len() - w, 0)));
    } else {
        let dl = recs.drop_last();
        lemma_short_term_window(w, dl);
        let prev = fold_store(w, dl);
        let pushed = prev.push(recs.last());
        if prev.len() < w {
            assert(fold_store(w, recs) =~= recs.skip(max(recs.len() - w, 0)));
        } else {
            assert(pushed.len() == w + 1);
            assert(fold_store(w, recs) == pushed.skip(1));
            assert(pushed.skip(1) =~= recs.skip(max(recs.len() - w, 0)));
        }
    }
}

/// The position of the entry for session `sid`, or `-1` when the session is
/// unseen.
pub open spec fn key_index(entries: Seq<(String, Vec<MemoryRecord>)>, sid: Seq<char>) -> int
    decreases entries.len(),
{
    if entries.len() == 0 {
        -1
    } else if entries[0].0@ == sid {
        0
    } else {
        let r = key_index(entries.skip(1), sid);
        if r == -1 {
            -1
        } else {
            r + 1
        }
    }
}

/// `key_index` returns the first entry whose key is `sid`, or `-1` when no
/// entry matches.
pub proof fn lemma_key_index(entries: Seq<(String, Vec<MemoryRecord>)>, sid: Seq<char>)
    ensures
        ({
            let k = key_index(entries, sid);
            (k == -1 ==> forall|j: int|
                0 <= j < entries.len() ==> (#[trigger] entries[j]).0@ != sid) && (k != -1 ==> 0 <= k
                < entries.len() && entries[k].0@ == sid && forall|j: int|
                0 <= j < k ==> (#[trigger] entries[j]).0@ != sid)
        }),
    decreases entries.len(),
{
    if entries.len() > 0 && entries[0].0@ != sid {
        lemma_key_index(entries.skip(1), sid);
        let k = key_index(entries, sid);
        let kr = key_index(entries.skip(1), sid);
        if kr == -1 {
            assert forall|j: int| 0 <= j < entries.len() implies (#[trigger] entries[j]).0@
                != sid by {
                if j > 0 {
                    assert(entries[j] == entries.skip(1)[j - 1]);
                }
            }
        } else {
            assert(entries[kr + 1] == entries.skip(1)[kr]);
            assert forall|j: int| 0 <= j < k implies (#[trigger] entries[j]).0@ != sid by {
                if j > 0 {
                    assert(entries[j] == entries.skip(1)[j - 1]);
                }
            }
        }
    }
}

/// Two entry sequences with the same keys have the same `key_index` for
/// every session.
pub proof fn lemma_key_index_same_keys(
    e1: Seq<(String, Vec<MemoryRecord>)>,
    e2: Seq<(String, Vec<MemoryRecord>)>,
    sid: Seq<char>,
)
    requires
        e1.len() == e2.len(),
        forall|i: int| 0 <= i < e1.len() ==> (#[trigger] e1[i]).0@ == (#[trigger] e2[i]).0@,
    ensures
        key_index(e1, sid) == key_index(e2, sid),
    decreases e1.len(),
{
    if e1.len() > 0 {
        assert(e1[0].0@ == e2[0].0@);
        assert forall|i: int|
            0 <= i < e1.skip(1).len() implies (#[trigger] e1.skip(1)[i]).0@ == (#[trigger] e2.skip(
            1,
        )[i]).0@ by {
            assert(e1.skip(1)[i] == e1[i + 1]);
            assert(e2.skip(1)[i] == e2[i + 1]);
        }
        lemma_key_index_same_keys(e1.skip(1), e2.skip(1), sid);
    }
}

/// The records cached for session `sid` in `entries`: the matching entry's
/// records, or nothing when the session is unseen.
pub open spec fn session_cache_of(
    entries: Seq<(String, Vec<MemoryRecord>)>,
    sid: Seq<char>,
) -> Seq<RecordView> {
    let k = key_index(entries, sid);
    if k >= 0 {
        records_view(entries[k].1@)
    } else {
        Seq::empty()
    }
}

/// Session memory: a bounded short-term cache per session, with durability
/// delegated to a memory store.
pub struct SessionMemory<S: MemoryStore> {
    store: S,
    short_term: Vec<(String, Vec<MemoryRecord>)>,
    context_window: usize,
}

impl<S: MemoryStore> SessionMemory<S> {
    /// The session keys are distinct, and every record the long-term store
    /// holds has a usable embedding, if it has one.
    pub closed spec fn wf(&self) -> bool {
        (forall|i: int, j: int|
            0 <= i < j < self.short_term@.len() ==> (#[trigger] self.short_term@[i]).0@ != (
            #[trigger] self.short_term@[j]).0@) && (forall|t: int|
            0 <= t < self.store.stored().len() ==> valid_embedded(#[trigger] self.store.stored()[t]))
    }

    /// The configured per-session window size.
    pub closed spec fn window(&self) -> int {
        self.context_window as int
    }

    /// The records the long-term store holds.
    pub closed spec fn long_term(&self) -> Seq<RecordView> {
        self.store.stored()
    }

    /// The short-term cache contents of a session.
    pub closed spec fn cache_of(&self, sid: Seq<char>) -> Seq<RecordView> {
        session_cache_of(self.short_term@, sid)
    }

    /// Creates a new session memory with the given store and window size.
    pub fn new(store: S, context_window: usize) -> (m: Self)
        requires
            forall|t: int| 0 <= t < store.stored().len() ==> valid_embedded(#[trigger] store.stored()[t]),
        ensures
            m.wf(),
            m.window() == context_window,
            m.long_term() == store.stored(),
            forall|sid: Seq<char>| m.cache_of(sid) == Seq::<RecordView>::empty(),
    {
        let m = SessionMemory { store, short_term: Vec::new(), context_window };
        proof {
            assert forall|sid: Seq<char>| m.cache_of(sid) == Seq::<RecordView>::empty() by {
                assert(key_index(m.short_term@, sid) == -1);
            }
        }
        m
    }

    /// The position of the session's cache entry, if the session was seen.
    fn find_entry(&self, session_id: &str) -> (r: Option<usize>)
        ensures
            match r {
                Some(i) => i < self.short_term@.len() && key_index(self.short_term@, session_id@)
                    == i as int,
                None => key_index(self.short_term@, session_id@) == -1,
            },
    {
        let n = self.short_term.len();
        let mut i: usize = 0;
        while i < n
            invariant
                n == self.short_term@.len(),
                i <= n,
                forall|j: int| 0 <= j < i ==> (#[trigger] self.short_term@[j]).0@ != session_id@,
            decreases n - i,
        {
            if str_eq(self.short_term[i].0.as_str(), session_id) {
                proof {
                    lemma_key_index(self.short_term@, session_id@);
                    let k = key_index(self.short_term@, session_id@);
                    if k == -1 {
                        assert(self.short_term@[i as int].0@ != session_id@);
                    } else {
                        if k < i as int {
                            assert(self.short_term@[k].0@ != session_id@);
                        }
                        if k > i as int {
                            assert(self.short_term@[i as int].0@ != session_id@);
                        }
                    }
                }
                return Some(i);
            }
            i = i + 1;
        }
        proof {
            lemma_key_index(self.short_term@, session_id@);
            let k = key_index(self.short_term@, session_id@);
            if k != -1 {
                assert(self.short_term@[k].0@ != session_id@);
            }
        }
        None
    }

    /// Stores a memory record: appends it to the session's cache, trims the
    /// cache to the window, then persists the record in the long-term store.
    /// The cache keeps the record even when the durable write fails; the
    /// failure is surfaced to the caller.
    pub fn store(&mut self, record: MemoryRecord) -> (r: Result<(), AgentError>)
        requires
            old(self).wf(),
            valid_embedded(record@),
        ensures
            final(self).wf(),
            final(self).window() == old(self).window(),
            final(self).cache_of(record@.session_id) == trim_window(
                old(self).cache_of(record@.session_id).push(record@),
                old(self).window(),
            ),
            forall|sid: Seq<char>|
                sid != record@.session_id ==> final(self).cache_of(sid) == old(self).cache_of(sid),
            r is Ok ==> final(self).long_term() == old(self).long_term().push(record@),
            r is Err ==> final(self).long_term() == old(self).long_term(),
    {
        let ghost entries0 = self.short_term@;
        let ghost rsid = record@.session_id;
        let window = self.context_window;
        match self.find_entry(record.session_id.as_str()) {
            Some(i) => {
                proof {
                    lemma_key_index(entries0, rsid);
                }
                let (key, mut recs) = self.short_term.remove(i);
                let ghost pushed = records_view(recs@).push(record@);
                let ghost before_push = recs@;
                recs.push(clone_record(&record));
                proof {
                    assert(records_view(recs@) =~= records_view(before_push).push(record@));
                }
                trim_to_window(&mut recs, window);
                self.short_term.insert(i, (key, recs));
                proof {
                    let entries1 = self.short_term@;
                    assert(entries1.len() == entries0.len());
                    assert forall|t: int|
                        0 <= t < entries1.len() implies (#[trigger] entries1[t]).0@ == (
                    #[trigger] entries0[t]).0@ by {
                        if t < i as int {
                            assert(entries1[t] == entries0[t]);
                        } else if t > i as int {
                            assert(entries1[t] == entries0[t]);
                        }
                    }
                    assert forall|sid: Seq<char>| true implies #[trigger] session_cache_of(
                        entries1,
                        sid,
                    ) == (if sid == rsid {
                        trim_window(session_cache_of(entries0, rsid).push(record@), window as int)
                    } else {
                        session_cache_of(entries0, sid)
                    }) by {
                        lemma_key_index_same_keys(entries0, entries1, sid);
                        lemma_key_index(entries0, sid);
                        let k = key_index(entries0, sid);
                        if sid == rsid {
                            assert(k == i as int);
                            assert(entries1[k].1 == recs);
                        } else {
                            if k >= 0 {
                                assert(entries0[k].0@ == sid);
                                assert(k != i as int);
                                assert(entries1[k] == entries0[k]);
                            }
                        }
                    }
                }
            },
            None => {
                proof {
                    lemma_key_index(entries0, rsid);
                }
                let key = record.session_id.clone();
                let mut recs: Vec<MemoryRecord> = Vec::new();
                let ghost before_push = recs@;
                recs.push(clone_record(&record));
                proof {
                    assert(records_view(recs@) =~= records_view(before_push).push(record@));
                    assert(records_view(before_push) =~= Seq::<RecordView>::empty());
                }
                trim_to_window(&mut recs, window);
                self.short_term.push((key, recs));
                proof {
                    let entries1 = self.short_term@;
                    assert forall|sid: Seq<char>| true implies #[trigger] session_cache_of(
                        entries1,
                        sid,
                    ) == (if sid == rsid {
                        trim_window(session_cache_of(entries0, rsid).push(record@), window as int)
                    } else {
                        session_cache_of(entries0, sid)
                    }) by {
                        lemma_key_index(entries0, sid);
                        lemma_key_index(entries1, sid);
                        lemma_key_index_push(entries0, (self.short_term@[entries0.len() as int]),
                            sid);
                        if sid == rsid {
                            assert(key_index(entries1, sid) == entries0.len());
                        }
                    }
                    assert forall|i2: int, j2: int|
                        0 <= i2 < j2 < entries1.len() implies (#[trigger] entries1[i2]).0@ != (
                    #[trigger] entries1[j2]).0@ by {
                        if j2 == entries1.len() - 1 {
                            assert(entries1[i2] == entries0[i2]);
                            assert(entries1[j2].0@ == rsid);
                        } else {
                            assert(entries1[i2] == entries0[i2]);
                            assert(entries1[j2] == entries0[j2]);
                        }
                    }
                }
            },
        }
        self.store.store(record)
    }

    /// Returns the cached records of a session, oldest first; an unseen
    /// session yields no records. No input/output is performed.
    pub fn retrieve_recent(&self, session_id: &str) -> (r: Result<Vec<MemoryRecord>, AgentError>)
        ensures
            r is Ok,
            records_view(r->Ok_0@) == self.cache_of(session_id@),
    {
        match self.find_entry(session_id) {
            Some(i) => {
                let entry_records = &self.short_term[i].1;
                let n = entry_records.len();
                let mut out: Vec<MemoryRecord> = Vec::new();
                let mut t: usize = 0;
                while t < n
                    invariant
                        n == entry_records@.len(),
                        t <= n,
                        out@.len() == t,
                        forall|j: int| 0 <= j < t ==> (#[trigger] out@[j])@ == entry_records@[j]@,
                    decreases n - t,
                {
                    out.push(clone_record(&entry_records[t]));
                    t = t + 1;
                }
                proof {
                    assert(records_view(out@) =~= records_view(entry_records@));
                }
                Ok(out)
            },
            None => {
                let out: Vec<MemoryRecord> = Vec::new();
                proof {
                    assert(records_view(out@) =~= Seq::<RecordView>::empty());
                }
                Ok(out)
            },
        }
    }

    /// Searches for relevant memories: delegates directly to the store,
    /// bypassing the cache.
    pub fn search(&self, session_id: &str, query_embedding: Vec<i64>, limit: usize) -> (r: Result<
        Vec<MemoryRecord>,
        AgentError,
    >)
        requires
            self.wf(),
            valid_embedding(query_embedding@),
        ensures
            r is Ok ==> search_post(
                self.long_term(),
                session_id@,
                query_embedding@,
                limit as int,
                records_view(r->Ok_0@),
            ),
    {
        self.store.search(session_id, query_embedding, limit)
    }

    /// Flushes all pending writes through to the store.
    pub fn flush(&mut self) -> (r: Result<(), AgentError>)
        requires
            old(self).wf(),
        ensures
            final(self).wf(),
            final(self).window() == old(self).window(),
            final(self).long_term() == old(self).long_term(),
            forall|sid: Seq<char>| final(self).cache_of(sid) == old(self).cache_of(sid),
    {
        self.store.flush()
    }
}

/// Pushing an entry extends the key space: an existing session keeps its
/// position, and the new entry answers for its own key.
pub proof fn lemma_key_index_push(
    entries: Seq<(String, Vec<MemoryRecord>)>,
    p: (String, Vec<MemoryRecord>),
    sid: Seq<char>,
)
    ensures
        key_index(entries.push(p), sid) == (if key_index(entries, sid) >= 0 {
            key_index(entries, sid)
        } else if p.0@ == sid {
            entries.len() as int
        } else {
            -1
        }),
    decreases entries.len(),
{
    if entries.len() == 0 {
        assert(entries.push(p)[0] == p);
        assert(entries.push(p).skip(1) =~= Seq::<(String, Vec<MemoryRecord>)>::empty());
        assert(key_index(Seq::<(String, Vec<MemoryRecord>)>::empty(), sid) == -1);
        if p.0@ == sid {
            assert(key_index(entries.push(p), sid) == 0);
        } else {
            assert(key_index(entries.push(p), sid) == -1);
        }
    } else {
        assert(entries.push(p)[0] == entries[0]);
        assert(entries.push(p).skip(1) =~= entries.skip(1).push(p));
        lemma_key_index_push(entries.skip(1), p, sid);
        if entries[0].0@ == sid {
            assert(key_index(entries, sid) == 0);
            assert(key_index(entries.push(p), sid) == 0);
        }
        if entries[0].0@ != sid {
            lemma_key_index(entries.skip(1), sid);
            let r0 = key_index(entries.skip(1), sid);
            let r = key_index(entries.push(p).skip(1), sid);
            assert(r == key_index(entries.skip(1).push(p), sid));
            if r0 >= 0 {
                assert(r == r0);
                assert(key_index(entries.push(p), sid) == r0 + 1);
                assert(key_index(entries, sid) == r0 + 1);
            } else if p.0@ == sid {
                assert(r == entries.skip(1).len());
                assert(key_index(entries.push(p), sid) == entries.len());
                assert(key_index(entries, sid) == -1);
            } else {
                assert(r == -1);
                assert(key_index(entries.push(p), sid) == -1);
                assert(key_index(entries, sid) == -1);
            }
        }
    }
}

/// Drops the oldest cached records until at most `window` remain.
fn trim_to_window(recs: &mut Vec<MemoryRecord>, window: usize)
    ensures
        records_view(final(recs)@) == trim_window(records_view(old(recs)@), window as int),
{
    while recs.len() > window
        invariant
            trim_window(records_view(recs@), window as int) == trim_window(
                records_view(old(recs)@),
                window as int,
            ),
        decreases recs@.len(),
    {
        let ghost before = recs@;
        recs.remove(0);
        proof {
            assert(records_view(recs@) =~= records_view(before).skip(1));
            assert(trim_window(records_view(before).skip(1), window as int) =~= trim_window(
                records_view(before),
                window as int,
            ));
        }
    }
}

} // verus!
