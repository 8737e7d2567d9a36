//! In-memory registries for tools and sub-agents.
//!
//! Both registries key their entries by case-insensitively folded, trimmed
//! names, reject duplicate names, and preserve registration order.

use vstd::prelude::*;

use crate::error::AgentError;
use crate::text::{chars_to_string, lower_chars, lower_seq, str_eq, to_chars, trim_chars, trim_spec};
use crate::tools::Tool;
use crate::types::{SubAgent, SubAgentDirectory, ToolSpec, ToolSpecView};

verus! {

/// The registry key of a capability name: lower-cased, then trimmed.
pub open spec fn normalize_name(s: Seq<char>) -> Seq<char> {
    trim_spec(lower_seq(s))
}

/// Folds a capability name to its registry key.
pub fn normalize(name: &str) -> (r: String)
    ensures
        r@ == normalize_name(name@),
{
    chars_to_string(&trim_chars(&lower_chars(&to_chars(name))))
}

/// The position of the first entry keyed `key`, or `-1` when none is.
pub open spec fn seq_key_index<V>(s: Seq<(Seq<char>, V)>, key: Seq<char>) -> int
    decreases s.len(),
{
    if s.len() == 0 {
        -1
    } else if s[0].0 == key {
        0
    } else {
        let r = seq_key_index(s.skip(1), key);
        if r == -1 {
            -1
        } else {
            r + 1
        }
    }
}

/// Some entry is keyed `key`.
pub open spec fn seq_has_key<V>(s: Seq<(Seq<char>, V)>, key: Seq<char>) -> bool {
    seq_key_index(s, key) >= 0
}

/// `seq_key_index` returns the first entry keyed `key`, or `-1` when no
/// entry matches.
pub proof fn lemma_seq_key_index<V>(s: Seq<(Seq<char>, V)>, key: Seq<char>)
    ensures
        ({
            let k = seq_key_index(s, key);
            (k == -1 ==> forall|j: int| 0 <= j < s.len() ==> (#[trigger] s[j]).0 != key) && (k != -1
                ==> 0 <= k < s.len() && s[k].0 == key && forall|j: int|
                0 <= j < k ==> (#[trigger] s[j]).0 != key)
        }),
    decreases s.len(),
{
    if s.len() > 0 && s[0].0 != key {
        lemma_seq_key_index(s.skip(1), key);
        let k = seq_key_index(s, key);
        let kr = seq_key_index(s.skip(1), key);
        if kr == -1 {
            assert forall|j: int| 0 <= j < s.len() implies (#[trigger] s[j]).0 != key by {
                if j > 0 {
                    assert(s[j] == s.skip(1)[j - 1]);
                }
            }
        } else {
            assert(s[kr + 1] == s.skip(1)[kr]);
            assert forall|j: int| 0 <= j < k implies (#[trigger] s[j]).0 != key by {
                if j > 0 {
                    assert(s[j] == s.skip(1)[j - 1]);
                }
            }
        }
    }
}

/// Pushing an entry keeps every present key at its position; the new entry
/// answers for its own key when it was absent.
pub proof fn lemma_seq_key_index_push<V>(s: Seq<(Seq<char>, V)>, p: (Seq<char>, V), key: Seq<char>)
    ensures
        seq_key_index(s.push(p), key) == (if seq_key_index(s, key) >= 0 {
            seq_key_index(s, key)
        } else if p.0 == key {
            s.len() as int
        } else {
            -1
        }),
    decreases s.len(),
{
    if s.len() == 0 {
        assert(s.push(p)[0] == p);
        assert(s.push(p).skip(1) =~= Seq::<(Seq<char>, V)>::empty());
        assert(seq_key_index(Seq::<(Seq<char>, V)>::empty(), key) == -1);
        if p.0 == key {
            assert(seq_key_index(s.push(p), key) == 0);
        } else {
            assert(seq_key_index(s.push(p), key) == -1);
        }
    } else {
        assert(s.push(p)[0] == s[0]);
        assert(s.push(p).skip(1) =~= s.skip(1).push(p));
        lemma_seq_key_index_push(s.skip(1), p, key);
        if s[0].0 == key {
            assert(seq_key_index(s, key) == 0);
            assert(seq_key_index(s.push(p), key) == 0);
        } else {
            lemma_seq_key_index(s.skip(1), key);
            let r0 = seq_key_index(s.skip(1), key);
            let r = seq_key_index(s.push(p).skip(1), key);
            assert(r == seq_key_index(s.skip(1).push(p), key));
            if r0 >= 0 {
                assert(seq_key_index(s.push(p), key) == r0 + 1);
                assert(seq_key_index(s, key) == r0 + 1);
            } else if p.0 == key {
                assert(r == s.skip(1).len());
                assert(seq_key_index(s.push(p), key) == s.len());
                assert(seq_key_index(s, key) == -1);
            } else {
                assert(r == -1);
                assert(seq_key_index(s.push(p), key) == -1);
                assert(seq_key_index(s, key) == -1);
            }
        }
    }
}

/// The default in-memory tool registry: tools and their specifications, in
/// registration order, under normalized names.
pub struct StaticToolCatalog<T: Tool> {
    entries: Vec<(String, T, ToolSpec)>,
}

impl<T: Tool> StaticToolCatalog<T> {
    /// The catalog contents: normalized key and specification of each
    /// registered tool, in registration order.
    pub closed spec fn catalog(&self) -> Seq<(Seq<char>, ToolSpecView)> {
        self.entries@.map_values(|e: (String, T, ToolSpec)| (e.0@, e.2@))
    }

    /// Keys are distinct, non-empty, and each is the normalized name of the
    /// entry's specification.
    pub closed spec fn wf(&self) -> bool {
        (forall|i: int, j: int|
            0 <= i < j < self.entries@.len() ==> (#[trigger] self.entries@[i]).0@ != (
            #[trigger] self.entries@[j]).0@) && (forall|i: int|
            0 <= i < self.entries@.len() ==> (#[trigger] self.entries@[i]).0@ == normalize_name(
                self.entries@[i].2@.name,
            ) && self.entries@[i].0@.len() > 0)
    }

    /// Creates a new empty catalog.
    pub fn new() -> (c: Self)
        ensures
            c.wf(),
            c.catalog() == Seq::<(Seq<char>, ToolSpecView)>::empty(),
    {
        let c = StaticToolCatalog { entries: Vec::new() };
        proof {
            assert(c.catalog() =~= Seq::<(Seq<char>, ToolSpecView)>::empty());
        }
        c
    }

    /// The position of the entry for `key`, if present.
    fn find_key(&self, key: &str) -> (r: Option<usize>)
        ensures
            match r {
                Some(i) => i < self.catalog().len() && seq_key_index(self.catalog(), key@)
                    == i as int,
                None => seq_key_index(self.catalog(), key@) == -1,
            },
    {
        let n = self.entries.len();
        let mut i: usize = 0;
        while i < n
            invariant
                n == self.entries@.len(),
                i <= n,
                forall|j: int| 0 <= j < i ==> (#[trigger] self.entries@[j]).0@ != key@,
            decreases n - i,
        {
            if str_eq(self.entries[i].0.as_str(), key) {
                proof {
                    lemma_seq_key_index(self.catalog(), key@);
                    let k = seq_key_index(self.catalog(), key@);
                    assert(self.catalog()[i as int].0 == key@);
                    if k == -1 {
                        assert(self.catalog()[i as int].0 != key@);
                    } else {
                        if k < i as int {
                            assert(self.entries@[k].0@ != key@);
                            assert(self.catalog()[k].0 == self.entries@[k].0@);
                        }
                        if k > i as int {
                            assert(self.catalog()[i as int].0 != key@);
                        }
                    }
                }
                return Some(i);
            }
            i = i + 1;
        }
        proof {
            lemma_seq_key_index(self.catalog(), key@);
            let k = seq_key_index(self.catalog(), key@);
            if k != -1 {
                assert(self.entries@[k].0@ != key@);
                assert(self.catalog()[k].0 == self.entries@[k].0@);
            }
        }
        None
    }

    /// Registers a tool under the normalized form of its declared name.
    /// Registration fails when the normalized name is empty or already
    /// taken; nothing is overwritten.
    pub fn register(&mut self, tool: T) -> (r: Result<(), AgentError>)
        requires
            old(self).wf(),
        ensures
            final(self).wf(),
            ({
                let key = normalize_name(tool.spec_of().name);
                if key.len() == 0 || seq_has_key(old(self).catalog(), key) {
                    r is Err && final(self).catalog() == old(self).catalog()
                } else {
                    r is Ok && final(self).catalog() == old(self).catalog().push(
                        (key, tool.spec_of()),
                    )
                }
            }),
    {
        let spec = tool.spec();
        let key = normalize(spec.name.as_str());
        if key.unicode_len() == 0 {
            return Err(AgentError::ToolError(String::from_str("tool name is empty")));
        }
        match self.find_key(key.as_str()) {
            Some(_) => Err(AgentError::ToolError(String::from_str("tool already registered"))),
            None => {
                let ghost before = self.catalog();
                let ghost pair = (key@, tool.spec_of());
                self.entries.push((key, tool, spec));
                proof {
                    assert(self.catalog() =~= before.push(pair));
                    let entries1 = self.entries@;
                    assert forall|i: int, j: int|
                        0 <= i < j < entries1.len() implies (#[trigger] entries1[i]).0@ != (
                    #[trigger] entries1[j]).0@ by {
                        lemma_seq_key_index(before, pair.0);
                        if j == entries1.len() - 1 {
                            assert(before[i].0 == entries1[i].0@);
                        }
                    }
                }
                Ok(())
            },
        }
    }

    /// Looks up a tool's specification by name, case-insensitively and
    /// ignoring surrounding whitespace.
    pub fn lookup(&self, name: &str) -> (r: Option<ToolSpec>)
        requires
            self.wf(),
        ensures
            match r {
                Some(spec) => seq_has_key(self.catalog(), normalize_name(name@)) && spec@
                    == self.catalog()[seq_key_index(self.catalog(), normalize_name(name@))].1,
                None => !seq_has_key(self.catalog(), normalize_name(name@)),
            },
    {
        let key = normalize(name);
        match self.find_key(key.as_str()) {
            Some(i) => Some(self.entries[i].2.clone_spec()),
            None => None,
        }
    }

    /// Returns all tool specifications, in registration order.
    pub fn specs(&self) -> (r: Vec<ToolSpec>)
        ensures
            r@.len() == self.catalog().len(),
            forall|i: int| 0 <= i < r@.len() ==> (#[trigger] r@[i])@ == self.catalog()[i].1,
    {
        let n = self.entries.len();
        let mut out: Vec<ToolSpec> = Vec::new();
        let mut i: usize = 0;
        while i < n
            invariant
                n == self.entries@.len(),
                i <= n,
                out@.len() == i,
                forall|j: int| 0 <= j < i ==> (#[trigger] out@[j])@ == self.catalog()[j].1,
            decreases n - i,
        {
            out.push(self.entries[i].2.clone_spec());
            i = i + 1;
        }
        out
    }

    /// Returns references to all registered tools, in registration order.
    pub fn tools<'a>(&'a self) -> (r: Vec<&'a T>)
        ensures
            r@.len() == self.catalog().len(),
    {
        let n = self.entries.len();
        let mut out: Vec<&T> = Vec::new();
        let mut i: usize = 0;
        while i < n
            invariant
                n == self.entries@.len(),
                i <= n,
                out@.len() == i,
            decreases n - i,
        {
            out.push(&self.entries[i].1);
            i = i + 1;
        }
        out
    }
}

impl<T: Tool> Default for StaticToolCatalog<T> {
    /// An empty catalog.
    fn default() -> (c: Self)
        ensures
            c.wf(),
            c.catalog() == Seq::<(Seq<char>, ToolSpecView)>::empty(),
    {
        StaticToolCatalog::new()
    }
}

/// The default in-memory sub-agent directory: sub-agents in registration
/// order under normalized names.
pub struct StaticSubAgentDirectory<A: SubAgent> {
    entries: Vec<(String, A)>,
}

impl<A: SubAgent> StaticSubAgentDirectory<A> {
    /// Creates a new empty directory.
    pub fn new() -> (d: Self)
        ensures
            d.inv(),
            d.directory() == Seq::<(Seq<char>, A)>::empty(),
    {
        let d = StaticSubAgentDirectory { entries: Vec::new() };
        proof {
            assert(d.directory() =~= Seq::<(Seq<char>, A)>::empty());
        }
        d
    }

    /// The position of the entry for `key`, if present.
    fn find_key(&self, key: &str) -> (r: Option<usize>)
        ensures
            match r {
                Some(i) => i < self.directory().len() && seq_key_index(self.directory(), key@)
                    == i as int,
                None => seq_key_index(self.directory(), key@) == -1,
            },
    {
        let n = self.entries.len();
        let mut i: usize = 0;
        while i < n
            invariant
                n == self.entries@.len(),
                i <= n,
                forall|j: int| 0 <= j < i ==> (#[trigger] self.entries@[j]).0@ != key@,
            decreases n - i,
        {
            if str_eq(self.entries[i].0.as_str(), key) {
                proof {
                    lemma_seq_key_index(self.directory(), key@);
                    let k = seq_key_index(self.directory(), key@);
                    assert(self.directory()[i as int].0 == key@);
                    if k == -1 {
                        assert(self.directory()[i as int].0 != key@);
                    } else {
                        if k < i as int {
                            assert(self.entries@[k].0@ != key@);
                            assert(self.directory()[k].0 == self.entries@[k].0@);
                        }
                        if k > i as int {
                            assert(self.directory()[i as int].0 != key@);
                        }
                    }
                }
                return Some(i);
            }
            i = i + 1;
        }
        proof {
            lemma_seq_key_index(self.directory(), key@);
            let k = seq_key_index(self.directory(), key@);
            if k != -1 {
                assert(self.entries@[k].0@ != key@);
                assert(self.directory()[k].0 == self.entries@[k].0@);
            }
        }
        None
    }
}

impl<A: SubAgent> Default for StaticSubAgentDirectory<A> {
    /// An empty directory.
    fn default() -> (d: Self)
        ensures
            d.inv(),
            d.directory() == Seq::<(Seq<char>, A)>::empty(),
    {
        StaticSubAgentDirectory::new()
    }
}

impl<A: SubAgent> crate::types::SubAgentDirectory<A> for StaticSubAgentDirectory<A> {
    closed spec fn directory(&self) -> Seq<(Seq<char>, A)> {
        self.entries@.map_values(|e: (String, A)| (e.0@, e.1))
    }

    closed spec fn inv(&self) -> bool {
        forall|i: int, j: int|
            0 <= i < j < self.entries@.len() ==> (#[trigger] self.entries@[i]).0@ != (
            #[trigger] self.entries@[j]).0@
    }

    fn register(&mut self, subagent: A) -> (r: Result<(), AgentError>) {
        let name = subagent.name();
        let key = normalize(name.as_str());
        if key.unicode_len() == 0 {
            return Err(AgentError::Other(String::from_str("sub-agent name is empty")));
        }
        match self.find_key(key.as_str()) {
            Some(_) => Err(AgentError::Other(String::from_str("sub-agent already registered"))),
            None => {
                let ghost before = self.directory();
                let ghost pair = (key@, subagent);
                self.entries.push((key, subagent));
                proof {
                    assert(self.directory() =~= before.push(pair));
                    let entries1 = self.entries@;
                    assert forall|i: int, j: int|
                        0 <= i < j < entries1.len() implies (#[trigger] entries1[i]).0@ != (
                    #[trigger] entries1[j]).0@ by {
                        lemma_seq_key_index(before, pair.0);
                        if j == entries1.len() - 1 {
                            assert(before[i].0 == entries1[i].0@);
                        }
                    }
                }
                Ok(())
            },
        }
    }

    fn lookup<'a>(&'a self, name: &str) -> (r: Option<&'a A>) {
        let key = normalize(name);
        match self.find_key(key.as_str()) {
            Some(i) => Some(&self.entries[i].1),
            None => None,
        }
    }

    fn all<'a>(&'a self) -> (r: Vec<&'a A>) {
        let n = self.entries.len();
        let mut out: Vec<&A> = Vec::new();
        let mut i: usize = 0;
        while i < n
            invariant
                n == self.entries@.len(),
                i <= n,
                out@.len() == i,
                forall|j: int| 0 <= j < i ==> *(#[trigger] out@[j]) == self.directory()[j].1,
            decreases n - i,
        {
            out.push(&self.entries[i].1);
            i = i + 1;
        }
        out
    }
}

} // verus!
