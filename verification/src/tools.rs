//! The tool contract and the catalog the orchestrator dispatches through.

use vstd::prelude::*;

use crate::catalog::{
    lemma_seq_key_index, normalize, normalize_name, seq_has_key, seq_key_index,
};
use crate::error::AgentError;
use crate::text::str_eq;
use crate::types::{ToolRequest, ToolResponse, ToolSpec, ToolSpecView};

verus! {

/// A named, invocable capability. Implementations are supplied by users of
/// the library.
pub trait Tool: Sized {
    /// The specification the tool declares. Implementations that are not
    /// verified may leave the default, which specifies nothing.
    open spec fn spec_of(&self) -> ToolSpecView {
        vstd::pervasive::arbitrary()
    }

    /// Returns the tool specification.
    fn spec(&self) -> (s: ToolSpec)
        ensures
            s@ == self.spec_of(),
    ;

    /// Invokes the tool with the given request.
    fn invoke(&mut self, req: ToolRequest) -> Result<ToolResponse, AgentError>;
}

/// Tool catalog managing registered tools: normalized, case-insensitive
/// names, no overwriting, registration order preserved.
pub struct ToolCatalog<T: Tool> {
    entries: Vec<(String, T, ToolSpec)>,
}

impl<T: Tool> ToolCatalog<T> {
    /// The catalog contents: normalized key and specification of each
    /// registered tool, in registration order.
    pub closed spec fn catalog(&self) -> Seq<(Seq<char>, ToolSpecView)> {
        self.entries@.map_values(|e: (String, T, ToolSpec)| (e.0@, e.2@))
    }

    /// Keys are distinct, non-empty, and each is the normalized name of the
    /// entry's specification.
    pub closed spec fn wf(&self) -> bool {
        (forall|i: int, j: int|
            0 <= i < j < self.entries@.len() ==> (#[trigger] self.entries@[i]).0@ != (
            #[trigger] self.entries@[j]).0@) && (forall|i: int|
            0 <= i < self.entries@.len() ==> (#[trigger] self.entries@[i]).0@ == normalize_name(
                self.entries@[i].2@.name,
            ) && self.entries@[i].0@.len() > 0)
    }

    /// Creates a new empty tool catalog.
    pub fn new() -> (c: Self)
        ensures
            c.wf(),
            c.catalog() == Seq::<(Seq<char>, ToolSpecView)>::empty(),
    {
        let c = ToolCatalog { entries: Vec::new() };
        proof {
            assert(c.catalog() =~= Seq::<(Seq<char>, ToolSpecView)>::empty());
        }
        c
    }

    /// The position of the entry for `key`, if present.
    fn find_key(&self, key: &str) -> (r: Option<usize>)
        ensures
            match r {
                Some(i) => i < self.catalog().len() && seq_key_index(self.catalog(), key@)
                    == i as int,
                None => seq_key_index(self.catalog(), key@) == -1,
            },
    {
        let n = self.entries.len();
        let mut i: usize = 0;
        while i < n
            invariant
                n == self.entries@.len(),
                i <= n,
                forall|j: int| 0 <= j < i ==> (#[trigger] self.entries@[j]).0@ != key@,
            decreases n - i,
        {
            if str_eq(self.entries[i].0.as_str(), key) {
                proof {
                    lemma_seq_key_index(self.catalog(), key@);
                    let k = seq_key_index(self.catalog(), key@);
                    assert(self.catalog()[i as int].0 == key@);
                    if k == -1 {
                        assert(self.catalog()[i as int].0 != key@);
                    } else {
                        if k < i as int {
                            assert(self.entries@[k].0@ != key@);
                            assert(self.catalog()[k].0 == self.entries@[k].0@);
                        }
                        if k > i as int {
                            assert(self.catalog()[i as int].0 != key@);
                        }
                    }
                }
                return Some(i);
            }
            i = i + 1;
        }
        proof {
            lemma_seq_key_index(self.catalog(), key@);
            let k = seq_key_index(self.catalog(), key@);
            if k != -1 {
                assert(self.entries@[k].0@ != key@);
                assert(self.catalog()[k].0 == self.entries@[k].0@);
            }
        }
        None
    }

    /// Registers a tool under the normalized form of its declared name.
    /// Registration fails when the normalized name is empty or already
    /// taken; nothing is overwritten.
    pub fn register(&mut self, tool: T) -> (r: Result<(), AgentError>)
        requires
            old(self).wf(),
        ensures
            final(self).wf(),
            ({
                let key = normalize_name(tool.spec_of().name);
                if key.len() == 0 || seq_has_key(old(self).catalog(), key) {
                    r is Err && final(self).catalog() == old(self).catalog()
                } else {
                    r is Ok && final(self).catalog() == old(self).catalog().push(
                        (key, tool.spec_of()),
                    )
                }
            }),
    {
        let spec = tool.spec();
        let key = normalize(spec.name.as_str());
        if key.unicode_len() == 0 {
            return Err(AgentError::ToolError(String::from_str("tool name is empty")));
        }
        match self.find_key(key.as_str()) {
            Some(_) => Err(AgentError::ToolError(String::from_str("tool already registered"))),
            None => {
                let ghost before = self.catalog();
                let ghost pair = (key@, tool.spec_of());
                self.entries.push((key, tool, spec));
                proof {
                    assert(self.catalog() =~= before.push(pair));
                    let entries1 = self.entries@;
                    assert forall|i: int, j: int|
                        0 <= i < j < entries1.len() implies (#[trigger] entries1[i]).0@ != (
                    #[trigger] entries1[j]).0@ by {
                        lemma_seq_key_index(before, pair.0);
                        if j == entries1.len() - 1 {
                            assert(before[i].0 == entries1[i].0@);
                        }
                    }
                }
                Ok(())
            },
        }
    }

    /// Looks up a tool's specification by name, case-insensitively and
    /// ignoring surrounding whitespace.
    pub fn lookup(&self, name: &str) -> (r: Option<ToolSpec>)
        requires
            self.wf(),
        ensures
            match r {
                Some(spec) => seq_has_key(self.catalog(), normalize_name(name@)) && spec@
                    == self.catalog()[seq_key_index(self.catalog(), normalize_name(name@))].1,
                None => !seq_has_key(self.catalog(), normalize_name(name@)),
            },
    {
        let key = normalize(name);
        match self.find_key(key.as_str()) {
            Some(i) => Some(self.entries[i].2.clone_spec()),
            None => None,
        }
    }

    /// Returns all tool specifications, in registration order.
    pub fn specs(&self) -> (r: Vec<ToolSpec>)
        ensures
            r@.len() == self.catalog().len(),
            forall|i: int| 0 <= i < r@.len() ==> (#[trigger] r@[i])@ == self.catalog()[i].1,
    {
        let n = self.entries.len();
        let mut out: Vec<ToolSpec> = Vec::new();
        let mut i: usize = 0;
        while i < n
            invariant
                n == self.entries@.len(),
                i <= n,
                out@.len() == i,
                forall|j: int| 0 <= j < i ==> (#[trigger] out@[j])@ == self.catalog()[j].1,
            decreases n - i,
        {
            out.push(self.entries[i].2.clone_spec());
            i = i + 1;
        }
        out
    }

    /// Invokes a tool by name. An unknown name is a distinct "tool not
    /// found" failure and no tool runs; otherwise the named tool's own
    /// result, success or failure, is returned. The registered set of tools
    /// is unchanged either way.
    pub fn invoke(&mut self, name: &str, req: ToolRequest) -> (r: Result<ToolResponse, AgentError>)
        requires
            old(self).wf(),
        ensures
            final(self).wf(),
            final(self).catalog() == old(self).catalog(),
            !seq_has_key(old(self).catalog(), normalize_name(name@)) <==> (r is Err
                && r->Err_0 is ToolNotFound),
            r is Err && r->Err_0 is ToolNotFound ==> r->Err_0->ToolNotFound_0@ == name@,
    {
        let key = normalize(name);
        match self.find_key(key.as_str()) {
            Some(i) => {
                let ghost entries0 = self.entries@;
                let (k, mut tool, spec) = self.entries.remove(i);
                let result = match tool.invoke(req) {
                    Ok(resp) => Ok(resp),
                    Err(e) => Err(wrap_tool_failure(e)),
                };
                self.entries.insert(i, (k, tool, spec));
                proof {
                    let entries1 = self.entries@;
                    assert(entries1.len() == entries0.len());
                    assert forall|t: int|
                        0 <= t < entries1.len() implies (#[trigger] entries1[t]).0@ == (
                    #[trigger] entries0[t]).0@ && entries1[t].2@ == entries0[t].2@ by {
                        if t < i as int {
                            assert(entries1[t] == entries0[t]);
                        } else if t > i as int {
                            assert(entries1[t] == entries0[t]);
                        }
                    }
                    assert(self.catalog() =~= old(self).catalog());
                }
                result
            },
            None => Err(AgentError::ToolNotFound(String::from_str(name))),
        }
    }
}

impl<T: Tool> Default for ToolCatalog<T> {
    /// An empty catalog.
    fn default() -> (c: Self)
        ensures
            c.wf(),
            c.catalog() == Seq::<(Seq<char>, ToolSpecView)>::empty(),
    {
        ToolCatalog::new()
    }
}

/// The capability type of an agent configured without tools: it declares an
/// empty name, which no catalog accepts, and never runs.
pub struct NoCapability;

impl Tool for NoCapability {
    open spec fn spec_of(&self) -> ToolSpecView {
        ToolSpecView {
            name: Seq::empty(),
            description: Seq::empty(),
            input_schema: Seq::empty(),
            examples: None,
        }
    }

    fn spec(&self) -> (s: ToolSpec) {
        let s = ToolSpec {
            name: String::new(),
            description: String::new(),
            input_schema: String::new(),
            examples: None,
        };
        proof {
            assert(s@.name =~= self.spec_of().name);
            assert(s@.description =~= self.spec_of().description);
            assert(s@.input_schema =~= self.spec_of().input_schema);
        }
        s
    }

    fn invoke(&mut self, _req: ToolRequest) -> Result<ToolResponse, AgentError> {
        Err(AgentError::ToolError(String::from_str("no capability is configured")))
    }
}

/// Keeps a tool's own failure as-is, except that a tool reporting "tool not
/// found" is rewrapped as a tool failure, so that "tool not found" always
/// means the catalog itself had no such tool.
fn wrap_tool_failure(e: AgentError) -> (r: AgentError)
    ensures
        !(r is ToolNotFound),
{
    match e {
        AgentError::ToolNotFound(m) => AgentError::ToolError(m),
        other => other,
    }
}

} // verus!
