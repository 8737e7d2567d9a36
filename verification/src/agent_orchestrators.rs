//! Shortcut routing for the generation path, and helpers for wiring a model
//! backend into an automatic code/tool router.
//!
//! The generation pipeline is an ordered fallback chain: a configured
//! router may resolve an input directly; the primary model backend answers
//! whatever the router declines.

use vstd::prelude::*;

use crate::error::AgentError;
use crate::models::LLM;
use crate::text::{
    chars_to_string, find_char_at, find_spec, rfind_sub, rfind_sub_spec, slice_chars,
    starts_with_chars, starts_with_spec, to_chars, trim_chars, trim_spec,
};
use crate::types::{Message, Role};

verus! {

/// A resolver that may answer an input directly, short-circuiting the
/// primary model. Implementations are supplied by users of the library.
pub trait Router: Sized {
    /// Whether this router can ever yield an answer. Implementations that
    /// are not verified may leave the default.
    open spec fn may_resolve(&self) -> bool {
        true
    }

    /// Attempts to resolve the input directly. `Ok(None)` means "no answer
    /// here, fall through to the primary model".
    fn resolve(&self, input: &str) -> (r: Result<Option<String>, AgentError>)
        ensures
            !self.may_resolve() ==> r is Ok && r->Ok_0 is None,
    ;
}

/// The end of the fallback chain: a router that never yields an answer, so
/// the primary model always runs.
pub struct NoRouter;

impl Router for NoRouter {
    open spec fn may_resolve(&self) -> bool {
        false
    }

    fn resolve(&self, _input: &str) -> (r: Result<Option<String>, AgentError>) {
        Ok(None)
    }
}

/// The three backticks that open and close a Markdown code fence.
pub open spec fn fence_seq() -> Seq<char> {
    seq!['`', '`', '`']
}

/// `s` with every leading occurrence of the fence removed.
pub open spec fn strip_ticks_spec(s: Seq<char>) -> Seq<char>
    decreases s.len(),
{
    if starts_with_spec(s, fence_seq()) {
        strip_ticks_spec(s.skip(3))
    } else {
        s
    }
}

/// The text of `s` with a surrounding Markdown code fence removed: the
/// opening fence and its language line go, so does everything from the
/// closing fence on, and the remainder is trimmed.
pub open spec fn strip_fence_spec(s: Seq<char>) -> Seq<char> {
    let t = trim_spec(s);
    if !starts_with_spec(t, fence_seq()) {
        t
    } else {
        let u = strip_ticks_spec(t);
        let v = match find_spec(u, '\n') {
            Some(p) => u.skip(p + 1),
            None => u,
        };
        let w = match rfind_sub_spec(v, fence_seq()) {
            Some(e) => v.take(e),
            None => v,
        };
        trim_spec(w)
    }
}

/// Strips a surrounding Markdown code fence from model output.
pub fn strip_code_fence(s: &str) -> (r: String)
    ensures
        r@ == strip_fence_spec(s@),
{
    let ticks: Vec<char> = vec!['`', '`', '`'];
    proof {
        assert(ticks@ =~= fence_seq());
    }
    let t = trim_chars(&to_chars(s));
    if !starts_with_chars(&t, &ticks) {
        return chars_to_string(&t);
    }
    let n = t.len();
    let mut i: usize = 0;
    proof {
        assert(t@.skip(0) =~= t@);
    }
    while crate::text::sub_matches_at(&t, &ticks, i)
        invariant
            n == t@.len(),
            i <= n,
            ticks@ == fence_seq(),
            strip_ticks_spec(t@) == strip_ticks_spec(t@.skip(i as int)),
        decreases n - i,
    {
        proof {
            assert(t@.skip(i as int).skip(3) =~= t@.skip(i + 3 as int));
        }
        i = i + 3;
    }
    proof {
        assert(!starts_with_spec(t@.skip(i as int), fence_seq()));
        assert(strip_ticks_spec(t@.skip(i as int)) == t@.skip(i as int));
    }
    let u = slice_chars(&t, i, n);
    assert(u@ =~= t@.skip(i as int));
    let v = match find_char_at(&u, '\n') {
        Some(p) => {
            proof {
                crate::text::lemma_find_spec(u@, '\n');
            }
            let un = u.len();
            let piece = slice_chars(&u, p + 1, un);
            proof {
                assert(piece@ =~= u@.skip(p + 1));
            }
            piece
        },
        None => u,
    };
    let w = match rfind_sub(&v, &ticks) {
        Some(e) => {
            proof {
                crate::text::lemma_rfind_sub_bound(v@, fence_seq(), v@.len() - 3 + 1);
            }
            let piece = slice_chars(&v, 0, e);
            proof {
                assert(piece@ =~= v@.take(e as int));
            }
            piece
        },
        None => v,
    };
    chars_to_string(&trim_chars(&w))
}

/// A bridge that lets an automatic code/tool router reuse a library model
/// backend: it completes one user prompt and strips any code fence from the
/// answer.
pub struct CodemodeLlmAdapter<M: LLM> {
    llm: M,
}

impl<M: LLM> CodemodeLlmAdapter<M> {
    /// Wraps a model backend for use by a router.
    pub fn new(llm: M) -> Self {
        CodemodeLlmAdapter { llm }
    }

    /// Asks the model to complete a single user prompt and returns the
    /// fence-stripped text of its answer.
    pub fn complete(&mut self, prompt: &str) -> (r: Result<String, AgentError>)
        ensures
            r is Ok ==> exists|answer: Seq<char>| r->Ok_0@ == strip_fence_spec(answer),
    {
        let message = Message {
            role: Role::User,
            content: String::from_str(prompt),
            metadata: None,
        };
        let mut messages: Vec<Message> = Vec::new();
        messages.push(message);
        match self.llm.generate(messages, None) {
            Ok(result) => {
                let cleaned = strip_code_fence(result.content.as_str());
                proof {
                    assert(cleaned@ == strip_fence_spec(result.content@));
                }
                Ok(cleaned)
            },
            Err(e) => Err(e),
        }
    }
}

} // verus!
