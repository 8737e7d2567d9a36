//! Shared value types: messages, tool descriptions, agent options and the
//! checkpointable agent state.

use vstd::prelude::*;

use crate::error::AgentError;
use crate::record::{opt_pairs_view, MemoryRecord, RecordView};

verus! {

/// Message role in a conversation.
#[derive(Debug, Clone, Copy, PartialEq, Eq, Structural)]
pub enum Role {
    System,
    User,
    Assistant,
    Tool,
}

/// The mathematical model of a message.
pub ghost struct MessageView {
    pub role: Role,
    pub content: Seq<char>,
    pub metadata: Option<Seq<(Seq<char>, Seq<char>)>>,
}

/// Message in a conversation.
#[derive(Debug, Clone)]
pub struct Message {
    pub role: Role,
    pub content: String,
    pub metadata: Option<Vec<(String, String)>>,
}

impl View for Message {
    type V = MessageView;

    open spec fn view(&self) -> MessageView {
        MessageView {
            role: self.role,
            content: self.content@,
            metadata: opt_pairs_view(self.metadata),
        }
    }
}

/// File attachment: a media type and raw bytes.
#[derive(Debug, Clone)]
pub struct File {
    pub mime_type: String,
    pub data: Vec<u8>,
}

/// The mathematical model of a generation response.
pub ghost struct GenerationResponseView {
    pub content: Seq<char>,
    pub metadata: Option<Seq<(Seq<char>, Seq<char>)>>,
}

/// Generation response from a model.
#[derive(Debug, Clone)]
pub struct GenerationResponse {
    pub content: String,
    pub metadata: Option<Vec<(String, String)>>,
}

impl View for GenerationResponse {
    type V = GenerationResponseView;

    open spec fn view(&self) -> GenerationResponseView {
        GenerationResponseView {
            content: self.content@,
            metadata: opt_pairs_view(self.metadata),
        }
    }
}

/// Configuration options for creating an agent.
#[derive(Debug, Clone)]
pub struct AgentOptions {
    pub system_prompt: Option<String>,
    pub context_limit: Option<usize>,
}

impl Default for AgentOptions {
    /// No system prompt override, and a token-budget ceiling of 8192.
    fn default() -> (r: Self)
        ensures
            r.system_prompt is None,
            r.context_limit == Some(8192usize),
    {
        AgentOptions { system_prompt: None, context_limit: Some(8192) }
    }
}

/// The mathematical model of a tool specification.
pub ghost struct ToolSpecView {
    pub name: Seq<char>,
    pub description: Seq<char>,
    pub input_schema: Seq<char>,
    pub examples: Option<Seq<Seq<char>>>,
}

/// Tool specification describing how an agent presents a tool to the model.
/// The input shape and examples are structured text the catalog itself never
/// interprets.
#[derive(Debug, Clone)]
pub struct ToolSpec {
    pub name: String,
    pub description: String,
    pub input_schema: String,
    pub examples: Option<Vec<String>>,
}

impl View for ToolSpec {
    type V = ToolSpecView;

    open spec fn view(&self) -> ToolSpecView {
        ToolSpecView {
            name: self.name@,
            description: self.description@,
            input_schema: self.input_schema@,
            examples: match self.examples {
                Some(ex) => Some(ex@.map_values(|e: String| e@)),
                None => None,
            },
        }
    }
}

/// Copies a vector of strings with known semantics.
pub fn copy_strings(v: &Vec<String>) -> (r: Vec<String>)
    ensures
        r@.map_values(|s: String| s@) == v@.map_values(|s: String| s@),
{
    let mut out: Vec<String> = Vec::new();
    let n = v.len();
    let mut i: usize = 0;
    while i < n
        invariant
            n == v@.len(),
            i <= n,
            out@.len() == i,
            forall|j: int| 0 <= j < i ==> (#[trigger] out@[j])@ == v@[j]@,
        decreases n - i,
    {
        out.push(v[i].clone());
        i = i + 1;
    }
    proof {
        assert(out@.map_values(|s: String| s@) =~= v@.map_values(|s: String| s@));
    }
    out
}

impl ToolSpec {
    /// Copies the specification; the copy has the same model.
    pub fn clone_spec(&self) -> (c: ToolSpec)
        ensures
            c@ == self@,
    {
        let examples = match &self.examples {
            Some(ex) => Some(copy_strings(ex)),
            None => None,
        };
        let c = ToolSpec {
            name: self.name.clone(),
            description: self.description.clone(),
            input_schema: self.input_schema.clone(),
            examples,
        };
        c
    }
}

/// The mathematical model of a tool request.
pub ghost struct ToolRequestView {
    pub session_id: Seq<char>,
    pub arguments: Seq<(Seq<char>, Seq<char>)>,
}

/// Tool request: an invocation request carrying the session and named
/// textual arguments.
#[derive(Debug, Clone)]
pub struct ToolRequest {
    pub session_id: String,
    pub arguments: Vec<(String, String)>,
}

impl View for ToolRequest {
    type V = ToolRequestView;

    open spec fn view(&self) -> ToolRequestView {
        ToolRequestView {
            session_id: self.session_id@,
            arguments: crate::record::pairs_view(self.arguments@),
        }
    }
}

/// The mathematical model of a tool response.
pub ghost struct ToolResponseView {
    pub content: Seq<char>,
    pub metadata: Option<Seq<(Seq<char>, Seq<char>)>>,
}

/// Tool response: the structured response from a tool.
#[derive(Debug, Clone)]
pub struct ToolResponse {
    pub content: String,
    pub metadata: Option<Vec<(String, String)>>,
}

impl View for ToolResponse {
    type V = ToolResponseView;

    open spec fn view(&self) -> ToolResponseView {
        ToolResponseView {
            content: self.content@,
            metadata: opt_pairs_view(self.metadata),
        }
    }
}

/// A specialist agent that can be delegated work. Implementations are
/// supplied by users of the library.
pub trait SubAgent: Sized {
    /// The name the sub-agent is registered under. Implementations that
    /// are not verified may leave the default, which specifies nothing.
    open spec fn name_of(&self) -> Seq<char> {
        vstd::pervasive::arbitrary()
    }

    /// Returns the name of the sub-agent.
    fn name(&self) -> (r: String)
        ensures
            r@ == self.name_of(),
    ;

    /// Returns the description of what the sub-agent does.
    fn description(&self) -> String;

    /// Runs the sub-agent on the given input and returns the result.
    fn run(&mut self, input: String) -> Result<String, AgentError>;
}

/// A directory of sub-agents by name, preserving insertion order.
pub trait SubAgentDirectory<A: SubAgent>: Sized {
    /// The registered sub-agents under their normalized names, in
    /// registration order. Implementations that are not verified may leave
    /// the default, which specifies nothing.
    open spec fn directory(&self) -> Seq<(Seq<char>, A)> {
        vstd::pervasive::arbitrary()
    }

    /// The directory's internal invariant. Implementations that are not
    /// verified may leave the default.
    open spec fn inv(&self) -> bool {
        vstd::pervasive::arbitrary()
    }

    /// Registers a sub-agent under the normalized (lower-cased, trimmed)
    /// form of its name; fails when the normalized name is empty or already
    /// taken. Nothing is overwritten.
    fn register(&mut self, subagent: A) -> (r: Result<(), AgentError>)
        requires
            old(self).inv(),
        ensures
            final(self).inv(),
            ({
                let key = crate::catalog::normalize_name(subagent.name_of());
                if key.len() == 0 || crate::catalog::seq_has_key(old(self).directory(), key) {
                    r is Err && final(self).directory() == old(self).directory()
                } else {
                    r is Ok && final(self).directory() == old(self).directory().push(
                        (key, subagent),
                    )
                }
            }),
    ;

    /// Looks up a sub-agent by name, case-insensitively and ignoring
    /// surrounding whitespace.
    fn lookup<'a>(&'a self, name: &str) -> (r: Option<&'a A>)
        requires
            self.inv(),
        ensures
            match r {
                Some(a) => crate::catalog::seq_has_key(
                    self.directory(),
                    crate::catalog::normalize_name(name@),
                ) && *a == self.directory()[crate::catalog::seq_key_index(
                    self.directory(),
                    crate::catalog::normalize_name(name@),
                )].1,
                None => !crate::catalog::seq_has_key(
                    self.directory(),
                    crate::catalog::normalize_name(name@),
                ),
            },
    ;

    /// Returns all registered sub-agents, in registration order.
    fn all<'a>(&'a self) -> (r: Vec<&'a A>)
        requires
            self.inv(),
        ensures
            r@.len() == self.directory().len(),
            forall|i: int| 0 <= i < r@.len() ==> *(#[trigger] r@[i]) == self.directory()[i].1,
    ;
}

/// The serializable state of an agent for checkpointing: the system prompt,
/// one session's short-term cache, optional joined-space identifiers, and a
/// capture timestamp in milliseconds since the Unix epoch.
#[derive(Debug, Clone)]
pub struct AgentState {
    pub system_prompt: String,
    pub short_term: Vec<MemoryRecord>,
    pub joined_spaces: Option<Vec<String>>,
    pub timestamp: i64,
}

/// The mathematical model of an agent checkpoint.
pub ghost struct AgentStateView {
    pub system_prompt: Seq<char>,
    pub short_term: Seq<RecordView>,
    pub joined_spaces: Option<Seq<Seq<char>>>,
    pub timestamp: i64,
}

impl View for AgentState {
    type V = AgentStateView;

    open spec fn view(&self) -> AgentStateView {
        AgentStateView {
            system_prompt: self.system_prompt@,
            short_term: crate::record::records_view(self.short_term@),
            joined_spaces: match self.joined_spaces {
                Some(js) => Some(js@.map_values(|s: String| s@)),
                None => None,
            },
            timestamp: self.timestamp,
        }
    }
}

} // verus!
