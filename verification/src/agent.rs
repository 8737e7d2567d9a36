//! The generation orchestrator: it composes system prompt, recent memory
//! and new input into a bounded prompt, optionally tries a shortcut router,
//! calls the model backend, records the exchange, and supports
//! checkpoint/restore of session state.

use vstd::prelude::*;

use crate::agent_orchestrators::Router;
use crate::checkpoint::{decode_state, enc_state, encode_state, parse_checkpoint};
use crate::error::AgentError;
use crate::memory::{trim_window, valid_embedded, MemoryStore, SessionMemory};
use crate::models::LLM;
use crate::record::{opt_pairs_view, records_view, MemoryRecord, RecordView};
use crate::text::str_eq;
use crate::tools::{Tool, ToolCatalog};
use crate::types::{
    AgentOptions, AgentState, AgentStateView, File, GenerationResponse, Message, MessageView,
    Role, ToolRequest, ToolSpecView,
};

verus! {

/// Relies on `uuid::Uuid::new_v4`: a freshly generated random (version 4)
/// identifier, returned as its 128 bits. Nothing is promised of the value.
#[verifier::external_body]
fn fresh_record_id() -> u128 {
    uuid::Uuid::new_v4().as_u128()
}

/// Relies on `chrono::Utc::now`: the current wall-clock time, in
/// milliseconds since the Unix epoch. Nothing is promised of the value.
#[verifier::external_body]
fn now_timestamp_millis() -> i64 {
    chrono::Utc::now().timestamp_millis()
}

/// Estimated token cost of a piece of content: four characters per token.
pub open spec fn spec_token_cost(content: Seq<char>) -> int {
    content.len() as int / 4
}

/// Estimates the token cost of a message's content.
pub fn token_cost(content: &str) -> (cost: usize)
    ensures
        cost == spec_token_cost(content@),
{
    content.unicode_len() / 4
}

/// The total estimated token cost of the records from `i` on.
pub open spec fn suffix_cost(records: Seq<RecordView>, i: int) -> int
    decreases records.len() - i,
{
    if i < 0 || i >= records.len() {
        0
    } else {
        spec_token_cost(records[i].content) + suffix_cost(records, i + 1)
    }
}

/// The oldest records cost the most to keep: dropping them can only lower
/// the total.
pub proof fn lemma_suffix_cost_monotone(records: Seq<RecordView>, i: int, j: int)
    requires
        0 <= i <= j,
    ensures
        suffix_cost(records, i) >= suffix_cost(records, j),
    decreases j - i,
{
    if i < j {
        lemma_suffix_cost_monotone(records, i + 1, j);
        if 0 <= i < records.len() {
            assert(spec_token_cost(records[i].content) >= 0);
        } else {
            assert(suffix_cost(records, i) == 0);
            assert(suffix_cost(records, j) >= 0) by {
                lemma_suffix_cost_nonneg(records, j);
            }
        }
    }
}

/// A suffix cost is never negative.
pub proof fn lemma_suffix_cost_nonneg(records: Seq<RecordView>, i: int)
    ensures
        suffix_cost(records, i) >= 0,
    decreases records.len() - i,
{
    if 0 <= i < records.len() {
        lemma_suffix_cost_nonneg(records, i + 1);
    }
}

/// The first index from `i` on whose suffix fits the budget.
pub open spec fn cutoff_from(records: Seq<RecordView>, limit: int, i: int) -> int
    decreases records.len() - i,
{
    if i >= records.len() {
        records.len() as int
    } else if suffix_cost(records, i) <= limit {
        i
    } else {
        cutoff_from(records, limit, i + 1)
    }
}

/// The point at which older records stop fitting the token budget: the
/// records from the cutoff on are kept, everything older is left out.
pub open spec fn prompt_cutoff(records: Seq<RecordView>, limit: int) -> int {
    cutoff_from(records, limit, 0)
}

/// Any index whose suffix fits, and whose predecessor's suffix does not, is
/// the cutoff.
pub proof fn lemma_cutoff_unique(records: Seq<RecordView>, limit: int, c: int)
    requires
        0 <= c <= records.len(),
        suffix_cost(records, c) <= limit,
        c > 0 ==> suffix_cost(records, c - 1) > limit,
    ensures
        c == prompt_cutoff(records, limit),
    decreases c,
{
    lemma_cutoff_unique_from(records, limit, c, 0);
}

/// Helper for `lemma_cutoff_unique`: the scan from `i` lands on `c`.
proof fn lemma_cutoff_unique_from(records: Seq<RecordView>, limit: int, c: int, i: int)
    requires
        0 <= i <= c <= records.len(),
        suffix_cost(records, c) <= limit,
        c > 0 ==> suffix_cost(records, c - 1) > limit,
    ensures
        cutoff_from(records, limit, i) == c,
    decreases c - i,
{
    if i < c {
        assert(suffix_cost(records, i) >= suffix_cost(records, c - 1)) by {
            lemma_suffix_cost_monotone(records, i, c - 1);
        }
        lemma_cutoff_unique_from(records, limit, c, i + 1);
    } else {
        if c < records.len() {
        } else {
            assert(cutoff_from(records, limit, c) == records.len() as int);
        }
    }
}

/// The conversational role a stored record is replayed under; unrecognized
/// roles default to `user`.
pub open spec fn role_of(role: Seq<char>) -> Role {
    if role == "user"@ {
        Role::User
    } else if role == "assistant"@ {
        Role::Assistant
    } else if role == "tool"@ {
        Role::Tool
    } else {
        Role::User
    }
}

/// The prompt message a cached record becomes.
pub open spec fn msg_of_record(r: RecordView) -> MessageView {
    MessageView { role: role_of(r.role), content: r.content, metadata: r.metadata }
}

/// The models of a sequence of messages.
pub open spec fn messages_view(v: Seq<Message>) -> Seq<MessageView> {
    v.map_values(|m: Message| m@)
}

/// The assembled prompt: the system message (omitted when the prompt text
/// is empty), then the cached records that fit the token budget, newest
/// ones preferred but kept in chronological order, then the new user input.
pub open spec fn prompt_messages(
    system_prompt: Seq<char>,
    records: Seq<RecordView>,
    user_input: Seq<char>,
    limit: int,
) -> Seq<MessageView> {
    let sys: Seq<MessageView> = if system_prompt.len() > 0 {
        seq![MessageView { role: Role::System, content: system_prompt, metadata: None }]
    } else {
        Seq::empty()
    };
    let c = prompt_cutoff(records, limit);
    let ctx = records.skip(c).map_values(|r: RecordView| msg_of_record(r));
    sys + ctx + seq![MessageView { role: Role::User, content: user_input, metadata: None }]
}

/// A record created by the orchestrator for one turn: its session, role,
/// content and metadata are fixed; the identifier and timestamp are
/// generated at creation, and there is no embedding. The importance is the
/// default (one half, in thousandths).
pub open spec fn turn_record(
    r: RecordView,
    sid: Seq<char>,
    role: Seq<char>,
    content: Seq<char>,
    metadata: Option<Seq<(Seq<char>, Seq<char>)>>,
) -> bool {
    r.session_id == sid && r.role == role && r.content == content && r.metadata == metadata
        && r.embedding is None && r.importance == 500
}

/// Converts a cached record into a prompt message.
fn message_of_record(r: &MemoryRecord) -> (m: Message)
    ensures
        m@ == msg_of_record(r@),
{
    let role = if str_eq(r.role.as_str(), "user") {
        Role::User
    } else if str_eq(r.role.as_str(), "assistant") {
        Role::Assistant
    } else if str_eq(r.role.as_str(), "tool") {
        Role::Tool
    } else {
        Role::User
    };
    let metadata = match &r.metadata {
        Some(m) => Some(crate::record::copy_pairs(m)),
        None => None,
    };
    Message { role, content: r.content.clone(), metadata }
}

/// The generation orchestrator.
///
/// It carries the model backend, the session memory, the system prompt, a
/// token-budget ceiling, a tool catalog, and an optional shortcut router
/// that is tried before the primary model.
pub struct Agent<M: LLM, S: MemoryStore, R: Router, T: Tool> {
    model: M,
    memory: SessionMemory<S>,
    system_prompt: String,
    context_limit: usize,
    tool_catalog: ToolCatalog<T>,
    router: Option<R>,
}

impl<M: LLM, S: MemoryStore, R: Router, T: Tool> Agent<M, S, R, T> {
    /// The agent's internal invariant: its memory and catalog are well
    /// formed.
    pub closed spec fn wf(&self) -> bool {
        self.memory.wf() && self.tool_catalog.wf()
    }

    /// The system prompt text.
    pub closed spec fn prompt(&self) -> Seq<char> {
        self.system_prompt@
    }

    /// The token-budget ceiling for assembled prompts.
    pub closed spec fn limit(&self) -> int {
        self.context_limit as int
    }

    /// The short-term cache contents of a session.
    pub closed spec fn cache_of(&self, sid: Seq<char>) -> Seq<RecordView> {
        self.memory.cache_of(sid)
    }

    /// The per-session window size of the short-term cache.
    pub closed spec fn window(&self) -> int {
        self.memory.window()
    }

    /// The records the long-term store holds.
    pub closed spec fn long_term(&self) -> Seq<RecordView> {
        self.memory.long_term()
    }

    /// The registered tools: normalized names and specifications, in
    /// registration order.
    pub closed spec fn catalog(&self) -> Seq<(Seq<char>, ToolSpecView)> {
        self.tool_catalog.catalog()
    }

    /// Whether a shortcut router is configured and may yield answers.
    pub closed spec fn routing(&self) -> bool {
        match self.router {
            Some(r) => r.may_resolve(),
            None => false,
        }
    }

    /// After a restore, every session's cache is the replay of the first
    /// `k` captured records into the caches of `from`.
    pub open spec fn replayed(self, from: Self, recs: Seq<RecordView>, k: int) -> bool {
        forall|sid: Seq<char>|
            #![auto]
            self.cache_of(sid) == replay_cache(from.cache_of(sid), recs.take(k), sid, from.window())
    }

    /// Everything but the given session's cache is unchanged: prompt,
    /// limit, window, catalog, and every other session's cache.
    pub open spec fn same_but_session(self, other: Self, sid: Seq<char>) -> bool {
        self.prompt() == other.prompt() && self.limit() == other.limit() && self.window()
            == other.window() && self.catalog() == other.catalog() && forall|s2: Seq<char>|
            s2 != sid ==> self.cache_of(s2) == other.cache_of(s2)
    }

    /// Sets the system prompt.
    pub fn with_system_prompt(self, prompt: &str) -> (r: Self)
        ensures
            r.prompt() == prompt@,
            r.limit() == self.limit(),
            r.window() == self.window(),
            r.catalog() == self.catalog(),
            r.routing() == self.routing(),
            r.long_term() == self.long_term(),
            r.wf() == self.wf(),
            forall|sid: Seq<char>| r.cache_of(sid) == self.cache_of(sid),
    {
        Agent { system_prompt: String::from_str(prompt), ..self }
    }

    /// Builds the prompt for one turn: the system message if the prompt
    /// text is non-empty, then the session's cached records that fit the
    /// token budget (newest preferred, chronological order kept), then the
    /// new user input.
    pub fn build_prompt(&self, session_id: &str, user_input: &str) -> (r: Result<
        Vec<Message>,
        AgentError,
    >)
        ensures
            r is Ok,
            messages_view(r->Ok_0@) == prompt_messages(
                self.prompt(),
                self.cache_of(session_id@),
                user_input@,
                self.limit(),
            ),
    {
        let records = match self.memory.retrieve_recent(session_id) {
            Ok(records) => records,
            Err(e) => {
                return Err(e);
            },
        };
        let ghost rviews = records_view(records@);
        let mut messages: Vec<Message> = Vec::new();
        if self.system_prompt.unicode_len() > 0 {
            messages.push(
                Message { role: Role::System, content: self.system_prompt.clone(), metadata: None },
            );
        }
        let ghost sys_part = messages_view(messages@);
        let n = records.len();
        let limit = self.context_limit;
        let mut c: usize = n;
        let mut total: usize = 0;
        proof {
            lemma_suffix_cost_nonneg(rviews, n as int);
        }
        while c > 0 && token_cost(records[c - 1].content.as_str()) <= limit - total
            invariant
                n == records@.len(),
                rviews == records_view(records@),
                c <= n,
                total == suffix_cost(rviews, c as int),
                total <= limit,
            decreases c,
        {
            let est = token_cost(records[c - 1].content.as_str());
            total = total + est;
            c = c - 1;
        }
        proof {
            if c > 0 {
                assert(suffix_cost(rviews, c - 1 as int) > limit as int);
            }
            lemma_cutoff_unique(rviews, limit as int, c as int);
        }
        let mut j: usize = c;
        proof {
            assert(rviews.subrange(c as int, c as int).map_values(
                |r: RecordView| msg_of_record(r),
            ) =~= Seq::<MessageView>::empty());
            assert(messages_view(messages@) =~= sys_part + rviews.subrange(
                c as int,
                c as int,
            ).map_values(|r: RecordView| msg_of_record(r)));
        }
        while j < n
            invariant
                n == records@.len(),
                rviews == records_view(records@),
                c <= j <= n,
                sys_part.len() <= 1,
                messages_view(messages@) == sys_part + rviews.subrange(
                    c as int,
                    j as int,
                ).map_values(|r: RecordView| msg_of_record(r)),
            decreases n - j,
        {
            let m = message_of_record(&records[j]);
            let ghost prev = messages@;
            proof {
                assert(rviews[j as int] == records@[j as int]@);
                assert(m@ == msg_of_record(rviews[j as int]));
            }
            messages.push(m);
            proof {
                assert(messages_view(messages@) =~= messages_view(prev).push(m@));
                assert(rviews.subrange(c as int, j + 1 as int).map_values(
                    |r: RecordView| msg_of_record(r),
                ) =~= rviews.subrange(c as int, j as int).map_values(
                    |r: RecordView| msg_of_record(r),
                ).push(msg_of_record(rviews[j as int])));
                assert(messages_view(messages@) =~= sys_part + rviews.subrange(
                    c as int,
                    j + 1 as int,
                ).map_values(|r: RecordView| msg_of_record(r)));
            }
            j = j + 1;
        }
        let user_msg = Message {
            role: Role::User,
            content: String::from_str(user_input),
            metadata: None,
        };
        let ghost prev = messages@;
        let ghost uview = user_msg@;
        messages.push(user_msg);
        proof {
            assert(messages_view(messages@) =~= messages_view(prev).push(uview));
            assert(rviews.subrange(c as int, n as int) =~= rviews.skip(c as int));
            let ctx = rviews.skip(c as int).map_values(|r: RecordView| msg_of_record(r));
            assert(messages_view(prev) == sys_part + ctx);
            assert(messages_view(messages@) =~= sys_part + ctx + seq![uview]);
            assert(messages_view(messages@) =~= prompt_messages(
                self.prompt(),
                self.cache_of(session_id@),
                user_input@,
                self.limit(),
            ));
        }
        Ok(messages)
    }

    /// Creates a record for one turn and stores it through the session
    /// memory: the cache gains it (within the window) even when the durable
    /// write fails.
    fn store_memory(
        &mut self,
        session_id: &str,
        role: &str,
        content: &str,
        metadata: Option<Vec<(String, String)>>,
    ) -> (r: Result<(), AgentError>)
        requires
            old(self).wf(),
        ensures
            final(self).wf(),
            final(self).routing() == old(self).routing(),
            final(self).same_but_session(*old(self), session_id@),
            exists|u: RecordView|
                #[trigger] turn_record(u, session_id@, role@, content@, opt_pairs_view(metadata))
                    && final(self).cache_of(session_id@) == trim_window(
                    old(self).cache_of(session_id@).push(u),
                    old(self).window(),
                ) && (r is Ok ==> final(self).long_term() == old(self).long_term().push(u)) && (
                r is Err ==> final(self).long_term() == old(self).long_term()),
    {
        let record = MemoryRecord {
            id: fresh_record_id(),
            session_id: String::from_str(session_id),
            role: String::from_str(role),
            content: String::from_str(content),
            importance: 500,
            timestamp: now_timestamp_millis(),
            metadata,
            embedding: None,
        };
        let ghost u = record@;
        let result = self.memory.store(record);
        proof {
            assert(turn_record(u, session_id@, role@, content@, opt_pairs_view(metadata))
                && self.cache_of(session_id@) == trim_window(
                old(self).cache_of(session_id@).push(u),
                old(self).window(),
            ) && (result is Ok ==> self.long_term() == old(self).long_term().push(u)) && (result
                is Err ==> self.long_term() == old(self).long_term()));
        }
        result
    }

    /// Generates a response for one user input, returning the full
    /// response. The user input is always stored as a `user` record first;
    /// if a configured router resolves the input, its answer is stored and
    /// returned without calling the model; otherwise the model is called on
    /// the assembled prompt and its answer is stored. A failure after the
    /// input was cached leaves the user's turn on record.
    pub fn generate_internal(
        &mut self,
        session_id: &str,
        user_input: &str,
        files: Option<Vec<File>>,
    ) -> (r: Result<GenerationResponse, AgentError>)
        requires
            old(self).wf(),
        ensures
            final(self).wf(),
            final(self).same_but_session(*old(self), session_id@),
            final(self).routing() == old(self).routing(),
            exists|u: RecordView|
                #[trigger] turn_record(u, session_id@, "user"@, user_input@, None) && (final(self).cache_of(session_id@) == trim_window(
                    old(self).cache_of(session_id@).push(u),
                    old(self).window(),
                ) || exists|a: RecordView|
                    #![auto]
                    a.session_id == session_id@ && a.role == "assistant"@ && a.embedding is None
                        && final(self).cache_of(session_id@) == trim_window(
                        trim_window(
                            old(self).cache_of(session_id@).push(u),
                            old(self).window(),
                        ).push(a),
                        old(self).window(),
                    )),
            r is Ok ==> exists|u: RecordView, a: RecordView|
                #![auto]
                turn_record(u, session_id@, "user"@, user_input@, None) && a.session_id
                    == session_id@ && a.role == "assistant"@ && a.content == r->Ok_0@.content
                    && a.embedding is None && (a.metadata is None || a.metadata == Some(
                    routed_metadata(),
                )) && final(self).cache_of(session_id@) == trim_window(
                    trim_window(old(self).cache_of(session_id@).push(u), old(self).window()).push(
                        a,
                    ),
                    old(self).window(),
                ),
    {
        let ghost pre = old(self).cache_of(session_id@);
        let ghost w = old(self).window();
        match self.store_memory(session_id, "user", user_input, None) {
            Ok(()) => {},
            Err(e) => {
                return Err(e);
            },
        }
        let ghost u = choose|u: RecordView|
            #[trigger] turn_record(u, session_id@, "user"@, user_input@, None) && self.cache_of(
                session_id@,
            ) == trim_window(pre.push(u), w);
        let ghost mid = *self;
        let has_files = match &files {
            Some(f) => f.len() > 0,
            None => false,
        };
        if !has_files {
            let routed = match &self.router {
                Some(rt) => rt.resolve(user_input),
                None => Ok(None),
            };
            match routed {
                Err(e) => {
                    return Err(e);
                },
                Ok(Some(content)) => {
                    let mut pairs: Vec<(String, String)> = Vec::new();
                    pairs.push(
                        (String::from_str("source"), String::from_str("codemode_orchestrator")),
                    );
                    let mut pairs2: Vec<(String, String)> = Vec::new();
                    pairs2.push(
                        (String::from_str("source"), String::from_str("codemode_orchestrator")),
                    );
                    let metadata_arg = Some(pairs);
                    proof {
                        assert(crate::record::pairs_view(metadata_arg->Some_0@)
                            =~= routed_metadata());
                        assert(opt_pairs_view(metadata_arg) == Some(routed_metadata()));
                    }
                    match self.store_memory(
                        session_id,
                        "assistant",
                        content.as_str(),
                        metadata_arg,
                    ) {
                        Ok(()) => {},
                        Err(e) => {
                            return Err(e);
                        },
                    }
                    return Ok(GenerationResponse { content, metadata: Some(pairs2) });
                },
                Ok(None) => {},
            }
        }
        let messages = match self.build_prompt(session_id, user_input) {
            Ok(m) => m,
            Err(e) => {
                return Err(e);
            },
        };
        let response = match self.model.generate(messages, files) {
            Ok(resp) => resp,
            Err(e) => {
                return Err(e);
            },
        };
        match self.store_memory(session_id, "assistant", response.content.as_str(), None) {
            Ok(()) => {},
            Err(e) => {
                return Err(e);
            },
        }
        Ok(response)
    }

    /// Generates a response for the given user input, returning its text.
    pub fn generate(&mut self, session_id: &str, user_input: &str) -> (r: Result<
        String,
        AgentError,
    >)
        requires
            old(self).wf(),
        ensures
            final(self).wf(),
            final(self).same_but_session(*old(self), session_id@),
            final(self).routing() == old(self).routing(),
            exists|u: RecordView|
                #[trigger] turn_record(u, session_id@, "user"@, user_input@, None) && (final(self).cache_of(session_id@) == trim_window(
                    old(self).cache_of(session_id@).push(u),
                    old(self).window(),
                ) || exists|a: RecordView|
                    #![auto]
                    a.session_id == session_id@ && a.role == "assistant"@ && a.embedding is None
                        && final(self).cache_of(session_id@) == trim_window(
                        trim_window(
                            old(self).cache_of(session_id@).push(u),
                            old(self).window(),
                        ).push(a),
                        old(self).window(),
                    )),
            r is Ok ==> exists|u: RecordView, a: RecordView|
                #![auto]
                turn_record(u, session_id@, "user"@, user_input@, None) && a.session_id
                    == session_id@ && a.role == "assistant"@ && a.content == r->Ok_0@
                    && a.embedding is None && (a.metadata is None || a.metadata == Some(
                    routed_metadata(),
                )) && final(self).cache_of(session_id@) == trim_window(
                    trim_window(old(self).cache_of(session_id@).push(u), old(self).window()).push(
                        a,
                    ),
                    old(self).window(),
                ),
    {
        match self.generate_internal(session_id, user_input, None) {
            Ok(resp) => Ok(resp.content),
            Err(e) => Err(e),
        }
    }

    /// Generates a response with file attachments, returning its text.
    pub fn generate_with_files(
        &mut self,
        session_id: &str,
        user_input: &str,
        files: Vec<File>,
    ) -> (r: Result<String, AgentError>)
        requires
            old(self).wf(),
        ensures
            final(self).wf(),
            final(self).same_but_session(*old(self), session_id@),
            final(self).routing() == old(self).routing(),
            exists|u: RecordView|
                #[trigger] turn_record(u, session_id@, "user"@, user_input@, None) && (final(self).cache_of(session_id@) == trim_window(
                    old(self).cache_of(session_id@).push(u),
                    old(self).window(),
                ) || exists|a: RecordView|
                    #![auto]
                    a.session_id == session_id@ && a.role == "assistant"@ && a.embedding is None
                        && final(self).cache_of(session_id@) == trim_window(
                        trim_window(
                            old(self).cache_of(session_id@).push(u),
                            old(self).window(),
                        ).push(a),
                        old(self).window(),
                    )),
            r is Ok ==> exists|u: RecordView, a: RecordView|
                #![auto]
                turn_record(u, session_id@, "user"@, user_input@, None) && a.session_id
                    == session_id@ && a.role == "assistant"@ && a.content == r->Ok_0@
                    && a.embedding is None && (a.metadata is None || a.metadata == Some(
                    routed_metadata(),
                )) && final(self).cache_of(session_id@) == trim_window(
                    trim_window(old(self).cache_of(session_id@).push(u), old(self).window()).push(
                        a,
                    ),
                    old(self).window(),
                ),
    {
        match self.generate_internal(session_id, user_input, Some(files)) {
            Ok(resp) => Ok(resp.content),
            Err(e) => Err(e),
        }
    }

    /// Flushes memory to the persistent store; the caches are untouched.
    pub fn flush(&mut self, _session_id: &str) -> (r: Result<(), AgentError>)
        requires
            old(self).wf(),
        ensures
            final(self).wf(),
            final(self).prompt() == old(self).prompt(),
            final(self).limit() == old(self).limit(),
            final(self).window() == old(self).window(),
            final(self).catalog() == old(self).catalog(),
            final(self).routing() == old(self).routing(),
            final(self).long_term() == old(self).long_term(),
            forall|sid: Seq<char>| final(self).cache_of(sid) == old(self).cache_of(sid),
    {
        self.memory.flush()
    }

    /// Returns the cached records of a session, oldest first; an unseen
    /// session yields no records.
    pub fn retrieve_recent(&self, session_id: &str) -> (r: Result<Vec<MemoryRecord>, AgentError>)
        ensures
            r is Ok,
            records_view(r->Ok_0@) == self.cache_of(session_id@),
    {
        self.memory.retrieve_recent(session_id)
    }

    /// Returns the tool catalog.
    pub fn tools(&self) -> (r: &ToolCatalog<T>)
        ensures
            r.catalog() == self.catalog(),
            self.wf() ==> r.wf(),
    {
        &self.tool_catalog
    }

    /// Replaces the tool catalog.
    pub fn with_tools<T2: Tool>(self, catalog: ToolCatalog<T2>) -> (r: Agent<M, S, R, T2>)
        requires
            self.wf(),
            catalog.wf(),
        ensures
            r.wf(),
            r.prompt() == self.prompt(),
            r.limit() == self.limit(),
            r.window() == self.window(),
            r.routing() == self.routing(),
            r.catalog() == catalog.catalog(),
            r.long_term() == self.long_term(),
            forall|sid: Seq<char>| r.cache_of(sid) == self.cache_of(sid),
    {
        Agent {
            model: self.model,
            memory: self.memory,
            system_prompt: self.system_prompt,
            context_limit: self.context_limit,
            tool_catalog: catalog,
            router: self.router,
        }
    }

    /// Installs a shortcut router that is tried before the primary model on
    /// every generation without file attachments.
    pub fn with_router<R2: Router>(self, router: R2) -> (r: Agent<M, S, R2, T>)
        requires
            self.wf(),
        ensures
            r.wf(),
            r.prompt() == self.prompt(),
            r.limit() == self.limit(),
            r.window() == self.window(),
            r.routing() == router.may_resolve(),
            r.catalog() == self.catalog(),
            r.long_term() == self.long_term(),
            forall|sid: Seq<char>| r.cache_of(sid) == self.cache_of(sid),
    {
        Agent {
            model: self.model,
            memory: self.memory,
            system_prompt: self.system_prompt,
            context_limit: self.context_limit,
            tool_catalog: self.tool_catalog,
            router: Some(router),
        }
    }

    /// Invokes a tool by name through the catalog, then records the call as
    /// a `tool` record carrying the tool's returned metadata. An unknown
    /// name is a distinct "tool not found" failure, and a failed lookup or
    /// execution stores nothing.
    pub fn invoke_tool(
        &mut self,
        session_id: &str,
        tool_name: &str,
        arguments: Vec<(String, String)>,
    ) -> (r: Result<String, AgentError>)
        requires
            old(self).wf(),
        ensures
            final(self).wf(),
            final(self).same_but_session(*old(self), session_id@),
            final(self).routing() == old(self).routing(),
            !crate::catalog::seq_has_key(
                old(self).catalog(),
                crate::catalog::normalize_name(tool_name@),
            ) ==> r is Err && r->Err_0 is ToolNotFound && final(self).cache_of(session_id@) == old(self).cache_of(session_id@),
            r is Ok ==> exists|u: RecordView|
                #![auto]
                u.session_id == session_id@ && u.role == "tool"@ && u.content == called_line(
                    tool_name@,
                    r->Ok_0@,
                ) && u.embedding is None && u.importance == 500 && final(self).cache_of(
                    session_id@,
                ) == trim_window(
                    old(self).cache_of(session_id@).push(u),
                    old(self).window(),
                ),
            r is Err ==> final(self).cache_of(session_id@) == old(self).cache_of(session_id@)
                || exists|u: RecordView|
                #![auto]
                u.session_id == session_id@ && u.role == "tool"@ && u.embedding is None && final(self).cache_of(session_id@) == trim_window(
                    old(self).cache_of(session_id@).push(u),
                    old(self).window(),
                ),
    {
        let request = ToolRequest { session_id: String::from_str(session_id), arguments };
        let response = match self.tool_catalog.invoke(tool_name, request) {
            Ok(resp) => resp,
            Err(e) => {
                return Err(e);
            },
        };
        let mut line = String::from_str("Called ");
        line.append(tool_name);
        line.append(": ");
        line.append(response.content.as_str());
        proof {
            assert(line@ =~= called_line(tool_name@, response.content@));
        }
        let ghost meta = opt_pairs_view(response.metadata);
        let ghost pre = *self;
        let stored = self.store_memory(session_id, "tool", line.as_str(), response.metadata);
        proof {
            let u = choose|u: RecordView|
                #[trigger] turn_record(u, session_id@, "tool"@, line@, meta) && self.cache_of(
                    session_id@,
                ) == trim_window(pre.cache_of(session_id@).push(u), pre.window());
            assert(u.session_id == session_id@ && u.role == "tool"@ && u.content == called_line(
                tool_name@,
                response.content@,
            ) && u.embedding is None && u.importance == 500 && self.cache_of(session_id@)
                == trim_window(
                old(self).cache_of(session_id@).push(u),
                old(self).window(),
            ));
        }
        match stored {
            Ok(()) => {},
            Err(e) => {
                return Err(e);
            },
        }
        Ok(response.content)
    }

    /// Captures the current short-term cache of a session, together with
    /// the system prompt and a capture timestamp, serialized to the
    /// portable checkpoint byte form.
    pub fn checkpoint(&self, session_id: &str) -> (r: Result<Vec<u8>, AgentError>)
        ensures
            r is Ok,
            exists|ts: i64|
                r->Ok_0@ == #[trigger] enc_state(
                    AgentStateView {
                        system_prompt: self.prompt(),
                        short_term: self.cache_of(session_id@),
                        joined_spaces: None,
                        timestamp: ts,
                    },
                ),
    {
        let recent = match self.memory.retrieve_recent(session_id) {
            Ok(records) => records,
            Err(e) => {
                return Err(e);
            },
        };
        let state = AgentState {
            system_prompt: self.system_prompt.clone(),
            short_term: recent,
            joined_spaces: None,
            timestamp: now_timestamp_millis(),
        };
        let bytes = encode_state(&state);
        proof {
            assert(state@.short_term == self.cache_of(session_id@));
            assert(state@ == AgentStateView {
                system_prompt: self.prompt(),
                short_term: self.cache_of(session_id@),
                joined_spaces: None,
                timestamp: state.timestamp,
            });
            assert(bytes@ == enc_state(
                AgentStateView {
                    system_prompt: self.prompt(),
                    short_term: self.cache_of(session_id@),
                    joined_spaces: None,
                    timestamp: state.timestamp,
                },
            ));
        }
        Ok(bytes)
    }

    /// Restores session state from checkpoint bytes: every captured record
    /// is replayed through the normal store path, so it reaches the durable
    /// store as well. Restore is additive: existing cached records are kept
    /// and the window bound applies, oldest evicted first. Bytes that do
    /// not decode to a checkpoint, or records whose embeddings the
    /// similarity arithmetic cannot handle, are rejected before anything is
    /// replayed.
    pub fn restore(&mut self, _session_id: &str, data: &Vec<u8>) -> (r: Result<(), AgentError>)
        requires
            old(self).wf(),
        ensures
            final(self).wf(),
            final(self).prompt() == old(self).prompt(),
            final(self).limit() == old(self).limit(),
            final(self).window() == old(self).window(),
            final(self).catalog() == old(self).catalog(),
            final(self).routing() == old(self).routing(),
            parse_checkpoint(data@) is None ==> r is Err && final(self).long_term() == old(self).long_term() && forall|sid: Seq<char>|
                final(self).cache_of(sid) == old(self).cache_of(sid),
            r is Ok ==> parse_checkpoint(data@) is Some && final(self).replayed(
                *old(self),
                parse_checkpoint(data@)->Some_0.short_term,
                parse_checkpoint(data@)->Some_0.short_term.len() as int,
            ) && final(self).long_term() == old(self).long_term() + parse_checkpoint(
                data@,
            )->Some_0.short_term,
            r is Err && parse_checkpoint(data@) is Some ==> exists|k: int|
                0 <= k <= parse_checkpoint(data@)->Some_0.short_term.len() && final(self).long_term() == old(self).long_term() + #[trigger] parse_checkpoint(
                    data@,
                )->Some_0.short_term.take(k) && (final(self).replayed(
                    *old(self),
                    parse_checkpoint(data@)->Some_0.short_term,
                    k,
                ) || (k < parse_checkpoint(data@)->Some_0.short_term.len() && final(self).replayed(
                    *old(self),
                    parse_checkpoint(data@)->Some_0.short_term,
                    k + 1,
                ))),
    {
        let state = match decode_state(data) {
            Some(s) => s,
            None => {
                return Err(
                    AgentError::SerializationError(
                        String::from_str("the bytes do not hold a checkpoint"),
                    ),
                );
            },
        };
        let ghost recs = state@.short_term;
        let records = state.short_term;
        let n = records.len();
        let mut i: usize = 0;
        while i < n
            invariant
                *self == *old(self),
                self.wf(),
                parse_checkpoint(data@) is Some,
                parse_checkpoint(data@)->Some_0.short_term == recs,
                n == records@.len(),
                recs == records_view(records@),
                forall|j: int| 0 <= j < i ==> valid_embedded(#[trigger] recs[j]),
            decreases n - i,
        {
            match &records[i].embedding {
                Some(e) => {
                    if e.len() > crate::similarity::MAX_DIMENSION {
                        proof {
                            lemma_replay_cache_empty(recs, old(self).window());
                            assert(self.replayed(*old(self), recs, 0));
                            assert(recs.take(0) =~= Seq::<RecordView>::empty());
                            assert(old(self).long_term() + recs.take(0) =~= old(self).long_term());
                        }
                        return Err(
                            AgentError::SerializationError(
                                String::from_str("a restored embedding is too large"),
                            ),
                        );
                    }
                    let m = e.len();
                    let mut t: usize = 0;
                    while t < m
                        invariant
                            *self == *old(self),
                            self.wf(),
                            parse_checkpoint(data@) is Some,
                            parse_checkpoint(data@)->Some_0.short_term == recs,
                            recs == records_view(records@),
                            m == e@.len(),
                            t <= m,
                            forall|q: int|
                                0 <= q < t ==> -crate::similarity::MAX_COMPONENT <= #[trigger] e@[q]
                                    <= crate::similarity::MAX_COMPONENT,
                        decreases m - t,
                    {
                        if e[t] > crate::similarity::MAX_COMPONENT || e[t]
                            < -crate::similarity::MAX_COMPONENT {
                            proof {
                                lemma_replay_cache_empty(recs, old(self).window());
                                assert(self.replayed(*old(self), recs, 0));
                                assert(recs.take(0) =~= Seq::<RecordView>::empty());
                                assert(old(self).long_term() + recs.take(0) =~= old(self).long_term());
                            }
                            return Err(
                                AgentError::SerializationError(
                                    String::from_str("a restored embedding is out of range"),
                                ),
                            );
                        }
                        t = t + 1;
                    }
                },
                None => {},
            }
            i = i + 1;
        }
        let ghost init = *self;
        let mut k: usize = 0;
        proof {
            assert forall|sid: Seq<char>| #[trigger] self.cache_of(sid) == replay_cache(
                init.cache_of(sid),
                recs.take(0),
                sid,
                init.window(),
            ) by {
                assert(recs.take(0) =~= Seq::<RecordView>::empty());
            }
            assert(recs.take(0) =~= Seq::<RecordView>::empty());
            assert(init.long_term() + recs.take(0) =~= init.long_term());
        }
        while k < n
            invariant
                init == *old(self),
                parse_checkpoint(data@) is Some,
                parse_checkpoint(data@)->Some_0.short_term == recs,
                n == records@.len(),
                recs == records_view(records@),
                k <= n,
                forall|j: int| 0 <= j < n ==> valid_embedded(#[trigger] recs[j]),
                self.wf(),
                self.long_term() == init.long_term() + recs.take(k as int),
                self.memory.window() == init.memory.window(),
                self.prompt() == init.prompt(),
                self.limit() == init.limit(),
                self.catalog() == init.catalog(),
                self.routing() == init.routing(),
                forall|sid: Seq<char>| #[trigger]
                    self.cache_of(sid) == replay_cache(
                        init.cache_of(sid),
                        recs.take(k as int),
                        sid,
                        init.window(),
                    ),
            decreases n - k,
        {
            let record = crate::record::clone_record(&records[k]);
            let ghost rv = recs[k as int];
            let ghost before = *self;
            let result = self.memory.store(record);
            proof {
                assert(recs.take(k + 1 as int).drop_last() =~= recs.take(k as int));
                assert(recs.take(k + 1 as int).last() == rv);
                assert forall|sid: Seq<char>| #[trigger] self.cache_of(sid) == replay_cache(
                    init.cache_of(sid),
                    recs.take(k + 1 as int),
                    sid,
                    init.window(),
                ) by {
                    if sid == rv.session_id {
                        assert(self.cache_of(sid) == trim_window(
                            before.cache_of(sid).push(rv),
                            before.window(),
                        ));
                    } else {
                        assert(self.cache_of(sid) == before.cache_of(sid));
                    }
                }
                assert(self.replayed(init, recs, k + 1 as int));
            }
            match result {
                Ok(()) => {
                    proof {
                        assert(init.long_term() + recs.take(k + 1 as int) =~= (init.long_term()
                            + recs.take(k as int)).push(rv));
                    }
                },
                Err(e) => {
                    proof {
                        assert(self.long_term() == init.long_term() + recs.take(k as int));
                    }
                    return Err(e);
                },
            }
            k = k + 1;
        }
        proof {
            assert(recs.take(n as int) =~= recs);
            assert(self.replayed(*old(self), recs, n as int));
            assert(self.long_term() == old(self).long_term() + recs);
        }
        Ok(())
    }
}

/// The cache contents of a session after replaying `recs` into caches that
/// started as `initial`, through the normal store path with window `w`:
/// records of other sessions leave this session's cache alone.
pub open spec fn replay_cache(
    initial: Seq<RecordView>,
    recs: Seq<RecordView>,
    sid: Seq<char>,
    w: int,
) -> Seq<RecordView>
    decreases recs.len(),
{
    if recs.len() == 0 {
        initial
    } else {
        let prev = replay_cache(initial, recs.drop_last(), sid, w);
        if recs.last().session_id == sid {
            trim_window(prev.push(recs.last()), w)
        } else {
            prev
        }
    }
}

/// Replaying nothing changes nothing.
proof fn lemma_replay_cache_empty(recs: Seq<RecordView>, w: int)
    ensures
        forall|initial: Seq<RecordView>, sid: Seq<char>|
            #![auto]
            replay_cache(initial, recs.take(0), sid, w) == initial,
{
    assert(recs.take(0) =~= Seq::<RecordView>::empty());
}

/// The record a tool invocation stores: the tool's name and its response.
pub open spec fn called_line(name: Seq<char>, content: Seq<char>) -> Seq<char> {
    "Called "@ + name + ": "@ + content
}

/// The provenance metadata a routed answer is stored with: the record is
/// tagged as coming from the routing orchestrator, not the primary model.
pub open spec fn routed_metadata() -> Seq<(Seq<char>, Seq<char>)> {
    seq![("source"@, "codemode_orchestrator"@)]
}

impl<M: LLM, S: MemoryStore> Agent<
    M,
    S,
    crate::agent_orchestrators::NoRouter,
    crate::tools::NoCapability,
> {
    /// Creates a new agent with the given model, session memory and
    /// options: the configured system prompt or a standard one, the
    /// configured token-budget ceiling or 8192, an empty tool catalog, and
    /// no shortcut router.
    pub fn new(model: M, memory: SessionMemory<S>, options: AgentOptions) -> (r: Self)
        requires
            memory.wf(),
        ensures
            r.wf(),
            r.prompt() == (match options.system_prompt {
                Some(p) => p@,
                None => "You are a helpful AI assistant. Provide concise, accurate answers and explain when you use tools."@,
            }),
            r.limit() == (match options.context_limit {
                Some(l) => l as int,
                None => 8192int,
            }),
            r.window() == memory.window(),
            r.long_term() == memory.long_term(),
            forall|sid: Seq<char>| r.cache_of(sid) == memory.cache_of(sid),
            r.catalog() == Seq::<(Seq<char>, ToolSpecView)>::empty(),
            !r.routing(),
    {
        let system_prompt = match options.system_prompt {
            Some(p) => p,
            None => String::from_str(
                "You are a helpful AI assistant. Provide concise, accurate answers and explain when you use tools.",
            ),
        };
        let context_limit = match options.context_limit {
            Some(l) => l,
            None => 8192,
        };
        Agent {
            model,
            memory,
            system_prompt,
            context_limit,
            tool_catalog: ToolCatalog::new(),
            router: None,
        }
    }
}

} // verus!
