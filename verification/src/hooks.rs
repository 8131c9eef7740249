//! Lifecycle hooks: which ones run, what they see, and what their outcome is.
//!
//! A hook is an outside process over the lifecycle of an operation. It may
//! allow, deny, warn or return metadata. Its deadline dominates: what a hook
//! wrote before it was killed decides nothing. A hook that fails is answered by
//! its failure policy. Every run leaves one record in a bounded audit log.
use vstd::prelude::*;

use crate::ids::SessionId;
use crate::json::Json;
use crate::json;
use crate::text;

verus! {

/// A moment in the lifecycle.
#[derive(Debug, Clone, Copy, PartialEq, Eq, Structural)]
pub enum HookEvent {
    SessionStart,
    SessionResume,
    TaskStart,
    PreModel,
    PostModel,
    PreTool,
    PostTool,
    ToolError,
    PreEdit,
    PostEdit,
    PreCommit,
    SubagentStart,
    SubagentStop,
    AgentError,
    AgentStop,
    TaskComplete,
    SessionEnd,
}

/// All events, in the order of the lifecycle.
pub open spec fn all_events() -> Seq<HookEvent> {
    seq![
        HookEvent::SessionStart,
        HookEvent::SessionResume,
        HookEvent::TaskStart,
        HookEvent::PreModel,
        HookEvent::PostModel,
        HookEvent::PreTool,
        HookEvent::PostTool,
        HookEvent::ToolError,
        HookEvent::PreEdit,
        HookEvent::PostEdit,
        HookEvent::PreCommit,
        HookEvent::SubagentStart,
        HookEvent::SubagentStop,
        HookEvent::AgentError,
        HookEvent::AgentStop,
        HookEvent::TaskComplete,
        HookEvent::SessionEnd,
    ]
}

impl HookEvent {
    /// All events, in the order of the lifecycle.
    pub fn all() -> (r: Vec<HookEvent>)
        ensures
            r@ == all_events(),
    {
        let out: Vec<HookEvent> = vec![
            HookEvent::SessionStart,
            HookEvent::SessionResume,
            HookEvent::TaskStart,
            HookEvent::PreModel,
            HookEvent::PostModel,
            HookEvent::PreTool,
            HookEvent::PostTool,
            HookEvent::ToolError,
            HookEvent::PreEdit,
            HookEvent::PostEdit,
            HookEvent::PreCommit,
            HookEvent::SubagentStart,
            HookEvent::SubagentStop,
            HookEvent::AgentError,
            HookEvent::AgentStop,
            HookEvent::TaskComplete,
            HookEvent::SessionEnd,
        ];
        proof {
            assert(out@ =~= all_events());
        }
        out
    }
}

/// What a failed hook means.
#[derive(Debug, Clone, Copy, PartialEq, Eq, Structural)]
pub enum FailurePolicy {
    /// The operation is denied.
    FailClosed,
    /// The operation goes on with a warning.
    FailOpen,
    /// There is a warning.
    Warn,
}

/// A set of capabilities: one bit each, and the text it is shown by.
#[derive(Debug, Clone, PartialEq, Eq)]
pub struct CapabilitySet {
    pub bits: u64,
    pub shown: String,
}

impl CapabilitySet {
    pub fn new(bits: u64, shown: &str) -> (r: Self)
        ensures
            r.bits == bits,
            r.shown@ == shown@,
    {
        CapabilitySet { bits, shown: shown.to_owned() }
    }

    /// Every capability of this set is one of `other`.
    pub open spec fn within(&self, other: &CapabilitySet) -> bool {
        self.bits & !other.bits == 0
    }

    /// Whether every capability of this set is one of `other`.
    pub fn is_subset_of(&self, other: &CapabilitySet) -> (r: bool)
        ensures
            r == self.within(other),
    {
        self.bits & !other.bits == 0
    }

    /// The same set once more.
    pub fn duplicate(&self) -> (r: Self)
        ensures
            r.bits == self.bits,
            r.shown@ == self.shown@,
    {
        CapabilitySet { bits: self.bits, shown: self.shown.as_str().to_owned() }
    }
}

/// A set of capabilities is within another exactly where each single one is.
pub proof fn law_subset_is_by_capability(a: CapabilitySet, b: CapabilitySet)
    ensures
        a.within(&b) <==> (forall|i: u64|
            i < 64 ==> (#[trigger] (1u64 << i) & a.bits != 0 ==> (1u64 << i) & b.bits != 0)),
{
    let x = a.bits;
    let y = b.bits;
    if a.within(&b) {
        assert forall|i: u64| i < 64 && #[trigger] (1u64 << i) & x != 0 implies (1u64 << i) & y
            != 0 by {
            assert(x & !y == 0 && i < 64 && (1u64 << i) & x != 0 ==> (1u64 << i) & y != 0)
                by (bit_vector);
        }
    } else {
        lemma_low_bit(x & !y);
        let i = choose|i: u64| i < 64 && #[trigger] (1u64 << i) & (x & !y) != 0;
        assert((1u64 << i) & (x & !y) != 0 ==> (1u64 << i) & x != 0 && (1u64 << i) & y == 0)
            by (bit_vector);
    }
}

proof fn lemma_low_bit(z: u64)
    requires
        z != 0,
    ensures
        exists|i: u64| i < 64 && #[trigger] (1u64 << i) & z != 0,
{
    if forall|i: u64| i < 64 ==> #[trigger] (1u64 << i) & z == 0 {
        lemma_bits(z);
    }
}

proof fn lemma_bits(z: u64)
    requires
        forall|i: u64| i < 64 ==> #[trigger] (1u64 << i) & z == 0,
    ensures
        z == 0,
{
    lemma_clear(z, 64);
}

/// Where the lowest `n` bits are clear, the number is a multiple of `2^n`.
proof fn lemma_clear(z: u64, n: u64)
    requires
        n <= 64,
        forall|i: u64| i < 64 ==> #[trigger] (1u64 << i) & z == 0,
    ensures
        n < 64 ==> (z >> n) << n == z,
        n == 64 ==> z == 0,
    decreases n,
{
    if n == 0 {
        assert((z >> 0u64) << 0u64 == z) by (bit_vector);
    } else {
        let m: u64 = (n - 1) as u64;
        lemma_clear(z, m);
        assert((1u64 << m) & z == 0);
        if n < 64 {
            assert(m < 63 && (z >> m) << m == z && (1u64 << m) & z == 0 ==> (z >> ((m + 1) as u64))
                << ((m + 1) as u64) == z) by (bit_vector);
        } else {
            assert((z >> 63u64) << 63u64 == z && (1u64 << 63u64) & z == 0 ==> z == 0)
                by (bit_vector);
        }
    }
}

/// A registered hook.
#[derive(Debug, Clone, PartialEq, Eq)]
pub struct HookSpec {
    pub id: String,
    pub events: Vec<HookEvent>,
    pub command: String,
    pub args: Vec<String>,
    /// Environment entries; an empty value stands for the value of the daemon.
    pub env: Vec<(String, String)>,
    /// The hook sees the entries of `env` and its input, nothing else. Where it
    /// is false, it sees a fixed set of harmless variables too.
    pub env_allowlist: bool,
    pub deadline_ms: u64,
    pub stdout_cap: usize,
    pub stderr_cap: usize,
    pub failure_policy: FailurePolicy,
    /// What the hook may do.
    pub permission_scope: CapabilitySet,
}

/// A [`HookSpec`] by its contents.
pub struct SpecView {
    pub id: Seq<char>,
    pub events: Seq<HookEvent>,
    pub command: Seq<char>,
    pub args: Seq<Seq<char>>,
    pub env: Seq<(Seq<char>, Seq<char>)>,
    pub env_allowlist: bool,
    pub deadline_ms: u64,
    pub stdout_cap: usize,
    pub stderr_cap: usize,
    pub failure_policy: FailurePolicy,
    pub scope_bits: u64,
    pub scope_shown: Seq<char>,
}

/// The pairs in `list`.
pub open spec fn pairs(list: Seq<(String, String)>) -> Seq<(Seq<char>, Seq<char>)> {
    Seq::new(list.len(), |i: int| (list[i].0@, list[i].1@))
}

impl View for HookSpec {
    type V = SpecView;

    open spec fn view(&self) -> SpecView {
        SpecView {
            id: self.id@,
            events: self.events@,
            command: self.command@,
            args: text::strings(self.args@),
            env: pairs(self.env@),
            env_allowlist: self.env_allowlist,
            deadline_ms: self.deadline_ms,
            stdout_cap: self.stdout_cap,
            stderr_cap: self.stderr_cap,
            failure_policy: self.failure_policy,
            scope_bits: self.permission_scope.bits,
            scope_shown: self.permission_scope.shown@,
        }
    }
}

impl Default for HookSpec {
    fn default() -> (r: Self)
        ensures
            r@ == (SpecView {
                id: Seq::empty(),
                events: Seq::empty(),
                command: Seq::empty(),
                args: Seq::empty(),
                env: Seq::empty(),
                env_allowlist: true,
                deadline_ms: 5000,
                stdout_cap: 65536,
                stderr_cap: 65536,
                failure_policy: FailurePolicy::FailClosed,
                scope_bits: 0,
                scope_shown: Seq::empty(),
            }),
    {
        let s: HookSpec = HookSpec {
            id: String::new(),
            events: Vec::new(),
            command: String::new(),
            args: Vec::new(),
            env: Vec::new(),
            env_allowlist: true,
            deadline_ms: 5000,
            stdout_cap: 65536,
            stderr_cap: 65536,
            failure_policy: FailurePolicy::FailClosed,
            permission_scope: CapabilitySet { bits: 0, shown: String::new() },
        };
        proof {
            assert(s@.id =~= Seq::<char>::empty());
            assert(s@.events =~= Seq::<HookEvent>::empty());
            assert(s@.command =~= Seq::<char>::empty());
            assert(s@.args =~= Seq::<Seq<char>>::empty());
            assert(s@.env =~= Seq::<(Seq<char>, Seq<char>)>::empty());
            assert(s@.scope_shown =~= Seq::<char>::empty());
        }
        s
    }
}

fn copy_strings(list: &Vec<String>) -> (r: Vec<String>)
    ensures
        text::strings(r@) == text::strings(list@),
{
    let mut out: Vec<String> = Vec::new();
    let mut i: usize = 0;
    while i < list.len()
        invariant
            i <= list.len(),
            text::strings(out@) == text::strings(list@).take(i as int),
        decreases list.len() - i,
    {
        let ghost before = text::strings(out@);
        out.push(list[i].as_str().to_owned());
        i = i + 1;
        proof {
            assert(text::strings(out@) =~= before.push(list@[i as int - 1]@));
            assert(text::strings(list@).take(i as int) =~= before.push(list@[i as int - 1]@));
        }
    }
    proof {
        assert(text::strings(list@).take(i as int) =~= text::strings(list@));
    }
    out
}

/// Appends copies of the pairs in `list`.
fn append_pairs(out: &mut Vec<(String, String)>, list: &Vec<(String, String)>)
    ensures
        pairs(final(out)@) == pairs(old(out)@) + pairs(list@),
{
    let ghost start = pairs(out@);
    let mut i: usize = 0;
    proof {
        assert(start + pairs(list@).take(0) =~= start);
    }
    while i < list.len()
        invariant
            i <= list.len(),
            start == pairs(old(out)@),
            pairs(out@) == start + pairs(list@).take(i as int),
        decreases list.len() - i,
    {
        let ghost before = pairs(out@);
        let ghost p = (list@[i as int].0@, list@[i as int].1@);
        out.push((list[i].0.as_str().to_owned(), list[i].1.as_str().to_owned()));
        i = i + 1;
        proof {
            assert(pairs(out@) =~= before.push(p));
            assert(pairs(list@).take(i as int) =~= pairs(list@).take(i as int - 1).push(p));
        }
    }
    proof {
        assert(pairs(list@).take(i as int) =~= pairs(list@));
    }
}

impl HookSpec {
    /// The same hook once more.
    pub fn duplicate(&self) -> (r: HookSpec)
        ensures
            r@ == self@,
    {
        let mut events: Vec<HookEvent> = Vec::new();
        let mut i: usize = 0;
        while i < self.events.len()
            invariant
                i <= self.events.len(),
                events@ == self.events@.take(i as int),
            decreases self.events.len() - i,
        {
            events.push(self.events[i]);
            i = i + 1;
            proof {
                assert(self.events@.take(i as int) =~= self.events@.take(i as int - 1).push(
                    self.events@[i as int - 1],
                ));
            }
        }
        proof {
            assert(self.events@.take(i as int) =~= self.events@);
        }
        let mut env: Vec<(String, String)> = Vec::new();
        append_pairs(&mut env, &self.env);
        proof {
            assert(pairs(env@) =~= pairs(self.env@));
        }
        HookSpec {
            id: self.id.as_str().to_owned(),
            events,
            command: self.command.as_str().to_owned(),
            args: copy_strings(&self.args),
            env,
            env_allowlist: self.env_allowlist,
            deadline_ms: self.deadline_ms,
            stdout_cap: self.stdout_cap,
            stderr_cap: self.stderr_cap,
            failure_policy: self.failure_policy,
            permission_scope: self.permission_scope.duplicate(),
        }
    }
}

/// What a hook is told.
#[derive(Debug, Clone, PartialEq, Eq)]
pub struct HookInput {
    pub event: HookEvent,
    pub session_id: Option<String>,
    pub task_id: Option<String>,
    pub operation_id: Option<String>,
    pub payload: Json,
}

impl Default for HookInput {
    fn default() -> (r: Self)
        ensures
            r.event == HookEvent::PreTool,
            r.session_id is None,
            r.task_id is None,
            r.operation_id is None,
            r.payload is Null,
    {
        HookInput {
            event: HookEvent::PreTool,
            session_id: None,
            task_id: None,
            operation_id: None,
            payload: Json::Null,
        }
    }
}

/// The name of an event.
pub open spec fn event_name_of(event: HookEvent) -> Seq<char> {
    match event {
        HookEvent::SessionStart => "session_start"@,
        HookEvent::SessionResume => "session_resume"@,
        HookEvent::TaskStart => "task_start"@,
        HookEvent::PreModel => "pre_model"@,
        HookEvent::PostModel => "post_model"@,
        HookEvent::PreTool => "pre_tool"@,
        HookEvent::PostTool => "post_tool"@,
        HookEvent::ToolError => "tool_error"@,
        HookEvent::PreEdit => "pre_edit"@,
        HookEvent::PostEdit => "post_edit"@,
        HookEvent::PreCommit => "pre_commit"@,
        HookEvent::SubagentStart => "subagent_start"@,
        HookEvent::SubagentStop => "subagent_stop"@,
        HookEvent::AgentError => "agent_error"@,
        HookEvent::AgentStop => "agent_stop"@,
        HookEvent::TaskComplete => "task_complete"@,
        HookEvent::SessionEnd => "session_end"@,
    }
}

/// The name of an event.
pub fn event_name(event: HookEvent) -> (r: &'static str)
    ensures
        r@ == event_name_of(event),
{
    match event {
        HookEvent::SessionStart => "session_start",
        HookEvent::SessionResume => "session_resume",
        HookEvent::TaskStart => "task_start",
        HookEvent::PreModel => "pre_model",
        HookEvent::PostModel => "post_model",
        HookEvent::PreTool => "pre_tool",
        HookEvent::PostTool => "post_tool",
        HookEvent::ToolError => "tool_error",
        HookEvent::PreEdit => "pre_edit",
        HookEvent::PostEdit => "post_edit",
        HookEvent::PreCommit => "pre_commit",
        HookEvent::SubagentStart => "subagent_start",
        HookEvent::SubagentStop => "subagent_stop",
        HookEvent::AgentError => "agent_error",
        HookEvent::AgentStop => "agent_stop",
        HookEvent::TaskComplete => "task_complete",
        HookEvent::SessionEnd => "session_end",
    }
}

/// A text, or null.
pub open spec fn text_or_null(s: Option<String>) -> json::JsonView {
    match s {
        Some(s) => json::JsonView::Text(s@),
        None => json::JsonView::Null,
    }
}

fn opt_value(s: &Option<String>) -> (r: Json)
    ensures
        r@ == text_or_null(*s),
{
    match s {
        Some(s) => json::text_value(s.as_str()),
        None => Json::Null,
    }
}

/// What a hook is told, as one value.
pub open spec fn input_json_of(input: HookInput) -> json::JsonView {
    json::JsonView::Object(
        seq![
            ("event"@, json::JsonView::Text(event_name_of(input.event))),
            ("session_id"@, text_or_null(input.session_id)),
            ("task_id"@, text_or_null(input.task_id)),
            ("operation_id"@, text_or_null(input.operation_id)),
            ("payload"@, input.payload@),
        ],
    )
}

/// What a hook is told, as one value.
pub fn input_json(input: &HookInput) -> (r: Json)
    ensures
        r@ == input_json_of(*input),
{
    let mut m: Vec<(String, Json)> = Vec::new();
    m.push(("event".to_owned(), json::text_value(event_name(input.event))));
    m.push(("session_id".to_owned(), opt_value(&input.session_id)));
    m.push(("task_id".to_owned(), opt_value(&input.task_id)));
    m.push(("operation_id".to_owned(), opt_value(&input.operation_id)));
    m.push(("payload".to_owned(), input.payload.duplicate()));
    proof {
        json::lemma_view_object(m);
        assert(json::members(m@) =~= input_json_of(*input)->Object_0);
    }
    Json::Object(m)
}

/// Whose process a hook is.
#[derive(Debug, Clone, Copy, PartialEq, Eq, Structural)]
pub enum ProcessOwner {
    /// A session's: it dies with the session.
    Session(SessionId),
    /// The daemon's.
    Daemon,
}

/// The owner of the process of a hook: the session named in the input, where the
/// name is a number.
pub open spec fn owner_of(session_id: Option<String>) -> ProcessOwner {
    match session_id {
        Some(s) => match text::parsed(s@, u64::MAX as nat) {
            Some(n) => ProcessOwner::Session(SessionId(n as u64)),
            None => ProcessOwner::Daemon,
        },
        None => ProcessOwner::Daemon,
    }
}

/// The owner of the process of a hook.
pub fn process_owner(input: &HookInput) -> (r: ProcessOwner)
    ensures
        r == owner_of(input.session_id),
{
    match &input.session_id {
        Some(s) => {
            let chars: Vec<char> = text::chars_of(s.as_str());
            match text::parse_unsigned(chars.as_slice(), u64::MAX) {
                Some(n) => ProcessOwner::Session(SessionId::new(n)),
                None => ProcessOwner::Daemon,
            }
        },
        None => ProcessOwner::Daemon,
    }
}

// --------------------------------------------------------------- environment

/// The variables that a hook without allowlist sees too.
pub open spec fn benign_names() -> Seq<Seq<char>> {
    seq!["HOME"@, "PATH"@, "LANG"@, "LC_ALL"@, "TZ"@, "TERM"@, "USER"@, "SHELL"@]
}

/// The names with empty values, which stand for the values of the daemon.
pub open spec fn inherited(names: Seq<Seq<char>>) -> Seq<(Seq<char>, Seq<char>)> {
    Seq::new(names.len(), |i: int| (names[i], Seq::empty()))
}

/// The environment of a hook whose input is written as `input`.
pub open spec fn environment(spec: SpecView, input: Seq<char>) -> Seq<(Seq<char>, Seq<char>)> {
    let base = if spec.env_allowlist {
        Seq::empty()
    } else {
        inherited(benign_names())
    };
    base + spec.env + seq![("FAKTOR_HOOK_INPUT"@, input)]
}

fn benign_entries() -> (r: Vec<(String, String)>)
    ensures
        pairs(r@) == inherited(benign_names()),
{
    let mut out: Vec<(String, String)> = Vec::new();
    out.push(("HOME".to_owned(), String::new()));
    out.push(("PATH".to_owned(), String::new()));
    out.push(("LANG".to_owned(), String::new()));
    out.push(("LC_ALL".to_owned(), String::new()));
    out.push(("TZ".to_owned(), String::new()));
    out.push(("TERM".to_owned(), String::new()));
    out.push(("USER".to_owned(), String::new()));
    out.push(("SHELL".to_owned(), String::new()));
    proof {
        assert forall|i: int| 0 <= i < 8 implies #[trigger] pairs(out@)[i] == inherited(
            benign_names(),
        )[i] by {
            assert(out@[i].1@ =~= Seq::<char>::empty());
        }
        assert(pairs(out@) =~= inherited(benign_names()));
    }
    out
}

/// The environment of a hook: nothing is inherited that is not listed here.
pub fn env_entries(spec: &HookSpec, input: &str) -> (r: Vec<(String, String)>)
    ensures
        pairs(r@) == environment(spec@, input@),
{
    let mut out: Vec<(String, String)> = if spec.env_allowlist {
        let none: Vec<(String, String)> = Vec::new();
        proof {
            assert(pairs(none@) =~= Seq::<(Seq<char>, Seq<char>)>::empty());
        }
        none
    } else {
        benign_entries()
    };
    append_pairs(&mut out, &spec.env);
    let ghost before = pairs(out@);
    out.push(("FAKTOR_HOOK_INPUT".to_owned(), input.to_owned()));
    proof {
        assert(pairs(out@) =~= before + seq![("FAKTOR_HOOK_INPUT"@, input@)]);
    }
    out
}

/// A hook sees the variables that its configuration lists, its input, and, where
/// it has no allowlist, the harmless ones. Nothing else reaches it.
pub proof fn law_only_listed_variables_reach_a_hook(spec: SpecView, input: Seq<char>, i: int)
    requires
        0 <= i < environment(spec, input).len(),
    ensures
        ({
            let name = environment(spec, input)[i].0;
            ||| name == "FAKTOR_HOOK_INPUT"@
            ||| (exists|j: int| 0 <= j < spec.env.len() && #[trigger] spec.env[j].0 == name)
            ||| (!spec.env_allowlist && benign_names().contains(name))
        }),
{
    let base = if spec.env_allowlist {
        Seq::<(Seq<char>, Seq<char>)>::empty()
    } else {
        inherited(benign_names())
    };
    let all = environment(spec, input);
    if i < base.len() {
        assert(all[i] == base[i]);
        assert(benign_names()[i] == all[i].0);
    } else if i < base.len() + spec.env.len() {
        assert(all[i] == spec.env[i - base.len()]);
    }
}

// ------------------------------------------------------------------ verdicts

/// What a hook says of an operation.
#[derive(Debug, Clone, PartialEq, Eq)]
pub enum HookVerdict {
    Allow,
    Deny { reason: String },
    Warn { reason: String },
    Modify { metadata: Json },
}

/// A [`HookVerdict`] by its contents.
pub enum VerdictView {
    Allow,
    Deny(Seq<char>),
    Warn(Seq<char>),
    Modify(json::JsonView),
}

impl View for HookVerdict {
    type V = VerdictView;

    open spec fn view(&self) -> VerdictView {
        match self {
            HookVerdict::Allow => VerdictView::Allow,
            HookVerdict::Deny { reason } => VerdictView::Deny(reason@),
            HookVerdict::Warn { reason } => VerdictView::Warn(reason@),
            HookVerdict::Modify { metadata } => VerdictView::Modify(metadata@),
        }
    }
}

impl HookVerdict {
    /// The same verdict once more.
    pub fn duplicate(&self) -> (r: HookVerdict)
        ensures
            r@ == self@,
    {
        match self {
            HookVerdict::Allow => HookVerdict::Allow,
            HookVerdict::Deny { reason } => HookVerdict::Deny {
                reason: reason.as_str().to_owned(),
            },
            HookVerdict::Warn { reason } => HookVerdict::Warn {
                reason: reason.as_str().to_owned(),
            },
            HookVerdict::Modify { metadata } => HookVerdict::Modify {
                metadata: metadata.duplicate(),
            },
        }
    }
}

/// The word for a verdict in the audit log.
pub open spec fn tag_of(v: VerdictView) -> Seq<char> {
    match v {
        VerdictView::Allow => "allow"@,
        VerdictView::Deny(_) => "deny"@,
        VerdictView::Warn(_) => "warn"@,
        VerdictView::Modify(_) => "modify"@,
    }
}

fn verdict_tag(v: &HookVerdict) -> (r: String)
    ensures
        r@ == tag_of(v@),
{
    match v {
        HookVerdict::Allow => "allow".to_owned(),
        HookVerdict::Deny { .. } => "deny".to_owned(),
        HookVerdict::Warn { .. } => "warn".to_owned(),
        HookVerdict::Modify { .. } => "modify".to_owned(),
    }
}

/// How many lines of a hook's output are searched for a verdict.
pub const VERDICT_LINES: usize = 64;

/// The lines, trimmed, that open an object and so may answer for the hook.
pub open spec fn candidates(lines: Seq<Seq<char>>) -> Seq<Seq<char>>
    decreases lines.len(),
{
    if lines.len() == 0 {
        Seq::empty()
    } else {
        let line = text::trim(lines.last());
        if line.len() > 0 && line[0] == '{' {
            candidates(lines.drop_last()).push(line)
        } else {
            candidates(lines.drop_last())
        }
    }
}

/// The first lines of an output, as far as they are searched.
pub open spec fn searched(out: Seq<char>) -> Seq<Seq<char>> {
    let lines = text::lines_of(out);
    lines.take(
        if lines.len() <= VERDICT_LINES {
            lines.len() as int
        } else {
            VERDICT_LINES as int
        },
    )
}

/// The lines of an output that may hold a verdict, in order.
pub fn verdict_lines(out: &str) -> (r: Vec<String>)
    ensures
        text::strings(r@) == candidates(searched(out@)),
{
    let chars: Vec<char> = text::chars_of(out);
    let lines: Vec<&[char]> = text::split_lines(chars.as_slice());
    let count: usize = if lines.len() <= VERDICT_LINES {
        lines.len()
    } else {
        VERDICT_LINES
    };
    let ghost all = text::views(lines@);
    let mut found: Vec<String> = Vec::new();
    let mut i: usize = 0;
    proof {
        assert(all.take(0) =~= Seq::<Seq<char>>::empty());
        assert(text::strings(found@) =~= Seq::<Seq<char>>::empty());
    }
    while i < count
        invariant
            i <= count <= lines.len(),
            all == text::views(lines@),
            text::strings(found@) == candidates(all.take(i as int)),
        decreases count - i,
    {
        let line: &[char] = text::trimmed(lines[i]);
        let ghost before = text::strings(found@);
        proof {
            assert(all.take(i as int + 1).drop_last() =~= all.take(i as int));
            assert(all.take(i as int + 1).last() == all[i as int]);
        }
        if line.len() > 0 && line[0] == '{' {
            found.push(text::string_of(line));
            proof {
                assert(text::strings(found@) =~= before.push(line@));
            }
        }
        i = i + 1;
    }
    found
}

/// The first verdict among what the candidate lines read as.
pub open spec fn first_of(parsed: Seq<Option<HookVerdict>>) -> Option<VerdictView>
    decreases parsed.len(),
{
    if parsed.len() == 0 {
        None
    } else {
        match parsed[0] {
            Some(v) => Some(v@),
            None => first_of(parsed.skip(1)),
        }
    }
}

/// What is stated of an optional verdict.
pub open spec fn opt_verdict(v: Option<HookVerdict>) -> Option<VerdictView> {
    match v {
        Some(v) => Some(v@),
        None => None,
    }
}

/// The first verdict among what the candidate lines read as.
pub fn first_verdict(parsed: &Vec<Option<HookVerdict>>) -> (r: Option<HookVerdict>)
    ensures
        opt_verdict(r) == first_of(parsed@),
{
    let mut i: usize = 0;
    proof {
        assert(parsed@.skip(0) =~= parsed@);
    }
    while i < parsed.len()
        invariant
            i <= parsed.len(),
            first_of(parsed@) == first_of(parsed@.skip(i as int)),
        decreases parsed.len() - i,
    {
        if let Some(v) = &parsed[i] {
            return Some(v.duplicate());
        }
        proof {
            assert(parsed@.skip(i as int).skip(1) =~= parsed@.skip(i as int + 1));
        }
        i = i + 1;
    }
    None
}

/// What a hook did.
#[derive(Debug, Clone, PartialEq, Eq)]
pub struct ProcessOutput {
    /// The deadline passed, and the process was killed.
    pub timed_out: bool,
    pub exit_code: Option<i32>,
    pub stdout_head: String,
    pub stdout_truncated: bool,
    pub stderr_head: String,
    pub stderr_truncated: bool,
}

/// What came of a hook.
#[derive(Debug, Clone, PartialEq, Eq)]
pub enum HookReport {
    /// Its scope exceeds what hooks may do: it was not started.
    OutOfScope,
    /// It could not be started; this is what the supervisor says.
    NotStarted(String),
    /// It ran, and its output reads as this verdict.
    Ran { output: ProcessOutput, verdict: Option<HookVerdict> },
}

/// `None`, or the number in `Some(..)`.
pub open spec fn code_text(code: Option<i32>) -> Seq<char> {
    match code {
        None => "None"@,
        Some(n) => "Some("@ + text::signed_decimal(n as int) + ")"@,
    }
}

/// The verdict for a hook that failed for `reason`.
pub open spec fn policy_verdict(spec: SpecView, reason: Seq<char>) -> VerdictView {
    match spec.failure_policy {
        FailurePolicy::FailClosed => VerdictView::Deny(
            "hook "@ + spec.id + " failed closed"@,
        ),
        _ => VerdictView::Warn(
            "hook "@ + spec.id + " failed open: Warn { reason: "@ + text::debug_of(reason)
                + " }"@,
        ),
    }
}

/// The scope of the hook is within what hooks may do.
pub open spec fn scope_granted(spec: SpecView, envelope: CapabilitySet) -> bool {
    spec.scope_bits & !envelope.bits == 0
}

/// What counts of a report: a hook whose scope is not granted is out of scope,
/// whatever is reported of it.
pub open spec fn due(spec: SpecView, envelope: CapabilitySet, report: HookReport) -> HookReport {
    if scope_granted(spec, envelope) {
        report
    } else {
        HookReport::OutOfScope
    }
}

/// The verdict of a hook for what came of it. `envelope` is what hooks may do.
pub open spec fn outcome_of(
    spec: SpecView,
    envelope: CapabilitySet,
    report: HookReport,
) -> VerdictView {
    match due(spec, envelope, report) {
        HookReport::OutOfScope => policy_verdict(
            spec,
            "hook "@ + spec.id + " scope ["@ + spec.scope_shown
                + "] exceeds the granted envelope ["@ + envelope.shown@ + "]"@,
        ),
        HookReport::NotStarted(said) => policy_verdict(spec, "spawn: "@ + said@),
        HookReport::Ran { output, verdict } => if output.timed_out {
            policy_verdict(
                spec,
                "hook "@ + spec.id + " exceeded the "@ + text::decimal(spec.deadline_ms as nat)
                    + " ms deadline and was killed"@,
            )
        } else {
            match verdict {
                Some(v) => v@,
                None => if output.exit_code == Some(0i32) {
                    VerdictView::Allow
                } else {
                    policy_verdict(
                        spec,
                        "hook "@ + spec.id + " exited "@ + code_text(output.exit_code)
                            + " without a verdict"@,
                    )
                },
            }
        },
    }
}

fn policy_outcome(spec: &HookSpec, reason: &str) -> (r: HookVerdict)
    ensures
        r@ == policy_verdict(spec@, reason@),
{
    match spec.failure_policy {
        FailurePolicy::FailClosed => HookVerdict::Deny {
            reason: text::cat3("hook ", spec.id.as_str(), " failed closed"),
        },
        _ => HookVerdict::Warn {
            reason: text::cat5(
                "hook ",
                spec.id.as_str(),
                " failed open: Warn { reason: ",
                text::debug_str(reason).as_str(),
                " }",
            ),
        },
    }
}

/// The verdict of a hook for what came of it.
pub fn hook_outcome(spec: &HookSpec, envelope: &CapabilitySet, report: &HookReport) -> (r:
    HookVerdict)
    ensures
        r@ == outcome_of(spec@, *envelope, *report),
{
    let refused: HookReport = HookReport::OutOfScope;
    let counts: &HookReport = if spec.permission_scope.is_subset_of(envelope) {
        report
    } else {
        &refused
    };
    match counts {
        HookReport::OutOfScope => {
            let mut m: String = text::cat5(
                "hook ",
                spec.id.as_str(),
                " scope [",
                spec.permission_scope.shown.as_str(),
                "] exceeds the granted envelope [",
            );
            m.append(envelope.shown.as_str());
            m.append("]");
            policy_outcome(spec, m.as_str())
        },
        HookReport::NotStarted(said) => policy_outcome(
            spec,
            text::cat2("spawn: ", said.as_str()).as_str(),
        ),
        HookReport::Ran { output, verdict } => {
            if output.timed_out {
                let m: String = text::cat5(
                    "hook ",
                    spec.id.as_str(),
                    " exceeded the ",
                    text::decimal_text(spec.deadline_ms).as_str(),
                    " ms deadline and was killed",
                );
                return policy_outcome(spec, m.as_str());
            }
            if let Some(v) = verdict {
                return v.duplicate();
            }
            let code: String = match output.exit_code {
                None => "None".to_owned(),
                Some(n) => {
                    if n == 0 {
                        return HookVerdict::Allow;
                    }
                    let mut c: String = "Some(".to_owned();
                    text::push_signed(&mut c, n as i64);
                    c.append(")");
                    c
                },
            };
            let m: String = text::cat5(
                "hook ",
                spec.id.as_str(),
                " exited ",
                code.as_str(),
                " without a verdict",
            );
            policy_outcome(spec, m.as_str())
        },
    }
}

/// The deadline dominates: two hooks that were killed have the same verdict,
/// whatever they had written.
pub proof fn law_the_deadline_dominates(
    spec: SpecView,
    envelope: CapabilitySet,
    a: ProcessOutput,
    b: ProcessOutput,
    x: Option<HookVerdict>,
    y: Option<HookVerdict>,
)
    requires
        a.timed_out,
        b.timed_out,
    ensures
        outcome_of(spec, envelope, HookReport::Ran { output: a, verdict: x }) == outcome_of(
            spec,
            envelope,
            HookReport::Ran { output: b, verdict: y },
        ),
        !(outcome_of(spec, envelope, HookReport::Ran { output: a, verdict: x }) is Allow),
{
}

/// A hook that must not fail open never lets an operation pass by failing: out of
/// scope, not started, killed, or ended badly without a verdict, it denies.
pub proof fn law_fail_closed_denies(spec: SpecView, envelope: CapabilitySet, report: HookReport)
    requires
        spec.failure_policy == FailurePolicy::FailClosed,
        report matches HookReport::Ran { output, verdict } ==> output.timed_out || (verdict is None
            && output.exit_code != Some(0i32)),
    ensures
        outcome_of(spec, envelope, report) is Deny,
{
}

/// The process of a hook that may be started.
#[derive(Debug, Clone, PartialEq, Eq)]
pub struct HookSpawn {
    pub command: String,
    pub args: Vec<String>,
    /// All that the process sees of an environment.
    pub env: Vec<(String, String)>,
    pub owner: ProcessOwner,
    pub deadline_ms: u64,
    pub stdout_cap: usize,
    pub stderr_cap: usize,
}

// ---------------------------------------------------- the verdicts together

/// The verdict so far and one more: the first denial stays; else the first
/// warning stays; else the last metadata counts.
pub open spec fn joined(acc: VerdictView, v: VerdictView) -> VerdictView {
    match (acc, v) {
        (VerdictView::Deny(_), _) => acc,
        (_, VerdictView::Deny(_)) => v,
        (VerdictView::Warn(_), _) => acc,
        (_, VerdictView::Allow) => acc,
        _ => v,
    }
}

/// All verdicts together.
pub open spec fn combined(verdicts: Seq<VerdictView>) -> VerdictView
    decreases verdicts.len(),
{
    if verdicts.len() == 0 {
        VerdictView::Allow
    } else {
        joined(combined(verdicts.drop_last()), verdicts.last())
    }
}

/// Any denial wins; else any warning gives a warning; else any metadata is
/// passed on; else the operation is allowed.
pub proof fn law_verdict_precedence(verdicts: Seq<VerdictView>)
    ensures
        combined(verdicts) is Deny <==> exists|i: int|
            0 <= i < verdicts.len() && #[trigger] verdicts[i] is Deny,
        combined(verdicts) is Warn <==> (forall|i: int|
            0 <= i < verdicts.len() ==> !(#[trigger] verdicts[i] is Deny)) && exists|i: int|
            0 <= i < verdicts.len() && #[trigger] verdicts[i] is Warn,
        combined(verdicts) is Allow <==> forall|i: int|
            0 <= i < verdicts.len() ==> #[trigger] verdicts[i] is Allow,
    decreases verdicts.len(),
{
    if verdicts.len() > 0 {
        let rest = verdicts.drop_last();
        law_verdict_precedence(rest);
        assert(forall|i: int| 0 <= i < rest.len() ==> rest[i] == verdicts[i]);
        assert(verdicts[verdicts.len() - 1] == verdicts.last());
        if exists|i: int| 0 <= i < rest.len() && #[trigger] rest[i] is Deny {
            let i = choose|i: int| 0 <= i < rest.len() && #[trigger] rest[i] is Deny;
            assert(verdicts[i] is Deny);
        }
        if exists|i: int| 0 <= i < rest.len() && #[trigger] rest[i] is Warn {
            let i = choose|i: int| 0 <= i < rest.len() && #[trigger] rest[i] is Warn;
            assert(verdicts[i] is Warn);
        }
        if exists|i: int| 0 <= i < verdicts.len() && #[trigger] verdicts[i] is Deny {
            let i = choose|i: int| 0 <= i < verdicts.len() && #[trigger] verdicts[i] is Deny;
            if i < rest.len() {
                assert(rest[i] is Deny);
            }
        }
        if exists|i: int| 0 <= i < verdicts.len() && #[trigger] verdicts[i] is Warn {
            let i = choose|i: int| 0 <= i < verdicts.len() && #[trigger] verdicts[i] is Warn;
            if i < rest.len() {
                assert(rest[i] is Warn);
            }
        }
    }
}

/// The verdict is one that some hook gave: the first denial, the first warning or
/// the last metadata, whichever counts.
pub proof fn law_the_verdict_is_a_hooks_own(verdicts: Seq<VerdictView>, n: int)
    requires
        0 <= n < verdicts.len(),
        verdicts[n] is Deny && (forall|j: int| 0 <= j < n ==> !(#[trigger] verdicts[j] is Deny))
            || verdicts[n] is Warn && (forall|j: int|
            0 <= j < verdicts.len() ==> !(#[trigger] verdicts[j] is Deny)) && (forall|j: int|
            0 <= j < n ==> !(#[trigger] verdicts[j] is Warn)) || verdicts[n] is Modify && (forall|
            j: int,
        |
            0 <= j < verdicts.len() ==> !(#[trigger] verdicts[j] is Deny) && !(verdicts[j] is Warn))
            && (forall|j: int| n < j < verdicts.len() ==> !(#[trigger] verdicts[j] is Modify)),
    ensures
        combined(verdicts) == verdicts[n],
    decreases verdicts.len(),
{
    let rest = verdicts.drop_last();
    let last = verdicts.len() - 1;
    assert(forall|i: int| 0 <= i < rest.len() ==> rest[i] == verdicts[i]);
    if n < last {
        assert(rest[n] == verdicts[n]);
        law_the_verdict_is_a_hooks_own(rest, n);
        assert(verdicts[last] == verdicts.last());
    } else {
        law_verdict_precedence(rest);
    }
}

/// The hooks of one event, run one after another.
#[derive(Debug, Clone, PartialEq, Eq)]
pub struct HookRun {
    specs: Vec<HookSpec>,
    next: usize,
    verdict: HookVerdict,
}

/// A [`HookRun`] by its contents.
pub struct RunView {
    /// The hooks that have not run yet.
    pub left: Seq<SpecView>,
    /// The verdict so far.
    pub verdict: VerdictView,
}

/// The hooks in `list`.
pub open spec fn spec_views(list: Seq<HookSpec>) -> Seq<SpecView> {
    Seq::new(list.len(), |i: int| list[i]@)
}

impl View for HookRun {
    type V = RunView;

    closed spec fn view(&self) -> RunView {
        RunView {
            left: if self.verdict@ is Deny || self.next > self.specs@.len() {
                Seq::empty()
            } else {
                spec_views(self.specs@).skip(self.next as int)
            },
            verdict: self.verdict@,
        }
    }
}

impl HookRun {
    /// A run of these hooks.
    pub fn new(specs: Vec<HookSpec>) -> (r: Self)
        ensures
            r@ == (RunView { left: spec_views(specs@), verdict: VerdictView::Allow }),
    {
        let r: HookRun = HookRun { specs, next: 0, verdict: HookVerdict::Allow };
        proof {
            assert(r@.left =~= spec_views(specs@));
        }
        r
    }

    /// The hook to be run next; none where all have run or one has denied.
    pub fn next(&self) -> (r: Option<&HookSpec>)
        ensures
            self@.left.len() == 0 <==> r is None,
            r matches Some(s) ==> s@ == self@.left[0],
    {
        if let HookVerdict::Deny { .. } = &self.verdict {
            return None;
        }
        if self.next < self.specs.len() {
            Some(&self.specs[self.next])
        } else {
            None
        }
    }

    /// The hook that was next has given this verdict. After a denial nothing is
    /// left to be run.
    pub fn took(&mut self, verdict: HookVerdict)
        requires
            old(self)@.left.len() > 0,
        ensures
            final(self)@.verdict == joined(old(self)@.verdict, verdict@),
            final(self)@.left == if final(self)@.verdict is Deny {
                Seq::<SpecView>::empty()
            } else {
                old(self)@.left.skip(1)
            },
    {
        let ghost before = self@;
        proof {
            assert(self.next < self.specs@.len());
            assert(self.specs.len() == self.specs@.len());
        }
        self.next = self.next + 1;
        let replaces: bool = match (&self.verdict, &verdict) {
            (HookVerdict::Deny { .. }, _) => false,
            (_, HookVerdict::Deny { .. }) => true,
            (HookVerdict::Warn { .. }, _) => false,
            (_, HookVerdict::Allow) => false,
            _ => true,
        };
        if replaces {
            self.verdict = verdict;
        }
        proof {
            if !(self.verdict@ is Deny) {
                assert(self@.left =~= before.left.skip(1));
            }
        }
    }

    /// The verdict of the hooks that have run.
    pub fn verdict(&self) -> (r: HookVerdict)
        ensures
            r@ == self@.verdict,
    {
        self.verdict.duplicate()
    }
}

// ----------------------------------------------------------------- audit log

/// How many records the audit log keeps.
pub const MAX_AUDIT_RECORDS: usize = 4096;

/// One run of a hook.
#[derive(Debug, Clone, PartialEq, Eq)]
pub struct HookAuditRecord {
    pub hook_id: String,
    pub event: HookEvent,
    pub started_ms: i64,
    pub duration_ms: u64,
    pub verdict: String,
    pub exit_code: Option<i32>,
    pub stdout_head: String,
    pub stderr_head: String,
    pub failure_policy: FailurePolicy,
}

/// A [`HookAuditRecord`] by its contents.
pub struct AuditView {
    pub hook_id: Seq<char>,
    pub event: HookEvent,
    pub started_ms: i64,
    pub duration_ms: u64,
    pub verdict: Seq<char>,
    pub exit_code: Option<i32>,
    pub stdout_head: Seq<char>,
    pub stderr_head: Seq<char>,
    pub failure_policy: FailurePolicy,
}

impl View for HookAuditRecord {
    type V = AuditView;

    open spec fn view(&self) -> AuditView {
        AuditView {
            hook_id: self.hook_id@,
            event: self.event,
            started_ms: self.started_ms,
            duration_ms: self.duration_ms,
            verdict: self.verdict@,
            exit_code: self.exit_code,
            stdout_head: self.stdout_head@,
            stderr_head: self.stderr_head@,
            failure_policy: self.failure_policy,
        }
    }
}

impl HookAuditRecord {
    /// The same record once more.
    pub fn duplicate(&self) -> (r: Self)
        ensures
            r@ == self@,
    {
        HookAuditRecord {
            hook_id: self.hook_id.as_str().to_owned(),
            event: self.event,
            started_ms: self.started_ms,
            duration_ms: self.duration_ms,
            verdict: self.verdict.as_str().to_owned(),
            exit_code: self.exit_code,
            stdout_head: self.stdout_head.as_str().to_owned(),
            stderr_head: self.stderr_head.as_str().to_owned(),
            failure_policy: self.failure_policy,
        }
    }
}

/// What the audit log keeps of a stream: its head, and an ellipsis where more
/// came.
pub open spec fn audited_head(head: Seq<char>, truncated: bool) -> Seq<char> {
    if truncated {
        head.push('\u{2026}')
    } else {
        head
    }
}

fn audit_head(head: &str, truncated: bool) -> (r: String)
    ensures
        r@ == audited_head(head@, truncated),
{
    let mut out: String = head.to_owned();
    if truncated {
        out.push('\u{2026}');
    }
    out
}

/// The record of a run.
pub open spec fn record_of(
    spec: SpecView,
    event: HookEvent,
    envelope: CapabilitySet,
    report: HookReport,
    started_ms: i64,
    duration_ms: u64,
) -> AuditView {
    let counts = due(spec, envelope, report);
    AuditView {
        hook_id: spec.id,
        event,
        started_ms,
        duration_ms,
        verdict: tag_of(outcome_of(spec, envelope, report)),
        exit_code: match counts {
            HookReport::Ran { output, .. } => output.exit_code,
            _ => None,
        },
        stdout_head: match counts {
            HookReport::Ran { output, .. } => audited_head(
                output.stdout_head@,
                output.stdout_truncated,
            ),
            _ => Seq::empty(),
        },
        stderr_head: match counts {
            HookReport::Ran { output, .. } => audited_head(
                output.stderr_head@,
                output.stderr_truncated,
            ),
            _ => Seq::empty(),
        },
        failure_policy: spec.failure_policy,
    }
}

/// The records in `list`.
pub open spec fn audit_views(list: Seq<HookAuditRecord>) -> Seq<AuditView> {
    Seq::new(list.len(), |i: int| list[i]@)
}

/// The log with one record more: the oldest one leaves where it is full.
pub open spec fn logged(log: Seq<AuditView>, record: AuditView) -> Seq<AuditView> {
    if log.len() >= MAX_AUDIT_RECORDS {
        log.push(record).skip(log.len() + 1 - MAX_AUDIT_RECORDS)
    } else {
        log.push(record)
    }
}

// ------------------------------------------------------------------ registry

/// The registered hooks, what they may do, and what came of them.
#[derive(Debug)]
pub struct HookRegistry {
    specs: Vec<HookSpec>,
    audit: Vec<HookAuditRecord>,
    envelope: CapabilitySet,
}

/// A [`HookRegistry`] by its contents.
pub struct RegistryView {
    pub specs: Seq<SpecView>,
    pub audit: Seq<AuditView>,
    pub envelope: CapabilitySet,
}

impl View for HookRegistry {
    type V = RegistryView;

    closed spec fn view(&self) -> RegistryView {
        RegistryView {
            specs: spec_views(self.specs@),
            audit: audit_views(self.audit@),
            envelope: self.envelope,
        }
    }
}

/// Some hook has this id.
pub open spec fn has_id(specs: Seq<SpecView>, id: Seq<char>) -> bool {
    exists|i: int| 0 <= i < specs.len() && (#[trigger] specs[i]).id == id
}

/// No two hooks have the same id.
pub open spec fn distinct(specs: Seq<SpecView>) -> bool {
    forall|i: int, j: int|
        0 <= i < j < specs.len() ==> (#[trigger] specs[i]).id != (#[trigger] specs[j]).id
}

/// A hook that could be registered: its id, its command and its deadline are
/// within their bounds.
pub open spec fn sound_spec(spec: SpecView) -> bool {
    &&& 1 <= text::byte_len(spec.id) <= 128
    &&& 1 <= text::byte_len(spec.command) <= 4096
    &&& 1 <= spec.deadline_ms <= 300000
}

/// Why a hook is not registered.
pub open spec fn registration_fault(specs: Seq<SpecView>, spec: SpecView) -> Option<Seq<char>> {
    if text::byte_len(spec.id) == 0 || text::byte_len(spec.id) > 128 {
        Some("hook id must be 1..=128 bytes"@)
    } else if text::byte_len(spec.command) == 0 || text::byte_len(spec.command) > 4096 {
        Some("hook command must be 1..=4096 bytes"@)
    } else if spec.deadline_ms == 0 || spec.deadline_ms > 300000 {
        Some("hook deadline must be in (0, 300000] ms"@)
    } else if has_id(specs, spec.id) {
        Some("duplicate hook id "@ + spec.id)
    } else {
        None
    }
}

/// The hooks for an event, in the order of their registration.
pub open spec fn for_event(specs: Seq<SpecView>, event: HookEvent) -> Seq<SpecView>
    decreases specs.len(),
{
    if specs.len() == 0 {
        Seq::empty()
    } else if specs.last().events.contains(event) {
        for_event(specs.drop_last(), event).push(specs.last())
    } else {
        for_event(specs.drop_last(), event)
    }
}

fn listens(spec: &HookSpec, event: HookEvent) -> (r: bool)
    ensures
        r == spec@.events.contains(event),
{
    let mut i: usize = 0;
    while i < spec.events.len()
        invariant
            i <= spec.events.len(),
            forall|j: int| 0 <= j < i ==> spec.events@[j] != event,
        decreases spec.events.len() - i,
    {
        if spec.events[i] == event {
            return true;
        }
        i = i + 1;
    }
    false
}

impl HookRegistry {
    /// Registered hooks are sound and have ids of their own, and the log is
    /// within its bound.
    pub open spec fn well_formed(&self) -> bool {
        &&& distinct(self@.specs)
        &&& forall|i: int| 0 <= i < self@.specs.len() ==> sound_spec(#[trigger] self@.specs[i])
        &&& self@.audit.len() <= MAX_AUDIT_RECORDS
    }

    /// A registry without hooks, whose hooks may do what is in `envelope`.
    pub fn new(envelope: CapabilitySet) -> (r: Self)
        ensures
            r.well_formed(),
            r@.specs == Seq::<SpecView>::empty(),
            r@.audit == Seq::<AuditView>::empty(),
            r@.envelope == envelope,
    {
        let r: HookRegistry = HookRegistry { specs: Vec::new(), audit: Vec::new(), envelope };
        proof {
            assert(r@.specs =~= Seq::<SpecView>::empty());
            assert(r@.audit =~= Seq::<AuditView>::empty());
        }
        r
    }

    /// Registers a hook.
    pub fn register(&mut self, spec: HookSpec) -> (r: Result<(), String>)
        requires
            old(self).well_formed(),
        ensures
            final(self).well_formed(),
            match registration_fault(old(self)@.specs, spec@) {
                Some(m) => (r matches Err(s) && s@ == m) && final(self)@ == old(self)@,
                None => r is Ok && final(self)@ == (RegistryView {
                    specs: old(self)@.specs.push(spec@),
                    ..old(self)@
                }),
            },
    {
        let ghost before = self@;
        let id_len: usize = text::str_len(spec.id.as_str());
        if id_len == 0 || id_len > 128 {
            return Err("hook id must be 1..=128 bytes".to_owned());
        }
        let command_len: usize = text::str_len(spec.command.as_str());
        if command_len == 0 || command_len > 4096 {
            return Err("hook command must be 1..=4096 bytes".to_owned());
        }
        if spec.deadline_ms == 0 || spec.deadline_ms > 300000 {
            return Err("hook deadline must be in (0, 300000] ms".to_owned());
        }
        let mut i: usize = 0;
        while i < self.specs.len()
            invariant
                i <= self.specs.len(),
                self@ == before,
                before == old(self)@,
                old(self).well_formed(),
                sound_spec(spec@),
                forall|j: int| 0 <= j < i ==> (#[trigger] before.specs[j]).id != spec@.id,
            decreases self.specs.len() - i,
        {
            proof {
                assert(before.specs[i as int] == self.specs@[i as int]@);
            }
            if self.specs[i].id == spec.id {
                proof {
                    assert(has_id(before.specs, spec@.id));
                }
                return Err(text::cat2("duplicate hook id ", spec.id.as_str()));
            }
            i = i + 1;
        }
        self.specs.push(spec);
        proof {
            assert(self@.specs =~= before.specs.push(spec@));
            assert(self@.audit =~= before.audit);
            assert forall|a: int, b: int| 0 <= a < b < self@.specs.len() implies (
            #[trigger] self@.specs[a]).id != (#[trigger] self@.specs[b]).id by {
                if b == before.specs.len() {
                    assert(before.specs[a].id != spec@.id);
                } else {
                    assert(before.specs[a].id != before.specs[b].id);
                }
            }
        }
        Ok(())
    }

    /// The hooks for an event, in the order of their registration.
    pub fn matching(&self, event: HookEvent) -> (r: Vec<HookSpec>)
        ensures
            spec_views(r@) == for_event(self@.specs, event),
            forall|i: int| 0 <= i < r@.len() ==> (#[trigger] r@[i])@.events.contains(event),
    {
        let ghost all = self@.specs;
        let mut out: Vec<HookSpec> = Vec::new();
        let mut i: usize = 0;
        proof {
            assert(all.take(0) =~= Seq::<SpecView>::empty());
            assert(spec_views(out@) =~= Seq::<SpecView>::empty());
        }
        while i < self.specs.len()
            invariant
                i <= self.specs.len(),
                all == spec_views(self.specs@),
                spec_views(out@) == for_event(all.take(i as int), event),
            decreases self.specs.len() - i,
        {
            let ghost before = spec_views(out@);
            proof {
                assert(all.take(i as int + 1).drop_last() =~= all.take(i as int));
                assert(all.take(i as int + 1).last() == self.specs@[i as int]@);
            }
            if listens(&self.specs[i], event) {
                out.push(self.specs[i].duplicate());
                proof {
                    assert(spec_views(out@) =~= before.push(self.specs@[i as int]@));
                }
            }
            i = i + 1;
        }
        proof {
            assert(all.take(i as int) =~= all);
            law_a_hook_is_given_for_the_events_it_lists(all, event);
            assert forall|k: int| 0 <= k < out@.len() implies (
            #[trigger] out@[k])@.events.contains(event) by {
                assert(spec_views(out@)[k] == out@[k]@);
            }
        }
        out
    }

    /// A run of the hooks for an event.
    pub fn run(&self, event: HookEvent) -> (r: HookRun)
        ensures
            r@ == (RunView {
                left: for_event(self@.specs, event),
                verdict: VerdictView::Allow,
            }),
    {
        HookRun::new(self.matching(event))
    }

    /// What starting a hook comes to: the process to be started, or nothing where
    /// the scope of the hook is not granted. `input` is what the hook is told: it
    /// reaches the process as JSON text in its environment.
    pub fn start(&self, spec: &HookSpec, input: &HookInput) -> (r: Option<HookSpawn>)
        ensures
            r is Some <==> scope_granted(spec@, self@.envelope),
            r matches Some(p) ==> {
                &&& p.command@ == spec@.command
                &&& text::strings(p.args@) == spec@.args
                &&& pairs(p.env@) == environment(spec@, json::text_of(input_json_of(*input)))
                &&& p.owner == owner_of(input.session_id)
                &&& p.deadline_ms == spec@.deadline_ms
                &&& p.stdout_cap == spec@.stdout_cap
                &&& p.stderr_cap == spec@.stderr_cap
            },
    {
        if !self.in_scope(spec) {
            return None;
        }
        Some(
            HookSpawn {
                command: spec.command.as_str().to_owned(),
                args: copy_strings(&spec.args),
                env: env_entries(spec, input_json(input).to_text().as_str()),
                owner: process_owner(input),
                deadline_ms: spec.deadline_ms,
                stdout_cap: spec.stdout_cap,
                stderr_cap: spec.stderr_cap,
            },
        )
    }

    /// Whether the hook may be started: its scope is within the envelope.
    pub fn in_scope(&self, spec: &HookSpec) -> (r: bool)
        ensures
            r == spec.permission_scope.within(&self@.envelope),
    {
        spec.permission_scope.is_subset_of(&self.envelope)
    }

    /// Decides what a hook has said, from what came of it, and records the run.
    pub fn run_one(
        &mut self,
        spec: &HookSpec,
        event: HookEvent,
        report: HookReport,
        started_ms: i64,
        duration_ms: u64,
    ) -> (r: HookVerdict)
        requires
            old(self).well_formed(),
        ensures
            final(self).well_formed(),
            r@ == outcome_of(spec@, old(self)@.envelope, report),
            final(self)@ == (RegistryView {
                audit: logged(
                    old(self)@.audit,
                    record_of(
                        spec@,
                        event,
                        old(self)@.envelope,
                        report,
                        started_ms,
                        duration_ms,
                    ),
                ),
                ..old(self)@
            }),
    {
        let ghost before = self@;
        let outcome: HookVerdict = hook_outcome(spec, &self.envelope, &report);
        let granted: bool = self.in_scope(spec);
        let (exit_code, stdout_head, stderr_head): (Option<i32>, String, String) = match &report {
            HookReport::Ran { output, .. } if granted => (
                output.exit_code,
                audit_head(output.stdout_head.as_str(), output.stdout_truncated),
                audit_head(output.stderr_head.as_str(), output.stderr_truncated),
            ),
            _ => {
                let none: String = String::new();
                let nothing: String = String::new();
                proof {
                    assert(none@ =~= Seq::<char>::empty());
                    assert(nothing@ =~= Seq::<char>::empty());
                }
                (None, none, nothing)
            },
        };
        let record: HookAuditRecord = HookAuditRecord {
            hook_id: spec.id.as_str().to_owned(),
            event,
            started_ms,
            duration_ms,
            verdict: verdict_tag(&outcome),
            exit_code,
            stdout_head,
            stderr_head,
            failure_policy: spec.failure_policy,
        };
        self.audit.push(record);
        proof {
            assert(self@.audit =~= before.audit.push(record@));
        }
        if self.audit.len() > MAX_AUDIT_RECORDS {
            let _oldest: HookAuditRecord = self.audit.remove(0);
            proof {
                assert(self@.audit =~= before.audit.push(record@).skip(1));
            }
        }
        proof {
            assert(self@.specs =~= before.specs);
        }
        outcome
    }

    /// The records of the audit log, oldest first.
    pub fn audit(&self) -> (r: Vec<HookAuditRecord>)
        ensures
            audit_views(r@) == self@.audit,
    {
        let ghost all = self@.audit;
        let mut out: Vec<HookAuditRecord> = Vec::new();
        let mut i: usize = 0;
        while i < self.audit.len()
            invariant
                i <= self.audit.len(),
                all == audit_views(self.audit@),
                audit_views(out@) == all.take(i as int),
            decreases self.audit.len() - i,
        {
            let ghost before = audit_views(out@);
            out.push(self.audit[i].duplicate());
            i = i + 1;
            proof {
                assert(audit_views(out@) =~= before.push(self.audit@[i as int - 1]@));
                assert(all.take(i as int) =~= before.push(all[i as int - 1]));
            }
        }
        proof {
            assert(all.take(i as int) =~= all);
        }
        out
    }
}

/// A hook whose scope is not granted is refused whatever is reported of it: its
/// failure policy decides, and its record holds no exit code and no output.
pub proof fn law_a_scope_beyond_the_envelope_is_refused(
    spec: SpecView,
    event: HookEvent,
    envelope: CapabilitySet,
    report: HookReport,
    started_ms: i64,
    duration_ms: u64,
)
    requires
        !scope_granted(spec, envelope),
    ensures
        ({
            let verdict = outcome_of(spec, envelope, report);
            let record = record_of(spec, event, envelope, report, started_ms, duration_ms);
            &&& spec.failure_policy == FailurePolicy::FailClosed ==> verdict is Deny
            &&& spec.failure_policy != FailurePolicy::FailClosed ==> verdict is Warn
            &&& verdict == outcome_of(spec, envelope, HookReport::OutOfScope)
            &&& record.verdict == tag_of(verdict)
            &&& record.exit_code is None
            &&& record.stdout_head.len() == 0
            &&& record.stderr_head.len() == 0
        }),
{
}

/// The log grows by the record of the run, at its end, and never beyond its bound;
/// what leaves is the oldest.
pub proof fn law_every_run_is_recorded_once(log: Seq<AuditView>, record: AuditView)
    requires
        log.len() <= MAX_AUDIT_RECORDS,
    ensures
        logged(log, record).len() <= MAX_AUDIT_RECORDS,
        logged(log, record).len() >= 1,
        logged(log, record).last() == record,
        log.len() < MAX_AUDIT_RECORDS ==> logged(log, record).drop_last() == log,
        log.len() == MAX_AUDIT_RECORDS ==> logged(log, record).drop_last() == log.skip(1),
{
    let next = logged(log, record);
    if log.len() < MAX_AUDIT_RECORDS {
        assert(next.drop_last() =~= log);
    } else {
        assert(next.drop_last() =~= log.skip(1));
    }
}

/// A hook that lists the event among its events.
pub open spec fn listing(event: HookEvent) -> spec_fn(SpecView) -> bool {
    |s: SpecView| exists|k: int| 0 <= k < s.events.len() && #[trigger] s.events[k] == event
}

/// Every hook that is given for an event lists that event, and every registered
/// hook that lists the event is given, once and in the order of registration.
pub proof fn law_a_hook_is_given_for_the_events_it_lists(specs: Seq<SpecView>, event: HookEvent)
    ensures
        for_event(specs, event) == specs.filter(listing(event)),
        forall|i: int|
            0 <= i < for_event(specs, event).len() ==> (#[trigger] for_event(
                specs,
                event,
            )[i]).events.contains(event),
        forall|i: int|
            0 <= i < specs.len() && (#[trigger] specs[i]).events.contains(event) ==> for_event(
                specs,
                event,
            ).contains(specs[i]),
    decreases specs.len(),
{
    reveal(Seq::filter);
    if specs.len() > 0 {
        let rest = specs.drop_last();
        let last = specs.last();
        law_a_hook_is_given_for_the_events_it_lists(rest, event);
        if last.events.contains(event) {
            let k = choose|k: int| 0 <= k < last.events.len() && last.events[k] == event;
            assert(last.events[k] == event);
        }
        assert(listing(event)(last) <==> last.events.contains(event));
        let given = for_event(specs, event);
        let before = for_event(rest, event);
        assert forall|i: int| 0 <= i < given.len() implies (#[trigger] given[i]).events.contains(
            event,
        ) by {
            if i < before.len() {
                assert(given[i] == before[i]);
            }
        }
        assert forall|i: int|
            0 <= i < specs.len() && (#[trigger] specs[i]).events.contains(event) implies given.contains(
            specs[i],
        ) by {
            if i < rest.len() {
                assert(rest[i] == specs[i]);
                let k = choose|k: int| 0 <= k < before.len() && before[k] == specs[i];
                assert(given[k] == specs[i]);
            } else {
                assert(given[given.len() - 1] == specs[i]);
            }
        }
    }
}

/// A hook that ran within its deadline and its scope speaks for itself: its
/// verdict stands as it is; without one it allows where it ended well, and else
/// its failure policy decides.
pub proof fn law_a_hook_speaks_for_itself(
    spec: SpecView,
    envelope: CapabilitySet,
    output: ProcessOutput,
    verdict: Option<HookVerdict>,
)
    requires
        scope_granted(spec, envelope),
        !output.timed_out,
    ensures
        ({
            let r = outcome_of(spec, envelope, HookReport::Ran { output, verdict });
            &&& verdict matches Some(v) ==> r == v@
            &&& verdict is None && output.exit_code == Some(0i32) ==> r == VerdictView::Allow
            &&& verdict is None && output.exit_code != Some(0i32) && spec.failure_policy
                == FailurePolicy::FailClosed ==> r is Deny
            &&& verdict is None && output.exit_code != Some(0i32) && spec.failure_policy
                != FailurePolicy::FailClosed ==> r is Warn
        }),
{
}

/// A hook that failed denies or warns, as its policy says, and the reason names
/// the hook and, in a warning, what failed.
pub proof fn law_a_failure_names_the_hook(
    spec: SpecView,
    envelope: CapabilitySet,
    output: ProcessOutput,
    verdict: Option<HookVerdict>,
    said: String,
)
    requires
        scope_granted(spec, envelope),
        output.timed_out,
    ensures
        ({
            let killed = outcome_of(spec, envelope, HookReport::Ran { output, verdict });
            let unstarted = outcome_of(spec, envelope, HookReport::NotStarted(said));
            let refused = outcome_of(spec, envelope, HookReport::OutOfScope);
            let late = "hook "@ + spec.id + " exceeded the "@ + text::decimal(
                spec.deadline_ms as nat,
            ) + " ms deadline and was killed"@;
            let opened = "hook "@ + spec.id + " failed open: Warn { reason: "@;
            &&& spec.failure_policy == FailurePolicy::FailClosed ==> killed == VerdictView::Deny(
                "hook "@ + spec.id + " failed closed"@,
            ) && unstarted == killed && refused == killed
            &&& spec.failure_policy != FailurePolicy::FailClosed ==> killed == VerdictView::Warn(
                opened + text::debug_of(late) + " }"@,
            ) && unstarted == VerdictView::Warn(
                opened + text::debug_of("spawn: "@ + said@) + " }"@,
            )
        }),
{
}

/// Whether a scope is granted is decided capability by capability.
pub proof fn law_each_capability_must_be_granted(spec: SpecView, envelope: CapabilitySet, bit: u64)
    requires
        bit < 64,
        (1u64 << bit) & spec.scope_bits != 0,
        (1u64 << bit) & envelope.bits == 0,
    ensures
        !scope_granted(spec, envelope),
{
    let x = spec.scope_bits;
    let y = envelope.bits;
    assert((1u64 << bit) & x != 0 && (1u64 << bit) & y == 0 ==> x & !y != 0) by (bit_vector);
}

/// A scope whose capabilities are all in the envelope is granted.
pub proof fn law_a_granted_scope_is_granted(spec: SpecView, envelope: CapabilitySet)
    requires
        spec.scope_bits | envelope.bits == envelope.bits,
    ensures
        scope_granted(spec, envelope),
{
    let x = spec.scope_bits;
    let y = envelope.bits;
    assert(x | y == y ==> x & !y == 0) by (bit_vector);
}

/// A line that opens an object.
pub open spec fn opens_object() -> spec_fn(Seq<char>) -> bool {
    |line: Seq<char>| line.len() > 0 && line[0] == '{'
}

/// A verdict is looked for in the first 64 lines of an output: in those that open
/// an object, each without the white space around it, in their order.
pub proof fn law_a_verdict_stands_on_a_line_of_its_own(out: Seq<char>)
    ensures
        ({
            let lines = text::lines_of(out);
            let first = lines.take(
                if lines.len() < 64 {
                    lines.len() as int
                } else {
                    64
                },
            );
            candidates(searched(out)) == first.map_values(
                |l: Seq<char>| text::trim(l),
            ).filter(opens_object())
        }),
{
    lemma_candidates_are(searched(out));
}

proof fn lemma_candidates_are(lines: Seq<Seq<char>>)
    ensures
        candidates(lines) == lines.map_values(|l: Seq<char>| text::trim(l)).filter(opens_object()),
    decreases lines.len(),
{
    reveal(Seq::filter);
    let f = |l: Seq<char>| text::trim(l);
    if lines.len() > 0 {
        lemma_candidates_are(lines.drop_last());
        assert(lines.map_values(f).drop_last() =~= lines.drop_last().map_values(f));
        assert(lines.map_values(f).last() == text::trim(lines.last()));
    }
}

/// The first line that reads as a verdict decides.
pub proof fn law_the_first_verdict_decides(parsed: Seq<Option<HookVerdict>>, n: int)
    requires
        0 <= n <= parsed.len(),
        forall|i: int| 0 <= i < n ==> (#[trigger] parsed[i]) is None,
    ensures
        n < parsed.len() ==> (parsed[n] matches Some(v) ==> first_of(parsed) == Some(v@)),
        n == parsed.len() ==> first_of(parsed) is None,
    decreases n,
{
    if n > 0 {
        let rest = parsed.skip(1);
        assert(parsed[0] is None);
        assert forall|i: int| 0 <= i < n - 1 implies (#[trigger] rest[i]) is None by {
            assert(rest[i] == parsed[i + 1]);
        }
        if n < parsed.len() {
            assert(rest[n - 1] == parsed[n]);
        }
        law_the_first_verdict_decides(rest, n - 1);
    }
}

/// A hook with an allowlist sees the variables of its configuration, in order,
/// and its input last. Without one it also sees eight harmless ones, without
/// values of their own.
pub proof fn law_a_hook_sees_its_input_last(spec: SpecView, input: Seq<char>)
    ensures
        spec.env_allowlist ==> environment(spec, input) == spec.env.push(
            ("FAKTOR_HOOK_INPUT"@, input),
        ),
        !spec.env_allowlist ==> environment(spec, input) == seq![
            ("HOME"@, Seq::<char>::empty()),
            ("PATH"@, Seq::empty()),
            ("LANG"@, Seq::empty()),
            ("LC_ALL"@, Seq::empty()),
            ("TZ"@, Seq::empty()),
            ("TERM"@, Seq::empty()),
            ("USER"@, Seq::empty()),
            ("SHELL"@, Seq::empty()),
        ] + spec.env.push(("FAKTOR_HOOK_INPUT"@, input)),
{
    if spec.env_allowlist {
        assert(environment(spec, input) =~= spec.env.push(("FAKTOR_HOOK_INPUT"@, input)));
    } else {
        assert(environment(spec, input) =~= seq![
            ("HOME"@, Seq::<char>::empty()),
            ("PATH"@, Seq::empty()),
            ("LANG"@, Seq::empty()),
            ("LC_ALL"@, Seq::empty()),
            ("TZ"@, Seq::empty()),
            ("TERM"@, Seq::empty()),
            ("USER"@, Seq::empty()),
            ("SHELL"@, Seq::empty()),
        ] + spec.env.push(("FAKTOR_HOOK_INPUT"@, input)));
    }
}

/// A session that is named by its number owns the process; where no session is
/// named, or not by a number, the daemon does.
pub proof fn law_a_named_session_owns_the_process(session: Option<String>, n: u64)
    ensures
        session is None ==> owner_of(session) == ProcessOwner::Daemon,
        session matches Some(s) ==> (s@ == text::decimal(n as nat) ==> owner_of(session)
            == ProcessOwner::Session(SessionId(n))),
        session matches Some(s) ==> (s@.len() == 0 || !('0' <= s@.last() <= '9') ==> owner_of(session)
            == ProcessOwner::Daemon),
{
    text::law_decimals_read_back(n as nat, u64::MAX as nat);
    if let Some(s) = session {
        if s@.len() > 0 && !('0' <= s@.last() <= '9') {
            text::law_only_digits_are_numbers(s@, u64::MAX as nat, s@.len() - 1);
        }
    }
}

/// What a hook is told holds its event and its ids by name, and its payload.
#[verifier::rlimit(20)]
pub proof fn law_a_hook_is_told_all_of_its_input(input: HookInput)
    ensures
        ({
            let told = input_json_of(input);
            &&& told.get("event"@) == Some(json::JsonView::Text(event_name_of(input.event)))
            &&& told.get("payload"@) == Some(input.payload@)
            &&& told.get("session_id"@) == Some(
                match input.session_id {
                    Some(s) => json::JsonView::Text(s@),
                    None => json::JsonView::Null,
                },
            )
            &&& told.get("task_id"@) == Some(
                match input.task_id {
                    Some(s) => json::JsonView::Text(s@),
                    None => json::JsonView::Null,
                },
            )
            &&& told.get("operation_id"@) == Some(
                match input.operation_id {
                    Some(s) => json::JsonView::Text(s@),
                    None => json::JsonView::Null,
                },
            )
        }),
{
    let m = input_json_of(input)->Object_0;
    reveal_with_fuel(json::member, 6);
    reveal_strlit("event");
    reveal_strlit("session_id");
    reveal_strlit("task_id");
    reveal_strlit("operation_id");
    reveal_strlit("payload");
    assert("task_id"@[0] == 't' && "payload"@[0] == 'p' && "payload"@.len() == 7);
    assert("event"@.len() == 5 && "session_id"@.len() == 10 && "operation_id"@.len() == 12);
    assert("task_id"@.len() == 7);
    let m4 = m.drop_last();
    let m3 = m4.drop_last();
    let m2 = m3.drop_last();
    let m1 = m2.drop_last();
    assert(m.last() == m[4] && m4.last() == m[3] && m3.last() == m[2] && m2.last() == m[1]
        && m1.last() == m[0]);
}

/// How the events are named.
pub proof fn law_events_have_names_of_their_own(event: HookEvent)
    ensures
        event_name_of(event) == (match event {
            HookEvent::SessionStart => "session_start"@,
            HookEvent::SessionResume => "session_resume"@,
            HookEvent::SessionEnd => "session_end"@,
            HookEvent::TaskStart => "task_start"@,
            HookEvent::TaskComplete => "task_complete"@,
            HookEvent::PreModel => "pre_model"@,
            HookEvent::PostModel => "post_model"@,
            HookEvent::PreTool => "pre_tool"@,
            HookEvent::PostTool => "post_tool"@,
            HookEvent::ToolError => "tool_error"@,
            HookEvent::PreEdit => "pre_edit"@,
            HookEvent::PostEdit => "post_edit"@,
            HookEvent::PreCommit => "pre_commit"@,
            HookEvent::SubagentStart => "subagent_start"@,
            HookEvent::SubagentStop => "subagent_stop"@,
            HookEvent::AgentError => "agent_error"@,
            HookEvent::AgentStop => "agent_stop"@,
        }),
        all_events().contains(event),
        all_events().len() == 17,
{
    let k: int = match event {
        HookEvent::SessionStart => 0,
        HookEvent::SessionResume => 1,
        HookEvent::TaskStart => 2,
        HookEvent::PreModel => 3,
        HookEvent::PostModel => 4,
        HookEvent::PreTool => 5,
        HookEvent::PostTool => 6,
        HookEvent::ToolError => 7,
        HookEvent::PreEdit => 8,
        HookEvent::PostEdit => 9,
        HookEvent::PreCommit => 10,
        HookEvent::SubagentStart => 11,
        HookEvent::SubagentStop => 12,
        HookEvent::AgentError => 13,
        HookEvent::AgentStop => 14,
        HookEvent::TaskComplete => 15,
        HookEvent::SessionEnd => 16,
    };
    assert(all_events()[k] == event);
}

/// A hook is registered exactly where its id, its command and its deadline are
/// within their bounds and no hook has that id yet.
pub proof fn law_sound_hooks_are_registered(specs: Seq<SpecView>, spec: SpecView)
    ensures
        registration_fault(specs, spec) is None <==> {
            &&& 1 <= vstd::utf8::encode_utf8(spec.id).len() <= 128
            &&& 1 <= vstd::utf8::encode_utf8(spec.command).len() <= 4096
            &&& 1 <= spec.deadline_ms <= 300000
            &&& forall|i: int| 0 <= i < specs.len() ==> (#[trigger] specs[i]).id != spec.id
        },
{
    text::lemma_byte_len_encode(spec.id);
    text::lemma_byte_len_encode(spec.command);
}

/// The record of a run tells the hook, the event, when it ran and what it said. A
/// stream of which more came than was kept is marked at its end.
pub proof fn law_a_record_tells_what_came(
    spec: SpecView,
    event: HookEvent,
    envelope: CapabilitySet,
    output: ProcessOutput,
    verdict: Option<HookVerdict>,
    started_ms: i64,
    duration_ms: u64,
)
    requires
        scope_granted(spec, envelope),
    ensures
        ({
            let report = HookReport::Ran { output, verdict };
            let outcome = outcome_of(spec, envelope, report);
            let r = record_of(spec, event, envelope, report, started_ms, duration_ms);
            &&& r.hook_id == spec.id
            &&& r.event == event
            &&& r.started_ms == started_ms
            &&& r.duration_ms == duration_ms
            &&& r.failure_policy == spec.failure_policy
            &&& r.exit_code == output.exit_code
            &&& outcome is Allow ==> r.verdict == "allow"@
            &&& outcome is Deny ==> r.verdict == "deny"@
            &&& outcome is Warn ==> r.verdict == "warn"@
            &&& outcome is Modify ==> r.verdict == "modify"@
            &&& !output.stdout_truncated ==> r.stdout_head == output.stdout_head@
            &&& !output.stderr_truncated ==> r.stderr_head == output.stderr_head@
            &&& output.stdout_truncated ==> r.stdout_head == output.stdout_head@ + "\u{2026}"@
            &&& output.stderr_truncated ==> r.stderr_head == output.stderr_head@ + "\u{2026}"@
        }),
{
    reveal_strlit("\u{2026}");
    assert(output.stdout_head@.push('\u{2026}') =~= output.stdout_head@ + "\u{2026}"@);
    assert(output.stderr_head@.push('\u{2026}') =~= output.stderr_head@ + "\u{2026}"@);
}

/// A hook is what its parts are.
pub proof fn law_a_hook_is_its_parts(spec: HookSpec, i: int)
    ensures
        spec@.id == spec.id@,
        spec@.events == spec.events@,
        spec@.command == spec.command@,
        spec@.args.len() == spec.args@.len(),
        0 <= i < spec.args@.len() ==> spec@.args[i] == spec.args@[i]@,
        spec@.env.len() == spec.env@.len(),
        0 <= i < spec.env@.len() ==> spec@.env[i] == (spec.env@[i].0@, spec.env@[i].1@),
        spec@.env_allowlist == spec.env_allowlist,
        spec@.deadline_ms == spec.deadline_ms,
        spec@.stdout_cap == spec.stdout_cap,
        spec@.stderr_cap == spec.stderr_cap,
        spec@.failure_policy == spec.failure_policy,
        spec@.scope_bits == spec.permission_scope.bits,
        spec@.scope_shown == spec.permission_scope.shown@,
{
}

/// A hook that ended without a verdict, other than well, is told with its exit
/// code.
pub proof fn law_a_bad_end_is_told_with_its_code(
    spec: SpecView,
    envelope: CapabilitySet,
    output: ProcessOutput,
)
    requires
        scope_granted(spec, envelope),
        !output.timed_out,
        output.exit_code != Some(0i32),
        spec.failure_policy != FailurePolicy::FailClosed,
    ensures
        ({
            let code = match output.exit_code {
                None => "None"@,
                Some(n) => "Some("@ + text::signed_decimal(n as int) + ")"@,
            };
            outcome_of(spec, envelope, HookReport::Ran { output, verdict: None })
                == VerdictView::Warn(
                "hook "@ + spec.id + " failed open: Warn { reason: "@ + text::debug_of(
                    "hook "@ + spec.id + " exited "@ + code + " without a verdict"@,
                ) + " }"@,
            )
        }),
{
}

/// The log keeps the last 4096 runs.
pub proof fn law_the_log_keeps_the_last_runs(log: Seq<AuditView>, record: AuditView)
    ensures
        log.len() < 4096 ==> logged(log, record) == log.push(record),
        log.len() == 4096 ==> logged(log, record) == log.skip(1).push(record),
{
    if log.len() == 4096 {
        assert(log.push(record).skip(1) =~= log.skip(1).push(record));
    }
}

} // verus!
