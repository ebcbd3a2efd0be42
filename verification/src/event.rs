//! One hook event, as it reaches us.
//!
//! The hook already dropped everything that is not on its allowlist, so this is
//! only naming what survived. It classifies and it never interprets: what an
//! event *means* for a lane lives in [`crate::state`], so the meaning can change
//! without the wire format or the registered command string changing with it.

use vstd::prelude::*;

use crate::agents::{Agent, Called, Name};
use crate::gauges::Gauges;
use crate::json::{
    Json, Tree, entry, flag_at, list_at, number_at, number_of, text_at, text_of, trees,
    trees_are_items,
};
use crate::text;

verus! {

/// The hook events we register. Anything else is recorded as unrecognised
/// rather than guessed at — a new agent release should show up as a number in
/// the window, not as behaviour nobody can explain.
#[derive(Debug, Clone, Copy, PartialEq, Eq, Structural)]
pub enum Kind {
    SessionStart,
    UserPromptSubmit,
    /// Registered for Codex only, and only for its question tool.
    PreToolUse,
    PostToolUse,
    PostToolUseFailure,
    PermissionRequest,
    PermissionDenied,
    Notification,
    SubagentStart,
    SubagentStop,
    Stop,
    StopFailure,
    SessionEnd,
    /// Numbers from the agent's status line, not a hook of its own.
    StatusLine,
}

impl Kind {
    pub open spec fn title(self) -> Seq<char> {
        match self {
            Kind::SessionStart => "SessionStart"@,
            Kind::UserPromptSubmit => "UserPromptSubmit"@,
            Kind::PreToolUse => "PreToolUse"@,
            Kind::PostToolUse => "PostToolUse"@,
            Kind::PostToolUseFailure => "PostToolUseFailure"@,
            Kind::PermissionRequest => "PermissionRequest"@,
            Kind::PermissionDenied => "PermissionDenied"@,
            Kind::Notification => "Notification"@,
            Kind::SubagentStart => "SubagentStart"@,
            Kind::SubagentStop => "SubagentStop"@,
            Kind::Stop => "Stop"@,
            Kind::StopFailure => "StopFailure"@,
            Kind::SessionEnd => "SessionEnd"@,
            Kind::StatusLine => "StatusLine"@,
        }
    }

    pub fn label(self) -> (name: &'static str)
        ensures
            name@ == self.title(),
    {
        match self {
            Kind::SessionStart => "SessionStart",
            Kind::UserPromptSubmit => "UserPromptSubmit",
            Kind::PreToolUse => "PreToolUse",
            Kind::PostToolUse => "PostToolUse",
            Kind::PostToolUseFailure => "PostToolUseFailure",
            Kind::PermissionRequest => "PermissionRequest",
            Kind::PermissionDenied => "PermissionDenied",
            Kind::Notification => "Notification",
            Kind::SubagentStart => "SubagentStart",
            Kind::SubagentStop => "SubagentStop",
            Kind::Stop => "Stop",
            Kind::StopFailure => "StopFailure",
            Kind::SessionEnd => "SessionEnd",
            Kind::StatusLine => "StatusLine",
        }
    }

    /// Every kind.
    pub open spec fn each() -> Seq<Kind> {
        seq![
            Kind::SessionStart,
            Kind::UserPromptSubmit,
            Kind::PreToolUse,
            Kind::PostToolUse,
            Kind::PostToolUseFailure,
            Kind::PermissionRequest,
            Kind::PermissionDenied,
            Kind::Notification,
            Kind::SubagentStart,
            Kind::SubagentStop,
            Kind::Stop,
            Kind::StopFailure,
            Kind::SessionEnd,
            Kind::StatusLine,
        ]
    }

    /// The kind with that name.
    pub fn parse(name: &str) -> (r: Option<Self>)
        ensures
            match r {
                Some(kind) => kind.title() == name@,
                None => forall|kind: Kind| (#[trigger] kind.title()) != name@,
            },
    {
        let each: Vec<Kind> = vec![
            Kind::SessionStart,
            Kind::UserPromptSubmit,
            Kind::PreToolUse,
            Kind::PostToolUse,
            Kind::PostToolUseFailure,
            Kind::PermissionRequest,
            Kind::PermissionDenied,
            Kind::Notification,
            Kind::SubagentStart,
            Kind::SubagentStop,
            Kind::Stop,
            Kind::StopFailure,
            Kind::SessionEnd,
            Kind::StatusLine,
        ];
        assert(each@ =~= Kind::each());
        let mut i: usize = 0;
        while i < each.len()
            invariant
                i <= each@.len(),
                each@ == Kind::each(),
                forall|j: int| 0 <= j < i ==> (#[trigger] each@[j]).title() != name@,
            decreases each@.len() - i,
        {
            if text::same(each[i].label(), name) {
                return Some(each[i]);
            }
            i = i + 1;
        }
        proof {
            assert forall|kind: Kind| (#[trigger] kind.title()) != name@ by {
                let all = Kind::each();
                let at: int = match kind {
                    Kind::SessionStart => 0,
                    Kind::UserPromptSubmit => 1,
                    Kind::PreToolUse => 2,
                    Kind::PostToolUse => 3,
                    Kind::PostToolUseFailure => 4,
                    Kind::PermissionRequest => 5,
                    Kind::PermissionDenied => 6,
                    Kind::Notification => 7,
                    Kind::SubagentStart => 8,
                    Kind::SubagentStop => 9,
                    Kind::Stop => 10,
                    Kind::StopFailure => 11,
                    Kind::SessionEnd => 12,
                    Kind::StatusLine => 13,
                };
                assert(all[at] == kind);
            }
        }
        None
    }
}

/// A kind's name, told by its length and its first two letters.
spec fn mark(kind: Kind) -> (nat, char, char) {
    match kind {
        Kind::SessionStart => (12, 'S', 'e'),
        Kind::UserPromptSubmit => (16, 'U', 's'),
        Kind::PreToolUse => (10, 'P', 'r'),
        Kind::PostToolUse => (11, 'P', 'o'),
        Kind::PostToolUseFailure => (18, 'P', 'o'),
        Kind::PermissionRequest => (17, 'P', 'e'),
        Kind::PermissionDenied => (16, 'P', 'e'),
        Kind::Notification => (12, 'N', 'o'),
        Kind::SubagentStart => (13, 'S', 'u'),
        Kind::SubagentStop => (12, 'S', 'u'),
        Kind::Stop => (4, 'S', 't'),
        Kind::StopFailure => (11, 'S', 't'),
        Kind::SessionEnd => (10, 'S', 'e'),
        Kind::StatusLine => (10, 'S', 't'),
    }
}

proof fn marked(kind: Kind)
    ensures
        mark(kind) == (kind.title().len(), kind.title()[0], kind.title()[1]),
{
    reveal_strlit("SessionStart");
    reveal_strlit("UserPromptSubmit");
    reveal_strlit("PreToolUse");
    reveal_strlit("PostToolUse");
    reveal_strlit("PostToolUseFailure");
    reveal_strlit("PermissionRequest");
    reveal_strlit("PermissionDenied");
    reveal_strlit("Notification");
    reveal_strlit("SubagentStart");
    reveal_strlit("SubagentStop");
    reveal_strlit("Stop");
    reveal_strlit("StopFailure");
    reveal_strlit("SessionEnd");
    reveal_strlit("StatusLine");
}

/// No two kinds share a name, so a name is one kind's or nobody's.
pub proof fn a_name_is_one_kind(left: Kind, right: Kind)
    requires
        left.title() == right.title(),
    ensures
        left == right,
{
    marked(left);
    marked(right);
}

/// One process above the agent, as the hook recorded it: the pid, and — when
/// the hook is new enough to send `ancestor_names` — the executable basename
/// that pid had at the moment of the event. The name is the recycling check:
/// at summon time a window only counts if its pid still resolves to this
/// executable. `None` (an old hook, or a process the snapshot had no row for)
/// falls back to the stricter terminal-class rule.
#[derive(Debug, Clone, PartialEq, Eq)]
pub struct Ancestor {
    pub pid: u32,
    pub exe: Option<String>,
}

impl View for Ancestor {
    type V = (u32, Option<Seq<char>>);

    open spec fn view(&self) -> (u32, Option<Seq<char>>) {
        (self.pid, text::shown(self.exe))
    }
}

pub open spec fn line_of(ancestors: Seq<Ancestor>) -> Seq<(u32, Option<Seq<char>>)> {
    Seq::new(ancestors.len(), |i: int| ancestors[i]@)
}

pub fn copy_line(ancestors: &Vec<Ancestor>) -> (r: Vec<Ancestor>)
    ensures
        line_of(r@) == line_of(ancestors@),
{
    let mut out: Vec<Ancestor> = Vec::new();
    let mut i: usize = 0;
    while i < ancestors.len()
        invariant
            i <= ancestors@.len(),
            line_of(out@) =~= line_of(ancestors@).take(i as int),
        decreases ancestors@.len() - i,
    {
        let ghost before = out@;
        out.push(Ancestor { pid: ancestors[i].pid, exe: text::copy_of(&ancestors[i].exe) });
        assert(line_of(out@) =~= line_of(before).push(ancestors@[i as int]@));
        i = i + 1;
    }
    assert(line_of(ancestors@).take(i as int) =~= line_of(ancestors@));
    out
}

#[derive(Debug, Clone, PartialEq, Eq)]
pub struct Event {
    /// When it happened, on the same machine's clock — the hook runs Windows-side
    /// even for a WSL agent, so there is only ever one clock involved.
    pub at: u64,
    /// Which flavor: `codex-win`, `codex-wsl`, and so on.
    pub source: String,
    pub kind: Kind,
    pub session_id: String,
    pub cwd: Option<String>,
    pub tool_name: Option<String>,
    /// `SessionStart`'s own `source` field: `startup`, `resume`, `clear`, `compact`.
    pub start_source: Option<String>,
    pub notification: Option<String>,
    /// A `Stop` whose final message carried Codex's `<proposed_plan>` tag —
    /// the hook reports the tag, this names it. Codex has no dialog for
    /// approving a plan: its UI asks "implement?" when a turn ends like this.
    pub proposed_plan: bool,
    /// The subagent this event belongs to, when it belongs to one — subagents
    /// share their parent's `session_id` and are told apart by this. Their
    /// events never change the lane's state (see [`crate::state::step`]); the
    /// id is what lets the tracker keep a roster of which ones are still busy.
    pub agent: Option<String>,
    /// This event belongs to a subagent (an `agent_id` or `agent_type` is
    /// present). Either field is enough — a guard that needs both fails open.
    pub subagent: bool,
    pub wt_session: Option<String>,
    /// The processes above the agent, nearest first — what summon walks to
    /// find the window the agent is sitting in.
    pub ancestors: Vec<Ancestor>,
    /// Context and limits, when the record carries them.
    pub gauges: Option<Gauges>,
    /// What a `StopFailure` says went wrong.
    pub error_type: Option<String>,
    /// Which agent sent it, as far as its source says.
    pub sender: Option<Agent>,
}

/// What arrived, once the shape is known.
#[derive(Debug, Clone, PartialEq, Eq)]
pub enum Parsed {
    Event(Box<Event>),
    /// A hook event we do not register, or one with no name at all. Carries
    /// whatever it called itself, so the window can show the name rather than a
    /// bare count.
    Unrecognised { source: String, name: String },
}

/// The text under `key`, trimmed, when there is any.
pub open spec fn word_at(tree: Tree, key: Seq<char>) -> Option<Seq<char>> {
    text::word(text_at(tree, key))
}

fn word_under(value: &Json, key: &str) -> (r: Option<String>)
    ensures
        text::shown(r) == word_at(value@, key@),
{
    text::word_of(value.text_at(key))
}

/// The name beside the `at`th pid, when there is one.
pub open spec fn name_beside(names: Option<Seq<Tree>>, at: int) -> Option<Seq<char>> {
    match names {
        Some(list) => if 0 <= at < list.len() {
            text::word(text_of(list[at]))
        } else {
            None
        },
        None => None,
    }
}

/// The pids in `list`, each with the name at its own index: a missing, short,
/// or malformed names list degrades that one ancestor to "identity unknown",
/// and never moves another's.
pub open spec fn ancestors_in(list: Seq<Tree>, names: Option<Seq<Tree>>) -> Seq<
    (u32, Option<Seq<char>>),
>
    decreases list.len(),
{
    if list.len() == 0 {
        seq![]
    } else {
        let before = ancestors_in(list.drop_last(), names);
        match number_of(list.last()) {
            Some(pid) => before.push(
                ((pid % 0x1_0000_0000) as u32, name_beside(names, list.len() - 1)),
            ),
            None => before,
        }
    }
}

pub open spec fn ancestors_at(tree: Tree) -> Seq<(u32, Option<Seq<char>>)> {
    match list_at(tree, "ancestors"@) {
        Some(list) => ancestors_in(list, list_at(tree, "ancestor_names"@)),
        None => seq![],
    }
}

fn ancestors_under(value: &Json) -> (r: Vec<Ancestor>)
    ensures
        line_of(r@) == ancestors_at(value@),
{
    let mut out: Vec<Ancestor> = Vec::new();
    let list = match value.list_at("ancestors") {
        Some(list) => list,
        None => {
            assert(line_of(out@) =~= seq![]);
            return out;
        },
    };
    let names = value.list_at("ancestor_names");
    let ghost all = trees(list@);
    let ghost labels = list_at(value@, "ancestor_names"@);
    let mut i: usize = 0;
    proof {
        trees_are_items(list@);
        assert(line_of(out@) =~= ancestors_in(all.take(0), labels));
    }
    while i < list.len()
        invariant
            i <= list@.len(),
            all == trees(list@),
            all.len() == list@.len(),
            forall|j: int| 0 <= j < list@.len() ==> #[trigger] all[j] == list@[j]@,
            labels == (match names {
                Some(names) => Some(trees(names@)),
                None => None,
            }),
            line_of(out@) == ancestors_in(all.take(i as int), labels),
        decreases list@.len() - i,
    {
        let ghost before = out@;
        assert(all.take(i + 1).drop_last() =~= all.take(i as int));
        assert(all[i as int] == list@[i as int]@);
        if let Some(pid) = list[i].as_u64() {
            let exe: Option<String> = match names {
                Some(names) => {
                    proof {
                        trees_are_items(names@);
                    }
                    if i < names.len() {
                        assert(trees(names@)[i as int] == names@[i as int]@);
                        text::word_of(names[i].as_str())
                    } else {
                        None
                    }
                },
                None => None,
            };
            out.push(Ancestor { pid: (pid % 0x1_0000_0000) as u32, exe });
            assert(line_of(out@) =~= line_of(before).push(out@.last()@));
        }
        i = i + 1;
    }
    assert(all.take(i as int) =~= all);
    out
}

/// The hook's clock, unless it is ahead of ours: a timestamp from the future
/// would make a lane's "for how long" count backwards.
pub open spec fn stamp(tree: Tree, received_ms: u64) -> u64 {
    match number_at(tree, "t"@) {
        Some(at) => if at <= received_ms {
            at
        } else {
            received_ms
        },
        None => received_ms,
    }
}

/// Whether `event` is what the record `tree` says.
pub open spec fn reads(event: Event, tree: Tree, received_ms: u64, agent_name: Called) -> bool {
    &&& event.at == stamp(tree, received_ms)
    &&& event.source@ == source_in(tree)
    &&& word_at(tree, "hook_event_name"@) == Some(event.kind.title())
    &&& event.session_id@ == (match word_at(tree, "session_id"@) {
        Some(id) => id,
        None => seq![],
    })
    &&& text::shown(event.cwd) == word_at(tree, "cwd"@)
    &&& text::shown(event.tool_name) == word_at(tree, "tool_name"@)
    &&& text::shown(event.start_source) == word_at(tree, "source"@)
    &&& text::shown(event.notification) == word_at(tree, "notification_type"@)
    &&& event.proposed_plan == (flag_at(tree, "proposed_plan"@) == Some(true))
    &&& text::shown(event.agent) == word_at(tree, "agent_id"@)
    &&& event.subagent == (word_at(tree, "agent_id"@) is Some || word_at(
        tree,
        "agent_type"@,
    ) is Some)
    &&& text::shown(event.wt_session) == word_at(tree, "wt_session"@)
    &&& line_of(event.ancestors@) == ancestors_at(tree)
    &&& event.gauges == (match entry(tree, "gauges"@) {
        Some(value) => Gauges::read(value),
        None => None,
    })
    &&& text::shown(event.error_type) == word_at(tree, "error_type"@)
    &&& event.sender == Agent::named(source_in(tree), agent_name)
}

pub open spec fn source_in(tree: Tree) -> Seq<char> {
    match word_at(tree, "src"@) {
        Some(source) => source,
        None => "unknown"@,
    }
}

/// Whether the record names a hook event we register.
pub open spec fn registered(tree: Tree) -> bool {
    exists|kind: Kind| word_at(tree, "hook_event_name"@) == Some(#[trigger] kind.title())
}

impl Event {
    /// Reads one projected payload. `received_ms` is the fallback clock for a
    /// payload with no timestamp of its own.
    pub fn parse(value: &Json, received_ms: u64, agent_name: &Name) -> (r: Parsed)
        ensures
            match r {
                Parsed::Event(event) => registered(value@) && reads(
                    *event,
                    value@,
                    received_ms,
                    agent_name@,
                ),
                Parsed::Unrecognised { source, name } => {
                    &&& !registered(value@)
                    &&& source@ == source_in(value@)
                    &&& name@ == (match word_at(value@, "hook_event_name"@) {
                        Some(name) => name,
                        None => "(no hook_event_name)"@,
                    })
                },
            },
    {
        let source = match word_under(value, "src") {
            Some(source) => source,
            None => "unknown".to_owned(),
        };
        let name = match word_under(value, "hook_event_name") {
            Some(name) => name,
            None => {
                return Parsed::Unrecognised { source, name: "(no hook_event_name)".to_owned() };
            },
        };
        let kind = match Kind::parse(name.as_str()) {
            Some(kind) => kind,
            None => {
                return Parsed::Unrecognised { source, name };
            },
        };
        assert(word_at(value@, "hook_event_name"@) == Some(kind.title()));
        let at: u64 = match value.number_at("t") {
            Some(at) => if at <= received_ms {
                at
            } else {
                received_ms
            },
            None => received_ms,
        };
        let session_id = match word_under(value, "session_id") {
            Some(id) => id,
            None => String::new(),
        };
        assert(session_id@ =~= match word_at(value@, "session_id"@) {
            Some(id) => id,
            None => seq![],
        });
        let sender = Agent::from_source(source.as_str(), agent_name);
        let agent = word_under(value, "agent_id");
        let subagent = agent.is_some() || word_under(value, "agent_type").is_some();
        let proposed_plan = match value.flag_at("proposed_plan") {
            Some(flag) => flag,
            None => false,
        };
        let gauges = match value.get("gauges") {
            Some(value) => Gauges::from_json(value),
            None => None,
        };
        Parsed::Event(
            Box::new(
                Event {
                    at,
                    source,
                    kind,
                    session_id,
                    cwd: word_under(value, "cwd"),
                    tool_name: word_under(value, "tool_name"),
                    start_source: word_under(value, "source"),
                    notification: word_under(value, "notification_type"),
                    proposed_plan,
                    agent,
                    subagent,
                    wt_session: word_under(value, "wt_session"),
                    ancestors: ancestors_under(value),
                    gauges,
                    error_type: word_under(value, "error_type"),
                    sender,
                },
            ),
        )
    }

    /// What the event is about, beyond its kind.
    pub open spec fn detail(self) -> Option<Seq<char>> {
        if self.tool_name is Some {
            text::shown(self.tool_name)
        } else if self.notification is Some {
            text::shown(self.notification)
        } else if self.start_source is Some {
            text::shown(self.start_source)
        } else if self.proposed_plan {
            Some("proposed plan"@)
        } else {
            None
        }
    }

    pub open spec fn noted(self) -> Seq<char> {
        match self.detail() {
            Some(detail) => self.kind.title() + " "@ + detail,
            None => self.kind.title(),
        }
    }

    /// The short line a lane shows: what just happened on it.
    pub fn note(&self) -> (note: String)
        ensures
            note@ == self.noted(),
    {
        let mut note = self.kind.label().to_owned();
        if let Some(tool) = &self.tool_name {
            note.push_str(" ");
            note.push_str(tool.as_str());
        } else if let Some(notification) = &self.notification {
            note.push_str(" ");
            note.push_str(notification.as_str());
        } else if let Some(source) = &self.start_source {
            note.push_str(" ");
            note.push_str(source.as_str());
        } else if self.proposed_plan {
            note.push_str(" ");
            note.push_str("proposed plan");
        }
        note
    }
}

/// The word for what went wrong: the error's own type, read as words, or
/// just that something did.
pub open spec fn failure_named(error_type: Option<Seq<char>>) -> Seq<char> {
    match error_type {
        Some(name) => text::swapped(name, '_', ' '),
        None => "error"@,
    }
}

pub fn failure_word(error_type: Option<&str>) -> (word: String)
    ensures
        word@ == failure_named(match error_type {
            Some(name) => Some(name@),
            None => None,
        }),
{
    match error_type {
        Some(name) => text::swap(name, '_', ' '),
        None => "error".to_owned(),
    }
}

/// **A kind is its hook's name.**
pub proof fn a_kind_is_its_hooks_name()
    ensures
        Kind::SessionStart.title() == "SessionStart"@,
        Kind::UserPromptSubmit.title() == "UserPromptSubmit"@,
        Kind::PreToolUse.title() == "PreToolUse"@,
        Kind::PostToolUse.title() == "PostToolUse"@,
        Kind::PostToolUseFailure.title() == "PostToolUseFailure"@,
        Kind::PermissionRequest.title() == "PermissionRequest"@,
        Kind::PermissionDenied.title() == "PermissionDenied"@,
        Kind::Notification.title() == "Notification"@,
        Kind::SubagentStart.title() == "SubagentStart"@,
        Kind::SubagentStop.title() == "SubagentStop"@,
        Kind::Stop.title() == "Stop"@,
        Kind::StopFailure.title() == "StopFailure"@,
        Kind::SessionEnd.title() == "SessionEnd"@,
        Kind::StatusLine.title() == "StatusLine"@,
{
}

/// **An event is read from its own keys**: whatever stands under a key is the
/// event's, without the white space around it; what is not there, or blank, is
/// not known.
pub proof fn an_event_is_read_from_its_keys(
    event: Event,
    tree: Tree,
    received_ms: u64,
    agent_name: Called,
    said: Seq<char>,
)
    requires
        reads(event, tree, received_ms, agent_name),
        said.len() > 0,
        !text::is_white(said[0]),
        !text::is_white(said.last()),
    ensures
        entry(tree, "session_id"@) == Some(Tree::Text(said)) ==> event.session_id@ == said,
        entry(tree, "src"@) == Some(Tree::Text(said)) ==> event.source@ == said,
        entry(tree, "hook_event_name"@) == Some(Tree::Text(said)) ==> event.kind.title() == said,
        entry(tree, "cwd"@) == Some(Tree::Text(said)) ==> text::shown(event.cwd) == Some(said),
        entry(tree, "tool_name"@) == Some(Tree::Text(said)) ==> text::shown(event.tool_name)
            == Some(said),
        entry(tree, "source"@) == Some(Tree::Text(said)) ==> text::shown(event.start_source)
            == Some(said),
        entry(tree, "notification_type"@) == Some(Tree::Text(said)) ==> text::shown(
            event.notification,
        ) == Some(said),
        entry(tree, "agent_id"@) == Some(Tree::Text(said)) ==> text::shown(event.agent) == Some(
            said,
        ) && event.subagent,
        entry(tree, "agent_type"@) == Some(Tree::Text(said)) ==> event.subagent,
        entry(tree, "wt_session"@) == Some(Tree::Text(said)) ==> text::shown(event.wt_session)
            == Some(said),
        entry(tree, "error_type"@) == Some(Tree::Text(said)) ==> text::shown(event.error_type)
            == Some(said),
        entry(tree, "session_id"@) is None ==> event.session_id@.len() == 0,
        entry(tree, "cwd"@) is None ==> event.cwd is None,
        entry(tree, "agent_id"@) is None && entry(tree, "agent_type"@) is None ==> !event.subagent
            && event.agent is None,
        entry(tree, "source"@) is None ==> event.start_source is None,
        entry(tree, "notification_type"@) is None ==> event.notification is None,
        entry(tree, "gauges"@) is None ==> event.gauges is None,
        entry(tree, "ancestors"@) is None ==> event.ancestors@.len() == 0,
        entry(tree, "proposed_plan"@) == Some(Tree::Bool(true)) <==> event.proposed_plan,
{
    text::what_is_trim_stays(said);
    if entry(tree, "ancestors"@) is None {
        assert(line_of(event.ancestors@).len() == 0);
    }
}

/// **An event happened when it says, and never later than it was heard of.**
pub proof fn an_event_happened_when_it_says(tree: Tree, at: u64, received_ms: u64)
    ensures
        number_at(tree, "t"@) == Some(at) && at <= received_ms ==> stamp(tree, received_ms) == at,
        stamp(tree, received_ms) <= received_ms,
        number_at(tree, "t"@) is None ==> stamp(tree, received_ms) == received_ms,
        number_at(tree, "t"@) == Some(at) && at > received_ms ==> stamp(tree, received_ms)
            == received_ms,
{
}

/// **An ancestor is its pid and the name beside it**: where all of a list are
/// numbers, every one is an ancestor, nearest first, each with the name that
/// stands at its place in the other list, if one does.
pub proof fn an_ancestor_is_its_pid_and_the_name_beside_it(
    list: Seq<Tree>,
    names: Option<Seq<Tree>>,
    i: int,
)
    requires
        forall|k: int|
            0 <= k < list.len() ==> (number_of(#[trigger] list[k]) matches Some(pid) && pid
                < 0x1_0000_0000),
        0 <= i < list.len(),
    ensures
        ({
            let line = ancestors_in(list, names);
            &&& line.len() == list.len()
            &&& Some(line[i].0 as u64) == number_of(list[i])
            &&& names is None ==> line[i].1 is None
            &&& names is Some && i >= names->0.len() ==> line[i].1 is None
            &&& names is Some && i < names->0.len() ==> line[i].1 == text::word(
                text_of(names->0[i]),
            )
        }),
    decreases list.len(),
{
    let fewer = list.drop_last();
    assert forall|k: int| 0 <= k < fewer.len() implies (number_of(#[trigger] fewer[k]) matches Some(
        pid,
    ) && pid < 0x1_0000_0000) by {
        assert(fewer[k] == list[k]);
    }
    all_are_ancestors(fewer, names);
    assert(number_of(list[list.len() - 1]) is Some);
    if i < fewer.len() {
        an_ancestor_is_its_pid_and_the_name_beside_it(fewer, names, i);
        assert(fewer[i] == list[i]);
    }
}

proof fn all_are_ancestors(list: Seq<Tree>, names: Option<Seq<Tree>>)
    requires
        forall|k: int| 0 <= k < list.len() ==> number_of(#[trigger] list[k]) is Some,
    ensures
        ancestors_in(list, names).len() == list.len(),
    decreases list.len(),
{
    if list.len() > 0 {
        let fewer = list.drop_last();
        assert forall|k: int| 0 <= k < fewer.len() implies number_of(#[trigger] fewer[k]) is Some by {
            assert(fewer[k] == list[k]);
        }
        all_are_ancestors(fewer, names);
        assert(number_of(list[list.len() - 1]) is Some);
    }
}

/// **A note says the kind, and the first thing there is to say of it**: its
/// tool, else its notification, else how it started, else that a plan is
/// proposed.
pub proof fn a_note_says_the_kind_first(event: Event)
    ensures
        text::begins(event.noted(), event.kind.title()),
        event.tool_name is Some ==> event.noted() == event.kind.title() + " "@
            + event.tool_name->0@,
        event.tool_name is None && event.notification is Some ==> event.noted()
            == event.kind.title() + " "@ + event.notification->0@,
        event.tool_name is None && event.notification is None && event.start_source is Some
            ==> event.noted() == event.kind.title() + " "@ + event.start_source->0@,
        event.tool_name is None && event.notification is None && event.start_source is None
            && !event.proposed_plan ==> event.noted() == event.kind.title(),
{
    assert(event.noted().take(event.kind.title().len() as int) =~= event.kind.title());
}

} // verus!
