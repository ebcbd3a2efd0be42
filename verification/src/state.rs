//! What a lane is doing, and how an event changes it.
//!
//! A total function over (state, event) with **no request ids, no queues, no
//! tombstones and no timers**. That is the whole design. Here, *activity
//! clears Waiting*. Nothing has to be correlated to anything, so nothing can
//! fail to correlate.

use vstd::prelude::*;

use crate::event::{Event, Kind};
use crate::text;

verus! {

#[derive(Debug, Clone, Copy, PartialEq, Eq, Structural)]
pub enum State {
    /// Alive, nothing run yet.
    Connected,
    Running,
    /// Needs the user.
    Waiting,
    Done,
    Error,
    Interrupted,
    /// Nothing heard for a while.
    Idle,
}

impl State {
    pub open spec fn order() -> Seq<State> {
        seq![
            State::Connected,
            State::Running,
            State::Waiting,
            State::Done,
            State::Error,
            State::Interrupted,
            State::Idle,
        ]
    }

    /// Every state, in the order the window and the settings file list them.
    pub fn all() -> (states: Vec<State>)
        ensures
            states@ == State::order(),
    {
        vec![
            State::Connected,
            State::Running,
            State::Waiting,
            State::Done,
            State::Error,
            State::Interrupted,
            State::Idle,
        ]
    }

    pub open spec fn title(self) -> Seq<char> {
        match self {
            State::Connected => "Connected"@,
            State::Running => "Running"@,
            State::Waiting => "Waiting"@,
            State::Done => "Done"@,
            State::Error => "Error"@,
            State::Interrupted => "Interrupted"@,
            State::Idle => "Idle"@,
        }
    }

    pub fn label(self) -> (name: &'static str)
        ensures
            name@ == self.title(),
    {
        match self {
            State::Connected => "Connected",
            State::Running => "Running",
            State::Waiting => "Waiting",
            State::Done => "Done",
            State::Error => "Error",
            State::Interrupted => "Interrupted",
            State::Idle => "Idle",
        }
    }

    /// The colour this state gets before the user changes it. Here rather than
    /// in the window, because the same colours go on the keyboard and the
    /// two must not drift apart.
    pub fn tint(self) -> (rgb: [u8; 3])
        ensures
            rgb@ == (match self {
                State::Connected | State::Idle => seq![120u8, 130, 150],
                State::Running => seq![80u8, 170, 255],
                State::Waiting => seq![250u8, 190, 60],
                State::Done => seq![90u8, 210, 130],
                State::Error => seq![235u8, 90, 90],
                State::Interrupted => seq![200u8, 120, 230],
            }),
    {
        match self {
            State::Connected | State::Idle => [120, 130, 150],
            State::Running => [80, 170, 255],
            State::Waiting => [250, 190, 60],
            State::Done => [90, 210, 130],
            State::Error => [235, 90, 90],
            State::Interrupted => [200, 120, 230],
        }
    }

    pub open spec fn active(self) -> bool {
        self == State::Running || self == State::Waiting
    }

    /// Whether a turn is open. Used only to decide how long a silent session is
    /// kept: dropping a Waiting lane deletes the one fact this product exists
    /// to show.
    pub fn is_active(self) -> (r: bool)
        ensures
            r == self.active(),
    {
        match self {
            State::Running | State::Waiting => true,
            _ => false,
        }
    }
}

/// What an event does to a session.
#[derive(Debug, Clone, Copy, PartialEq, Eq, Structural)]
pub enum Step {
    /// Liveness only. The session is still there; its state is unchanged.
    Stay,
    Become(State),
    /// The session is over.
    Release,
}

/// How a `Notification` is read.
#[derive(Debug, Clone, Copy, PartialEq, Eq, Structural)]
pub enum Note {
    /// Somebody has to answer something.
    NeedsUser,
    /// A prompt has sat unanswered for a while.
    Idle,
    /// Known, and says nothing about whether a turn is open.
    Ignored,
    /// Not in the allowlist. Counted, never acted on.
    Unknown,
}

/// How a notification type is read, by its name.
pub open spec fn note_named(name: Seq<char>) -> Note {
    if name == "permission_prompt"@ || name == "agent_needs_input"@ || name
        == "elicitation_dialog"@ || name == "elicitation_url_dialog"@ {
        Note::NeedsUser
    } else if name == "idle_prompt"@ {
        Note::Idle
    } else if name == "agent_completed"@ || name == "auth_success"@ || name
        == "elicitation_complete"@ || name == "elicitation_response"@ {
        Note::Ignored
    } else {
        Note::Unknown
    }
}

/// Classified by name, allowlist only.
///
/// A notification type nobody has seen before is not evidence of anything, so
/// it changes no state. It is counted instead, because "an agent release added
/// a notification we ignore" should be a number somebody can read rather than
/// behaviour nobody can explain.
pub fn classify(notification_type: &str) -> (note: Note)
    ensures
        note == note_named(notification_type@),
{
    if text::same(notification_type, "permission_prompt") || text::same(
        notification_type,
        "agent_needs_input",
    ) || text::same(notification_type, "elicitation_dialog") || text::same(
        notification_type,
        "elicitation_url_dialog",
    ) {
        Note::NeedsUser
    } else if text::same(notification_type, "idle_prompt") {
        Note::Idle
    } else if text::same(notification_type, "agent_completed") || text::same(
        notification_type,
        "auth_success",
    ) || text::same(notification_type, "elicitation_complete") || text::same(
        notification_type,
        "elicitation_response",
    ) {
        Note::Ignored
    } else {
        Note::Unknown
    }
}

/// How an event's notification is read, when it has one.
pub open spec fn note_of(event: Event) -> Option<Note> {
    match event.notification {
        Some(name) => Some(note_named(name@)),
        None => None,
    }
}

fn note_in(event: &Event) -> (note: Option<Note>)
    ensures
        note == note_of(*event),
{
    match &event.notification {
        Some(name) => Some(classify(name.as_str())),
        None => None,
    }
}

/// Whether a session start is a compaction in the middle of a turn.
pub open spec fn compacts(event: Event) -> bool {
    text::shown(event.start_source) == Some("compact"@)
}

fn is_compaction(event: &Event) -> (r: bool)
    ensures
        r == compacts(*event),
{
    match &event.start_source {
        Some(source) => text::same(source.as_str(), "compact"),
        None => false,
    }
}

/// The transition table.
pub open spec fn next(current: State, event: Event) -> Step {
    if event.subagent {
        // A subagent's events carry the *parent's* `session_id`: acting on
        // them would change the wrong lane.
        Step::Stay
    } else {
        match event.kind {
            Kind::SessionStart => if compacts(event) {
                Step::Stay
            } else {
                Step::Become(State::Connected)
            },
            Kind::UserPromptSubmit => Step::Become(State::Running),
            Kind::PreToolUse | Kind::PermissionRequest => Step::Become(State::Waiting),
            Kind::PermissionDenied | Kind::PostToolUse | Kind::PostToolUseFailure => if current
                == State::Waiting {
                Step::Become(State::Running)
            } else {
                Step::Stay
            },
            Kind::Notification => match note_of(event) {
                Some(Note::NeedsUser) => Step::Become(State::Waiting),
                Some(Note::Idle) => if current == State::Running {
                    Step::Become(State::Interrupted)
                } else {
                    Step::Stay
                },
                _ => Step::Stay,
            },
            Kind::SubagentStart | Kind::SubagentStop | Kind::StatusLine => Step::Stay,
            Kind::Stop => Step::Become(State::Done),
            Kind::StopFailure => Step::Become(State::Error),
            Kind::SessionEnd => Step::Release,
        }
    }
}

/// The transition table.
pub fn step(current: State, event: &Event) -> (r: Step)
    ensures
        r == next(current, *event),
{
    // A subagent's events carry the *parent's* `session_id`, so acting on them
    // changes the wrong lane. Worse than a stuck lane: one subagent finishing
    // a tool would clear a Waiting another one raised, and Running is the
    // state you stop looking at.
    if event.subagent {
        return Step::Stay;
    }
    match event.kind {
        // An agent may fire SessionStart when it compacts *mid-turn*. Without this
        // guard a live turn drops to Connected and stays there until Stop.
        Kind::SessionStart => if is_compaction(event) {
            Step::Stay
        } else {
            Step::Become(State::Connected)
        },
        Kind::UserPromptSubmit => Step::Become(State::Running),
        // Registered for the question tool alone: running it is asking.
        Kind::PreToolUse | Kind::PermissionRequest => Step::Become(State::Waiting),
        // The prompt was answered with a no — by the user, a rule, or an
        // interrupt. Either way it is no longer pending, and the turn is
        // formally still open: Running until Stop says otherwise, or until the
        // idle notification says the turn died with the prompt. From Waiting
        // only, like tool activity — a denial arriving after Stop must not
        // resurrect a finished turn.
        //
        // Activity clears Waiting, and only Waiting. Several hook processes post
        // concurrently, so a PostToolUse emitted before Stop can arrive after
        // it; promoting from anything else would resurrect a finished turn.
        Kind::PermissionDenied | Kind::PostToolUse | Kind::PostToolUseFailure => {
            if current == State::Waiting {
                Step::Become(State::Running)
            } else {
                Step::Stay
            }
        },
        Kind::Notification => match note_in(event) {
            Some(Note::NeedsUser) => Step::Become(State::Waiting),
            // "A prompt has sat unanswered" is equally true of a permission
            // dialog nobody has answered. Firing it from Waiting would clear the
            // lane at exactly the moment nobody is at the desk.
            Some(Note::Idle) => if current == State::Running {
                Step::Become(State::Interrupted)
            } else {
                Step::Stay
            },
            _ => Step::Stay,
        },
        // A subagent starting or stopping says nothing about what the *main*
        // agent is doing — the tracker keeps the roster; the lane state is the
        // main agent's alone. A status line is numbers, and nothing else.
        Kind::SubagentStart | Kind::SubagentStop | Kind::StatusLine => Step::Stay,
        Kind::Stop => Step::Become(State::Done),
        Kind::StopFailure => Step::Become(State::Error),
        Kind::SessionEnd => Step::Release,
    }
}

/// The state a session nobody has seen starts in.
pub open spec fn adopted(event: Event) -> Option<State> {
    if event.subagent {
        Some(State::Connected)
    } else {
        match event.kind {
            Kind::SessionStart => if compacts(event) {
                Some(State::Running)
            } else {
                Some(State::Connected)
            },
            Kind::UserPromptSubmit => Some(State::Running),
            Kind::PreToolUse | Kind::PermissionRequest => Some(State::Waiting),
            Kind::Notification => if note_of(event) == Some(Note::NeedsUser) {
                Some(State::Waiting)
            } else {
                Some(State::Connected)
            },
            Kind::PostToolUse | Kind::PostToolUseFailure | Kind::PermissionDenied => Some(
                State::Running,
            ),
            Kind::SubagentStart | Kind::SubagentStop => Some(State::Connected),
            Kind::Stop => Some(State::Done),
            Kind::StopFailure => Some(State::Error),
            Kind::SessionEnd | Kind::StatusLine => None,
        }
    }
}

/// The state a session we have never seen starts in, read from the event that
/// introduced it.
///
/// This is the headline requirement: an agent may be started before or after
/// the app, and the next event picks it up. There is no handshake and nothing
/// to seed — a `PostToolUse` from a session we have never heard of means a tool
/// just ran, so a turn is open, so: Running.
///
/// `None` means "do not create a session from this": `SessionEnd`, which is
/// the end of something we never saw the start of, and a status line.
pub fn adopt(event: &Event) -> (r: Option<State>)
    ensures
        r == adopted(*event),
{
    // A subagent's event proves the session is alive, and proves nothing about
    // what the main agent is doing — a background subagent outlives the turn
    // that spawned it. Connected is the claim that can be stood behind; the
    // subagent roster is what makes the lane read as busy.
    if event.subagent {
        return Some(State::Connected);
    }
    match event.kind {
        // Mid-turn compaction, from a session we do not know: the guard above
        // says "unchanged", and what it is unchanged *from* is a turn in
        // progress.
        Kind::SessionStart => if is_compaction(event) {
            Some(State::Running)
        } else {
            Some(State::Connected)
        },
        Kind::UserPromptSubmit => Some(State::Running),
        Kind::PreToolUse | Kind::PermissionRequest => Some(State::Waiting),
        Kind::Notification => match note_in(event) {
            Some(Note::NeedsUser) => Some(State::Waiting),
            // Idle means a prompt is unanswered, and from here there is no way
            // to tell whose. Connected is the part we can actually stand
            // behind: something is alive over there.
            _ => Some(State::Connected),
        },
        Kind::PostToolUse | Kind::PostToolUseFailure | Kind::PermissionDenied => Some(
            State::Running,
        ),
        // Without an agent_id these say only that the session exists.
        Kind::SubagentStart | Kind::SubagentStop => Some(State::Connected),
        Kind::Stop => Some(State::Done),
        Kind::StopFailure => Some(State::Error),
        Kind::SessionEnd | Kind::StatusLine => None,
    }
}

/// **Activity clears Waiting, and only Waiting**: a tool that ran, or a prompt
/// answered with a no, puts a waiting turn back to Running and leaves every
/// other state alone.
pub proof fn activity_clears_waiting_and_only_waiting(current: State, event: Event)
    requires
        !event.subagent,
        event.kind == Kind::PostToolUse || event.kind == Kind::PostToolUseFailure || event.kind
            == Kind::PermissionDenied,
    ensures
        next(current, event) == (if current == State::Waiting {
            Step::Become(State::Running)
        } else {
            Step::Stay
        }),
{
}

/// A subagent's event never changes its parent's state.
pub proof fn a_subagent_changes_no_state(current: State, event: Event)
    requires
        event.subagent,
    ensures
        next(current, event) == Step::Stay,
{
}

/// A compaction in the middle of a turn leaves the turn alone.
pub proof fn a_compaction_keeps_the_turn(current: State, event: Event)
    requires
        event.kind == Kind::SessionStart,
        compacts(event),
    ensures
        next(current, event) == Step::Stay,
{
}

/// A prompt sitting unanswered means an interrupt from Running alone.
pub proof fn idling_interrupts_only_a_running_turn(current: State, event: Event)
    requires
        event.kind == Kind::Notification,
        note_of(event) == Some(Note::Idle),
        next(current, event) != Step::Stay,
    ensures
        current == State::Running,
        next(current, event) == Step::Become(State::Interrupted),
{
}

/// No event makes a lane Idle: only silence does.
pub proof fn no_event_makes_a_lane_idle(current: State, event: Event)
    ensures
        next(current, event) != Step::Become(State::Idle),
        adopted(event) != Some(State::Idle),
{
}

/// A session nobody has seen is picked up from any event but its end and its
/// numbers.
pub proof fn any_event_picks_a_session_up(event: Event)
    requires
        event.subagent || (event.kind != Kind::SessionEnd && event.kind != Kind::StatusLine),
    ensures
        adopted(event) is Some,
{
}

/// **What an event says of a turn holds whatever came before**: from every
/// state, a prompt opens a turn, a request for permission and the question tool
/// ask for the user, a stop ends the turn, a failed one ends it in Error, and
/// the end of a session releases it.
pub proof fn an_event_says_the_same_from_every_state(current: State, event: Event)
    requires
        !event.subagent,
    ensures
        event.kind == Kind::UserPromptSubmit ==> next(current, event) == Step::Become(
            State::Running,
        ),
        event.kind == Kind::PermissionRequest ==> next(current, event) == Step::Become(
            State::Waiting,
        ),
        event.kind == Kind::PreToolUse ==> next(current, event) == Step::Become(State::Waiting),
        event.kind == Kind::Stop ==> next(current, event) == Step::Become(State::Done),
        event.kind == Kind::StopFailure ==> next(current, event) == Step::Become(State::Error),
        event.kind == Kind::SessionEnd ==> next(current, event) == Step::Release,
        event.kind == Kind::SessionStart && text::shown(event.start_source) != Some("compact"@)
            ==> next(current, event) == Step::Become(State::Connected),
{
}

/// **A session ends only when it says so.**
pub proof fn only_the_end_releases(current: State, event: Event)
    ensures
        next(current, event) == Step::Release <==> !event.subagent && event.kind
            == Kind::SessionEnd,
{
}

/// **Every state has its own causes.** Running is a prompt, or activity in a
/// turn that was waiting; Waiting is somebody being asked; Done and Error are
/// how a turn ended; Connected is a start; Interrupted is a prompt left
/// unanswered in a running turn.
pub proof fn each_state_has_its_causes(current: State, event: Event)
    ensures
        ({
            let step = next(current, event);
            let kind = event.kind;
            let note = note_of(event);
            &&& step == Step::Become(State::Running) <==> !event.subagent && (kind
                == Kind::UserPromptSubmit || (current == State::Waiting && (kind
                == Kind::PostToolUse || kind == Kind::PostToolUseFailure || kind
                == Kind::PermissionDenied)))
            &&& step == Step::Become(State::Waiting) <==> !event.subagent && (kind
                == Kind::PermissionRequest || kind == Kind::PreToolUse || (kind
                == Kind::Notification && note == Some(Note::NeedsUser)))
            &&& step == Step::Become(State::Done) <==> !event.subagent && kind == Kind::Stop
            &&& step == Step::Become(State::Error) <==> !event.subagent && kind == Kind::StopFailure
            &&& step == Step::Become(State::Connected) <==> !event.subagent && kind
                == Kind::SessionStart && text::shown(event.start_source) != Some("compact"@)
            &&& step == Step::Become(State::Interrupted) <==> !event.subagent && kind
                == Kind::Notification && note == Some(Note::Idle) && current == State::Running
        }),
{
}

/// **An allowlist**: a notification asks for the user by four names, says that
/// a prompt sits unanswered by one, and says nothing by four more; any other
/// name is not known, and none of those changes a state.
pub proof fn a_notification_is_read_by_its_name(current: State, event: Event, name: Seq<char>)
    requires
        !event.subagent,
        event.kind == Kind::Notification,
        text::shown(event.notification) == Some(name),
    ensures
        name == "permission_prompt"@ || name == "agent_needs_input"@ || name
            == "elicitation_dialog"@ || name == "elicitation_url_dialog"@ ==> next(current, event)
            == Step::Become(State::Waiting),
        name == "idle_prompt"@ ==> next(current, event) == (if current == State::Running {
            Step::Become(State::Interrupted)
        } else {
            Step::Stay
        }),
        name == "agent_completed"@ || name == "auth_success"@ || name == "elicitation_complete"@
            || name == "elicitation_response"@ ==> next(current, event) == Step::Stay
            && note_named(name) == Note::Ignored,
        note_named(name) == Note::Unknown <==> !(name == "permission_prompt"@ || name
            == "agent_needs_input"@ || name == "elicitation_dialog"@ || name
            == "elicitation_url_dialog"@ || name == "idle_prompt"@ || name == "agent_completed"@
            || name == "auth_success"@ || name == "elicitation_complete"@ || name
            == "elicitation_response"@),
        note_named(name) == Note::Unknown ==> next(current, event) == Step::Stay,
{
    reveal_strlit("permission_prompt");
    reveal_strlit("agent_needs_input");
    reveal_strlit("elicitation_dialog");
    reveal_strlit("elicitation_url_dialog");
    reveal_strlit("idle_prompt");
    reveal_strlit("agent_completed");
    reveal_strlit("auth_success");
    reveal_strlit("elicitation_complete");
    reveal_strlit("elicitation_response");
    assert("idle_prompt"@[0] == 'i');
    assert("permission_prompt"@[0] == 'p' && "agent_needs_input"@[0] == 'a');
    assert("agent_needs_input"@[6] == 'n' && "agent_completed"@[6] == 'c');
    assert("elicitation_dialog"@[0] == 'e' && "elicitation_url_dialog"@[0] == 'e');
    assert("elicitation_dialog"@[12] == 'd' && "elicitation_url_dialog"@[12] == 'u');
    assert("elicitation_complete"@[12] == 'c' && "elicitation_response"@[12] == 'r');
    assert("auth_success"@[1] == 'u' && "agent_completed"@[1] == 'g');
}

/// **A session is picked up where the same event would have left it**: where an
/// event makes a state from any other, a session first heard of by it starts in
/// that state; a tool that ran means a turn is open; and of a subagent, or of a
/// start or stop of one, only that somebody is there.
pub proof fn a_session_is_picked_up_where_it_is(event: Event, state: State)
    ensures
        (forall|current: State| #[trigger] next(current, event) == Step::Become(state))
            ==> adopted(event) == Some(state),
        !event.subagent && (event.kind == Kind::PostToolUse || event.kind
            == Kind::PostToolUseFailure || event.kind == Kind::PermissionDenied) ==> adopted(event)
            == Some(State::Running),
        !event.subagent && event.kind == Kind::SessionStart && compacts(event) ==> adopted(event)
            == Some(State::Running),
        event.subagent ==> adopted(event) == Some(State::Connected),
        event.kind == Kind::SubagentStart || event.kind == Kind::SubagentStop ==> adopted(event)
            == Some(State::Connected),
        !event.subagent && event.kind == Kind::Notification && note_of(event) != Some(
            Note::NeedsUser,
        ) ==> adopted(event) == Some(State::Connected),
        adopted(event) is None <==> !event.subagent && (event.kind == Kind::SessionEnd
            || event.kind == Kind::StatusLine),
{
    if forall|current: State| #[trigger] next(current, event) == Step::Become(state) {
        assert(next(State::Done, event) == Step::Become(state));
    }
}

/// A turn is open while it runs or waits, and in no other state.
pub proof fn a_turn_is_open_while_it_runs_or_waits(state: State)
    ensures
        state.active() <==> state != State::Connected && state != State::Done && state
            != State::Error && state != State::Interrupted && state != State::Idle,
{
}

} // verus!
