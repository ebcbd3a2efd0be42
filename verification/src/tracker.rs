//! Every session we can currently see, and which lane each one is on.
//!
//! Sessions are never persisted. They come back on their next event, which is
//! the same path an agent started before the app takes — one code path, so
//! there is no second one to be wrong.

use vstd::prelude::*;

use crate::agents::Agent;
use crate::event::{Ancestor, Event, Kind, Parsed, copy_line, failure_named, failure_word, line_of};
use crate::gauges::Gauges;
use crate::lanes;
use crate::paths;
use crate::settings::{KEYS, Lane, NUMPAD_LANES, Save, SavedAgent, Settings, Setup};
use crate::state::{self, Note, State, Step, adopted, next};
use crate::table::{Table, before, mapped, mapped_by_entries, one_comes_first};
use crate::text::{self, decimal};

verus! {

/// How long a Done or Connected session stays lit after its last event before
/// silence is worth reporting. Nothing is evicted — the lane demotes to
/// [`State::Idle`] and waits for its user, however long the lunch break.
pub const RESTING_IDLE_MS: u64 = 30 * 60 * 1000;

/// How long a silent Running session keeps glowing before demoting to Idle.
/// Much longer, deliberately: a turn can legitimately be quiet for a long
/// time while a tool runs. Waiting never demotes at all — dropping or dimming
/// a Waiting lane hides the one fact this product exists to show.
pub const ACTIVE_IDLE_MS: u64 = 2 * 60 * 60 * 1000;

/// How long a subagent stays on the roster with no events and no
/// `SubagentStop`. The stop event is the real signal — this is the safety net
/// for a subagent that died without one, so a lane cannot read busy forever.
pub const SUBAGENT_IDLE_MS: u64 = 30 * 60 * 1000;

#[derive(Debug, Clone)]
pub struct Session {
    /// The flavor that sent it: `codex-win`, `codex-wsl`, …
    pub source: String,
    pub session_id: String,
    pub agent: Option<Agent>,
    pub cwd: Option<String>,
    pub state: State,
    /// When it entered the state it is in.
    pub since: u64,
    pub first_seen: u64,
    pub last_event: u64,
    pub events: u64,
    /// The last thing that happened, for the line under the state.
    pub note: String,
    /// Subagents still at work: agent id → when it was last heard from.
    /// Fed by `SubagentStart` and every event carrying the id; emptied by
    /// `SubagentStop` and, failing that, by silence. Background subagents
    /// outlive the turn that spawned them, which is why a lane can honestly
    /// read Done and busy at once — see [`Session::effective_state`].
    pub subagents: Table<u64>,
    pub lane: Option<usize>,
    /// The terminal's own name for the tab, as it was reported.
    pub wt_session: Option<String>,
    /// The processes above the agent, nearest first, with the exe name each
    /// pid had at event time — what summon walks to find and verify the
    /// window the agent is sitting in.
    pub ancestors: Vec<Ancestor>,
    /// Context and limits, as last reported; unknown until something
    /// reports them.
    pub gauges: Gauges,
    /// Why the lane is in Error, while it is: the word a `StopFailure`
    /// carried. Cleared the moment the lane is anything else.
    pub failure: Option<String>,
}

/// A [`Session`], its texts by their characters and its roster as a map.
pub ghost struct Life {
    pub source: Seq<char>,
    pub session_id: Seq<char>,
    pub agent: Option<Agent>,
    pub cwd: Option<Seq<char>>,
    pub state: State,
    pub since: u64,
    pub first_seen: u64,
    pub last_event: u64,
    pub events: u64,
    pub note: Seq<char>,
    pub subagents: Map<Seq<char>, u64>,
    pub lane: Option<usize>,
    pub wt_session: Option<Seq<char>>,
    pub ancestors: Seq<(u32, Option<Seq<char>>)>,
    pub gauges: Gauges,
    pub failure: Option<Seq<char>>,
}

impl View for Session {
    type V = Life;

    open spec fn view(&self) -> Life {
        Life {
            source: self.source@,
            session_id: self.session_id@,
            agent: self.agent,
            cwd: text::shown(self.cwd),
            state: self.state,
            since: self.since,
            first_seen: self.first_seen,
            last_event: self.last_event,
            events: self.events,
            note: self.note@,
            subagents: self.subagents@,
            lane: self.lane,
            wt_session: text::shown(self.wt_session),
            ancestors: line_of(self.ancestors@),
            gauges: self.gauges,
            failure: text::shown(self.failure),
        }
    }
}

pub open spec fn lives(sessions: Seq<Session>) -> Seq<Life> {
    Seq::new(sessions.len(), |i: int| sessions[i]@)
}

/// How long ago `then` was; no time at all when it is still to come.
pub open spec fn quiet_for(then: u64, now: u64) -> u64 {
    if now >= then {
        (now - then) as u64
    } else {
        0
    }
}

impl Life {
    /// The project folder's name.
    pub open spec fn project(self) -> Option<Seq<char>> {
        match self.cwd {
            Some(cwd) => paths::last_part(cwd),
            None => None,
        }
    }

    /// What the lane looks like.
    pub open spec fn shows(self) -> State {
        if self.subagents != Map::<Seq<char>, u64>::empty() && (self.state == State::Connected
            || self.state == State::Done) {
            State::Running
        } else {
            self.state
        }
    }

    /// How long silence takes to become worth reporting.
    pub open spec fn patience(self) -> Option<u64> {
        match self.state {
            State::Done | State::Connected => Some(
                if self.shows().active() {
                    ACTIVE_IDLE_MS
                } else {
                    RESTING_IDLE_MS
                },
            ),
            State::Running => Some(ACTIVE_IDLE_MS),
            State::Waiting | State::Error | State::Interrupted | State::Idle => None,
        }
    }

    /// Whether this is the session that `source` calls `session_id`.
    pub open spec fn is(self, source: Seq<char>, session_id: Seq<char>) -> bool {
        self.source == source && self.session_id == session_id
    }
}

impl Session {
    /// The project folder's name. Works for a WSL path too: `/` is a separator
    /// on Windows as well.
    pub fn project(&self) -> (name: Option<String>)
        ensures
            text::shown(name) == self@.project(),
    {
        match &self.cwd {
            Some(cwd) => paths::file_name(cwd.as_str()),
            None => None,
        }
    }

    /// Whether this agent can report Error at all. Codex has no failure event
    /// and emits no `Notification`, so that state is not "not happening" — it
    /// is unobservable, and the window says so rather than letting its
    /// absence read as good news.
    pub fn reports_failure(&self) -> (r: bool)
        ensures
            r == (self.agent != Some(Agent::Codex)),
    {
        match self.agent {
            Some(Agent::Codex) => false,
            _ => true,
        }
    }

    /// What the lane should *look like*: the main agent's state, except that a
    /// resting state with subagents still at work shows as Running — work is
    /// genuinely happening on this lane. Waiting and Error always win: they
    /// are the states that need the user.
    pub fn effective_state(&self) -> (state: State)
        ensures
            state == self@.shows(),
    {
        if !self.subagents.is_empty() && (self.state == State::Connected || self.state
            == State::Done) {
            return State::Running;
        }
        self.state
    }

    /// How long this session's silence takes to become worth reporting, or
    /// `None` for the states that hold regardless: Waiting and Error are
    /// exactly what a user stepped away from and comes back to, and Idle is
    /// already the report.
    fn demotes_after(&self) -> (allowance: Option<u64>)
        ensures
            allowance == self@.patience(),
    {
        match self.state {
            State::Done | State::Connected => Some(
                if self.effective_state().is_active() {
                    // Subagents still on the roster keep the lane reading busy;
                    // give them the long allowance before calling it quiet.
                    ACTIVE_IDLE_MS
                } else {
                    RESTING_IDLE_MS
                },
            ),
            State::Running => Some(ACTIVE_IDLE_MS),
            State::Waiting | State::Error | State::Interrupted | State::Idle => None,
        }
    }
}

/// What one keyboard surface is doing, reported by its lighting thread so
/// the window can answer "why is the F-row dark?" without anybody reading a
/// log. One per surface: a Corsair and a Keychron each say their own piece.
#[derive(Debug, Clone)]
pub struct KeyboardStatus {
    /// Which surface is talking: "Corsair", "Keychron", "Stream Deck".
    pub surface: &'static str,
    pub connected: bool,
    /// How many keys this surface is driving.
    pub driven: usize,
    pub detail: String,
}

/// A [`KeyboardStatus`], its texts by their characters.
pub ghost struct Status {
    pub surface: Seq<char>,
    pub connected: bool,
    pub driven: usize,
    pub detail: Seq<char>,
}

impl View for KeyboardStatus {
    type V = Status;

    open spec fn view(&self) -> Status {
        Status {
            surface: self.surface@,
            connected: self.connected,
            driven: self.driven,
            detail: self.detail@,
        }
    }
}

impl Default for KeyboardStatus {
    fn default() -> (status: Self)
        ensures
            status@ == (Status {
                surface: ""@,
                connected: false,
                driven: 0,
                detail: Seq::<char>::empty(),
            }),
    {
        KeyboardStatus { surface: "", connected: false, driven: 0, detail: String::new() }
    }
}

/// What a surface that drives `driven` keys of an F-row says of `model`.
pub open spec fn row_said(model: Seq<char>, driven: nat) -> Seq<char> {
    if driven == KEYS {
        model
    } else {
        model + ": only "@ + decimal(driven) + " of the "@ + decimal(KEYS as nat)
            + " F-row keys exist here, so the lanes are incomplete"@
    }
}

impl KeyboardStatus {
    /// Driving `driven` of the twelve F-row keys on `model`. A whole row
    /// says the model and nothing more — that it is driven is what the line
    /// being lit means.
    pub fn connected(surface: &'static str, model: &str, driven: usize) -> (status: Self)
        ensures
            status@ == (Status {
                surface: surface@,
                connected: true,
                driven,
                detail: row_said(model@, driven as nat),
            }),
    {
        let mut detail = model.to_owned();
        if driven != KEYS {
            detail.push_str(": only ");
            detail.push_str(text::number(driven as u64).as_str());
            detail.push_str(" of the ");
            detail.push_str(text::number(KEYS as u64).as_str());
            detail.push_str(" F-row keys exist here, so the lanes are incomplete");
        }
        Self::driving(surface, detail, driven)
    }

    /// Driving `driven` keys of something that is not an F-row, described in
    /// the surface's own words.
    pub fn driving(surface: &'static str, detail: String, driven: usize) -> (status: Self)
        ensures
            status@ == (Status { surface: surface@, connected: true, driven, detail: detail@ }),
    {
        KeyboardStatus { surface, connected: true, driven, detail }
    }

    /// Not driving anything, and this is why.
    pub fn unavailable(surface: &'static str, detail: String) -> (status: Self)
        ensures
            status@ == (Status { surface: surface@, connected: false, driven: 0, detail: detail@ }),
    {
        KeyboardStatus { surface, connected: false, driven: 0, detail }
    }

    /// Not driving anything yet, and still looking.
    pub fn searching(surface: &'static str) -> (status: Self)
        ensures
            status@ == (Status {
                surface: surface@,
                connected: false,
                driven: 0,
                detail: Seq::<char>::empty(),
            }),
    {
        Self::unavailable(surface, String::new())
    }

    /// Left alone: unticked in the window.
    pub fn off(surface: &'static str) -> (status: Self)
        ensures
            status@ == (Status { surface: surface@, connected: false, driven: 0, detail: "off"@ }),
    {
        Self::unavailable(surface, "off".to_owned())
    }
}

/// See [`Tracker::preview`]. Expiry is absolute, so a forgotten preview can
/// never stick: even if the window never draws again, the lighting thread
/// clears it.
#[derive(Debug, Clone, Copy, PartialEq, Eq, Structural)]
pub struct Preview {
    pub state: State,
    pub expires_at: u64,
}

pub struct Tracker {
    pub settings: Settings,
    pub sessions: Vec<Session>,
    /// When each flavor last reached us, for the Agents panel.
    pub last_seen: Table<u64>,
    pub events: u64,
    /// Notification types that are not in the allowlist, by name and count.
    pub unknown_notifications: Table<u64>,
    /// Hook events we do not register, by name and count.
    pub unrecognised_events: Table<u64>,
    /// Set when the settings file was refused; shown in the window, because
    /// the next thing the user changes will overwrite that file.
    pub settings_error: Option<String>,
    /// One entry per lighting surface, in the order they first reported.
    pub keyboards: Vec<KeyboardStatus>,
    /// A state being auditioned on the physical keyboard: every lane plays it,
    /// in its own colour, until this expires. The window keeps showing the real
    /// sessions — this exists so a pattern can be judged by looking at the keys
    /// without having to manufacture an agent in that state.
    pub preview: Option<Preview>,
    /// What the last summon actually achieved — from the marker key and the
    /// Focus button alike. "Raised, showing the api tab" is a different outcome
    /// from "no tab there matches", and the user can see which they got.
    pub summon: Option<String>,
    /// The last F13–F24 press seen: key index and when. The diagnostic that
    /// tells an unremapped keyboard apart from a broken hook.
    pub last_key: Option<(usize, u64)>,
    /// Why the summon keys are not being captured, when they are not. Its own
    /// field so no later summon report can bury it.
    pub keys_error: Option<String>,
    /// The lane the numpad's top line is showing, if any.
    pub selected: Option<usize>,
    /// Whether the numpad's selection is pinned.
    pub locked: bool,
}

/// A [`Tracker`], as sequences and maps.
pub ghost struct Desk {
    pub settings: Setup,
    pub sessions: Seq<Life>,
    pub last_seen: Map<Seq<char>, u64>,
    pub events: u64,
    pub unknown_notifications: Map<Seq<char>, u64>,
    pub unrecognised_events: Map<Seq<char>, u64>,
    pub settings_error: Option<Seq<char>>,
    pub keyboards: Seq<Status>,
    pub preview: Option<Preview>,
    pub summon: Option<Seq<char>>,
    pub last_key: Option<(usize, u64)>,
    pub keys_error: Option<Seq<char>>,
    pub selected: Option<usize>,
    pub locked: bool,
}

pub open spec fn statuses(keyboards: Seq<KeyboardStatus>) -> Seq<Status> {
    Seq::new(keyboards.len(), |i: int| keyboards[i]@)
}

impl View for Tracker {
    type V = Desk;

    open spec fn view(&self) -> Desk {
        Desk {
            settings: self.settings@,
            sessions: lives(self.sessions@),
            last_seen: self.last_seen@,
            events: self.events,
            unknown_notifications: self.unknown_notifications@,
            unrecognised_events: self.unrecognised_events@,
            settings_error: text::shown(self.settings_error),
            keyboards: statuses(self.keyboards@),
            preview: self.preview,
            summon: text::shown(self.summon),
            last_key: self.last_key,
            keys_error: text::shown(self.keys_error),
            selected: self.selected,
            locked: self.locked,
        }
    }
}

/// The roster after one event.
pub open spec fn rostered(roster: Map<Seq<char>, u64>, event: Event) -> Map<Seq<char>, u64> {
    match event.agent {
        Some(id) => if event.kind == Kind::SubagentStop {
            roster.remove(id@)
        } else {
            roster.insert(id@, event.at)
        },
        None => if event.kind == Kind::SubagentStop {
            retired(roster)
        } else {
            roster
        },
    }
}

/// Whether nobody on the roster has been quiet for longer than `id`; of two
/// as quiet, the one whose name comes first.
pub open spec fn quietest(roster: Map<Seq<char>, u64>, id: Seq<char>) -> bool {
    &&& roster.contains_key(id)
    &&& forall|other: Seq<char>|
        #[trigger] roster.contains_key(other) && other != id ==> roster[id] < roster[other] || (
        roster[id] == roster[other] && before(id, other))
}

/// The roster without the one that has been quiet longest.
pub open spec fn retired(roster: Map<Seq<char>, u64>) -> Map<Seq<char>, u64> {
    if exists|id: Seq<char>| quietest(roster, id) {
        roster.remove(choose|id: Seq<char>| quietest(roster, id))
    } else {
        roster
    }
}

proof fn one_is_quietest(roster: Map<Seq<char>, u64>, left: Seq<char>, right: Seq<char>)
    requires
        quietest(roster, left),
        quietest(roster, right),
    ensures
        left == right,
{
    if left != right {
        one_comes_first(left, right);
    }
}

/// Takes the longest-quiet one off the roster.
fn retire(roster: &mut Table<u64>)
    ensures
        final(roster)@ == retired(old(roster)@),
{
    let entries = roster.pairs();
    let ghost map = roster@;
    proof {
        mapped_by_entries(entries@);
    }
    if entries.len() == 0 {
        proof {
            assert forall|id: Seq<char>| !quietest(map, id) by {
                if map.contains_key(id) {
                    assert(mapped(entries@).contains_key(id));
                }
            }
        }
        return;
    }
    let mut best: usize = 0;
    let mut i: usize = 1;
    while i < entries.len()
        invariant
            best < i <= entries@.len(),
            crate::table::sorted(entries@),
            forall|j: int|
                0 <= j < i ==> entries@[best as int].1 < (#[trigger] entries@[j]).1 || (
                entries@[best as int].1 == entries@[j].1 && best <= j),
        decreases entries@.len() - i,
    {
        if entries[i].1 < entries[best].1 {
            best = i;
        }
        i = i + 1;
    }
    let id = entries[best].0.clone();
    proof {
        assert(quietest(map, id@)) by {
            assert(map.contains_key(id@) && map[id@] == entries@[best as int].1);
            assert forall|other: Seq<char>| #[trigger] map.contains_key(other) && other != id@ implies map[id@]
                < map[other] || (map[id@] == map[other] && before(id@, other)) by {
                assert(mapped(entries@).contains_key(other));
                let j = choose|j: int| 0 <= j < entries@.len() && (#[trigger] entries@[j]).0@ == other;
                assert(map[other] == entries@[j].1);
                if map[id@] == map[other] {
                    assert(best < j);
                }
            }
        }
        let chosen = choose|id: Seq<char>| quietest(map, id);
        one_is_quietest(map, id@, chosen);
    }
    roster.remove(id.as_str());
}

/// Keeps a session's subagent roster true to one event.
///
/// Every event carrying an `agent_id` refreshes that subagent — its tool calls
/// are its heartbeat — a `SubagentStart` enrols it, and its `SubagentStop`
/// retires it. A `SubagentStop` that arrives with no id retires the
/// longest-quiet one: best effort, display-only, and better than ignoring a
/// finish the agent went to the trouble of reporting.
fn roster(subagents: &mut Table<u64>, event: &Event)
    ensures
        final(subagents)@ == rostered(old(subagents)@, *event),
{
    match &event.agent {
        Some(id) => if event.kind == Kind::SubagentStop {
            subagents.remove(id.as_str());
        } else {
            subagents.insert(id.clone(), event.at);
        },
        None => if event.kind == Kind::SubagentStop {
            retire(subagents);
        },
    }
}

/// A session after one more of its events.
pub open spec fn heard(life: Life, event: Event) -> Life {
    let step = next(life.state, event);
    // A step to the state it is already in changes nothing.
    let (state, since, failure) = match step {
        Step::Become(next) => if next == life.state {
            (life.state, life.since, reason(life, event))
        } else {
            (
                next,
                event.at,
                if next == State::Error {
                    reason(life, event)
                } else {
                    None
                },
            )
        },
        _ => (life.state, life.since, reason(life, event)),
    };
    Life {
        last_event: event.at,
        events: (life.events + 1) as u64,
        note: event.noted(),
        subagents: rostered(life.subagents, event),
        // The project directory is the *main* agent's: a subagent's never
        // becomes it, and a start's replaces it.
        cwd: if moves_in(life, event) {
            text::shown(event.cwd)
        } else {
            life.cwd
        },
        wt_session: if event.wt_session is Some {
            text::shown(event.wt_session)
        } else {
            life.wt_session
        },
        ancestors: if event.ancestors@.len() > 0 {
            line_of(event.ancestors@)
        } else {
            life.ancestors
        },
        gauges: match event.gauges {
            Some(gauges) => life.gauges.merged(gauges),
            None => life.gauges,
        },
        state,
        since,
        failure,
        ..life
    }
}

/// Why the lane is in Error, if the event says so, or as it was.
pub open spec fn reason(life: Life, event: Event) -> Option<Seq<char>> {
    if event.kind == Kind::StopFailure {
        Some(failure_named(text::shown(event.error_type)))
    } else {
        life.failure
    }
}

/// Whether the event's directory becomes the session's.
pub open spec fn moves_in(life: Life, event: Event) -> bool {
    !event.subagent && event.cwd is Some && (event.kind == Kind::SessionStart || life.cwd is None)
}

/// Whether a session off the keyboard has just learned where it works.
pub open spec fn placed(life: Life, event: Event) -> bool {
    moves_in(life, event) && life.cwd is None && life.lane is None
}

/// A session nobody has seen, from the event that introduced it.
pub open spec fn newcomer(event: Event, state: State) -> Life {
    Life {
        source: event.source@,
        session_id: event.session_id@,
        agent: event.sender,
        cwd: if event.subagent {
            None
        } else {
            text::shown(event.cwd)
        },
        state,
        since: event.at,
        first_seen: event.at,
        last_event: event.at,
        events: 1,
        note: event.noted(),
        subagents: match event.agent {
            Some(id) => if event.kind == Kind::SubagentStop {
                map![]
            } else {
                map![id@ => event.at]
            },
            None => map![],
        },
        lane: None,
        wt_session: text::shown(event.wt_session),
        ancestors: line_of(event.ancestors@),
        gauges: match event.gauges {
            Some(gauges) => gauges,
            None => Gauges::unknown(),
        },
        failure: if event.kind == Kind::StopFailure {
            Some(failure_named(text::shown(event.error_type)))
        } else {
            None
        },
    }
}

/// Where the first session that `source` calls `session_id` is.
pub open spec fn spot(sessions: Seq<Life>, source: Seq<char>, session_id: Seq<char>) -> Option<int>
    decreases sessions.len(),
{
    if sessions.len() == 0 {
        None
    } else {
        match spot(sessions.drop_last(), source, session_id) {
            Some(at) => Some(at),
            None => if sessions.last().is(source, session_id) {
                Some(sessions.len() - 1)
            } else {
                None
            },
        }
    }
}

/// A session is found where it is, and one that is there is found.
pub proof fn found_where_it_is(sessions: Seq<Life>, source: Seq<char>, session_id: Seq<char>)
    ensures
        match spot(sessions, source, session_id) {
            Some(at) => 0 <= at < sessions.len() && sessions[at].is(source, session_id)
                && forall|i: int| 0 <= i < at ==> !(#[trigger] sessions[i]).is(source, session_id),
            None => forall|i: int|
                0 <= i < sessions.len() ==> !(#[trigger] sessions[i]).is(source, session_id),
        },
    decreases sessions.len(),
{
    if sessions.len() > 0 {
        let fewer = sessions.drop_last();
        found_where_it_is(fewer, source, session_id);
        assert forall|i: int| 0 <= i < fewer.len() implies fewer[i] == #[trigger] sessions[i] by {}
    }
}

/// One more of `key`.
pub open spec fn tallied(counts: Map<Seq<char>, u64>, key: Seq<char>) -> Map<Seq<char>, u64> {
    counts.insert(
        key,
        if counts.contains_key(key) {
            (counts[key] + 1) as u64
        } else {
            1
        },
    )
}

fn tally(counts: &mut Table<u64>, key: &str)
    requires
        old(counts)@.contains_key(key@) ==> old(counts)@[key@] < u64::MAX,
    ensures
        final(counts)@ == tallied(old(counts)@, key@),
{
    let count: u64 = match counts.get(key) {
        Some(count) => count + 1,
        None => 1,
    };
    counts.insert(key.to_owned(), count);
}

/// What one surface says, in place of what it said before.
pub open spec fn told(keyboards: Seq<Status>, status: Status) -> Seq<Status>
    decreases keyboards.len(),
{
    if keyboards.len() == 0 {
        seq![status]
    } else if keyboards[0].surface == status.surface {
        seq![status] + keyboards.skip(1)
    } else {
        seq![keyboards[0]] + told(keyboards.skip(1), status)
    }
}

/// Whether no count is at its limit.
pub open spec fn counts_fit(counts: Map<Seq<char>, u64>) -> bool {
    forall|key: Seq<char>| #[trigger] counts.contains_key(key) ==> counts[key] < u64::MAX
}

impl Desk {
    /// Whether no count is at its limit.
    pub open spec fn has_room(self) -> bool {
        &&& self.events < u64::MAX
        &&& forall|i: int|
            0 <= i < self.sessions.len() ==> (#[trigger] self.sessions[i]).events < u64::MAX
        &&& counts_fit(self.unknown_notifications)
        &&& counts_fit(self.unrecognised_events)
    }

    /// With every laneless session given the best free lane there is.
    pub open spec fn filled(self) -> Desk {
        Desk { sessions: lanes::filled(self.sessions, self.settings), ..self }
    }

    /// After the session at `at` has had one more event.
    pub open spec fn updated(self, at: int, event: Event) -> Desk {
        let life = self.sessions[at];
        if next(life.state, event) == Step::Release {
            Desk { sessions: self.sessions.remove(at), ..self }.filled()
        } else {
            let heard = Desk { sessions: self.sessions.update(at, heard(life, event)), ..self };
            if placed(life, event) {
                heard.filled()
            } else {
                heard
            }
        }
    }

    /// After an event nobody we hold has sent.
    pub open spec fn introduced(self, event: Event) -> Desk {
        match adopted(event) {
            Some(state) => Desk {
                sessions: self.sessions.push(newcomer(event, state)),
                ..self
            }.filled(),
            None => self,
        }
    }

    /// With the numbers of a status line.
    pub open spec fn gauged(self, event: Event) -> Desk {
        match (event.gauges, spot(self.sessions, event.source@, event.session_id@)) {
            (Some(gauges), Some(at)) => Desk {
                sessions: self.sessions.update(
                    at,
                    Life {
                        gauges: self.sessions[at].gauges.merged(gauges),
                        ..self.sessions[at]
                    },
                ),
                ..self
            },
            _ => self,
        }
    }

    /// With an event counted, and its notification if that is not known.
    pub open spec fn counted(self, event: Event) -> Desk {
        Desk {
            events: (self.events + 1) as u64,
            unknown_notifications: if event.kind == Kind::Notification && state::note_of(event)
                == Some(Note::Unknown) {
                tallied(self.unknown_notifications, event.notification->0@)
            } else {
                self.unknown_notifications
            },
            ..self
        }
    }

    /// After one arriving event.
    pub open spec fn accepted(self, parsed: Parsed, now: u64) -> Desk {
        match parsed {
            Parsed::Unrecognised { source, name } => Desk {
                events: (self.events + 1) as u64,
                last_seen: self.last_seen.insert(source@, now),
                unrecognised_events: tallied(self.unrecognised_events, name@),
                ..self
            },
            Parsed::Event(event) => {
                let event = *event;
                let seen = Desk {
                    last_seen: self.last_seen.insert(event.source@, event.at),
                    ..self
                };
                if event.kind == Kind::StatusLine {
                    seen.gauged(event)
                } else {
                    let counted = seen.counted(event);
                    if event.session_id@.len() == 0 {
                        counted
                    } else {
                        match spot(self.sessions, event.source@, event.session_id@) {
                            Some(at) => counted.updated(at, event),
                            None => counted.introduced(event),
                        }
                    }
                }
            },
        }
    }
}

impl Default for Tracker {
    fn default() -> (tracker: Self)
        ensures
            tracker@ == desk(Setup::usual(), map![]),
    {
        Tracker::new(Settings::default(), Table::new())
    }
}

/// A tracker that has seen nothing yet.
pub open spec fn desk(settings: Setup, last_seen: Map<Seq<char>, u64>) -> Desk {
    Desk {
        settings,
        sessions: seq![],
        last_seen,
        events: 0,
        unknown_notifications: map![],
        unrecognised_events: map![],
        settings_error: None,
        keyboards: seq![],
        preview: None,
        summon: None,
        last_key: None,
        keys_error: None,
        selected: None,
        locked: false,
    }
}

impl Tracker {
    pub fn new(settings: Settings, last_seen: Table<u64>) -> (tracker: Self)
        ensures
            tracker@ == desk(settings@, last_seen@),
    {
        let tracker = Tracker {
            settings,
            sessions: Vec::new(),
            last_seen,
            events: 0,
            unknown_notifications: Table::new(),
            unrecognised_events: Table::new(),
            settings_error: None,
            keyboards: Vec::new(),
            preview: None,
            summon: None,
            last_key: None,
            keys_error: None,
            selected: None,
            locked: false,
        };
        assert(lives(tracker.sessions@) =~= seq![]);
        assert(statuses(tracker.keyboards@) =~= seq![]);
        tracker
    }

    /// A surface saying what it is doing. Replaces that surface's previous
    /// word; other surfaces keep theirs.
    pub fn report_keyboard(&mut self, status: KeyboardStatus)
        ensures
            final(self)@ == (Desk {
                keyboards: told(old(self)@.keyboards, status@),
                ..old(self)@
            }),
    {
        let ghost all = self@.keyboards;
        let ghost news = status@;
        let mut i: usize = 0;
        assert(all.skip(0) =~= all);
        assert(all.take(0) + told(all, news) =~= told(all, news));
        while i < self.keyboards.len() && !text::same(self.keyboards[i].surface, status.surface)
            invariant
                i <= self.keyboards@.len(),
                *self == *old(self),
                all == self@.keyboards,
                news == status@,
                told(all, news) == all.take(i as int) + told(all.skip(i as int), news),
            decreases self.keyboards@.len() - i,
        {
            assert(all[i as int] == self.keyboards@[i as int]@);
            assert(all.skip(i as int).skip(1) =~= all.skip(i + 1));
            assert(all.take(i as int) + (seq![all[i as int]] + told(all.skip(i + 1), news))
                =~= all.take(i + 1) + told(all.skip(i + 1), news));
            i = i + 1;
        }
        if i < self.keyboards.len() {
            assert(all[i as int] == self.keyboards@[i as int]@);
            self.keyboards.set(i, status);
            assert(statuses(self.keyboards@) =~= all.update(i as int, news));
            assert(all.skip(i as int).skip(1) =~= all.skip(i + 1));
            assert(all.take(i as int) + (seq![news] + all.skip(i + 1)) =~= all.update(
                i as int,
                news,
            ));
        } else {
            self.keyboards.push(status);
            assert(statuses(self.keyboards@) =~= all.push(news));
            assert(all.take(i as int) + seq![news] =~= all.push(news));
        }
    }

    /// Whether any surface is driving keys right now.
    pub fn keyboard_connected(&self) -> (r: bool)
        ensures
            r == exists|i: int|
                0 <= i < self@.keyboards.len() && (#[trigger] self@.keyboards[i]).connected,
    {
        let mut i: usize = 0;
        while i < self.keyboards.len()
            invariant
                i <= self.keyboards@.len(),
                forall|j: int| 0 <= j < i ==> !(#[trigger] self@.keyboards[j]).connected,
            decreases self.keyboards@.len() - i,
        {
            assert(self@.keyboards[i as int] == self.keyboards@[i as int]@);
            if self.keyboards[i].connected {
                return true;
            }
            i = i + 1;
        }
        false
    }

    fn find(&self, source: &str, session_id: &str) -> (r: Option<usize>)
        ensures
            match r {
                Some(at) => at < self.sessions@.len() && spot(
                    self@.sessions,
                    source@,
                    session_id@,
                ) == Some(at as int),
                None => spot(self@.sessions, source@, session_id@) is None,
            },
    {
        let mut i: usize = 0;
        let ghost all = self@.sessions;
        while i < self.sessions.len()
            invariant
                i <= self.sessions@.len(),
                all == self@.sessions,
                forall|j: int| 0 <= j < i ==> !(#[trigger] all[j]).is(source@, session_id@),
            decreases self.sessions@.len() - i,
        {
            assert(all[i as int] == self.sessions@[i as int]@);
            if text::same(self.sessions[i].source.as_str(), source) && text::same(
                self.sessions[i].session_id.as_str(),
                session_id,
            ) {
                proof {
                    found_where_it_is(all, source@, session_id@);
                }
                return Some(i);
            }
            i = i + 1;
        }
        proof {
            found_where_it_is(all, source@, session_id@);
        }
        None
    }
}

impl Tracker {
    /// Gives every laneless session the best free lane there is.
    ///
    /// Oldest first, so a lane freed by a session ending goes to whoever has
    /// been waiting for one longest rather than to whoever speaks next.
    pub fn fill_lanes(&mut self)
        ensures
            final(self)@ == old(self)@.filled(),
    {
        let ghost was = self@;
        let ghost setup = self@.settings;
        let count: usize = self.settings.lane_count;
        let ghost left = lanes::released(was.sessions, count);
        // A lane that no longer exists — the lane count shrank — is given up here
        // rather than left pointing past the end of the row.
        let mut i: usize = 0;
        while i < self.sessions.len()
            invariant
                i <= self.sessions@.len(),
                count == was.settings.lane_count,
                left == lanes::released(was.sessions, count),
                self@ == (Desk { sessions: self@.sessions, ..was }),
                self@.sessions =~= left.take(i as int) + was.sessions.skip(i as int),
                was.sessions.len() == self.sessions@.len(),
            decreases self.sessions@.len() - i,
        {
            let ghost now = self@.sessions;
            assert(now[i as int] == self.sessions@[i as int]@);
            assert(now[i as int] == was.sessions[i as int]);
            if let Some(lane) = self.sessions[i].lane {
                if lane >= count {
                    self.sessions[i].lane = None;
                }
            }
            assert(self@.sessions =~= now.update(i as int, left[i as int]));
            i = i + 1;
        }
        assert(self@.sessions =~= left);
        let order = lanes::oldest_first(&self.sessions);
        let ghost turns = lanes::by_age(left, left.len() as int);
        let mut k: usize = 0;
        proof {
            lanes::everybody_has_a_turn(left, left.len() as int);
            assert(turns.take(0) =~= seq![]);
        }
        while k < order.len()
            invariant
                k <= order@.len(),
                setup == was.settings,
                turns == lanes::by_age(left, left.len() as int),
                turns.len() == order@.len(),
                forall|j: int| 0 <= j < order@.len() ==> (#[trigger] order@[j]) == turns[j],
                forall|j: int|
                    0 <= j < order@.len() ==> (#[trigger] order@[j]) < self.sessions@.len(),
                self@ == (Desk { sessions: self@.sessions, ..was }),
                self@.sessions == lanes::seated(left, setup, turns.take(k as int)),
            decreases order@.len() - k,
        {
            let at: usize = order[k];
            let ghost now = self@.sessions;
            assert(now[at as int] == self.sessions@[at as int]@);
            assert(turns.take(k + 1).drop_last() =~= turns.take(k as int));
            assert(turns.take(k + 1).last() == at as int);
            if self.sessions[at].lane.is_none() {
                let lane = lanes::claim(&self.settings, &self.sessions, &self.sessions[at]);
                self.sessions[at].lane = lane;
                assert(self@.sessions =~= now.update(
                    at as int,
                    Life { lane, ..now[at as int] },
                ));
            }
            k = k + 1;
        }
        assert(turns.take(k as int) =~= turns);
    }

    fn update(&mut self, index: usize, event: &Event)
        requires
            index < old(self).sessions@.len(),
            old(self).sessions@[index as int].events < u64::MAX,
        ensures
            final(self)@ == old(self)@.updated(index as int, *event),
    {
        let ghost was = self@;
        let ghost life = self.sessions@[index as int]@;
        assert(was.sessions[index as int] == life);
        let step = state::step(self.sessions[index].state, event);
        if step == Step::Release {
            let _ = self.sessions.remove(index);
            assert(self@.sessions =~= was.sessions.remove(index as int));
            self.fill_lanes();
            return;
        }
        let mut learned_cwd = false;
        let mut session = self.sessions.remove(index);
        session.last_event = event.at;
        session.events = session.events + 1;
        session.note = event.note();
        roster(&mut session.subagents, event);
        // The project directory is the *main* agent's, and `SessionStart`
        // carries the authoritative launch directory. A subagent may be
        // working in a subfolder (`…/frontend` under a project rooted at
        // `…/`), and its cwd must never become the lane's project — that is
        // exactly the "bound to the wrong folder" bug. A non-start event's
        // cwd is only a fallback, used until a `SessionStart` pins it.
        if !event.subagent && event.cwd.is_some() && (event.kind == Kind::SessionStart
            || session.cwd.is_none()) {
            let first_cwd = session.cwd.is_none();
            session.cwd = text::copy_of(&event.cwd);
            // A session adopted from a subagent's event started without a
            // cwd, so it could not be recognised as a saved agent and may
            // be waiting off the keyboard. Now it can: give assignment
            // another look.
            if first_cwd && session.lane.is_none() {
                learned_cwd = true;
            }
        }
        // Other fields fill in whenever they show up, and are never cleared
        // by an event that omits them.
        if event.wt_session.is_some() {
            session.wt_session = text::copy_of(&event.wt_session);
        }
        if event.ancestors.len() > 0 {
            session.ancestors = copy_line(&event.ancestors);
        }
        if let Some(gauges) = event.gauges {
            session.gauges.merge(gauges);
        }
        if event.kind == Kind::StopFailure {
            session.failure = Some(failure(event));
        }
        if let Step::Become(next) = step {
            if next != session.state {
                session.state = next;
                session.since = event.at;
                if next != State::Error {
                    session.failure = None;
                }
            }
        }
        assert(session@ == heard(life, *event));
        self.sessions.insert(index, session);
        assert(self@.sessions =~= was.sessions.update(index as int, heard(life, *event)));
        if learned_cwd {
            self.fill_lanes();
        }
    }

    fn introduce(&mut self, event: &Event)
        ensures
            final(self)@ == old(self)@.introduced(*event),
    {
        let state = match state::adopt(event) {
            Some(state) => state,
            None => return,
        };
        let ghost was = self@;
        let mut subagents: Table<u64> = Table::new();
        if let Some(id) = &event.agent {
            if event.kind != Kind::SubagentStop {
                subagents.insert(id.clone(), event.at);
                assert(subagents@ =~= map![id@ => event.at]);
            }
        }
        let session = Session {
            source: event.source.clone(),
            session_id: event.session_id.clone(),
            agent: event.sender,
            // A session adopted from a subagent's event must not take that
            // subagent's working directory as its project; the main agent's
            // next event (or its SessionStart) sets it.
            cwd: if event.subagent {
                None
            } else {
                text::copy_of(&event.cwd)
            },
            state,
            since: event.at,
            first_seen: event.at,
            last_event: event.at,
            events: 1,
            note: event.note(),
            subagents,
            lane: None,
            wt_session: text::copy_of(&event.wt_session),
            ancestors: copy_line(&event.ancestors),
            gauges: match event.gauges {
                Some(gauges) => gauges,
                None => Gauges::default(),
            },
            failure: if event.kind == Kind::StopFailure {
                Some(failure(event))
            } else {
                None
            },
        };
        assert(session@ == newcomer(*event, state));
        self.sessions.push(session);
        assert(self@.sessions =~= was.sessions.push(newcomer(*event, state)));
        self.fill_lanes();
    }

    /// Takes one arriving event.
    pub fn accept(&mut self, parsed: Parsed, now: u64)
        requires
            old(self)@.has_room(),
        ensures
            final(self)@ == old(self)@.accepted(parsed, now),
    {
        let ghost was = self@;
        let event = match parsed {
            Parsed::Event(event) => *event,
            Parsed::Unrecognised { source, name } => {
                self.events = self.events + 1;
                self.last_seen.insert(source, now);
                tally(&mut self.unrecognised_events, name.as_str());
                return;
            },
        };
        self.last_seen.insert(event.source.clone(), event.at);
        let found = self.find(event.source.as_str(), event.session_id.as_str());

        // A status line is numbers for a session we hold, and nothing else:
        // not an event to count, not activity, not a session to introduce.
        // One for a session we do not hold is ordinary — an agent re-runs it
        // after a session has ended, and the app may have started late.
        if event.kind == Kind::StatusLine {
            if let Some(gauges) = event.gauges {
                if let Some(index) = found {
                    let ghost seen = self@;
                    assert(seen.sessions[index as int] == self.sessions@[index as int]@);
                    let mut session = self.sessions.remove(index);
                    session.gauges.merge(gauges);
                    self.sessions.insert(index, session);
                    assert(self@.sessions =~= seen.sessions.update(index as int, session@));
                }
            }
            return;
        }
        self.events = self.events + 1;

        if event.kind == Kind::Notification {
            if let Some(kind) = &event.notification {
                if state::classify(kind.as_str()) == Note::Unknown {
                    tally(&mut self.unknown_notifications, kind.as_str());
                }
            }
        }
        // Without a session id there is nothing to attach the event to. It
        // still counted, and the flavor is still recorded as alive.

        if event.session_id.as_str().is_empty() {
            return;
        }
        match found {
            Some(index) => {
                assert(was.sessions[index as int] == self.sessions@[index as int]@);
                self.update(index, &event);
            },
            None => self.introduce(&event),
        }
    }
}

fn failure(event: &Event) -> (word: String)
    ensures
        word@ == failure_named(text::shown(event.error_type)),
{
    match &event.error_type {
        Some(name) => failure_word(Some(name.as_str())),
        None => failure_word(None),
    }
}

/// The subagents heard from lately enough to count as at work.
pub open spec fn recent(roster: Map<Seq<char>, u64>, now: u64) -> Map<Seq<char>, u64> {
    Map::new(
        |id: Seq<char>| roster.contains_key(id) && quiet_for(roster[id], now) < SUBAGENT_IDLE_MS,
        |id: Seq<char>| roster[id],
    )
}

fn keep_recent(roster: &Table<u64>, now: u64) -> (r: Table<u64>)
    ensures
        r@ == recent(roster@, now),
{
    let entries = roster.pairs();
    let mut out: Table<u64> = Table::new();
    let mut i: usize = 0;
    proof {
        mapped_by_entries(entries@);
        assert(mapped(entries@.take(0)) =~= map![]);
        assert(out@ =~= recent(map![], now));
    }
    while i < entries.len()
        invariant
            i <= entries@.len(),
            out@ == recent(mapped(entries@.take(i as int)), now),
            crate::table::sorted(entries@),
        decreases entries@.len() - i,
    {
        let ghost some = entries@.take(i as int);
        proof {
            let more = entries@.take(i + 1);
            assert(more.drop_last() =~= some);
            mapped_by_entries(some);
            assert(!mapped(some).contains_key(entries@[i as int].0@)) by {
                if mapped(some).contains_key(entries@[i as int].0@) {
                    let j = choose|j: int|
                        0 <= j < some.len() && (#[trigger] some[j]).0@ == entries@[i as int].0@;
                    assert(before(entries@[j].0@, entries@[i as int].0@));
                    one_comes_first(entries@[j].0@, entries@[i as int].0@);
                }
            }
        }
        let last: u64 = entries[i].1;
        let quiet: u64 = if now >= last { now - last } else { 0 };
        if quiet < SUBAGENT_IDLE_MS {
            out.insert(entries[i].0.clone(), last);
        }
        assert(out@ =~= recent(mapped(entries@.take(i + 1)), now));
        i = i + 1;
    }
    assert(entries@.take(i as int) =~= entries@);
    out
}

/// A session after a look at the clock: Idle when it has been quiet for
/// longer than its state allows.
pub open spec fn swept(life: Life, now: u64) -> Life {
    let left = Life { subagents: recent(life.subagents, now), ..life };
    if left.patience() matches Some(allowance) && quiet_for(left.last_event, now) >= allowance {
        Life { state: State::Idle, since: now, ..left }
    } else {
        left
    }
}

/// `lane`, after `from` and `to` have changed places.
pub open spec fn exchanged(lane: usize, from: usize, to: usize) -> usize {
    if lane == from {
        to
    } else if lane == to {
        from
    } else {
        lane
    }
}

fn exchange(lane: usize, from: usize, to: usize) -> (r: usize)
    ensures
        r == exchanged(lane, from, to),
{
    if lane == from {
        to
    } else if lane == to {
        from
    } else {
        lane
    }
}

pub open spec fn lane_moved(life: Life, from: usize, to: usize) -> Life {
    Life {
        lane: match life.lane {
            Some(lane) => Some(exchanged(lane, from, to)),
            None => None,
        },
        ..life
    }
}

/// The first session on a lane.
pub open spec fn sitting(sessions: Seq<Life>, lane: usize) -> Option<int>
    decreases sessions.len(),
{
    if sessions.len() == 0 {
        None
    } else {
        match sitting(sessions.drop_last(), lane) {
            Some(at) => Some(at),
            None => if sessions.last().lane == Some(lane) {
                Some(sessions.len() - 1)
            } else {
                None
            },
        }
    }
}

/// The session found on a lane is on it, and one that is there is found.
pub proof fn found_on_its_lane(sessions: Seq<Life>, lane: usize)
    ensures
        match sitting(sessions, lane) {
            Some(at) => 0 <= at < sessions.len() && sessions[at].lane == Some(lane) && forall|i: int|
                0 <= i < at ==> (#[trigger] sessions[i]).lane != Some(lane),
            None => forall|i: int|
                0 <= i < sessions.len() ==> (#[trigger] sessions[i]).lane != Some(lane),
        },
    decreases sessions.len(),
{
    if sessions.len() > 0 {
        let fewer = sessions.drop_last();
        found_on_its_lane(fewer, lane);
        assert forall|i: int| 0 <= i < fewer.len() implies fewer[i] == #[trigger] sessions[i] by {}
    }
}

/// Those of `order` that have no lane.
pub open spec fn laneless(sessions: Seq<Life>, order: Seq<int>) -> Seq<Life>
    decreases order.len(),
{
    if order.len() == 0 {
        seq![]
    } else {
        let before = laneless(sessions, order.drop_last());
        let life = sessions[order.last()];
        if life.lane is None {
            before.push(life)
        } else {
            before
        }
    }
}

/// The tab names worth trying for a session: its lane's, then its project's.
pub open spec fn tabs(setup: Setup, life: Life, lane: Option<usize>) -> Seq<Seq<char>> {
    let project = life.project();
    match (lane, project) {
        (Some(lane), Some(project)) => {
            let called = setup.called(lane as int, Some(project));
            if called == project {
                seq![called]
            } else {
                seq![called, project]
            }
        },
        (Some(lane), None) => seq![setup.called(lane as int, None)],
        (None, Some(project)) => seq![project],
        (None, None) => seq![],
    }
}

impl Desk {
    pub open spec fn swept(self, now: u64) -> Desk {
        Desk {
            sessions: Seq::new(self.sessions.len(), |i: int| swept(self.sessions[i], now)),
            ..self
        }
    }

    /// With two lanes' places exchanged: name, colour, the saved agents that
    /// prefer each, and whatever session is on each.
    pub open spec fn lane_moved(self, from: usize, to: usize) -> Desk {
        let count = self.settings.lane_count;
        if from >= count || to >= count || from == to {
            self
        } else {
            let lanes = self.settings.lanes;
            let saved = self.settings.saved;
            Desk {
                settings: Setup {
                    lanes: lanes.update(from as int, lanes[to as int]).update(
                        to as int,
                        lanes[from as int],
                    ),
                    saved: Seq::new(
                        saved.len(),
                        |i: int| Save { lane: exchanged(saved[i].lane, from, to), ..saved[i] },
                    ),
                    ..self.settings
                },
                sessions: Seq::new(
                    self.sessions.len(),
                    |i: int| lane_moved(self.sessions[i], from, to),
                ),
                ..self
            }
        }
    }

    /// Without whatever is on `lane`.
    pub open spec fn dismissed(self, lane: usize) -> Desk {
        if lanes::is_held(self.sessions, lane) {
            Desk {
                sessions: self.sessions.filter(|life: Life| life.lane != Some(lane)),
                ..self
            }.filled()
        } else {
            self
        }
    }

    /// Without the session that `source` calls `session_id`.
    pub open spec fn session_dismissed(self, source: Seq<char>, session_id: Seq<char>) -> Desk {
        if spot(self.sessions, source, session_id) is Some {
            Desk {
                sessions: self.sessions.filter(|life: Life| !life.is(source, session_id)),
                ..self
            }.filled()
        } else {
            self
        }
    }

    /// With a session that has no lane on the bottom one, and whoever was
    /// there off it.
    pub open spec fn promoted(self, source: Seq<char>, session_id: Seq<char>) -> Desk {
        match spot(self.sessions, source, session_id) {
            Some(at) => if self.sessions[at].lane is Some || self.settings.lane_count == 0 {
                self
            } else {
                let bottom = (self.settings.lane_count - 1) as usize;
                Desk {
                    sessions: Seq::new(
                        self.sessions.len(),
                        |i: int|
                            Life {
                                lane: if i == at {
                                    Some(bottom)
                                } else if self.sessions[i].lane == Some(bottom) {
                                    None
                                } else {
                                    self.sessions[i].lane
                                },
                                ..self.sessions[i]
                            },
                    ),
                    ..self
                }
            },
            None => self,
        }
    }

    /// Whether a press on this lane's answer keys may type.
    pub open spec fn answerable(self, lane: usize) -> bool {
        self.preview is None && (sitting(self.sessions, lane) matches Some(at)
            && self.sessions[at].shows() == State::Waiting)
    }

    /// Whether any session is the saved agent.
    pub open spec fn runs(self, saved: Save) -> bool {
        exists|i: int|
            0 <= i < self.sessions.len() && ((#[trigger] self.sessions[i]).agent matches Some(agent)
                && saved.is(agent, self.sessions[i].cwd))
    }
}

impl Tracker {
    /// Demotes sessions that have gone quiet for longer than their state
    /// allows. Demotes, never drops: eviction was a timer guessing "probably
    /// dead", while [`State::Idle`] states a fact — nothing heard for this
    /// long — and the session keeps its lane for whenever its user returns.
    /// Only `SessionEnd` and the user's ✕ remove a session.
    ///
    /// Called from the window every frame rather than from a timer: there is no
    /// clock in this application, only "what time is it now, given that I am
    /// about to draw something".
    pub fn sweep(&mut self, now: u64)
        ensures
            final(self)@ == old(self)@.swept(now),
    {
        let ghost was = self@;
        let ghost goal = self@.swept(now).sessions;
        let mut i: usize = 0;
        while i < self.sessions.len()
            invariant
                i <= self.sessions@.len(),
                goal == was.swept(now).sessions,
                self@ == (Desk { sessions: self@.sessions, ..was }),
                self@.sessions =~= goal.take(i as int) + was.sessions.skip(i as int),
                was.sessions.len() == self.sessions@.len(),
            decreases self.sessions@.len() - i,
        {
            let ghost seen = self@.sessions;
            assert(seen[i as int] == self.sessions@[i as int]@);
            assert(seen[i as int] == was.sessions[i as int]);
            // A subagent that went silent without a SubagentStop comes off the
            // roster, or a dead one would keep its lane looking busy forever.
            let left = keep_recent(&self.sessions[i].subagents, now);
            let mut session = self.sessions.remove(i);
            session.subagents = left;
            if let Some(allowance) = session.demotes_after() {
                let last: u64 = session.last_event;
                let quiet: u64 = if now >= last { now - last } else { 0 };
                if quiet >= allowance {
                    session.state = State::Idle;
                    session.since = now;
                }
            }
            assert(session@ == swept(was.sessions[i as int], now));
            self.sessions.insert(i, session);
            assert(self@.sessions =~= seen.update(i as int, goal[i as int]));
            i = i + 1;
        }
        assert(self@.sessions =~= goal);
    }

    /// What pressing a lane's marker key should raise: the session's reported
    /// Windows ancestry, and the tab names worth trying — what the user called
    /// the lane first, since that is the name they control, then the project.
    ///
    /// `Err` is the reason there is nothing to focus, in the words the window
    /// shows for it.
    pub fn summon_target(&self, lane: usize) -> (r: Result<(Vec<Ancestor>, Vec<String>), String>)
        ensures
            match sitting(self@.sessions, lane) {
                Some(at) => r is Ok && line_of(r->Ok_0.0@) == self@.sessions[at].ancestors
                    && text::views(r->Ok_0.1@) == tabs(
                    self@.settings,
                    self@.sessions[at],
                    Some(lane),
                ),
                None => r is Err && r->Err_0@ == "lane "@ + decimal((lane + 1) as nat)
                    + " is empty — nothing to focus"@,
            },
    {
        match self.seat(lane) {
            Some(at) => {
                assert(self@.sessions[at as int] == self.sessions@[at as int]@);
                Ok(self.summon_of(&self.sessions[at], Some(lane)))
            },
            None => {
                let mut reason = "lane ".to_owned();
                reason.push_str(crate::settings::lane_number(lane).as_str());
                reason.push_str(" is empty — nothing to focus");
                Err(reason)
            },
        }
    }

    /// [`Self::summon_target`] for a session named by identity rather than by
    /// lane — the off-keyboard cards use it. Without a lane there is no lane
    /// name, so the project is the only tab worth trying.
    pub fn summon_session(&self, source: &str, session_id: &str) -> (r: Result<
        (Vec<Ancestor>, Vec<String>),
        String,
    >)
        ensures
            match spot(self@.sessions, source@, session_id@) {
                Some(at) => r is Ok && line_of(r->Ok_0.0@) == self@.sessions[at].ancestors
                    && text::views(r->Ok_0.1@) == tabs(
                    self@.settings,
                    self@.sessions[at],
                    self@.sessions[at].lane,
                ),
                None => r is Err && r->Err_0@ == "that session is gone — nothing to focus"@,
            },
    {
        match self.find(source, session_id) {
            Some(at) => {
                assert(self@.sessions[at as int] == self.sessions@[at as int]@);
                let session = &self.sessions[at];
                Ok(self.summon_of(session, session.lane))
            },
            None => Err("that session is gone — nothing to focus".to_owned()),
        }
    }

    fn summon_of(&self, session: &Session, lane: Option<usize>) -> (r: (Vec<Ancestor>, Vec<String>))
        ensures
            line_of(r.0@) == session@.ancestors,
            text::views(r.1@) == tabs(self@.settings, session@, lane),
    {
        let project = session.project();
        let mut names: Vec<String> = Vec::new();
        if let Some(lane) = lane {
            let known: Option<&str> = match &project {
                Some(project) => Some(project.as_str()),
                None => None,
            };
            names.push(self.settings.display_name(lane, known));
        }
        if let Some(project) = project {
            if names.len() == 0 || !text::same(names[0].as_str(), project.as_str()) {
                names.push(project);
            }
        }
        assert(text::views(names@) =~= tabs(self@.settings, session@, lane));
        (copy_line(&session.ancestors), names)
    }

    fn seat(&self, lane: usize) -> (r: Option<usize>)
        ensures
            match r {
                Some(at) => at < self.sessions@.len() && sitting(self@.sessions, lane) == Some(
                    at as int,
                ),
                None => sitting(self@.sessions, lane) is None,
            },
    {
        let mut i: usize = 0;
        let ghost all = self@.sessions;
        while i < self.sessions.len()
            invariant
                i <= self.sessions@.len(),
                all == self@.sessions,
                forall|j: int| 0 <= j < i ==> (#[trigger] all[j]).lane != Some(lane),
            decreases self.sessions@.len() - i,
        {
            assert(all[i as int] == self.sessions@[i as int]@);
            if self.sessions[i].lane == Some(lane) {
                proof {
                    found_on_its_lane(all, lane);
                }
                return Some(i);
            }
            i = i + 1;
        }
        proof {
            found_on_its_lane(all, lane);
        }
        None
    }

    /// The session on a lane, if any.
    pub fn on_lane(&self, lane: usize) -> (r: Option<&Session>)
        ensures
            match sitting(self@.sessions, lane) {
                Some(at) => r matches Some(session) && session@ == self@.sessions[at],
                None => r is None,
            },
    {
        match self.seat(lane) {
            Some(at) => {
                assert(self@.sessions[at as int] == self.sessions@[at as int]@);
                Some(&self.sessions[at])
            },
            None => None,
        }
    }

    /// Whether a press on this lane's answer keys may type: a session on it
    /// whose effective state is Waiting, and no preview playing — a preview
    /// is a look, not a question. The one question every surface with answer
    /// keys asks, so the F-row and a Stream Deck can never disagree on it.
    pub fn answerable(&self, lane: usize) -> (r: bool)
        ensures
            r == self@.answerable(lane),
    {
        self.preview.is_none() && match self.on_lane(lane) {
            Some(session) => session.effective_state() == State::Waiting,
            None => false,
        }
    }

    /// Sessions with no lane, in the order they arrived.
    pub fn overflow(&self) -> (extra: Vec<&Session>)
        ensures
            Seq::new(extra@.len(), |i: int| extra@[i]@) == laneless(
                self@.sessions,
                lanes::by_age(self@.sessions, self@.sessions.len() as int),
            ),
    {
        let order = lanes::oldest_first(&self.sessions);
        let ghost turns = lanes::by_age(self@.sessions, self@.sessions.len() as int);
        let ghost all = self@.sessions;
        let mut extra: Vec<&Session> = Vec::new();
        let mut k: usize = 0;
        proof {
            lanes::everybody_has_a_turn(all, all.len() as int);
            assert(turns.take(0) =~= seq![]);
            assert(Seq::new(extra@.len(), |i: int| extra@[i]@) =~= seq![]);
        }
        while k < order.len()
            invariant
                k <= order@.len(),
                all == self@.sessions,
                turns == lanes::by_age(all, all.len() as int),
                turns.len() == order@.len(),
                forall|j: int| 0 <= j < order@.len() ==> (#[trigger] order@[j]) == turns[j],
                forall|j: int|
                    0 <= j < order@.len() ==> (#[trigger] order@[j]) < self.sessions@.len(),
                Seq::new(extra@.len(), |i: int| extra@[i]@) == laneless(all, turns.take(k as int)),
            decreases order@.len() - k,
        {
            let at: usize = order[k];
            let ghost so_far = extra@;
            assert(all[at as int] == self.sessions@[at as int]@);
            assert(turns.take(k + 1).drop_last() =~= turns.take(k as int));
            if self.sessions[at].lane.is_none() {
                extra.push(&self.sessions[at]);
                assert(Seq::new(extra@.len(), |i: int| extra@[i]@) =~= Seq::new(
                    so_far.len(),
                    |i: int| so_far[i]@,
                ).push(all[at as int]));
            }
            k = k + 1;
        }
        assert(turns.take(k as int) =~= turns);
        extra
    }

    pub fn set_lane_count(&mut self, count: usize)
        ensures
            final(self)@ == (Desk {
                settings: old(self)@.settings.counted(count as int),
                ..old(self)@
            }).filled(),
    {
        self.settings.set_lane_count(count);
        self.fill_lanes();
    }

    /// Re-runs assignment after the saved roster changed, without moving
    /// anybody who already has a lane.
    pub fn reseat(&mut self)
        ensures
            final(self)@ == old(self)@.filled(),
    {
        self.fill_lanes();
    }

    /// Whether any session we can see is this saved agent. The roster in the
    /// window lists only the ones that are not — a running one is shown where
    /// it runs.
    pub fn running(&self, saved: &SavedAgent) -> (r: bool)
        ensures
            r == self@.runs(saved@),
    {
        let mut i: usize = 0;
        while i < self.sessions.len()
            invariant
                i <= self.sessions@.len(),
                forall|j: int|
                    0 <= j < i ==> !((#[trigger] self@.sessions[j]).agent matches Some(agent)
                        && saved@.is(agent, self@.sessions[j].cwd)),
            decreases self.sessions@.len() - i,
        {
            let session = &self.sessions[i];
            assert(self@.sessions[i as int] == session@);
            if let Some(agent) = session.agent {
                let cwd: Option<&str> = match &session.cwd {
                    Some(cwd) => Some(cwd.as_str()),
                    None => None,
                };
                if saved.matches(agent, cwd) {
                    return true;
                }
            }
            i = i + 1;
        }
        false
    }
}

impl Tracker {
    /// Swaps two lanes: name, colour, the saved agents that prefer each, and
    /// whatever session is on each. The one sanctioned exception to "a live
    /// lane is never reordered" — the user did it, deliberately, so everything
    /// travels together and the lane they picked up is the lane that lands.
    pub fn move_lane(&mut self, from: usize, to: usize)
        requires
            old(self)@.settings.lane_count <= old(self)@.settings.lanes.len(),
        ensures
            final(self)@ == old(self)@.lane_moved(from, to),
    {
        let count: usize = self.settings.lane_count;
        if from >= count || to >= count || from == to {
            return;
        }
        let ghost was = self@;
        let ghost goal = self@.lane_moved(from, to);
        assert(was.settings.lanes[from as int] == self.settings.lanes@[from as int]@);
        assert(was.settings.lanes[to as int] == self.settings.lanes@[to as int]@);
        let first = Lane {
            name: self.settings.lanes[to].name.clone(),
            color: self.settings.lanes[to].color,
        };
        let second = Lane {
            name: self.settings.lanes[from].name.clone(),
            color: self.settings.lanes[from].color,
        };
        self.settings.lanes.set(from, first);
        self.settings.lanes.set(to, second);
        assert(self@.settings.lanes =~= goal.settings.lanes);
        let mut i: usize = 0;
        while i < self.settings.saved.len()
            invariant
                i <= self.settings.saved@.len(),
                goal == was.lane_moved(from, to),
                from < was.settings.lane_count,
                to < was.settings.lane_count,
                from != to,
                self@ == (Desk {
                    settings: Setup {
                        lanes: goal.settings.lanes,
                        saved: self@.settings.saved,
                        ..was.settings
                    },
                    ..was
                }),
                self@.settings.saved =~= goal.settings.saved.take(i as int)
                    + was.settings.saved.skip(i as int),
                was.settings.saved.len() == self.settings.saved@.len(),
            decreases self.settings.saved@.len() - i,
        {
            let ghost now = self@.settings.saved;
            assert(now[i as int] == self.settings.saved@[i as int]@);
            assert(now[i as int] == was.settings.saved[i as int]);
            let lane: usize = exchange(self.settings.saved[i].lane, from, to);
            self.settings.saved[i].lane = lane;
            assert(self@.settings.saved =~= now.update(
                i as int,
                goal.settings.saved[i as int],
            ));
            i = i + 1;
        }
        assert(self@.settings.saved =~= goal.settings.saved);
        let mut i: usize = 0;
        while i < self.sessions.len()
            invariant
                i <= self.sessions@.len(),
                goal == was.lane_moved(from, to),
                from < was.settings.lane_count,
                to < was.settings.lane_count,
                from != to,
                self@ == (Desk { settings: goal.settings, sessions: self@.sessions, ..was }),
                self@.sessions =~= goal.sessions.take(i as int) + was.sessions.skip(i as int),
                was.sessions.len() == self.sessions@.len(),
            decreases self.sessions@.len() - i,
        {
            let ghost now = self@.sessions;
            assert(now[i as int] == self.sessions@[i as int]@);
            assert(now[i as int] == was.sessions[i as int]);
            if let Some(lane) = self.sessions[i].lane {
                self.sessions[i].lane = Some(exchange(lane, from, to));
            }
            assert(self@.sessions =~= now.update(i as int, goal.sessions[i as int]));
            i = i + 1;
        }
        assert(self@.sessions =~= goal.sessions);
    }

    /// Drops whatever session is on a lane, at the user's request.
    ///
    /// Display-side only, which is what makes it always safe: if the agent is
    /// actually still alive, its next event re-adopts it. What this really
    /// removes is a session whose agent died without a `SessionEnd` — a killed
    /// terminal, a crash — which otherwise stays.
    pub fn dismiss(&mut self, lane: usize)
        ensures
            final(self)@ == old(self)@.dismissed(lane),
    {
        let ghost was = self@;
        let ghost keep = |life: Life| life.lane != Some(lane);
        let mut kept: Vec<Session> = Vec::new();
        let mut all: Vec<Session> = Vec::new();
        std::mem::swap(&mut all, &mut self.sessions);
        let before: usize = all.len();
        let ghost held = was.sessions;
        proof {
            reveal(Seq::filter);
            assert(held.take(0) =~= seq![]);
            assert(lives(kept@) =~= seq![]);
        }
        for session in iter: all
            invariant
                iter.seq() == all@,
                held == lives(all@),
                lives(kept@) == held.take(iter.index() as int).filter(keep),
                keep == (|life: Life| life.lane != Some(lane)),
                kept@.len() <= iter.index(),
                kept@.len() == iter.index() <==> forall|j: int|
                    0 <= j < iter.index() ==> (#[trigger] held[j]).lane != Some(lane),
        {
            let ghost so_far = kept@;
            let ghost at = iter.index() as int;
            proof {
                reveal(Seq::filter);
                assert(session == all@[at]);
                assert(held[at] == session@);
                assert(held.take(at + 1).drop_last() =~= held.take(at));
            }
            if session.lane != Some(lane) {
                kept.push(session);
                assert(lives(kept@) =~= lives(so_far).push(session@));
            }
        }
        assert(held.take(held.len() as int) =~= held);
        let removed: bool = kept.len() != before;
        self.sessions = kept;
        proof {
            if !removed {
                everybody_stays(held, keep);
            }
        }
        if removed {
            self.fill_lanes();
        }
    }

    /// [`Self::dismiss`] for a session named by identity rather than by lane —
    /// how an off-keyboard card is dismissed. Same safety: if the agent is
    /// actually still alive, its next event re-adopts it.
    pub fn dismiss_session(&mut self, source: &str, session_id: &str)
        ensures
            final(self)@ == old(self)@.session_dismissed(source@, session_id@),
    {
        let ghost was = self@;
        let ghost keep = |life: Life| !life.is(source@, session_id@);
        let mut kept: Vec<Session> = Vec::new();
        let mut all: Vec<Session> = Vec::new();
        std::mem::swap(&mut all, &mut self.sessions);
        let before: usize = all.len();
        let ghost held = was.sessions;
        proof {
            reveal(Seq::filter);
            assert(held.take(0) =~= seq![]);
            assert(lives(kept@) =~= seq![]);
            found_where_it_is(held, source@, session_id@);
        }
        for session in iter: all
            invariant
                iter.seq() == all@,
                held == lives(all@),
                lives(kept@) == held.take(iter.index() as int).filter(keep),
                keep == (|life: Life| !life.is(source@, session_id@)),
                kept@.len() <= iter.index(),
                kept@.len() == iter.index() <==> forall|j: int|
                    0 <= j < iter.index() ==> !(#[trigger] held[j]).is(source@, session_id@),
        {
            let ghost so_far = kept@;
            let ghost at = iter.index() as int;
            proof {
                reveal(Seq::filter);
                assert(session == all@[at]);
                assert(held[at] == session@);
                assert(held.take(at + 1).drop_last() =~= held.take(at));
            }
            if !(text::same(session.source.as_str(), source) && text::same(
                session.session_id.as_str(),
                session_id,
            )) {
                kept.push(session);
                assert(lives(kept@) =~= lives(so_far).push(session@));
            }
        }
        assert(held.take(held.len() as int) =~= held);
        let removed: bool = kept.len() != before;
        self.sessions = kept;
        proof {
            if !removed {
                everybody_stays(held, keep);
            }
        }
        if removed {
            self.fill_lanes();
        }
    }

    /// Gives an off-keyboard session the bottom lane, at the user's request.
    ///
    /// The incumbent, if any, steps off the keyboard — with ⏶⏷ this is the
    /// second sanctioned exception to "nothing takes a lane away from a
    /// session that already has one": the user did it, deliberately. No
    /// reassignment runs afterwards: whenever a session is off the keyboard
    /// every lane is occupied, so re-running it would only re-seat the
    /// session that just stepped down.
    pub fn promote(&mut self, source: &str, session_id: &str)
        ensures
            final(self)@ == old(self)@.promoted(source@, session_id@),
    {
        let index: usize = match self.find(source, session_id) {
            Some(index) => index,
            None => return,
        };
        let ghost was = self@;
        assert(was.sessions[index as int] == self.sessions@[index as int]@);
        if self.sessions[index].lane.is_some() || self.settings.lane_count == 0 {
            return;
        }
        let ghost goal = self@.promoted(source@, session_id@).sessions;
        let bottom: usize = self.settings.lane_count - 1;
        let mut i: usize = 0;
        while i < self.sessions.len()
            invariant
                i <= self.sessions@.len(),
                index < self.sessions@.len(),
                spot(was.sessions, source@, session_id@) == Some(index as int),
                was.sessions[index as int].lane is None,
                was.settings.lane_count > 0,
                bottom == was.settings.lane_count - 1,
                goal == was.promoted(source@, session_id@).sessions,
                self@ == (Desk { sessions: self@.sessions, ..was }),
                self@.sessions =~= goal.take(i as int) + was.sessions.skip(i as int),
                was.sessions.len() == self.sessions@.len(),
            decreases self.sessions@.len() - i,
        {
            let ghost now = self@.sessions;
            assert(now[i as int] == self.sessions@[i as int]@);
            assert(now[i as int] == was.sessions[i as int]);
            if i == index {
                self.sessions[i].lane = Some(bottom);
            } else if self.sessions[i].lane == Some(bottom) {
                self.sessions[i].lane = None;
            }
            assert(self@.sessions =~= now.update(i as int, goal[i as int]));
            i = i + 1;
        }
        assert(self@.sessions =~= goal);
    }
}

/// Where everybody is kept, nothing changes.
proof fn everybody_stays(all: Seq<Life>, keep: spec_fn(Life) -> bool)
    requires
        all.filter(keep).len() == all.len(),
    ensures
        all.filter(keep) == all,
    decreases all.len(),
{
    reveal(Seq::filter);
    if all.len() > 0 {
        let fewer = all.drop_last();
        no_more_than(fewer, keep);
        everybody_stays(fewer, keep);
        assert(fewer.push(all.last()) =~= all);
    } else {
        assert(all.filter(keep) =~= all);
    }
}

proof fn no_more_than(all: Seq<Life>, keep: spec_fn(Life) -> bool)
    ensures
        all.filter(keep).len() <= all.len(),
    decreases all.len(),
{
    reveal(Seq::filter);
    if all.len() > 0 {
        no_more_than(all.drop_last(), keep);
    }
}

/// The lane `delta` steps from `selected`, round and round the first `shown`;
/// with nothing selected, the first step lands on the first lane or the last.
pub open spec fn stepped(selected: Option<usize>, delta: int, shown: int) -> Option<usize> {
    if shown <= 0 {
        None
    } else {
        match selected {
            Some(lane) => Some(((lane + delta) % shown) as usize),
            None => Some(
                (if delta > 0 {
                    (delta - 1) % shown
                } else {
                    delta % shown
                }) as usize,
            ),
        }
    }
}

impl Tracker {
    /// Puts the numpad's selection on `lane`.
    pub fn select(&mut self, lane: usize)
        ensures
            final(self)@ == (Desk { selected: Some(lane), ..old(self)@ }),
    {
        self.selected = Some(lane);
    }

    /// Moves the numpad's selection `delta` steps through the lanes it shows.
    pub fn select_delta(&mut self, delta: isize)
        ensures
            final(self)@ == (Desk {
                selected: stepped(
                    old(self)@.selected,
                    delta as int,
                    if old(self)@.settings.lane_count < NUMPAD_LANES {
                        old(self)@.settings.lane_count as int
                    } else {
                        NUMPAD_LANES as int
                    },
                ),
                ..old(self)@
            }),
    {
        let count: usize = self.settings.lane_count;
        let shown: usize = if count < NUMPAD_LANES { count } else { NUMPAD_LANES };
        if shown == 0 {
            self.selected = None;
            return;
        }
        let size: i128 = shown as i128;
        let from: i128 = match self.selected {
            Some(lane) => lane as i128,
            None => if delta > 0 { -1 } else { 0 },
        };
        let sum: i128 = from + delta as i128;
        // Rust's remainder has the dividend's sign; the place does not.
        let rest: i128 = if sum >= 0 {
            sum % size
        } else {
            let over: i128 = (-sum) % size;
            if over == 0 { 0 } else { size - over }
        };
        proof {
            place_below_zero(sum as int, size as int);
        }
        self.selected = Some(rest as usize);
    }

    /// Pins the numpad's selection, or unpins it.
    pub fn toggle_lock(&mut self)
        ensures
            final(self)@ == (Desk { locked: !old(self)@.locked, ..old(self)@ }),
    {
        self.locked = !self.locked;
    }
}

proof fn place_below_zero(sum: int, size: int)
    requires
        size > 0,
    ensures
        0 <= sum % size < size,
        0 <= (-sum) % size < size,
        sum % size == (if (-sum) % size == 0 {
            0
        } else {
            size - (-sum) % size
        }),
{
    let q = (-sum) / size;
    let r = (-sum) % size;
    vstd::arithmetic::div_mod::lemma_fundamental_div_mod(-sum, size);
    vstd::arithmetic::div_mod::lemma_mod_bound(-sum, size);
    if r == 0 {
        assert(sum == size * (-q) + 0) by (nonlinear_arith)
            requires
                -sum == size * q + r,
                r == 0,
        ;
        vstd::arithmetic::div_mod::lemma_fundamental_div_mod_converse(sum, size, -q, 0);
    } else {
        assert(sum == size * (-q - 1) + (size - r)) by (nonlinear_arith)
            requires
                -sum == size * q + r,
        ;
        vstd::arithmetic::div_mod::lemma_fundamental_div_mod_converse(sum, size, -q - 1, size - r);
    }
}

/// Whole seconds from one moment to another; none when the first is ahead.
pub open spec fn seconds(since_ms: u64, now_ms: u64) -> nat {
    quiet_for(since_ms, now_ms) as nat / 1000
}

pub open spec fn hours_and_minutes(secs: nat) -> Seq<char> {
    decimal(secs / 3600) + "h "@ + decimal(secs % 3600 / 60) + "m"@
}

pub open spec fn elapsed_text(secs: nat) -> Seq<char> {
    if secs < 60 {
        decimal(secs) + "s"@
    } else if secs < 3600 {
        decimal(secs / 60) + "m "@ + decimal(secs % 60) + "s"@
    } else {
        hours_and_minutes(secs)
    }
}

pub open spec fn held_text(secs: nat) -> Seq<char> {
    if secs < 60 {
        decimal(secs) + "s"@
    } else if secs < 3600 {
        decimal(secs / 60) + "m"@
    } else {
        hours_and_minutes(secs)
    }
}

fn seconds_between(since_ms: u64, now_ms: u64) -> (secs: u64)
    ensures
        secs == seconds(since_ms, now_ms),
{
    if now_ms >= since_ms {
        (now_ms - since_ms) / 1000
    } else {
        0
    }
}

fn in_hours(secs: u64) -> (r: String)
    ensures
        r@ == hours_and_minutes(secs as nat),
{
    let mut out = text::number(secs / 3600);
    out.push_str("h ");
    out.push_str(text::number(secs % 3600 / 60).as_str());
    out.push_str("m");
    out
}

/// "3s", "1m 20s", "2h 5m" — how long a lane has been in its state.
pub fn elapsed(since_ms: u64, now_ms: u64) -> (r: String)
    ensures
        r@ == elapsed_text(seconds(since_ms, now_ms)),
{
    let secs: u64 = seconds_between(since_ms, now_ms);
    if secs < 60 {
        let mut out = text::number(secs);
        out.push_str("s");
        out
    } else if secs < 3600 {
        let mut out = text::number(secs / 60);
        out.push_str("m ");
        out.push_str(text::number(secs % 60).as_str());
        out.push_str("s");
        out
    } else {
        in_hours(secs)
    }
}

/// "12s", "12m", "1h 12m" — how long a lane has been waiting on the user.
/// Seconds only inside the first minute, when they say the question just
/// appeared; past that, minutes: the number is a count, not a stopwatch,
/// and a key that changes once a minute is written once a minute.
pub fn held(since_ms: u64, now_ms: u64) -> (r: String)
    ensures
        r@ == held_text(seconds(since_ms, now_ms)),
{
    let secs: u64 = seconds_between(since_ms, now_ms);
    if secs < 60 {
        let mut out = text::number(secs);
        out.push_str("s");
        out
    } else if secs < 3600 {
        let mut out = text::number(secs / 60);
        out.push_str("m");
        out
    } else {
        in_hours(secs)
    }
}

pub open spec fn clock_text(state: State, secs: nat) -> Seq<char> {
    if state == State::Waiting {
        held_text(secs)
    } else {
        elapsed_text(secs)
    }
}

/// What a surface shows for a lane in `state` — the state it shows, which
/// for a lane with subagents may not be the one it holds: [`held`] in
/// Waiting, [`elapsed`] anywhere else.
pub fn clock(state: State, since_ms: u64, now_ms: u64) -> (r: String)
    ensures
        r@ == clock_text(state, seconds(since_ms, now_ms)),
{
    match state {
        State::Waiting => held(since_ms, now_ms),
        _ => elapsed(since_ms, now_ms),
    }
}

/// **A time is read in its largest units**: seconds under a minute, minutes and
/// seconds under an hour, and from there hours and minutes; the parts add up to
/// the time, and none is a whole of the next.
pub proof fn a_time_is_read_in_its_largest_units(secs: nat)
    ensures
        secs < 60 ==> elapsed_text(secs) == decimal(secs) + "s"@,
        60 <= secs < 3600 ==> exists|m: nat, s: nat|
            elapsed_text(secs) == #[trigger] decimal(m) + "m "@ + #[trigger] decimal(s) + "s"@ && 60
                * m + s == secs && s < 60,
        3600 <= secs ==> exists|h: nat, m: nat|
            elapsed_text(secs) == #[trigger] decimal(h) + "h "@ + #[trigger] decimal(m) + "m"@
                && 3600 * h + 60 * m <= secs < 3600 * h + 60 * m + 60 && m < 60,
{
    if secs >= 3600 {
        let h = secs / 3600;
        let m = secs % 3600 / 60;
        assert(3600 * h + 60 * m <= secs < 3600 * h + 60 * m + 60 && m < 60);
        assert(elapsed_text(secs) == decimal(h) + "h "@ + decimal(m) + "m"@);
    } else if secs >= 60 {
        let m = secs / 60;
        let s = secs % 60;
        assert(elapsed_text(secs) == decimal(m) + "m "@ + decimal(s) + "s"@);
    }
}

/// **A lane that waits counts by the minute**: under an hour it says whole
/// minutes, so it does not tick; under a minute and over an hour it reads as
/// any other.
pub proof fn a_waiting_lane_counts_by_the_minute(state: State, secs: nat)
    ensures
        state != State::Waiting ==> clock_text(state, secs) == elapsed_text(secs),
        state == State::Waiting && (secs < 60 || 3600 <= secs) ==> clock_text(state, secs)
            == elapsed_text(secs),
        state == State::Waiting && 60 <= secs < 3600 ==> exists|m: nat|
            clock_text(state, secs) == #[trigger] decimal(m) + "m"@ && 60 * m <= secs < 60 * m + 60,
{
    if 60 <= secs < 3600 {
        let m = secs / 60;
        assert(held_text(secs) == decimal(m) + "m"@);
    }
}

/// Time is counted in whole seconds, and none has passed where a clock went
/// back.
pub proof fn time_is_counted_in_whole_seconds(since_ms: u64, now_ms: u64)
    ensures
        now_ms >= since_ms ==> 1000 * seconds(since_ms, now_ms) <= now_ms - since_ms < 1000
            * seconds(since_ms, now_ms) + 1000,
        now_ms < since_ms ==> seconds(since_ms, now_ms) == 0,
{
}

/// **Turning the knob goes round the lanes**: a step on is the next lane and
/// from the last the first; a step back undoes it; with nothing selected a step
/// on is the first and a step back the last; and where there is no lane, there
/// is nothing to select.
pub proof fn the_knob_goes_round_the_lanes(lane: usize, shown: int)
    requires
        shown <= usize::MAX,
    ensures
        0 <= lane < shown ==> stepped(Some(lane), 1, shown) == Some(
            (if lane + 1 < shown {
                lane + 1
            } else {
                0
            }) as usize,
        ),
        0 <= lane < shown ==> stepped(Some(lane), -1, shown) == Some(
            (if lane > 0 {
                lane - 1
            } else {
                shown - 1
            }) as usize,
        ),
        0 < shown ==> stepped(None, 1, shown) == Some(0usize),
        0 < shown ==> stepped(None, -1, shown) == Some((shown - 1) as usize),
        shown <= 0 ==> stepped(Some(lane), 1, shown) is None && stepped(None, -1, shown) is None,
{
    if 0 <= lane < shown {
        if lane + 1 < shown {
            vstd::arithmetic::div_mod::lemma_small_mod((lane + 1) as nat, shown as nat);
        } else {
            vstd::arithmetic::div_mod::lemma_fundamental_div_mod_converse(shown, shown, 1, 0);
        }
        if lane > 0 {
            vstd::arithmetic::div_mod::lemma_small_mod((lane - 1) as nat, shown as nat);
        } else {
            vstd::arithmetic::div_mod::lemma_fundamental_div_mod_converse(
                -1,
                shown,
                -1,
                shown - 1,
            );
        }
    }
    if 0 < shown {
        vstd::arithmetic::div_mod::lemma_small_mod(0, shown as nat);
        vstd::arithmetic::div_mod::lemma_fundamental_div_mod_converse(-1, shown, -1, shown - 1);
    }
}

/// **The tab is called as the lane is, then as the project is**: a lane's name
/// comes first, the project's is tried after it, and no name twice.
pub proof fn a_tab_is_called_as_its_lane_is(setup: Setup, life: Life, lane: Option<usize>)
    ensures
        ({
            let names = tabs(setup, life, lane);
            let called = setup.called(lane->0 as int, life.project());
            &&& lane is Some ==> names.len() > 0 && names[0] == called
            &&& life.project() is Some ==> names.contains(life.project()->0)
            &&& lane is None && life.project() is None ==> names.len() == 0
            &&& names.no_duplicates()
            &&& forall|i: int|
                0 <= i < names.len() ==> (lane is Some && #[trigger] names[i] == called) || Some(
                    names[i],
                ) == life.project()
        }),
{
    let names = tabs(setup, life, lane);
    if life.project() is Some {
        assert(names[names.len() - 1] == life.project()->0);
    }
}

/// **One line to a device**: what a device says of itself stands in place of
/// what it said before, and what others said stays.
pub proof fn a_device_has_one_line(keyboards: Seq<Status>, status: Status, i: int)
    ensures
        ({
            let after = told(keyboards, status);
            let known = exists|k: int|
                0 <= k < keyboards.len() && (#[trigger] keyboards[k]).surface == status.surface;
            &&& after.contains(status)
            &&& after.len() == keyboards.len() + (if known {
                0int
            } else {
                1int
            })
            &&& 0 <= i < keyboards.len() && keyboards[i].surface != status.surface ==> after[i]
                == keyboards[i]
        }),
    decreases keyboards.len(),
{
    let after = told(keyboards, status);
    if keyboards.len() == 0 {
        assert(after[0] == status);
    } else if keyboards[0].surface == status.surface {
        assert(after[0] == status);
        if 0 < i < keyboards.len() {
            assert(keyboards.skip(1)[i - 1] == keyboards[i]);
        }
    } else {
        let rest = keyboards.skip(1);
        a_device_has_one_line(rest, status, i - 1);
        let told_rest = told(rest, status);
        let k = choose|k: int| 0 <= k < told_rest.len() && told_rest[k] == status;
        assert(after[k + 1] == status);
        if 0 < i < keyboards.len() {
            assert(rest[i - 1] == keyboards[i]);
            assert(after[i] == told_rest[i - 1]);
        }
        if exists|k: int|
            0 <= k < keyboards.len() && (#[trigger] keyboards[k]).surface == status.surface {
            let k = choose|k: int|
                0 <= k < keyboards.len() && (#[trigger] keyboards[k]).surface == status.surface;
            assert(rest[k - 1].surface == status.surface);
        }
        if exists|k: int| 0 <= k < rest.len() && (#[trigger] rest[k]).surface == status.surface {
            let k = choose|k: int| 0 <= k < rest.len() && (#[trigger] rest[k]).surface == status.surface;
            assert(keyboards[k + 1].surface == status.surface);
        }
    }
}

/// **What is counted goes up by one, and nothing else moves.**
pub proof fn a_tally_goes_up_by_one(counts: Map<Seq<char>, u64>, key: Seq<char>, other: Seq<char>)
    requires
        counts_fit(counts),
    ensures
        ({
            let after = tallied(counts, key);
            &&& after.contains_key(key)
            &&& after[key] == (if counts.contains_key(key) {
                counts[key] + 1
            } else {
                1
            })
            &&& other != key ==> after.contains_key(other) == counts.contains_key(other) && (
            counts.contains_key(other) ==> after[other] == counts[other])
        }),
{
}

/// **Whoever has no lane is in the overflow, and nobody else**, the oldest
/// first.
pub proof fn the_overflow_is_whoever_has_no_lane(sessions: Seq<Life>, i: int)
    requires
        0 <= i < sessions.len(),
    ensures
        ({
            let extra = laneless(sessions, lanes::by_age(sessions, sessions.len() as int));
            &&& sessions[i].lane is None ==> extra.contains(sessions[i])
            &&& forall|k: int| 0 <= k < extra.len() ==> (#[trigger] extra[k]).lane is None
            &&& forall|k: int, l: int|
                0 <= k < l < extra.len() ==> (#[trigger] extra[k]).first_seen <= (
                #[trigger] extra[l]).first_seen
        }),
{
    let order = lanes::by_age(sessions, sessions.len() as int);
    lanes::everybody_has_a_turn(sessions, sessions.len() as int);
    lanes::the_oldest_goes_first(sessions, sessions.len() as int);
    assert(order.contains(i));
    laneless_of(sessions, order);
    let k = choose|k: int| 0 <= k < order.len() && order[k] == i;
    if sessions[i].lane is None {
        laneless_has(sessions, order, k);
    }
}

proof fn laneless_has(sessions: Seq<Life>, order: Seq<int>, k: int)
    requires
        0 <= k < order.len(),
        sessions[order[k]].lane is None,
    ensures
        laneless(sessions, order).contains(sessions[order[k]]),
    decreases order.len(),
{
    let fewer = order.drop_last();
    let before = laneless(sessions, fewer);
    let all = laneless(sessions, order);
    if k < fewer.len() {
        assert(fewer[k] == order[k]);
        laneless_has(sessions, fewer, k);
        let at = choose|at: int| 0 <= at < before.len() && before[at] == sessions[order[k]];
        assert(all[at] == sessions[order[k]]);
    } else {
        assert(all[all.len() - 1] == sessions[order[k]]);
    }
}

proof fn laneless_of(sessions: Seq<Life>, order: Seq<int>)
    requires
        forall|j: int, k: int|
            0 <= j < k < order.len() ==> sessions[#[trigger] order[j]].first_seen <= sessions[
            #[trigger] order[k]].first_seen,
    ensures
        ({
            let extra = laneless(sessions, order);
            &&& forall|k: int| 0 <= k < extra.len() ==> (#[trigger] extra[k]).lane is None
            &&& forall|k: int|
                0 <= k < extra.len() ==> exists|j: int|
                    0 <= j < order.len() && (#[trigger] extra[k]) == sessions[#[trigger] order[j]]
            &&& forall|k: int, l: int|
                0 <= k < l < extra.len() ==> (#[trigger] extra[k]).first_seen <= (
                #[trigger] extra[l]).first_seen
        }),
    decreases order.len(),
{
    if order.len() > 0 {
        let fewer = order.drop_last();
        assert forall|j: int, k: int| 0 <= j < k < fewer.len() implies sessions[
        #[trigger] fewer[j]].first_seen <= sessions[#[trigger] fewer[k]].first_seen by {
            assert(fewer[j] == order[j] && fewer[k] == order[k]);
        }
        laneless_of(sessions, fewer);
        let before = laneless(sessions, fewer);
        let extra = laneless(sessions, order);
        let last = order.len() - 1;
        assert forall|k: int| 0 <= k < extra.len() implies exists|j: int|
            0 <= j < order.len() && (#[trigger] extra[k]) == sessions[#[trigger] order[j]] by {
            if k < before.len() {
                let j = choose|j: int| 0 <= j < fewer.len() && before[k] == sessions[#[trigger] fewer[j]];
                assert(order[j] == fewer[j]);
                assert(extra[k] == sessions[order[j]]);
            } else {
                assert(extra[k] == sessions[order[last]]);
            }
        }
        assert forall|k: int, l: int| 0 <= k < l < extra.len() implies (
        #[trigger] extra[k]).first_seen <= (#[trigger] extra[l]).first_seen by {
            if l == before.len() {
                let j = choose|j: int| 0 <= j < fewer.len() && before[k] == sessions[#[trigger] fewer[j]];
                assert(order[j] == fewer[j]);
                assert(sessions[order[j]].first_seen <= sessions[order[last]].first_seen);
            }
        }
    }
}

/// A keyboard that lacks keys says how many it has; one that has them all is
/// only its name.
pub proof fn a_row_says_what_it_lacks(model: Seq<char>, driven: nat)
    ensures
        driven == 12 ==> row_said(model, driven) == model,
        driven != 12 ==> row_said(model, driven) == model + ": only "@ + decimal(driven)
            + " of the "@ + decimal(12)
            + " F-row keys exist here, so the lanes are incomplete"@,
{
}

/// A saved agent is running while a session of it is: of that agent, where it
/// is saved for one, in that folder.
pub proof fn a_saved_agent_runs_while_a_session_does(desk: Desk, saved: Save, i: int)
    requires
        0 <= i < desk.sessions.len(),
        desk.sessions[i].agent is Some,
        desk.sessions[i].cwd == Some(saved.folder),
        saved.agent == crate::settings::AgentFilter::Any,
    ensures
        desk.runs(saved),
{
    assert(saved.is(desk.sessions[i].agent->0, desk.sessions[i].cwd));
}

} // verus!
