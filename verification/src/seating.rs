//! What holds of the lanes whatever happens: nobody shares one, nobody loses
//! one, and none stands empty while somebody waits.

use vstd::prelude::*;

use crate::event::{Event, Kind, Parsed, line_of};
use crate::lanes::{
    by_age, choice, everybody_has_a_turn, filled, first_open, is_held, is_open, kept, preferred,
    released, seated,
};
use crate::settings::Setup;
use crate::state::{Note, State, Step, adopted, next, note_of};
use crate::table::before;
use crate::tracker::{
    Desk, Life, found_where_it_is, heard, lane_moved, newcomer, placed, quietest, recent, rostered,
    spot, swept, tallied,
};
use crate::text::shown;

verus! {

/// Whether no two sessions share a lane.
pub open spec fn apart(sessions: Seq<Life>) -> bool {
    forall|i: int, j: int|
        0 <= i < j < sessions.len() && (#[trigger] sessions[i]).lane is Some ==> sessions[i].lane
            != (#[trigger] sessions[j]).lane
}

/// Whether every lane somebody is on exists.
pub open spec fn on_the_row(sessions: Seq<Life>, count: usize) -> bool {
    forall|i: int|
        0 <= i < sessions.len() && (#[trigger] sessions[i]).lane is Some ==> sessions[i].lane->0
            < count
}

/// Whether every lane is taken.
pub open spec fn full(sessions: Seq<Life>, count: usize) -> bool {
    forall|lane: usize| lane < count ==> #[trigger] is_held(sessions, lane)
}

/// Whether everybody has a lane, or there is none to have.
pub open spec fn served(sessions: Seq<Life>, count: usize) -> bool {
    (exists|i: int| 0 <= i < sessions.len() && (#[trigger] sessions[i]).lane is None) ==> full(
        sessions,
        count,
    )
}

impl Desk {
    /// Nobody shares a lane, every lane somebody is on exists, and nobody is
    /// without one while one is free.
    pub open spec fn is_seated(self) -> bool {
        &&& apart(self.sessions)
        &&& on_the_row(self.sessions, self.settings.lane_count)
        &&& served(self.sessions, self.settings.lane_count)
    }

    /// Whether no session is held twice.
    pub open spec fn is_distinct(self) -> bool {
        forall|i: int, j: int|
            0 <= i < j < self.sessions.len() ==> !(#[trigger] self.sessions[i]).is(
                (#[trigger] self.sessions[j]).source,
                self.sessions[j].session_id,
            )
    }
}

/// Whether `left` and `right` differ in nothing but their lane.
pub open spec fn same_but_lane(left: Life, right: Life) -> bool {
    right == (Life { lane: right.lane, ..left })
}

proof fn preferred_is_open(sessions: Seq<Life>, setup: Setup, upto: int, life: Life)
    ensures
        preferred(sessions, setup, upto, life) matches Some(lane) ==> is_open(
            sessions,
            setup.lane_count,
            lane,
        ),
    decreases upto,
{
    if upto > 0 {
        preferred_is_open(sessions, setup, upto - 1, life);
    }
}

proof fn first_is_open(sessions: Seq<Life>, setup: Setup, upto: int, shy: bool)
    requires
        upto <= setup.lane_count,
    ensures
        first_open(sessions, setup, upto, shy) matches Some(lane) ==> is_open(
            sessions,
            setup.lane_count,
            lane,
        ),
        !shy && first_open(sessions, setup, upto, shy) is None ==> forall|lane: usize|
            lane < upto ==> #[trigger] is_held(sessions, lane),
    decreases upto,
{
    if upto > 0 {
        first_is_open(sessions, setup, upto - 1, shy);
        if !shy && first_open(sessions, setup, upto, shy) is None {
            assert forall|lane: usize| lane < upto implies #[trigger] is_held(sessions, lane) by {
                if lane == upto - 1 {
                    assert(!is_open(sessions, setup.lane_count, lane));
                }
            }
        }
    }
}

/// A lane that is chosen is open; none is chosen only when none is open.
pub proof fn a_choice_is_open(sessions: Seq<Life>, setup: Setup, life: Life)
    ensures
        match choice(sessions, setup, life) {
            Some(lane) => is_open(sessions, setup.lane_count, lane),
            None => full(sessions, setup.lane_count),
        },
{
    let count = setup.lane_count as int;
    preferred_is_open(sessions, setup, setup.saved.len() as int, life);
    first_is_open(sessions, setup, count, true);
    first_is_open(sessions, setup, count, false);
}

proof fn seating(left: Seq<Life>, setup: Setup, order: Seq<int>)
    requires
        apart(left),
        on_the_row(left, setup.lane_count),
        forall|k: int| 0 <= k < order.len() ==> 0 <= #[trigger] order[k] < left.len(),
    ensures
        ({
            let now = seated(left, setup, order);
            &&& now.len() == left.len()
            &&& apart(now)
            &&& on_the_row(now, setup.lane_count)
            &&& forall|i: int|
                0 <= i < left.len() ==> same_but_lane(left[i], #[trigger] now[i]) && (
                left[i].lane is Some ==> now[i] == left[i])
            &&& forall|k: int|
                0 <= k < order.len() && now[#[trigger] order[k]].lane is None ==> full(
                    now,
                    setup.lane_count,
                )
        }),
    decreases order.len(),
{
    if order.len() > 0 {
        let fewer = order.drop_last();
        assert forall|k: int| 0 <= k < fewer.len() implies 0 <= #[trigger] fewer[k] < left.len() by {
            assert(fewer[k] == order[k]);
        }
        seating(left, setup, fewer);
        let was = seated(left, setup, fewer);
        let now = seated(left, setup, order);
        let at = order.last();
        assert(order[order.len() - 1] == at);
        a_choice_is_open(was, setup, was[at]);
        let lane = choice(was, setup, was[at]);
        if was[at].lane is None {
            assert forall|other: usize| #[trigger] is_held(was, other) implies is_held(now, other) by {
                let i = choose|i: int| 0 <= i < was.len() && (#[trigger] was[i]).lane == Some(other);
                assert(now[i].lane == Some(other));
            }
            assert forall|i: int, j: int|
                0 <= i < j < now.len() && (#[trigger] now[i]).lane is Some implies now[i].lane != (
            #[trigger] now[j]).lane by {
                if i != at && j != at {
                    assert(was[i] == now[i] && was[j] == now[j]);
                } else if i == at {
                    assert(now[j] == was[j]);
                    if was[j].lane == lane {
                        assert(is_held(was, lane->0));
                    }
                } else {
                    assert(now[i] == was[i]);
                    if was[i].lane == lane {
                        assert(is_held(was, lane->0));
                    }
                }
            }
        }
        assert forall|k: int| 0 <= k < order.len() && now[#[trigger] order[k]].lane is None implies full(
            now,
            setup.lane_count,
        ) by {
            if k < fewer.len() {
                assert(fewer[k] == order[k]);
                if order[k] != at || was[at].lane is Some {
                    assert(was[order[k]].lane is None);
                    assert(full(was, setup.lane_count));
                    assert forall|other: usize| other < setup.lane_count implies #[trigger] is_held(
                        now,
                        other,
                    ) by {
                        assert(is_held(was, other));
                    }
                }
            }
            if order[k] == at && was[at].lane is None {
                assert(full(was, setup.lane_count));
                assert forall|other: usize| other < setup.lane_count implies #[trigger] is_held(
                    now,
                    other,
                ) by {
                    assert(is_held(was, other));
                }
            }
        }
    }
}

/// **Filling the lanes seats everybody it can and moves nobody.** Whoever is
/// on a lane that exists stays on it; afterwards nobody shares a lane, and
/// nobody is without one while one is free. Nothing about a session changes
/// but its lane.
pub proof fn filling_moves_nobody(desk: Desk)
    requires
        apart(desk.sessions),
    ensures
        desk.filled().is_seated(),
        desk.filled().settings == desk.settings,
        desk.filled().sessions.len() == desk.sessions.len(),
        forall|i: int|
            0 <= i < desk.sessions.len() ==> same_but_lane(
                desk.sessions[i],
                #[trigger] desk.filled().sessions[i],
            ),
        forall|i: int|
            0 <= i < desk.sessions.len() && desk.sessions[i].lane is Some
                && desk.sessions[i].lane->0 < desk.settings.lane_count
                ==> #[trigger] desk.filled().sessions[i] == desk.sessions[i],
{
    let count = desk.settings.lane_count;
    let left = released(desk.sessions, count);
    assert forall|i: int, j: int|
        0 <= i < j < left.len() && (#[trigger] left[i]).lane is Some implies left[i].lane != (
    #[trigger] left[j]).lane by {
        assert(left[i] == kept(desk.sessions[i], count));
        assert(left[j] == kept(desk.sessions[j], count));
        assert(desk.sessions[i].lane != desk.sessions[j].lane);
    }
    assert forall|i: int| 0 <= i < left.len() && (#[trigger] left[i]).lane is Some implies left[i].lane->0
        < count by {
        assert(left[i] == kept(desk.sessions[i], count));
    }
    let order = by_age(left, left.len() as int);
    everybody_has_a_turn(left, left.len() as int);
    seating(left, desk.settings, order);
    let now = filled(desk.sessions, desk.settings);
    assert(served(now, count)) by {
        if exists|i: int| 0 <= i < now.len() && (#[trigger] now[i]).lane is None {
            let i = choose|i: int| 0 <= i < now.len() && (#[trigger] now[i]).lane is None;
            assert(order.contains(i));
            let k = choose|k: int| 0 <= k < order.len() && order[k] == i;
            assert(now[order[k]].lane is None);
        }
    }
    assert forall|i: int| 0 <= i < desk.sessions.len() implies same_but_lane(
        desk.sessions[i],
        #[trigger] now[i],
    ) by {
        assert(left[i] == kept(desk.sessions[i], count));
    }
    assert forall|i: int|
        0 <= i < desk.sessions.len() && desk.sessions[i].lane is Some && desk.sessions[i].lane->0
            < count implies #[trigger] now[i] == desk.sessions[i] by {
        assert(left[i] == kept(desk.sessions[i], count));
    }
}

/// Whether a session is still held, on the lane it was on.
pub open spec fn stays_put(desk: Desk, life: Life) -> bool {
    exists|j: int|
        0 <= j < desk.sessions.len() && (#[trigger] desk.sessions[j]).is(
            life.source,
            life.session_id,
        ) && desk.sessions[j].lane == life.lane
}

/// Whether the event ends the session at `i`.
pub open spec fn ends(desk: Desk, parsed: Parsed, i: int) -> bool {
    match parsed {
        Parsed::Event(event) => event.kind == Kind::SessionEnd && !event.subagent
            && event.session_id@.len() > 0 && spot(
            desk.sessions,
            event.source@,
            event.session_id@,
        ) == Some(i),
        _ => false,
    }
}

proof fn unchanged_lanes(was: Seq<Life>, now: Seq<Life>, count: usize)
    requires
        was.len() == now.len(),
        forall|i: int| 0 <= i < was.len() ==> (#[trigger] now[i]).lane == was[i].lane,
    ensures
        apart(was) ==> apart(now),
        on_the_row(was, count) ==> on_the_row(now, count),
        served(was, count) ==> served(now, count),
{
    if apart(was) {
        assert forall|i: int, j: int|
            0 <= i < j < now.len() && (#[trigger] now[i]).lane is Some implies now[i].lane != (
        #[trigger] now[j]).lane by {
            assert(was[i].lane == now[i].lane && was[j].lane == now[j].lane);
        }
    }
    if on_the_row(was, count) {
        assert forall|i: int| 0 <= i < now.len() && (#[trigger] now[i]).lane is Some implies now[i].lane->0
            < count by {
            assert(was[i].lane == now[i].lane);
        }
    }
    if served(was, count) && (exists|i: int|
        0 <= i < now.len() && (#[trigger] now[i]).lane is None) {
        let i = choose|i: int| 0 <= i < now.len() && (#[trigger] now[i]).lane is None;
        assert(was[i].lane is None);
        assert forall|lane: usize| lane < count implies #[trigger] is_held(now, lane) by {
            assert(is_held(was, lane));
            let k = choose|k: int| 0 <= k < was.len() && (#[trigger] was[k]).lane == Some(lane);
            assert(now[k].lane == Some(lane));
        }
    }
}

/// **An event keeps the lanes in order**: if nobody shared a lane and nobody
/// waited for a free one, that is still so after any event.
pub proof fn an_event_keeps_everybody_seated(desk: Desk, parsed: Parsed, now: u64)
    requires
        desk.is_seated(),
    ensures
        desk.accepted(parsed, now).is_seated(),
{
    let count = desk.settings.lane_count;
    if let Parsed::Event(event) = parsed {
        let event = *event;
        let seen = Desk { last_seen: desk.last_seen.insert(event.source@, event.at), ..desk };
        found_where_it_is(desk.sessions, event.source@, event.session_id@);
        if event.kind == Kind::StatusLine {
            unchanged_lanes(desk.sessions, seen.gauged(event).sessions, count);
        } else if event.session_id@.len() > 0 {
            let counted = seen.counted(event);
            match spot(desk.sessions, event.source@, event.session_id@) {
                Some(at) => {
                    let life = desk.sessions[at];
                    if next(life.state, event) == Step::Release {
                        let left = desk.sessions.remove(at);
                        assert forall|i: int, j: int|
                            0 <= i < j < left.len() && (#[trigger] left[i]).lane is Some implies left[i].lane
                            != (#[trigger] left[j]).lane by {
                            let a = if i < at { i } else { i + 1 };
                            let b = if j < at { j } else { j + 1 };
                            assert(left[i] == desk.sessions[a] && left[j] == desk.sessions[b]);
                        }
                        filling_moves_nobody(Desk { sessions: left, ..counted });
                    } else {
                        let next = desk.sessions.update(at, heard(life, event));
                        unchanged_lanes(desk.sessions, next, count);
                        if placed(life, event) {
                            filling_moves_nobody(Desk { sessions: next, ..counted });
                        }
                    }
                },
                None => {
                    if adopted(event) is Some {
                        let grown = desk.sessions.push(newcomer(event, adopted(event)->0));
                        assert forall|i: int, j: int|
                            0 <= i < j < grown.len() && (#[trigger] grown[i]).lane is Some implies grown[i].lane
                            != (#[trigger] grown[j]).lane by {
                            if j < desk.sessions.len() {
                                assert(desk.sessions[i].lane != desk.sessions[j].lane);
                            }
                        }
                        filling_moves_nobody(Desk { sessions: grown, ..counted });
                    }
                },
            }
        }
    }
}

/// **Nothing takes a lane away from a session that has one, and only its end
/// removes a session**: after any event, everybody who was held is still held
/// and whoever had a lane is still on it — all but the one whose
/// `SessionEnd` it was.
pub proof fn an_event_takes_nobodys_lane(desk: Desk, parsed: Parsed, now: u64, i: int)
    requires
        desk.is_seated(),
        0 <= i < desk.sessions.len(),
        !ends(desk, parsed, i),
    ensures
        desk.sessions[i].lane is Some ==> stays_put(desk.accepted(parsed, now), desk.sessions[i]),
        spot(
            desk.accepted(parsed, now).sessions,
            desk.sessions[i].source,
            desk.sessions[i].session_id,
        ) is Some,
{
    let life = desk.sessions[i];
    let after = desk.accepted(parsed, now);
    found_where_it_is(after.sessions, life.source, life.session_id);
    assert(life.lane is Some ==> life.lane->0 < desk.settings.lane_count);
    match parsed {
        Parsed::Unrecognised { .. } => {
            assert(after.sessions[i] == life);
        },
        Parsed::Event(boxed) => {
            let event = *boxed;
            let seen = Desk { last_seen: desk.last_seen.insert(event.source@, event.at), ..desk };
            let counted = seen.counted(event);
            found_where_it_is(desk.sessions, event.source@, event.session_id@);
            if event.kind == Kind::StatusLine || event.session_id@.len() == 0 {
                assert(after.sessions[i].lane == life.lane);
                assert(after.sessions[i].is(life.source, life.session_id));
            } else {
                match spot(desk.sessions, event.source@, event.session_id@) {
                    Some(at) => {
                        let heard_at = desk.sessions[at];
                        if next(heard_at.state, event) == Step::Release {
                            let left = desk.sessions.remove(at);
                            assert forall|a: int, b: int|
                                0 <= a < b < left.len() && (#[trigger] left[a]).lane is Some implies left[a].lane
                                != (#[trigger] left[b]).lane by {
                                let x = if a < at { a } else { a + 1 };
                                let y = if b < at { b } else { b + 1 };
                                assert(left[a] == desk.sessions[x] && left[b] == desk.sessions[y]);
                            }
                            filling_moves_nobody(Desk { sessions: left, ..counted });
                            let j = if i < at { i } else { i - 1 };
                            assert(i != at);
                            assert(left[j] == life);
                            assert(same_but_lane(life, after.sessions[j]));
                            assert(after.sessions[j].is(life.source, life.session_id));
                        } else {
                            let next = desk.sessions.update(at, heard(heard_at, event));
                            unchanged_lanes(desk.sessions, next, desk.settings.lane_count);
                            if placed(heard_at, event) {
                                filling_moves_nobody(Desk { sessions: next, ..counted });
                                assert(same_but_lane(next[i], after.sessions[i]));
                            }
                            assert(after.sessions[i].is(life.source, life.session_id));
                            assert(life.lane is Some ==> after.sessions[i].lane == life.lane);
                        }
                    },
                    None => {
                        if adopted(event) is Some {
                            let grown = desk.sessions.push(newcomer(event, adopted(event)->0));
                            assert forall|a: int, b: int|
                                0 <= a < b < grown.len() && (#[trigger] grown[a]).lane is Some implies grown[a].lane
                                != (#[trigger] grown[b]).lane by {
                                if b < desk.sessions.len() {
                                    assert(desk.sessions[a].lane != desk.sessions[b].lane);
                                }
                            }
                            filling_moves_nobody(Desk { sessions: grown, ..counted });
                            assert(grown[i] == life);
                            assert(same_but_lane(grown[i], after.sessions[i]));
                            assert(after.sessions[i].is(life.source, life.session_id));
                        } else {
                            assert(after.sessions[i] == life);
                        }
                    },
                }
            }
        },
    }
}

/// **A preference is the user's**: no event and no silence changes a setting.
pub proof fn nothing_rewrites_a_setting(desk: Desk, parsed: Parsed, now: u64)
    ensures
        desk.accepted(parsed, now).settings == desk.settings,
        desk.swept(now).settings == desk.settings,
        desk.filled().settings == desk.settings,
{
}

/// **Silence demotes and never drops**: it moves no lane and removes nobody; a
/// lane that needs the user keeps its state, and any other becomes Idle or
/// stays as it is.
pub proof fn silence_only_idles(desk: Desk, now: u64, i: int)
    requires
        0 <= i < desk.sessions.len(),
    ensures
        desk.swept(now).sessions.len() == desk.sessions.len(),
        desk.swept(now).sessions[i].is(desk.sessions[i].source, desk.sessions[i].session_id),
        desk.swept(now).sessions[i].lane == desk.sessions[i].lane,
        desk.swept(now).sessions[i].state == desk.sessions[i].state || desk.swept(
            now,
        ).sessions[i].state == State::Idle,
        desk.sessions[i].state == State::Waiting || desk.sessions[i].state == State::Error
            ==> desk.swept(now).sessions[i].state == desk.sessions[i].state,
        desk.is_seated() ==> desk.swept(now).is_seated(),
{
    unchanged_lanes(desk.sessions, desk.swept(now).sessions, desk.settings.lane_count);
}

/// **A status line is numbers and nothing else**: it counts no event, starts
/// no session, and changes nothing of the ones there are but their gauges.
pub proof fn a_status_line_is_only_numbers(desk: Desk, event: Event, now: u64, i: int)
    requires
        event.kind == Kind::StatusLine,
        0 <= i < desk.sessions.len(),
    ensures
        ({
            let after = desk.accepted(Parsed::Event(Box::new(event)), now);
            &&& after.events == desk.events
            &&& after.sessions.len() == desk.sessions.len()
            &&& after.sessions[i] == (Life {
                gauges: after.sessions[i].gauges,
                ..desk.sessions[i]
            })
        }),
{
    found_where_it_is(desk.sessions, event.source@, event.session_id@);
}

/// **Any event picks its session up**: after an event that names its session
/// and does not end it, that session is held — an agent may be started before
/// the app or after it, and one that was dismissed while alive comes back.
pub proof fn an_event_picks_its_session_up(desk: Desk, event: Event, now: u64)
    requires
        desk.is_seated(),
        event.session_id@.len() > 0,
        event.kind != Kind::StatusLine,
        event.subagent || event.kind != Kind::SessionEnd,
    ensures
        spot(
            desk.accepted(Parsed::Event(Box::new(event)), now).sessions,
            event.source@,
            event.session_id@,
        ) is Some,
{
    let parsed = Parsed::Event(Box::new(event));
    let after = desk.accepted(parsed, now);
    found_where_it_is(desk.sessions, event.source@, event.session_id@);
    found_where_it_is(after.sessions, event.source@, event.session_id@);
    match spot(desk.sessions, event.source@, event.session_id@) {
        Some(at) => {
            an_event_takes_nobodys_lane(desk, parsed, now, at);
        },
        None => {
            let counted = Desk {
                last_seen: desk.last_seen.insert(event.source@, event.at),
                ..desk
            }.counted(event);
            let fresh = newcomer(event, adopted(event)->0);
            let grown = desk.sessions.push(fresh);
            assert forall|a: int, b: int|
                0 <= a < b < grown.len() && (#[trigger] grown[a]).lane is Some implies grown[a].lane
                != (#[trigger] grown[b]).lane by {
                if b < desk.sessions.len() {
                    assert(desk.sessions[a].lane != desk.sessions[b].lane);
                }
            }
            filling_moves_nobody(Desk { sessions: grown, ..counted });
            let last = desk.sessions.len() as int;
            assert(grown[last] == fresh);
            assert(same_but_lane(fresh, after.sessions[last]));
            assert(after.sessions[last].is(event.source@, event.session_id@));
        },
    }
}

/// **No session is held twice.** An event updates the session it names, and
/// introduces one only when there is none.
pub proof fn an_event_repeats_nobody(desk: Desk, parsed: Parsed, now: u64)
    requires
        desk.is_seated(),
        desk.is_distinct(),
    ensures
        desk.accepted(parsed, now).is_distinct(),
{
    let after = desk.accepted(parsed, now);
    if let Parsed::Event(boxed) = parsed {
        let event = *boxed;
        let seen = Desk { last_seen: desk.last_seen.insert(event.source@, event.at), ..desk };
        let counted = seen.counted(event);
        found_where_it_is(desk.sessions, event.source@, event.session_id@);
        let at = spot(desk.sessions, event.source@, event.session_id@);
        // The sessions before any lane is filled.
        let bare: Seq<Life> = if event.kind == Kind::StatusLine {
            seen.gauged(event).sessions
        } else if event.session_id@.len() == 0 {
            desk.sessions
        } else {
            match at {
                Some(at) => if next(desk.sessions[at].state, event) == Step::Release {
                    desk.sessions.remove(at)
                } else {
                    desk.sessions.update(at, heard(desk.sessions[at], event))
                },
                None => match adopted(event) {
                    Some(state) => desk.sessions.push(newcomer(event, state)),
                    None => desk.sessions,
                },
            }
        };
        let gone = at is Some && bare.len() < desk.sessions.len();
        // Where each of them stood before, and the one that did not.
        let old_place = |i: int|
            if gone && i >= at->0 {
                i + 1
            } else {
                i
            };
        assert forall|i: int| 0 <= i < bare.len() && old_place(i) < desk.sessions.len() implies (
        #[trigger] bare[i]).is(
            desk.sessions[old_place(i)].source,
            desk.sessions[old_place(i)].session_id,
        ) && bare[i].lane == desk.sessions[old_place(i)].lane by {}
        assert forall|i: int, j: int| 0 <= i < j < bare.len() implies !(#[trigger] bare[i]).is(
            (#[trigger] bare[j]).source,
            bare[j].session_id,
        ) && (bare[i].lane is Some ==> bare[i].lane != bare[j].lane) by {
            let x = old_place(i);
            let y = old_place(j);
            if y < desk.sessions.len() {
                assert(!desk.sessions[x].is(desk.sessions[y].source, desk.sessions[y].session_id));
                assert(desk.sessions[x].lane is Some ==> desk.sessions[x].lane
                    != desk.sessions[y].lane);
            } else {
                assert(at is None);
                assert(bare[j].is(event.source@, event.session_id@));
                assert(!desk.sessions[x].is(event.source@, event.session_id@));
            }
        }
        assert(apart(bare));
        filling_moves_nobody(Desk { sessions: bare, ..counted });
        let seats = Desk { sessions: bare, ..counted }.filled().sessions;
        assert(after.sessions == bare || after.sessions == seats);
        assert forall|i: int, j: int| 0 <= i < j < after.sessions.len() implies !(
        #[trigger] after.sessions[i]).is(
            (#[trigger] after.sessions[j]).source,
            after.sessions[j].session_id,
        ) by {
            assert(same_but_lane(bare[i], seats[i]));
            assert(same_but_lane(bare[j], seats[j]));
            assert(!bare[i].is(bare[j].source, bare[j].session_id));
        }
    }
}

/// A filter keeps the lanes apart.
proof fn filtered_apart(sessions: Seq<Life>, keep: spec_fn(Life) -> bool)
    requires
        apart(sessions),
    ensures
        apart(sessions.filter(keep)),
        forall|life: Life| sessions.filter(keep).contains(life) ==> #[trigger] sessions.contains(life),
    decreases sessions.len(),
{
    reveal(Seq::filter);
    if sessions.len() > 0 {
        let fewer = sessions.drop_last();
        assert forall|i: int, j: int|
            0 <= i < j < fewer.len() && (#[trigger] fewer[i]).lane is Some implies fewer[i].lane != (
        #[trigger] fewer[j]).lane by {
            assert(sessions[i].lane != sessions[j].lane);
        }
        filtered_apart(fewer, keep);
        let some = fewer.filter(keep);
        let all = sessions.filter(keep);
        assert forall|life: Life| all.contains(life) implies #[trigger] sessions.contains(life) by {
            let k = choose|k: int| 0 <= k < all.len() && all[k] == life;
            if k < some.len() {
                assert(some[k] == life);
                assert(some.contains(life));
                assert(fewer.contains(life));
                let m = choose|m: int| 0 <= m < fewer.len() && fewer[m] == life;
                assert(sessions[m] == life);
            } else {
                assert(sessions[sessions.len() - 1] == life);
            }
        }
        assert forall|i: int, j: int|
            0 <= i < j < all.len() && (#[trigger] all[i]).lane is Some implies all[i].lane != (
        #[trigger] all[j]).lane by {
            if j < some.len() {
                assert(some[i].lane != some[j].lane);
            } else {
                assert(all[i] == some[i]);
                assert(some.contains(some[i]));
                assert(fewer.contains(some[i]));
                let m = choose|m: int| 0 <= m < fewer.len() && fewer[m] == some[i];
                assert(sessions[m].lane != sessions[sessions.len() - 1].lane);
            }
        }
    }
}

/// **The user's own moves keep the lanes in order**: dropping a session, from
/// a lane or by name, and changing how many lanes there are.
pub proof fn a_dismissal_keeps_everybody_seated(
    desk: Desk,
    lane: usize,
    source: Seq<char>,
    session_id: Seq<char>,
    count: int,
)
    requires
        desk.is_seated(),
    ensures
        desk.dismissed(lane).is_seated(),
        desk.session_dismissed(source, session_id).is_seated(),
        (Desk { settings: desk.settings.counted(count), ..desk }).filled().is_seated(),
        spot(desk.session_dismissed(source, session_id).sessions, source, session_id) is None,
{
    let off_lane = |life: Life| life.lane != Some(lane);
    filtered_apart(desk.sessions, off_lane);
    filling_moves_nobody(Desk { sessions: desk.sessions.filter(off_lane), ..desk });
    let others = |life: Life| !life.is(source, session_id);
    filtered_apart(desk.sessions, others);
    let left = desk.sessions.filter(others);
    filling_moves_nobody(Desk { sessions: left, ..desk });
    filling_moves_nobody(Desk { settings: desk.settings.counted(count), ..desk });
    let after = desk.session_dismissed(source, session_id);
    found_where_it_is(desk.sessions, source, session_id);
    found_where_it_is(after.sessions, source, session_id);
    assert forall|i: int| 0 <= i < after.sessions.len() implies !(#[trigger] after.sessions[i]).is(
        source,
        session_id,
    ) by {
        if spot(desk.sessions, source, session_id) is Some {
            assert(same_but_lane(left[i], after.sessions[i]));
            only_those_kept(desk.sessions, others, i);
        }
    }
}

proof fn only_those_kept(sessions: Seq<Life>, keep: spec_fn(Life) -> bool, i: int)
    requires
        0 <= i < sessions.filter(keep).len(),
    ensures
        keep(sessions.filter(keep)[i]),
    decreases sessions.len(),
{
    reveal(Seq::filter);
    if sessions.len() > 0 && i < sessions.drop_last().filter(keep).len() {
        only_those_kept(sessions.drop_last(), keep, i);
    }
}

/// **A promotion takes the bottom lane and nothing else**: afterwards the
/// lanes are still in order, the promoted session is on the bottom one, and
/// everybody who was not on it is where they were.
pub proof fn a_promotion_keeps_everybody_seated(desk: Desk, source: Seq<char>, session_id: Seq<char>)
    requires
        desk.is_seated(),
    ensures
        desk.promoted(source, session_id).is_seated(),
        forall|i: int|
            0 <= i < desk.sessions.len() && desk.sessions[i].lane is Some
                && desk.sessions[i].lane->0 + 1 != desk.settings.lane_count
                ==> #[trigger] desk.promoted(source, session_id).sessions[i] == desk.sessions[i],
{
    found_where_it_is(desk.sessions, source, session_id);
    let after = desk.promoted(source, session_id);
    let count = desk.settings.lane_count;
    if let Some(at) = spot(desk.sessions, source, session_id) {
        if desk.sessions[at].lane is None && count > 0 {
            let was = desk.sessions;
            let now = after.sessions;
            let bottom = (count - 1) as usize;
            assert forall|i: int, j: int|
                0 <= i < j < now.len() && (#[trigger] now[i]).lane is Some implies now[i].lane != (
            #[trigger] now[j]).lane by {
                assert(was[i].lane is Some ==> was[i].lane != was[j].lane);
            }
            assert(full(was, count)) by {
                assert(was[at].lane is None);
            }
            assert forall|lane: usize| lane < count implies #[trigger] is_held(now, lane) by {
                if lane == bottom {
                    assert(now[at].lane == Some(lane));
                } else {
                    assert(is_held(was, lane));
                    let k = choose|k: int| 0 <= k < was.len() && (#[trigger] was[k]).lane == Some(lane);
                    assert(now[k].lane == Some(lane));
                }
            }
        }
    }
}

/// **A moved lane takes everything with it**: the lanes are still in order,
/// and moving it back puts everything where it was.
pub proof fn a_moved_lane_moves_back(desk: Desk, from: usize, to: usize)
    requires
        desk.is_seated(),
        desk.settings.lane_count <= desk.settings.lanes.len(),
    ensures
        desk.lane_moved(from, to).is_seated(),
        desk.lane_moved(from, to).lane_moved(to, from) == desk,
{
    let count = desk.settings.lane_count;
    let after = desk.lane_moved(from, to);
    if from < count && to < count && from != to {
        let was = desk.sessions;
        let now = after.sessions;
        assert forall|i: int| 0 <= i < was.len() implies #[trigger] now[i] == lane_moved(
            was[i],
            from,
            to,
        ) by {}
        assert forall|i: int, j: int|
            0 <= i < j < now.len() && (#[trigger] now[i]).lane is Some implies now[i].lane != (
        #[trigger] now[j]).lane by {
            assert(was[i].lane != was[j].lane);
        }
        if exists|i: int| 0 <= i < now.len() && (#[trigger] now[i]).lane is None {
            let i = choose|i: int| 0 <= i < now.len() && (#[trigger] now[i]).lane is None;
            assert(was[i].lane is None);
            assert forall|lane: usize| lane < count implies #[trigger] is_held(now, lane) by {
                let source = crate::tracker::exchanged(lane, from, to);
                assert(is_held(was, source));
                let k = choose|k: int| 0 <= k < was.len() && (#[trigger] was[k]).lane == Some(source);
                assert(now[k].lane == Some(lane));
            }
        }
        let back = after.lane_moved(to, from);
        assert(back.sessions =~= desk.sessions);
        assert(back.settings.lanes =~= desk.settings.lanes);
        assert(back.settings.saved =~= desk.settings.saved);
    }
}

/// **A subagent is liveness and nothing more**: it carries its parent's
/// session, and changes neither its state nor its project folder. A start's
/// folder is the session's; any other event's is only until one is known.
pub proof fn a_subagent_only_shows_life(life: Life, event: Event, state: State)
    ensures
        event.subagent ==> {
            &&& heard(life, event).cwd == life.cwd
            &&& heard(life, event).state == life.state
            &&& heard(life, event).since == life.since
            &&& newcomer(event, state).cwd is None
        },
        !event.subagent && event.cwd is Some ==> heard(life, event).cwd == (if event.kind
            == Kind::SessionStart || life.cwd is None {
            Some(event.cwd->0@)
        } else {
            life.cwd
        }),
        event.cwd is None ==> heard(life, event).cwd == life.cwd,
{
}

/// **Busy subagents show only where nobody is needed**: a resting lane with
/// somebody on its roster looks Running, and Waiting, Error and Interrupted
/// always win.
pub proof fn trouble_outranks_busy_subagents(life: Life)
    ensures
        life.state == State::Waiting || life.state == State::Error || life.state
            == State::Interrupted ==> life.shows() == life.state,
        (life.state == State::Connected || life.state == State::Done) && life.subagents != Map::<
            Seq<char>,
            u64,
        >::empty() ==> life.shows() == State::Running,
        life.subagents == Map::<Seq<char>, u64>::empty() ==> life.shows() == life.state,
{
}

/// Where the first saved agent that this session is, and whose lane is open,
/// stands among the first `upto`; every one before it is somebody else or on a
/// lane that is taken.
proof fn the_first_that_fits(sessions: Seq<Life>, setup: Setup, upto: int, life: Life)
    requires
        0 <= upto <= setup.saved.len(),
    ensures
        match preferred(sessions, setup, upto, life) {
            Some(lane) => exists|k: int|
                0 <= k < upto && #[trigger] setup.saved[k].lane == lane && belongs(
                    sessions,
                    setup,
                    k,
                    life,
                ) && forall|j: int| 0 <= j < k ==> !#[trigger] belongs(sessions, setup, j, life),
            None => forall|j: int|
                0 <= j < upto ==> !#[trigger] belongs(sessions, setup, j, life),
        },
    decreases upto,
{
    if upto > 0 {
        the_first_that_fits(sessions, setup, upto - 1, life);
        if preferred(sessions, setup, upto - 1, life) is None && preferred(
            sessions,
            setup,
            upto,
            life,
        ) is Some {
            assert(setup.saved[upto - 1].lane == preferred(sessions, setup, upto, life)->0);
            assert(belongs(sessions, setup, upto - 1, life));
        }
    }
}

/// Whether a session is the saved agent `k`, and that one's lane is open.
pub open spec fn belongs(sessions: Seq<Life>, setup: Setup, k: int, life: Life) -> bool {
    &&& is_open(sessions, setup.lane_count, setup.saved[k].lane)
    &&& life.agent matches Some(agent) && setup.saved[k].is(agent, life.cwd)
}

proof fn none_before(sessions: Seq<Life>, setup: Setup, upto: int, shy: bool)
    requires
        0 <= upto <= setup.lane_count,
    ensures
        match first_open(sessions, setup, upto, shy) {
            Some(lane) => {
                &&& lane < upto
                &&& shy ==> !setup.is_preferred(lane)
                &&& forall|other: usize|
                    other < lane && !(shy && setup.is_preferred(other)) ==> #[trigger] is_held(
                        sessions,
                        other,
                    )
            },
            None => forall|other: usize|
                other < upto && !(shy && setup.is_preferred(other)) ==> #[trigger] is_held(
                    sessions,
                    other,
                ),
        },
    decreases upto,
{
    if upto > 0 {
        none_before(sessions, setup, upto - 1, shy);
        let lane = (upto - 1) as usize;
        if first_open(sessions, setup, upto - 1, shy) is None {
            assert(is_open(sessions, setup.lane_count, lane) == !is_held(sessions, lane));
        }
    }
}

/// **A saved agent goes to its own lane when that is free, and everybody else
/// to the first free one.** The first save that fits is the one that counts.
pub proof fn a_saved_agent_goes_to_its_lane(sessions: Seq<Life>, setup: Setup, life: Life, k: int)
    requires
        0 <= k < setup.saved.len(),
        belongs(sessions, setup, k, life),
        forall|j: int| 0 <= j < k ==> !#[trigger] belongs(sessions, setup, j, life),
    ensures
        choice(sessions, setup, life) == Some(setup.saved[k].lane),
{
    the_first_that_fits(sessions, setup, setup.saved.len() as int, life);
    assert(preferred(sessions, setup, setup.saved.len() as int, life) is Some);
    let at = choose|at: int|
        0 <= at < setup.saved.len() && #[trigger] setup.saved[at].lane == preferred(
            sessions,
            setup,
            setup.saved.len() as int,
            life,
        )->0 && belongs(sessions, setup, at, life) && forall|j: int|
            0 <= j < at ==> !#[trigger] belongs(sessions, setup, j, life);
    if at < k {
        assert(belongs(sessions, setup, at, life));
    } else if k < at {
        assert(belongs(sessions, setup, k, life));
    }
}

/// **A session nobody saved takes the first free lane**; one whose folder is
/// not known yet, the first that nobody prefers while there is one.
pub proof fn a_stranger_takes_the_first_free_lane(sessions: Seq<Life>, setup: Setup, life: Life)
    requires
        forall|j: int|
            0 <= j < setup.saved.len() ==> !#[trigger] belongs(sessions, setup, j, life),
    ensures
        match choice(sessions, setup, life) {
            Some(lane) => {
                ||| forall|other: usize| other < lane ==> #[trigger] is_held(sessions, other)
                ||| life.cwd is None && !setup.is_preferred(lane) && forall|other: usize|
                    other < lane && !setup.is_preferred(other) ==> #[trigger] is_held(
                        sessions,
                        other,
                    )
            },
            None => full(sessions, setup.lane_count),
        },
        life.cwd is None && (choice(sessions, setup, life) matches Some(lane)
            && setup.is_preferred(lane)) ==> forall|other: usize|
            other < setup.lane_count && !setup.is_preferred(other) ==> #[trigger] is_held(
                sessions,
                other,
            ),
{
    let count = setup.lane_count as int;
    the_first_that_fits(sessions, setup, setup.saved.len() as int, life);
    if let Some(lane) = preferred(sessions, setup, setup.saved.len() as int, life) {
        let at = choose|at: int|
            0 <= at < setup.saved.len() && #[trigger] setup.saved[at].lane == lane && belongs(
                sessions,
                setup,
                at,
                life,
            );
        assert(belongs(sessions, setup, at, life));
    }
    none_before(sessions, setup, count, true);
    none_before(sessions, setup, count, false);
}

/// **What is not known is counted and never acted on**: a notification that is
/// not on the list moves no state, and an event nobody registered touches no
/// session.
pub proof fn what_is_not_known_is_counted(desk: Desk, parsed: Parsed, now: u64, life: Life)
    ensures
        match parsed {
            Parsed::Unrecognised { source, name } => {
                let after = desk.accepted(parsed, now);
                &&& after.sessions == desk.sessions
                &&& after.settings == desk.settings
                &&& after.unrecognised_events == tallied(desk.unrecognised_events, name@)
            },
            Parsed::Event(event) => event.kind == Kind::Notification && note_of(*event) == Some(
                Note::Unknown,
            ) ==> {
                &&& heard(life, *event).state == life.state
                &&& heard(life, *event).since == life.since
                &&& desk.accepted(parsed, now).unknown_notifications == tallied(
                    desk.unknown_notifications,
                    event.notification->0@,
                )
            },
        },
{
}

/// **An event clears nothing it leaves out**: what a session said of its
/// terminal, its processes and its numbers stays until it says otherwise.
pub proof fn an_event_clears_nothing_it_omits(life: Life, event: Event)
    ensures
        event.wt_session is None ==> heard(life, event).wt_session == life.wt_session,
        event.ancestors@.len() == 0 ==> heard(life, event).ancestors == life.ancestors,
        event.gauges is None ==> heard(life, event).gauges == life.gauges,
        life.cwd is Some ==> heard(life, event).cwd is Some,
        heard(life, event).is(life.source, life.session_id),
        heard(life, event).first_seen == life.first_seen,
        heard(life, event).agent == life.agent,
{
}

/// Whether `after` is what an event of `event` leaves of `life`: one event more,
/// in the state the event says, since then if it was in another, and as it was
/// if the event says nothing.
pub open spec fn is_told(life: Life, after: Life, event: Event) -> bool {
    &&& after.is(life.source, life.session_id)
    &&& after.agent == life.agent
    &&& after.first_seen == life.first_seen
    &&& after.last_event == event.at
    &&& after.events == life.events + 1
    &&& match next(life.state, event) {
        Step::Become(state) => after.state == state && after.since == (if state == life.state {
            life.since
        } else {
            event.at
        }),
        _ => after.state == life.state && after.since == life.since,
    }
}

/// **An event is told to its own session, and to no other**: the session with
/// its source and id goes where the event says; of everybody else at most a
/// lane changes, and only for one that had none. A session ends with its end,
/// and one that nobody has seen is taken in, in the state it is picked up in.
pub proof fn an_event_is_told_to_its_own_session(desk: Desk, event: Event, now: u64, i: int)
    requires
        desk.is_seated(),
        desk.is_distinct(),
        desk.has_room(),
        event.session_id@.len() > 0,
        event.kind != Kind::StatusLine,
        0 <= i < desk.sessions.len(),
    ensures
        ({
            let was = desk.sessions;
            let after = desk.accepted(Parsed::Event(Box::new(event)), now).sessions;
            let own = was[i].source == event.source@ && was[i].session_id == event.session_id@;
            let known = exists|k: int|
                0 <= k < was.len() && (#[trigger] was[k]).source == event.source@
                    && was[k].session_id == event.session_id@;
            let over = event.kind == Kind::SessionEnd && !event.subagent;
            &&& own && !over ==> after.len() == was.len() && is_told(was[i], after[i], event)
            &&& own && over ==> after.len() + 1 == was.len() && forall|k: int|
                0 <= k < after.len() ==> !(#[trigger] after[k]).is(
                    event.source@,
                    event.session_id@,
                )
            &&& !own && !over ==> same_but_lane(was[i], after[i]) && (was[i].lane is Some
                ==> after[i].lane == was[i].lane)
            &&& !own && over && known ==> exists|k: int|
                0 <= k < after.len() && same_but_lane(was[i], #[trigger] after[k]) && (
                was[i].lane is Some ==> after[k].lane == was[i].lane)
            &&& !known && over ==> after == was
            &&& !known && !over ==> after.len() == was.len() + 1 && after[was.len() as int].is(
                event.source@,
                event.session_id@,
            ) && Some(after[was.len() as int].state) == adopted(event)
        }),
{
    let parsed = Parsed::Event(Box::new(event));
    let was = desk.sessions;
    let after = desk.accepted(parsed, now).sessions;
    let seen = Desk { last_seen: desk.last_seen.insert(event.source@, event.at), ..desk };
    let counted = seen.counted(event);
    let over = event.kind == Kind::SessionEnd && !event.subagent;
    found_where_it_is(was, event.source@, event.session_id@);
    assert(desk.sessions[i].events < u64::MAX);
    match spot(was, event.source@, event.session_id@) {
        Some(at) => {
            assert(was[at].is(event.source@, event.session_id@));
            assert(i != at ==> !was[i].is(event.source@, event.session_id@)) by {
                if i < at {
                    assert(!was[i].is(was[at].source, was[at].session_id));
                } else if at < i {
                    assert(!was[at].is(was[i].source, was[i].session_id));
                }
            }
            let life = was[at];
            if over {
                let left = was.remove(at);
                assert forall|a: int, b: int|
                    0 <= a < b < left.len() && (#[trigger] left[a]).lane is Some implies left[a].lane
                    != (#[trigger] left[b]).lane by {
                    let x = if a < at { a } else { a + 1 };
                    let y = if b < at { b } else { b + 1 };
                    assert(left[a] == was[x] && left[b] == was[y]);
                }
                filling_moves_nobody(Desk { sessions: left, ..counted });
                assert forall|k: int| 0 <= k < after.len() implies !(#[trigger] after[k]).is(
                    event.source@,
                    event.session_id@,
                ) by {
                    let x = if k < at { k } else { k + 1 };
                    assert(left[k] == was[x]);
                    assert(same_but_lane(left[k], after[k]));
                    if x < at {
                        assert(!was[x].is(was[at].source, was[at].session_id));
                    } else {
                        assert(!was[at].is(was[x].source, was[x].session_id));
                    }
                }
                if i != at {
                    let j = if i < at { i } else { i - 1 };
                    assert(left[j] == was[i]);
                    assert(same_but_lane(was[i], after[j]));
                    assert(was[i].lane is Some ==> was[i].lane->0 < desk.settings.lane_count);
                }
            } else {
                let told = was.update(at, heard(life, event));
                unchanged_lanes(was, told, desk.settings.lane_count);
                if placed(life, event) {
                    filling_moves_nobody(Desk { sessions: told, ..counted });
                    assert(same_but_lane(told[i], after[i]));
                    assert(told[i].lane is Some ==> told[i].lane->0 < desk.settings.lane_count);
                }
                assert(next(life.state, event) != Step::Release);
            }
        },
        None => {
            if !over {
                let fresh = newcomer(event, adopted(event)->0);
                let grown = was.push(fresh);
                assert forall|a: int, b: int|
                    0 <= a < b < grown.len() && (#[trigger] grown[a]).lane is Some implies grown[a].lane
                    != (#[trigger] grown[b]).lane by {
                    if b < was.len() {
                        assert(was[a].lane != was[b].lane);
                    }
                }
                filling_moves_nobody(Desk { sessions: grown, ..counted });
                assert(grown[i] == was[i]);
                assert(same_but_lane(grown[i], after[i]));
                assert(grown[was.len() as int] == fresh);
                assert(same_but_lane(fresh, after[was.len() as int]));
                assert(was[i].lane is Some ==> was[i].lane->0 < desk.settings.lane_count);
            }
        },
    }
}

/// An event without a session is only counted; and every event that is not a
/// status line is, once.
pub proof fn every_event_is_counted_once(desk: Desk, parsed: Parsed, now: u64)
    requires
        desk.has_room(),
    ensures
        ({
            let after = desk.accepted(parsed, now);
            match parsed {
                Parsed::Unrecognised { source, name } => after.events == desk.events + 1
                    && after.sessions == desk.sessions && after.last_seen == desk.last_seen.insert(
                    source@,
                    now,
                ),
                Parsed::Event(event) => {
                    &&& after.events == desk.events + (if event.kind == Kind::StatusLine {
                        0int
                    } else {
                        1int
                    })
                    &&& after.last_seen == desk.last_seen.insert(event.source@, event.at)
                    &&& event.session_id@.len() == 0 && event.kind != Kind::StatusLine
                        ==> after.sessions == desk.sessions
                },
            }
        }),
{
}

/// **A newcomer is what its first event says, and nothing more**: it is since
/// that event, heard of once, on no lane, and knows no number that was not
/// said.
pub proof fn a_newcomer_is_what_its_event_says(event: Event, state: State)
    ensures
        ({
            let life = newcomer(event, state);
            &&& life.source == event.source@ && life.session_id == event.session_id@
            &&& life.agent == event.sender
            &&& life.state == state
            &&& life.since == event.at && life.first_seen == event.at && life.last_event == event.at
            &&& life.events == 1
            &&& life.lane is None
            &&& !event.subagent ==> life.cwd == shown(event.cwd)
            &&& life.wt_session == shown(event.wt_session)
            &&& life.ancestors == line_of(event.ancestors@)
            &&& event.gauges is None ==> life.gauges.context_used is None
                && life.gauges.five_hour is None && life.gauges.seven_day is None
            &&& event.gauges is Some ==> Some(life.gauges) == event.gauges
            &&& life.failure is Some <==> event.kind == Kind::StopFailure
            &&& event.agent is None || event.kind == Kind::SubagentStop ==> life.subagents
                =~= Map::empty()
            &&& event.agent is Some && event.kind != Kind::SubagentStop ==> life.subagents
                =~= Map::empty().insert(event.agent->0@, event.at)
        }),
{
}

/// **The roster is who is at work**: a subagent heard of is on it, with the time
/// it was heard of; one that says it stopped is off it; nobody else is touched.
/// A stop that does not say whose takes one off, and it is the one that has
/// been quiet the longest.
pub proof fn the_roster_is_who_is_at_work(roster: Map<Seq<char>, u64>, event: Event, other: Seq<char>)
    ensures
        ({
            let after = rostered(roster, event);
            let stops = event.kind == Kind::SubagentStop;
            &&& event.agent is Some && !stops ==> after.contains_key(event.agent->0@)
                && after[event.agent->0@] == event.at
            &&& event.agent is Some && stops ==> !after.contains_key(event.agent->0@)
            &&& event.agent is Some && other != event.agent->0@ ==> after.contains_key(other)
                == roster.contains_key(other) && (roster.contains_key(other) ==> after[other]
                == roster[other])
            &&& event.agent is None && !stops ==> after == roster
            &&& event.agent is None && stops && roster.contains_key(other)
                && after.contains_key(other) ==> after[other] == roster[other] && forall|gone:
                Seq<char>|
                #[trigger] roster.contains_key(gone) && !after.contains_key(gone) ==> roster[gone]
                    <= roster[other]
            &&& event.agent is None && stops ==> forall|a: Seq<char>, b: Seq<char>|
                #[trigger] roster.contains_key(a) && !after.contains_key(a)
                    && #[trigger] roster.contains_key(b) && !after.contains_key(b) ==> a == b
            &&& forall|id: Seq<char>|
                #[trigger] after.contains_key(id) ==> roster.contains_key(id) || (event.agent is Some
                    && id == event.agent->0@)
        }),
{
}

/// **What went wrong is said while it is wrong**: a failed turn names its
/// error, and a session that goes from Error to another state forgets it.
pub proof fn an_error_is_named_while_it_lasts(life: Life, event: Event, at: int)
    ensures
        event.kind == Kind::StopFailure ==> heard(life, event).failure is Some && heard(
            life,
            event,
        ).failure->0.len() == (if event.error_type is Some {
            event.error_type->0@.len()
        } else {
            5
        }),
        event.kind == Kind::StopFailure && event.error_type is Some && 0 <= at
            < event.error_type->0@.len() ==> heard(life, event).failure->0[at] == (
        if event.error_type->0@[at] == '_' {
            ' '
        } else {
            event.error_type->0@[at]
        }),
        event.kind == Kind::StopFailure && event.error_type is None ==> heard(life, event).failure
            == Some("error"@),
        event.kind != Kind::StopFailure && heard(life, event).state != life.state ==> heard(
            life,
            event,
        ).failure is None,
        event.kind != Kind::StopFailure && heard(life, event).state == life.state ==> heard(
            life,
            event,
        ).failure == life.failure,
{
    reveal_strlit("error");
}

/// **A silent session is kept as long as its state says**: a turn two hours,
/// one at rest half an hour, unless its subagents are at work; one that waits,
/// or is in trouble, for ever. A subagent is at work until it has been silent
/// for half an hour, and nothing else of a session changes.
pub proof fn silence_is_borne_as_long_as_the_state_says(life: Life, now: u64, id: Seq<char>)
    ensures
        ({
            let after = swept(life, now);
            let silent = if now >= life.last_event {
                now - life.last_event
            } else {
                0
            };
            let working = life.subagents.contains_key(id) && (now < life.subagents[id] || now
                - life.subagents[id] < 1_800_000);
            let idles = after.state == State::Idle && life.state != State::Idle;
            &&& after.subagents.contains_key(id) <==> working
            &&& working ==> after.subagents[id] == life.subagents[id]
            &&& life.state == State::Running ==> (idles <==> silent >= 7_200_000)
            &&& life.state == State::Done || life.state == State::Connected ==> {
                &&& idles ==> silent >= 1_800_000
                &&& working && idles ==> silent >= 7_200_000
                &&& silent >= 7_200_000 ==> idles
                &&& silent >= 1_800_000 && after.subagents == Map::<Seq<char>, u64>::empty()
                    ==> idles
            }
            &&& life.state == State::Waiting || life.state == State::Error || life.state
                == State::Interrupted || life.state == State::Idle ==> !idles
            &&& !idles ==> after.state == life.state && after.since == life.since
            &&& idles ==> after.since == now
            &&& after == (Life {
                state: after.state,
                since: after.since,
                subagents: after.subagents,
                ..life
            })
        }),
{
    let roster = recent(life.subagents, now);
    if roster.contains_key(id) {
        assert(roster != Map::<Seq<char>, u64>::empty());
    }
}

/// **A moved lane takes everything with it**: whoever was on it, its name and
/// colour, and the agents it is saved for; the lane it goes to comes back the
/// same way, and every other lane is as it was.
pub proof fn a_moved_lane_takes_everything_with_it(desk: Desk, from: usize, to: usize, i: int)
    requires
        desk.settings.lane_count <= desk.settings.lanes.len(),
        from < desk.settings.lane_count,
        to < desk.settings.lane_count,
    ensures
        ({
            let after = desk.lane_moved(from, to);
            let goes = |lane: usize|
                if lane == from {
                    to
                } else if lane == to {
                    from
                } else {
                    lane
                };
            &&& after.settings.lanes.len() == desk.settings.lanes.len()
            &&& after.settings.lanes[to as int] == desk.settings.lanes[from as int]
            &&& after.settings.lanes[from as int] == desk.settings.lanes[to as int]
            &&& 0 <= i < desk.settings.lanes.len() && i != from && i != to ==> after.settings.lanes[i]
                == desk.settings.lanes[i]
            &&& 0 <= i < desk.sessions.len() ==> same_but_lane(desk.sessions[i], after.sessions[i])
                && after.sessions[i].lane == (match desk.sessions[i].lane {
                Some(lane) => Some(goes(lane)),
                None => None,
            })
            &&& 0 <= i < desk.settings.saved.len() ==> after.settings.saved[i].lane == goes(
                desk.settings.saved[i].lane,
            ) && after.settings.saved[i].folder == desk.settings.saved[i].folder
                && after.settings.saved[i].agent == desk.settings.saved[i].agent
            &&& after.sessions.len() == desk.sessions.len()
            &&& after.settings.lane_count == desk.settings.lane_count
        }),
{
}

/// **A promoted session takes the last lane**, and whoever was on it is without
/// one; nobody else moves. One that has a lane already keeps it.
pub proof fn a_promoted_session_takes_the_last_lane(desk: Desk, at: int, i: int)
    requires
        desk.is_distinct(),
        0 <= at < desk.sessions.len(),
        0 <= i < desk.sessions.len(),
    ensures
        ({
            let one = desk.sessions[at];
            let after = desk.promoted(one.source, one.session_id);
            let last = desk.settings.lane_count - 1;
            &&& after.settings == desk.settings
            &&& after.sessions.len() == desk.sessions.len()
            &&& one.lane is Some ==> after == desk
            &&& one.lane is None && last >= 0 ==> after.sessions[at].lane == Some(last as usize)
            &&& one.lane is None && last >= 0 && i != at ==> after.sessions[i].lane == (
            if desk.sessions[i].lane == Some(last as usize) {
                None
            } else {
                desk.sessions[i].lane
            })
            &&& same_but_lane(desk.sessions[i], after.sessions[i])
        }),
{
    let one = desk.sessions[at];
    found_where_it_is(desk.sessions, one.source, one.session_id);
    let found = spot(desk.sessions, one.source, one.session_id);
    assert(one.is(one.source, one.session_id));
    if found is Some && found->0 != at {
        let k = found->0;
        if k < at {
            assert(!desk.sessions[k].is(one.source, one.session_id));
        } else {
            assert(!one.is(desk.sessions[k].source, desk.sessions[k].session_id));
        }
    }
}

/// **A dismissal takes one session away, and only that one**: whoever was on
/// the lane is gone, and everybody else is still held, on the lane they had.
pub proof fn a_dismissal_takes_only_its_session(desk: Desk, lane: usize, i: int)
    requires
        desk.is_seated(),
        desk.is_distinct(),
        0 <= i < desk.sessions.len(),
    ensures
        ({
            let was = desk.sessions[i];
            let left = desk.dismissed(lane).sessions;
            &&& was.lane != Some(lane) ==> is_still_there(left, was)
            &&& was.lane == Some(lane) ==> forall|k: int|
                0 <= k < left.len() ==> !(#[trigger] left[k]).is(was.source, was.session_id)
        }),
{
    let was = desk.sessions[i];
    let keeps = |life: Life| life.lane != Some(lane);
    if is_held(desk.sessions, lane) {
        kept_sessions(desk, keeps, i);
        if was.lane == Some(lane) {
            gone_sessions(desk, keeps, i);
        }
    } else {
        assert(is_still_there(desk.sessions, was)) by {
            assert(same_but_lane(was, desk.sessions[i]));
        }
    }
}

/// **A session dismissed by name is gone, and only that one.**
pub proof fn a_named_dismissal_takes_only_its_session(desk: Desk, at: int, i: int)
    requires
        desk.is_seated(),
        desk.is_distinct(),
        0 <= at < desk.sessions.len(),
        0 <= i < desk.sessions.len(),
    ensures
        ({
            let one = desk.sessions[at];
            let left = desk.session_dismissed(one.source, one.session_id).sessions;
            &&& i != at ==> is_still_there(left, desk.sessions[i])
            &&& forall|k: int|
                0 <= k < left.len() ==> !(#[trigger] left[k]).is(one.source, one.session_id)
        }),
{
    let one = desk.sessions[at];
    let keeps = |life: Life| !life.is(one.source, one.session_id);
    found_where_it_is(desk.sessions, one.source, one.session_id);
    assert(one.is(one.source, one.session_id));
    kept_sessions(desk, keeps, i);
    gone_sessions(desk, keeps, at);
    if i < at {
        assert(!desk.sessions[i].is(one.source, one.session_id));
    } else if at < i {
        assert(!one.is(desk.sessions[i].source, desk.sessions[i].session_id));
    }
}

/// Whether `life` is among `sessions`, on the lane it had if it had one.
pub open spec fn is_still_there(sessions: Seq<Life>, life: Life) -> bool {
    exists|k: int|
        0 <= k < sessions.len() && same_but_lane(life, #[trigger] sessions[k]) && (
        life.lane is Some ==> sessions[k].lane == life.lane)
}

proof fn kept_sessions(desk: Desk, keeps: spec_fn(Life) -> bool, i: int)
    requires
        desk.is_seated(),
        0 <= i < desk.sessions.len(),
    ensures
        keeps(desk.sessions[i]) ==> is_still_there(
            (Desk { sessions: desk.sessions.filter(keeps), ..desk }).filled().sessions,
            desk.sessions[i],
        ),
{
    let was = desk.sessions[i];
    let left = desk.sessions.filter(keeps);
    parts_apart(desk.sessions, keeps);
    filling_moves_nobody(Desk { sessions: left, ..desk });
    if keeps(was) {
        let after = (Desk { sessions: left, ..desk }).filled().sessions;
        filter_keeps(desk.sessions, keeps, i);
        let k = choose|k: int| 0 <= k < left.len() && left[k] == was;
        assert(same_but_lane(was, after[k]));
        assert(was.lane is Some ==> was.lane->0 < desk.settings.lane_count);
    }
}

proof fn gone_sessions(desk: Desk, keeps: spec_fn(Life) -> bool, i: int)
    requires
        desk.is_seated(),
        desk.is_distinct(),
        0 <= i < desk.sessions.len(),
        !keeps(desk.sessions[i]),
    ensures
        ({
            let after = (Desk { sessions: desk.sessions.filter(keeps), ..desk }).filled().sessions;
            let was = desk.sessions[i];
            forall|k: int|
                0 <= k < after.len() ==> !(#[trigger] after[k]).is(was.source, was.session_id)
        }),
{
    let was = desk.sessions[i];
    let left = desk.sessions.filter(keeps);
    parts_apart(desk.sessions, keeps);
    filling_moves_nobody(Desk { sessions: left, ..desk });
    let after = (Desk { sessions: left, ..desk }).filled().sessions;
    assert forall|k: int| 0 <= k < after.len() implies !(#[trigger] after[k]).is(
        was.source,
        was.session_id,
    ) by {
        filter_is_of(desk.sessions, keeps, k);
        let j = choose|j: int| 0 <= j < desk.sessions.len() && desk.sessions[j] == left[k];
        assert(same_but_lane(left[k], after[k]));
        assert(j != i);
        if j < i {
            assert(!desk.sessions[j].is(was.source, was.session_id));
        } else {
            assert(!was.is(desk.sessions[j].source, desk.sessions[j].session_id));
        }
    }
}

proof fn filter_keeps(sessions: Seq<Life>, keeps: spec_fn(Life) -> bool, i: int)
    requires
        0 <= i < sessions.len(),
        keeps(sessions[i]),
    ensures
        exists|k: int| 0 <= k < sessions.filter(keeps).len() && sessions.filter(keeps)[k] == sessions[i],
    decreases sessions.len(),
{
    reveal(Seq::filter);
    let fewer = sessions.drop_last();
    let all = sessions.filter(keeps);
    if i < fewer.len() {
        filter_keeps(fewer, keeps, i);
        let k = choose|k: int| 0 <= k < fewer.filter(keeps).len() && fewer.filter(keeps)[k] == sessions[i];
        assert(all[k] == sessions[i]);
    } else {
        assert(all[all.len() - 1] == sessions[i]);
    }
}

proof fn filter_is_of(sessions: Seq<Life>, keeps: spec_fn(Life) -> bool, k: int)
    requires
        0 <= k < sessions.filter(keeps).len(),
    ensures
        keeps(sessions.filter(keeps)[k]),
        exists|j: int| 0 <= j < sessions.len() && sessions[j] == sessions.filter(keeps)[k],
    decreases sessions.len(),
{
    reveal(Seq::filter);
    if sessions.len() > 0 {
        let fewer = sessions.drop_last();
        if k < fewer.filter(keeps).len() {
            filter_is_of(fewer, keeps, k);
            let j = choose|j: int| 0 <= j < fewer.len() && fewer[j] == fewer.filter(keeps)[k];
            assert(sessions[j] == sessions.filter(keeps)[k]);
        } else {
            assert(sessions[sessions.len() - 1] == sessions.filter(keeps)[k]);
        }
    }
}

/// Those kept of sessions apart are apart.
proof fn parts_apart(sessions: Seq<Life>, keeps: spec_fn(Life) -> bool)
    requires
        apart(sessions),
    ensures
        apart(sessions.filter(keeps)),
    decreases sessions.len(),
{
    reveal(Seq::filter);
    if sessions.len() > 0 {
        let fewer = sessions.drop_last();
        let last = sessions.last();
        assert(apart(fewer)) by {
            assert forall|a: int, b: int|
                0 <= a < b < fewer.len() && (#[trigger] fewer[a]).lane is Some implies fewer[a].lane
                != (#[trigger] fewer[b]).lane by {
                assert(sessions[a].lane != sessions[b].lane);
            }
        }
        parts_apart(fewer, keeps);
        let kept = fewer.filter(keeps);
        let all = sessions.filter(keeps);
        assert forall|a: int, b: int|
            0 <= a < b < all.len() && (#[trigger] all[a]).lane is Some implies all[a].lane != (
        #[trigger] all[b]).lane by {
            if b < kept.len() {
                assert(kept[a].lane != kept[b].lane);
            } else {
                filter_is_of(fewer, keeps, a);
                let j = choose|j: int| 0 <= j < fewer.len() && fewer[j] == kept[a];
                assert(sessions[j].lane != sessions[sessions.len() - 1].lane);
            }
        }
    }
}

/// Whoever has not had a turn is as before.
proof fn not_yet(left: Seq<Life>, setup: Setup, order: Seq<int>, i: int)
    requires
        forall|j: int| 0 <= j < order.len() ==> 0 <= #[trigger] order[j] < left.len(),
        !order.contains(i),
        0 <= i < left.len(),
    ensures
        seated(left, setup, order).len() == left.len(),
        seated(left, setup, order)[i] == left[i],
    decreases order.len(),
{
    if order.len() > 0 {
        let fewer = order.drop_last();
        assert(order[order.len() - 1] != i);
        assert forall|j: int| 0 <= j < fewer.len() implies 0 <= #[trigger] fewer[j] < left.len() && fewer[j]
            != i by {
            assert(fewer[j] == order[j]);
        }
        not_yet(left, setup, fewer, i);
    }
}

proof fn the_first_is_served(left: Seq<Life>, setup: Setup, order: Seq<int>, k: int, l: int)
    requires
        apart(left),
        on_the_row(left, setup.lane_count),
        forall|j: int| 0 <= j < order.len() ==> 0 <= #[trigger] order[j] < left.len(),
        order.no_duplicates(),
        0 <= k < l < order.len(),
        left[order[l]].lane is None,
        seated(left, setup, order)[order[l]].lane is Some,
    ensures
        seated(left, setup, order)[order[k]].lane is Some,
    decreases order.len(),
{
    let fewer = order.drop_last();
    let was = seated(left, setup, fewer);
    let last = order.last();
    assert(order[order.len() - 1] == last);
    assert forall|j: int| 0 <= j < fewer.len() implies 0 <= #[trigger] fewer[j] < left.len() && fewer[j]
        != last by {
        assert(fewer[j] == order[j]);
    }
    assert(fewer.no_duplicates());
    seating(left, setup, fewer);
    assert(fewer[k] == order[k]);
    assert(order[k] != last);
    if l < fewer.len() {
        assert(fewer[l] == order[l] && order[l] != last);
        the_first_is_served(left, setup, fewer, k, l);
    } else {
        not_yet(left, setup, fewer, last);
        a_choice_is_open(was, setup, was[last]);
        let lane = choice(was, setup, was[last])->0;
        if was[order[k]].lane is None {
            assert(was[fewer[k]].lane is None);
            assert(full(was, setup.lane_count));
            assert(is_held(was, lane));
        }
    }
}

proof fn nobody_has_two_turns(sessions: Seq<Life>, upto: int)
    requires
        0 <= upto <= sessions.len(),
    ensures
        by_age(sessions, upto).no_duplicates(),
    decreases upto,
{
    if upto > 0 {
        nobody_has_two_turns(sessions, upto - 1);
        everybody_has_a_turn(sessions, upto - 1);
        everybody_has_a_turn(sessions, upto);
        let before = by_age(sessions, upto - 1);
        let all = by_age(sessions, upto);
        let at = crate::lanes::turn(before, sessions, sessions[upto - 1].first_seen);
        turn_is_a_place(before, sessions, sessions[upto - 1].first_seen);
        assert forall|a: int, b: int| 0 <= a < b < all.len() implies all[a] != all[b] by {
            let x = if a < at { a } else { a - 1 };
            let y = if b < at { b } else { b - 1 };
            if a != at {
                assert(all[a] == before[x]);
            }
            if b != at {
                assert(all[b] == before[y]);
            }
        }
    }
}

proof fn turn_is_a_place(order: Seq<int>, sessions: Seq<Life>, at: u64)
    ensures
        0 <= crate::lanes::turn(order, sessions, at) <= order.len(),
    decreases order.len(),
{
    if order.len() > 0 {
        turn_is_a_place(order.drop_last(), sessions, at);
    }
}

/// **Whoever was there first is seated first**: of two sessions without a lane,
/// the younger gets one only if the older has one too.
pub proof fn the_older_is_seated_first(desk: Desk, i: int, j: int)
    requires
        apart(desk.sessions),
        0 <= i < desk.sessions.len(),
        0 <= j < desk.sessions.len(),
        desk.sessions[i].first_seen < desk.sessions[j].first_seen,
        desk.sessions[i].lane is None,
        desk.sessions[j].lane is None,
        desk.filled().sessions[j].lane is Some,
    ensures
        desk.filled().sessions[i].lane is Some,
{
    let setup = desk.settings;
    let left = released(desk.sessions, setup.lane_count);
    let order = by_age(left, left.len() as int);
    everybody_has_a_turn(left, left.len() as int);
    crate::lanes::the_oldest_goes_first(left, left.len() as int);
    nobody_has_two_turns(left, left.len() as int);
    assert(order.contains(i) && order.contains(j));
    let k = choose|k: int| 0 <= k < order.len() && order[k] == i;
    let l = choose|l: int| 0 <= l < order.len() && order[l] == j;
    assert(left[i].first_seen == desk.sessions[i].first_seen && left[j].first_seen
        == desk.sessions[j].first_seen);
    if l < k {
        assert(left[order[l]].first_seen <= left[order[k]].first_seen);
    }
    assert(apart(left)) by {
        assert forall|a: int, b: int| 0 <= a < b < left.len() && (
        #[trigger] left[a]).lane is Some implies left[a].lane != (#[trigger] left[b]).lane by {
            assert(desk.sessions[a].lane != desk.sessions[b].lane);
        }
    }
    the_first_is_served(left, setup, order, k, l);
}

/// **Fewer lanes put nobody on a lane that is gone**, and nobody off one that is
/// still there.
pub proof fn only_a_lane_that_is_gone_is_left(desk: Desk, count: int, i: int)
    requires
        apart(desk.sessions),
        0 <= i < desk.sessions.len(),
        desk.sessions[i].lane is Some,
        desk.sessions[i].lane->0 < desk.settings.counted(count).lane_count,
    ensures
        (Desk { settings: desk.settings.counted(count), ..desk }).filled().sessions[i]
            == desk.sessions[i],
{
    filling_moves_nobody(Desk { settings: desk.settings.counted(count), ..desk });
}

/// **A lane can be answered when its session is shown as waiting**, and nothing
/// is being previewed: then, and only then.
pub proof fn a_lane_is_answerable_while_it_waits(desk: Desk, lane: usize, i: int)
    requires
        apart(desk.sessions),
        0 <= i < desk.sessions.len(),
        desk.sessions[i].lane == Some(lane),
    ensures
        desk.answerable(lane) <==> desk.preview is None && desk.sessions[i].state == State::Waiting,
{
    crate::tracker::found_on_its_lane(desk.sessions, lane);
    let at = crate::tracker::sitting(desk.sessions, lane)->0;
    if at < i {
        assert(desk.sessions[at].lane != desk.sessions[i].lane);
    } else if i < at {
        assert(desk.sessions[i].lane != desk.sessions[at].lane);
    }
}

/// Of any finite number of subagents, one has been quiet the longest.
proof fn somebody_is_quietest(roster: Map<Seq<char>, u64>) -> (id: Seq<char>)
    requires
        roster.dom().finite(),
        roster.dom().len() > 0,
    ensures
        quietest(roster, id),
    decreases roster.dom().len(),
{
    let one = roster.dom().choose();
    let rest = roster.remove(one);
    assert(rest.dom() =~= roster.dom().remove(one));
    if rest.dom().len() == 0 {
        assert forall|other: Seq<char>| #[trigger] roster.contains_key(other) implies other == one by {
            if other != one {
                assert(rest.dom().contains(other));
                assert(rest.dom() =~= Set::empty());
            }
        }
        one
    } else {
        let least = somebody_is_quietest(rest);
        assert(roster.contains_key(least) && least != one);
        crate::table::one_comes_first(one, least);
        let first = roster[one] < roster[least] || (roster[one] == roster[least] && before(
            one,
            least,
        ));
        let id = if first {
            one
        } else {
            least
        };
        assert forall|other: Seq<char>|
            #[trigger] roster.contains_key(other) && other != id implies roster[id] < roster[other]
            || (roster[id] == roster[other] && before(id, other)) by {
            if other != one && other != least {
                assert(rest.contains_key(other));
                if first && roster[one] == roster[least] && roster[least] == roster[other] {
                    crate::table::order_chains(one, least, other);
                }
            }
        }
        id
    }
}

/// **A stop that does not say whose takes somebody off**, while there is anybody
/// on the roster.
pub proof fn an_unnamed_stop_takes_somebody_off(roster: Map<Seq<char>, u64>, event: Event)
    requires
        roster.dom().finite(),
        roster.dom().len() > 0,
        event.agent is None,
        event.kind == Kind::SubagentStop,
    ensures
        exists|gone: Seq<char>|
            #[trigger] roster.contains_key(gone) && !rostered(roster, event).contains_key(gone),
{
    let id = somebody_is_quietest(roster);
    assert(quietest(roster, id));
    let gone = choose|id: Seq<char>| quietest(roster, id);
    assert(roster.contains_key(gone));
    assert(!rostered(roster, event).contains_key(gone));
}

/// **What an event says is taken**: the terminal and the processes it names are
/// the session's from then on; the folder it names where the session starts, or
/// has none yet — but a subagent's folder never.
pub proof fn what_an_event_says_is_taken(life: Life, event: Event)
    ensures
        event.wt_session matches Some(terminal) ==> heard(life, event).wt_session == Some(terminal@),
        event.ancestors@.len() > 0 ==> heard(life, event).ancestors == line_of(event.ancestors@),
        event.subagent ==> heard(life, event).cwd == life.cwd,
        event.cwd is None ==> heard(life, event).cwd == life.cwd,
        !event.subagent ==> (event.cwd matches Some(folder) ==> {
            &&& event.kind == Kind::SessionStart ==> heard(life, event).cwd == Some(folder@)
            &&& life.cwd is None ==> heard(life, event).cwd == Some(folder@)
            &&& event.kind != Kind::SessionStart && life.cwd is Some ==> heard(life, event).cwd
                == life.cwd
        }),
        heard(life, event).lane == life.lane,
{
}

} // verus!
