//! Which lane each session is on, and who gets one that comes free.

use vstd::prelude::*;

use crate::settings::{Setup, Settings};
use crate::tracker::{Life, Session, lives};

verus! {

/// Whether some session is on `lane`.
pub open spec fn is_held(sessions: Seq<Life>, lane: usize) -> bool {
    exists|i: int| 0 <= i < sessions.len() && (#[trigger] sessions[i]).lane == Some(lane)
}

/// Whether `lane` is live and nobody is on it.
pub open spec fn is_open(sessions: Seq<Life>, count: usize, lane: usize) -> bool {
    lane < count && !is_held(sessions, lane)
}

/// The lane of the first saved agent, of the first `upto`, that this session
/// is and whose lane is open.
pub open spec fn preferred(sessions: Seq<Life>, setup: Setup, upto: int, life: Life) -> Option<usize>
    decreases upto,
{
    if upto <= 0 {
        None
    } else {
        match preferred(sessions, setup, upto - 1, life) {
            Some(lane) => Some(lane),
            None => {
                let entry = setup.saved[upto - 1];
                if is_open(sessions, setup.lane_count, entry.lane) && (life.agent matches Some(agent)
                    && entry.is(agent, life.cwd)) {
                    Some(entry.lane)
                } else {
                    None
                }
            },
        }
    }
}

/// The first open lane below `upto`; with `shy`, the first that no saved agent
/// would rather have.
pub open spec fn first_open(sessions: Seq<Life>, setup: Setup, upto: int, shy: bool) -> Option<usize>
    decreases upto,
{
    if upto <= 0 {
        None
    } else {
        match first_open(sessions, setup, upto - 1, shy) {
            Some(lane) => Some(lane),
            None => {
                let lane = (upto - 1) as usize;
                if is_open(sessions, setup.lane_count, lane) && !(shy && setup.is_preferred(lane)) {
                    Some(lane)
                } else {
                    None
                }
            },
        }
    }
}

/// Which lane a session should take.
pub open spec fn choice(sessions: Seq<Life>, setup: Setup, life: Life) -> Option<usize> {
    let count = setup.lane_count as int;
    match preferred(sessions, setup, setup.saved.len() as int, life) {
        Some(lane) => Some(lane),
        None => {
            let shy = if life.cwd is None {
                first_open(sessions, setup, count, true)
            } else {
                None
            };
            match shy {
                Some(lane) => Some(lane),
                None => first_open(sessions, setup, count, false),
            }
        },
    }
}

fn holds(sessions: &Vec<Session>, lane: usize) -> (r: bool)
    ensures
        r == is_held(lives(sessions@), lane),
{
    let mut i: usize = 0;
    while i < sessions.len()
        invariant
            i <= sessions@.len(),
            forall|j: int| 0 <= j < i ==> (#[trigger] lives(sessions@)[j]).lane != Some(lane),
        decreases sessions@.len() - i,
    {
        assert(lives(sessions@)[i as int] == sessions@[i as int]@);
        if sessions[i].lane == Some(lane) {
            return true;
        }
        i = i + 1;
    }
    false
}

/// Which lane a session should take.
///
/// A saved agent's preferred lane, if it is free. Otherwise the first free
/// lane, whoever might have preferred it — a preference is not a reservation,
/// and landing elsewhere never rewrites it; `settings` is read-only here so
/// that cannot happen by accident.
///
/// The one refinement: a session whose working directory is not known yet
/// cannot be recognised as anybody's save. Hooks post concurrently, and a
/// session adopted from a *subagent's* event deliberately carries no cwd —
/// handing it a lane somebody else prefers is how two agents once came up
/// reversed after an app restart, summoning each other's windows. So while its
/// cwd is unknown it takes a lane nobody prefers when there is one, and any
/// free lane when there is not.
///
/// Nothing here can take a lane away from a session that already holds one.
/// Lane position is identity: a display you glance at teaches you nothing if
/// lane 2 moves while you are looking at it.
pub fn claim(settings: &Settings, sessions: &Vec<Session>, session: &Session) -> (r: Option<usize>)
    ensures
        r == choice(lives(sessions@), settings@, session@),
{
    let count: usize = settings.lane_count;
    let ghost all = lives(sessions@);
    let ghost setup = settings@;
    let cwd: Option<&str> = match &session.cwd {
        Some(cwd) => Some(cwd.as_str()),
        None => None,
    };
    if let Some(agent) = session.agent {
        let mut i: usize = 0;
        while i < settings.saved.len()
            invariant
                i <= settings.saved@.len(),
                all == lives(sessions@),
                setup == settings@,
                count == setup.lane_count,
                session.agent == Some(agent),
                session@.cwd == crate::text::seen(cwd),
                preferred(all, setup, i as int, session@) is None,
            decreases settings.saved@.len() - i,
        {
            let entry = &settings.saved[i];
            assert(setup.saved[i as int] == entry@);
            if entry.lane < count && !holds(sessions, entry.lane) && entry.matches(agent, cwd) {
                let lane: usize = entry.lane;
                proof {
                    assert(preferred(all, setup, i + 1, session@) == Some(lane));
                    stays_preferred(all, setup, i + 1, setup.saved.len() as int, session@);
                }
                return Some(lane);
            }
            i = i + 1;
        }
    } else {
        proof {
            nobody_prefers(all, setup, setup.saved.len() as int, session@);
        }
    }
    if session.cwd.is_none() {
        if let Some(lane) = open_lane(settings, sessions, true) {
            return Some(lane);
        }
    }
    open_lane(settings, sessions, false)
}

/// What the first `upto` settle, the rest do not change.
proof fn stays_preferred(sessions: Seq<Life>, setup: Setup, upto: int, whole: int, life: Life)
    requires
        0 <= upto <= whole,
        preferred(sessions, setup, upto, life) is Some,
    ensures
        preferred(sessions, setup, whole, life) == preferred(sessions, setup, upto, life),
    decreases whole,
{
    if upto < whole {
        stays_preferred(sessions, setup, upto, whole - 1, life);
    }
}

proof fn nobody_prefers(sessions: Seq<Life>, setup: Setup, upto: int, life: Life)
    requires
        life.agent is None,
    ensures
        preferred(sessions, setup, upto, life) is None,
    decreases upto,
{
    if upto > 0 {
        nobody_prefers(sessions, setup, upto - 1, life);
    }
}

proof fn stays_open(sessions: Seq<Life>, setup: Setup, upto: int, whole: int, shy: bool)
    requires
        0 <= upto <= whole,
        first_open(sessions, setup, upto, shy) is Some,
    ensures
        first_open(sessions, setup, whole, shy) == first_open(sessions, setup, upto, shy),
    decreases whole,
{
    if upto < whole {
        stays_open(sessions, setup, upto, whole - 1, shy);
    }
}

fn open_lane(settings: &Settings, sessions: &Vec<Session>, shy: bool) -> (r: Option<usize>)
    ensures
        r == first_open(lives(sessions@), settings@, settings@.lane_count as int, shy),
{
    let ghost all = lives(sessions@);
    let mut lane: usize = 0;
    while lane < settings.lane_count
        invariant
            lane <= settings.lane_count,
            all == lives(sessions@),
            first_open(all, settings@, lane as int, shy) is None,
        decreases settings.lane_count - lane,
    {
        if !holds(sessions, lane) && !(shy && settings.prefers(lane)) {
            proof {
                assert(first_open(all, settings@, lane + 1, shy) == Some(lane));
                stays_open(all, settings@, lane + 1, settings.lane_count as int, shy);
            }
            return Some(lane);
        }
        lane = lane + 1;
    }
    None
}

/// Where in `order`, oldest first, something first seen at `at` belongs: after
/// whatever is no younger.
pub open spec fn turn(order: Seq<int>, sessions: Seq<Life>, at: u64) -> int
    decreases order.len(),
{
    if order.len() == 0 || sessions[order.last()].first_seen <= at {
        order.len() as int
    } else {
        turn(order.drop_last(), sessions, at)
    }
}

/// The first `upto` sessions, oldest first; of two as old, the one that came
/// in first.
pub open spec fn by_age(sessions: Seq<Life>, upto: int) -> Seq<int>
    decreases upto,
{
    if upto <= 0 {
        seq![]
    } else {
        let before = by_age(sessions, upto - 1);
        before.insert(turn(before, sessions, sessions[upto - 1].first_seen), upto - 1)
    }
}

proof fn turn_in_range(order: Seq<int>, sessions: Seq<Life>, at: u64)
    ensures
        0 <= turn(order, sessions, at) <= order.len(),
    decreases order.len(),
{
    if order.len() > 0 {
        turn_in_range(order.drop_last(), sessions, at);
    }
}

/// Every session has its turn: `by_age` holds each place once, and nothing
/// else.
pub proof fn everybody_has_a_turn(sessions: Seq<Life>, upto: int)
    requires
        0 <= upto <= sessions.len(),
    ensures
        by_age(sessions, upto).len() == upto,
        forall|k: int|
            0 <= k < upto ==> 0 <= #[trigger] by_age(sessions, upto)[k] < upto,
        forall|i: int| 0 <= i < upto ==> #[trigger] by_age(sessions, upto).contains(i),
    decreases upto,
{
    if upto > 0 {
        everybody_has_a_turn(sessions, upto - 1);
        let before = by_age(sessions, upto - 1);
        let at = turn(before, sessions, sessions[upto - 1].first_seen);
        turn_in_range(before, sessions, sessions[upto - 1].first_seen);
        let now = before.insert(at, upto - 1);
        assert(now[at] == upto - 1);
        assert forall|i: int| 0 <= i < upto implies #[trigger] now.contains(i) by {
            if i < upto - 1 {
                assert(before.contains(i));
                let k = choose|k: int| 0 <= k < before.len() && before[k] == i;
                if k < at {
                    assert(now[k] == i);
                } else {
                    assert(now[k + 1] == i);
                }
            }
        }
        assert forall|k: int| 0 <= k < upto implies 0 <= #[trigger] now[k] < upto by {
            if k < at {
                assert(now[k] == before[k]);
            } else if k > at {
                assert(now[k] == before[k - 1]);
            }
        }
    }
}

/// `by_age` is in the order of age: nobody goes before somebody older.
pub proof fn the_oldest_goes_first(sessions: Seq<Life>, upto: int)
    requires
        0 <= upto <= sessions.len(),
    ensures
        forall|j: int, k: int|
            0 <= j < k < upto ==> sessions[#[trigger] by_age(sessions, upto)[j]].first_seen
                <= sessions[#[trigger] by_age(sessions, upto)[k]].first_seen,
    decreases upto,
{
    if upto > 0 {
        everybody_has_a_turn(sessions, upto - 1);
        the_oldest_goes_first(sessions, upto - 1);
        let before = by_age(sessions, upto - 1);
        let age = sessions[upto - 1].first_seen;
        let at = turn(before, sessions, age);
        turn_in_range(before, sessions, age);
        turn_parts(before, sessions, age);
        let now = before.insert(at, upto - 1);
        assert forall|j: int, k: int| 0 <= j < k < upto implies sessions[#[trigger] now[j]].first_seen
            <= sessions[#[trigger] now[k]].first_seen by {
            let a = if j < at { j } else { j - 1 };
            let b = if k < at { k } else { k - 1 };
            if j != at {
                assert(now[j] == before[a]);
            }
            if k != at {
                assert(now[k] == before[b]);
            }
            if k == at && at > 0 {
                let last = before[at - 1];
                assert(sessions[last].first_seen <= age);
                if a < at - 1 {
                    assert(sessions[before[a]].first_seen <= sessions[last].first_seen);
                }
            }
        }
    }
}

/// Whoever stands just before the turn is no younger, and everybody after it
/// is younger.
proof fn turn_parts(order: Seq<int>, sessions: Seq<Life>, age: u64)
    ensures
        ({
            let at = turn(order, sessions, age);
            &&& at > 0 ==> sessions[order[at - 1]].first_seen <= age
            &&& forall|k: int| at <= k < order.len() ==> sessions[#[trigger] order[k]].first_seen > age
        }),
    decreases order.len(),
{
    if order.len() > 0 && sessions[order.last()].first_seen > age {
        let fewer = order.drop_last();
        turn_parts(fewer, sessions, age);
        turn_in_range(fewer, sessions, age);
        let at = turn(order, sessions, age);
        assert forall|k: int| at <= k < order.len() implies sessions[#[trigger] order[k]].first_seen
            > age by {
            if k < fewer.len() {
                assert(fewer[k] == order[k]);
            }
        }
    }
}

/// [`by_age`] of all sessions.
pub fn oldest_first(sessions: &Vec<Session>) -> (order: Vec<usize>)
    ensures
        order@.len() == sessions@.len(),
        forall|k: int|
            0 <= k < order@.len() ==> (#[trigger] order@[k]) == by_age(
                lives(sessions@),
                sessions@.len() as int,
            )[k],
        forall|k: int| 0 <= k < order@.len() ==> (#[trigger] order@[k]) < sessions@.len(),
{
    let ghost all = lives(sessions@);
    let mut order: Vec<usize> = Vec::new();
    let mut i: usize = 0;
    while i < sessions.len()
        invariant
            i <= sessions@.len(),
            all == lives(sessions@),
            order@.len() == i,
            by_age(all, i as int).len() == i,
            forall|k: int| 0 <= k < i ==> (#[trigger] order@[k]) == by_age(all, i as int)[k],
            forall|k: int| 0 <= k < i ==> (#[trigger] order@[k]) < i,
        decreases sessions@.len() - i,
    {
        let age: u64 = sessions[i].first_seen;
        let ghost before = by_age(all, i as int);
        let mut at: usize = i;
        assert(before.take(i as int) =~= before);
        while at > 0 && sessions[order[at - 1]].first_seen > age
            invariant
                at <= i < sessions@.len(),
                all == lives(sessions@),
                order@.len() == i == before.len(),
                forall|k: int| 0 <= k < i ==> (#[trigger] order@[k]) == before[k],
                forall|k: int| 0 <= k < i ==> (#[trigger] order@[k]) < i,
                turn(before, all, age) == turn(before.take(at as int), all, age),
            decreases at,
        {
            assert(before.take(at as int).last() == order@[at - 1]);
            assert(all[order@[at - 1] as int] == sessions@[order@[at - 1] as int]@);
            assert(before.take(at as int).drop_last() =~= before.take(at - 1));
            at = at - 1;
        }
        proof {
            if at > 0 {
                assert(before.take(at as int).last() == order@[at - 1]);
                assert(all[order@[at - 1] as int] == sessions@[order@[at - 1] as int]@);
            }
            assert(turn(before, all, age) == at);
            assert(all[i as int] == sessions@[i as int]@);
            assert(by_age(all, i + 1) == before.insert(at as int, i as int));
        }
        let ghost was = order@;
        order.insert(at, i);
        proof {
            let now = by_age(all, i + 1);
            assert forall|k: int| 0 <= k < i + 1 implies (#[trigger] order@[k]) == now[k] && order@[k]
                < i + 1 by {
                if k < at {
                    assert(order@[k] == was[k]);
                } else if k > at {
                    assert(order@[k] == was[k - 1]);
                    assert(now[k] == before[k - 1]);
                }
            }
        }
        i = i + 1;
    }
    order
}

/// `life`, off a lane that does not exist.
pub open spec fn kept(life: Life, count: usize) -> Life {
    if life.lane matches Some(lane) && lane >= count {
        Life { lane: None, ..life }
    } else {
        life
    }
}

/// Every session off a lane that does not exist.
pub open spec fn released(sessions: Seq<Life>, count: usize) -> Seq<Life> {
    Seq::new(sessions.len(), |i: int| kept(sessions[i], count))
}

/// Each session of `order` in turn, given the best open lane if it has none.
pub open spec fn seated(sessions: Seq<Life>, setup: Setup, order: Seq<int>) -> Seq<Life>
    decreases order.len(),
{
    if order.len() == 0 {
        sessions
    } else {
        let before = seated(sessions, setup, order.drop_last());
        let i = order.last();
        if before[i].lane is Some {
            before
        } else {
            before.update(i, Life { lane: choice(before, setup, before[i]), ..before[i] })
        }
    }
}

/// Every laneless session given the best free lane there is, oldest first.
pub open spec fn filled(sessions: Seq<Life>, setup: Setup) -> Seq<Life> {
    let left = released(sessions, setup.lane_count);
    seated(left, setup, by_age(left, left.len() as int))
}

/// **Of two that came at once, the one listed first goes first.**
pub proof fn of_two_at_once_the_first_listed_goes_first(sessions: Seq<Life>, upto: int, j: int, k: int)
    requires
        0 <= upto <= sessions.len(),
        0 <= j < k < by_age(sessions, upto).len(),
        sessions[by_age(sessions, upto)[j]].first_seen == sessions[by_age(
            sessions,
            upto,
        )[k]].first_seen,
    ensures
        by_age(sessions, upto)[j] < by_age(sessions, upto)[k],
    decreases upto,
{
    everybody_has_a_turn(sessions, upto);
    if upto > 0 {
        let before = by_age(sessions, upto - 1);
        let at = sessions[upto - 1].first_seen;
        let place = turn(before, sessions, at);
        everybody_has_a_turn(sessions, upto - 1);
        nobody_younger_stands_before(before, sessions, at);
        let all = by_age(sessions, upto);
        assert(all == before.insert(place, upto - 1));
        let was = |n: int|
            if n < place {
                n
            } else {
                n - 1
            };
        if j == place {
            assert(all[j] == upto - 1);
            assert(all[k] == before[k - 1]);
            assert(sessions[before[k - 1]].first_seen > at);
        } else if k == place {
            assert(all[k] == upto - 1);
            assert(all[j] == before[j]);
        } else {
            assert(all[j] == before[was(j)] && all[k] == before[was(k)]);
            of_two_at_once_the_first_listed_goes_first(sessions, upto - 1, was(j), was(k));
        }
    }
}

proof fn nobody_younger_stands_before(order: Seq<int>, sessions: Seq<Life>, at: u64)
    ensures
        0 <= turn(order, sessions, at) <= order.len(),
        forall|n: int|
            turn(order, sessions, at) <= n < order.len() ==> sessions[#[trigger] order[n]].first_seen
                > at,
    decreases order.len(),
{
    if order.len() > 0 && sessions[order.last()].first_seen > at {
        let less = order.drop_last();
        nobody_younger_stands_before(less, sessions, at);
        assert forall|n: int| turn(order, sessions, at) <= n < order.len() implies sessions[
        #[trigger] order[n]].first_seen > at by {
            if n < less.len() {
                assert(less[n] == order[n]);
            }
        }
    }
}

} // verus!
