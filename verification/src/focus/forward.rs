//! Getting one window to the front, step by step.
//!
//! Windows reports success for a raise that nobody can see, and carries a
//! restore out on the target's own thread, in its own time. So nothing here
//! believes a call: after each thing done the window is looked at, and what was
//! seen decides what comes next — [`Raise`] for the window, [`Tab`] for the tab
//! in it.

use vstd::prelude::*;

use super::window::hosts_tabs;
use crate::text;

verus! {

/// How often a restore or a raise is looked at, in milliseconds. Restoring is
/// animated, so the only honest check is to look until it changes.
pub const LOOK_MS: u64 = 40;

/// How long a window that came to the front has to stay there, in
/// milliseconds: a raise that only flashes on top is not one.
pub const STAY_MS: u64 = 120;

/// How often a raise is looked at before it is given up.
pub const FRONT_LOOKS: u32 = 10;

/// How often a selected tab is tried, and how long lies between the tries, in
/// milliseconds.
pub const TAB_ATTEMPTS: u32 = 10;

pub const TAB_RETRY_MS: u64 = 25;

/// How a minimized window is asked to come back, each way after the one before
/// it did not take.
#[derive(Debug, Clone, Copy, PartialEq, Eq, Structural)]
pub enum Way {
    /// The ordinary call, which a process without foreground rights is refused.
    Politely,
    /// By the thread that owns the window, which needs no permission.
    ByItsThread,
    /// The task switcher's way.
    BySwitcher,
}

/// What is done to the window.
#[derive(Debug, Clone, Copy, PartialEq, Eq, Structural)]
pub enum Deed {
    Nothing,
    Restore(Way),
    /// Activate it, and put it above ordinary windows.
    Force,
    /// Switch to it as the task switcher does, then the same.
    SwitchAndForce,
}

/// What is looked at.
#[derive(Debug, Clone, Copy, PartialEq, Eq, Structural)]
pub enum Question {
    Minimized,
    /// Whether it is the window at its own centre.
    InFront,
}

/// One round: wait, do, look.
#[derive(Debug, Clone, Copy, PartialEq, Eq, Structural)]
pub struct Round {
    pub wait_ms: u64,
    pub deed: Deed,
    pub question: Question,
}

/// Where a raise stands: what the next look is about.
#[derive(Debug, Clone, Copy, PartialEq, Eq, Structural)]
pub enum Raise {
    Asked,
    /// Asked to come back, with so many looks left before the next way.
    Restoring { way: Way, left: u32 },
    /// Forced, for the first time or for the last, with so many looks left.
    Forced { last: bool, left: u32 },
    /// In front; now whether it stays.
    Staying { last: bool },
    Over { raised: bool },
}

/// How often a restore is looked at again.
pub open spec fn patience(way: Way) -> u32 {
    match way {
        Way::Politely => 3,
        _ => 8,
    }
}

impl Raise {
    pub open spec fn first() -> (Raise, Round) {
        (
            Raise::Asked,
            Round { wait_ms: 0, deed: Deed::Nothing, question: Question::Minimized },
        )
    }

    /// Forcing it to the front.
    pub open spec fn forced(last: bool, wait_ms: u64) -> (Raise, Option<Round>) {
        (
            Raise::Forced { last, left: (FRONT_LOOKS - 1) as u32 },
            Some(
                Round {
                    wait_ms,
                    deed: if last {
                        Deed::SwitchAndForce
                    } else {
                        Deed::Force
                    },
                    question: Question::InFront,
                },
            ),
        )
    }

    /// Asking it to come back.
    pub open spec fn restoring(way: Way) -> (Raise, Option<Round>) {
        (
            Raise::Restoring { way, left: patience(way) },
            Some(
                Round { wait_ms: 0, deed: Deed::Restore(way), question: Question::Minimized },
            ),
        )
    }

    /// Looking again.
    pub open spec fn again(self, wait_ms: u64, question: Question) -> (Raise, Option<Round>) {
        (self, Some(Round { wait_ms, deed: Deed::Nothing, question }))
    }

    pub open spec fn over(raised: bool) -> (Raise, Option<Round>) {
        (Raise::Over { raised }, None)
    }

    /// What comes of a look.
    pub open spec fn next(self, yes: bool) -> (Raise, Option<Round>) {
        match self {
            Raise::Asked => if yes {
                Raise::restoring(Way::Politely)
            } else {
                Raise::forced(false, 0)
            },
            Raise::Restoring { way, left } => if !yes {
                Raise::forced(false, 0)
            } else if left > 0 {
                Raise::Restoring { way, left: (left - 1) as u32 }.again(
                    LOOK_MS,
                    Question::Minimized,
                )
            } else {
                match way {
                    Way::Politely => Raise::restoring(Way::ByItsThread),
                    Way::ByItsThread => Raise::restoring(Way::BySwitcher),
                    Way::BySwitcher => Raise::over(false),
                }
            },
            Raise::Forced { last, left } => if yes {
                Raise::Staying { last }.again(STAY_MS, Question::InFront)
            } else if left > 0 {
                Raise::Forced { last, left: (left - 1) as u32 }.again(LOOK_MS, Question::InFront)
            } else if last {
                Raise::over(false)
            } else {
                Raise::forced(true, LOOK_MS)
            },
            Raise::Staying { last } => if yes {
                Raise::over(true)
            } else if last {
                Raise::over(false)
            } else {
                Raise::forced(true, 0)
            },
            Raise::Over { .. } => (self, None),
        }
    }

    /// How many looks are left at most.
    pub open spec fn looks_left(self) -> nat {
        let front = FRONT_LOOKS as nat + 1;
        match self {
            Raise::Asked => 1 + 4 + 9 + 9 + 2 * front,
            Raise::Restoring { way, left } => 1 + left as nat + (match way {
                Way::Politely => 18nat,
                Way::ByItsThread => 9,
                Way::BySwitcher => 0,
            }) + 2 * front,
            Raise::Forced { last, left } => 2 + left as nat + (if last {
                0
            } else {
                front
            }),
            Raise::Staying { last } => 1 + (if last {
                0
            } else {
                front
            }),
            Raise::Over { .. } => 0,
        }
    }

    /// A raise that has not begun: first of all, whether it is minimized.
    pub fn start() -> (r: (Raise, Round))
        ensures
            r == Raise::first(),
    {
        (
            Raise::Asked,
            Round { wait_ms: 0, deed: Deed::Nothing, question: Question::Minimized },
        )
    }

    /// What to do after a look that said `yes`; nothing more once it is over.
    ///
    /// A minimized window cannot be brought forward until it is restored; then
    /// it is forced, and if it is not seen in front — and seen there again a
    /// moment later — once more by the task switcher's path.
    pub fn seen(&mut self, yes: bool) -> (round: Option<Round>)
        ensures
            (*final(self), round) == old(self).next(yes),
    {
        let (now, round): (Raise, Option<Round>) = match *self {
            Raise::Asked => if yes {
                restore(Way::Politely)
            } else {
                force(false, 0)
            },
            Raise::Restoring { way, left } => if !yes {
                force(false, 0)
            } else if left > 0 {
                look(Raise::Restoring { way, left: left - 1 }, LOOK_MS, Question::Minimized)
            } else {
                match way {
                    Way::Politely => restore(Way::ByItsThread),
                    Way::ByItsThread => restore(Way::BySwitcher),
                    Way::BySwitcher => (Raise::Over { raised: false }, None),
                }
            },
            Raise::Forced { last, left } => if yes {
                look(Raise::Staying { last }, STAY_MS, Question::InFront)
            } else if left > 0 {
                look(Raise::Forced { last, left: left - 1 }, LOOK_MS, Question::InFront)
            } else if last {
                (Raise::Over { raised: false }, None)
            } else {
                force(true, LOOK_MS)
            },
            Raise::Staying { last } => if yes || last {
                (Raise::Over { raised: yes }, None)
            } else {
                force(true, 0)
            },
            Raise::Over { raised } => (Raise::Over { raised }, None),
        };
        *self = now;
        round
    }

    /// How it went, once it is over.
    pub fn raised(&self) -> (r: Option<bool>)
        ensures
            r == (match *self {
                Raise::Over { raised } => Some(raised),
                _ => None,
            }),
    {
        match *self {
            Raise::Over { raised } => Some(raised),
            _ => None,
        }
    }
}

fn restore(way: Way) -> (r: (Raise, Option<Round>))
    ensures
        r == Raise::restoring(way),
{
    let left: u32 = match way {
        Way::Politely => 3,
        _ => 8,
    };
    (
        Raise::Restoring { way, left },
        Some(Round { wait_ms: 0, deed: Deed::Restore(way), question: Question::Minimized }),
    )
}

fn force(last: bool, wait_ms: u64) -> (r: (Raise, Option<Round>))
    ensures
        r == Raise::forced(last, wait_ms),
{
    let deed = if last {
        Deed::SwitchAndForce
    } else {
        Deed::Force
    };
    (
        Raise::Forced { last, left: FRONT_LOOKS - 1 },
        Some(Round { wait_ms, deed, question: Question::InFront }),
    )
}

fn look(now: Raise, wait_ms: u64, question: Question) -> (r: (Raise, Option<Round>))
    ensures
        r == now.again(wait_ms, question),
{
    (now, Some(Round { wait_ms, deed: Deed::Nothing, question }))
}

/// **What is visibly on top is believed, and nothing else**: a raise is said to
/// have gone well only after the window was seen in front, and seen there again
/// a while later.
pub proof fn a_raise_is_seen_twice(raise: Raise, yes: bool)
    ensures
        raise.next(yes).0 == (Raise::Over { raised: true }) && !(raise is Over) ==> raise is Staying
            && yes,
        raise.next(yes).0 is Staying && raise !is Staying ==> raise is Forced && yes
            && raise.next(yes).1 == Some(
            Round { wait_ms: STAY_MS, deed: Deed::Nothing, question: Question::InFront },
        ),
{
}

/// **A minimized window is restored before it is forced**: it is forced only
/// when it was just seen not to be minimized, or was forced before.
pub proof fn only_a_restored_window_is_forced(raise: Raise, yes: bool)
    ensures
        raise.next(yes).1 matches Some(round) && (round.deed is Force || round.deed
            is SwitchAndForce) ==> {
            ||| (raise is Asked || raise is Restoring) && !yes
            ||| raise is Forced || raise is Staying
        },
{
}

/// **A raise comes to an end**: every look leaves fewer, and none are left only
/// when it is over.
pub proof fn a_raise_comes_to_an_end(raise: Raise, yes: bool)
    ensures
        raise !is Over ==> raise.next(yes).0.looks_left() < raise.looks_left(),
        raise.looks_left() == 0 <==> raise is Over,
        raise.next(yes).1 is None <==> raise.next(yes).0 is Over,
        Raise::first().0.looks_left() <= 45,
{
}

/// What is done about a tab.
#[derive(Debug, Clone, Copy, PartialEq, Eq, Structural)]
pub enum TabStep {
    /// Wait, and look whether the window has the keyboard.
    Look { wait_ms: u64 },
    /// Select the tab of that name, and see whether it is in front.
    Select { name: usize },
}

/// Where selecting one of several tabs stands.
///
/// Raising is asynchronous, and a terminal restores its own active tab as it is
/// activated: a selection into that gap is undone a moment later. So the window
/// is waited for, but never left without having tried — one that will not come
/// forward still has a tab worth selecting for the next time it does.
#[derive(Debug, Clone, Copy, PartialEq, Eq, Structural)]
pub enum Tab {
    Waiting { name: usize, attempt: u32 },
    Selecting { name: usize, attempt: u32 },
    Shown { name: usize },
    NotThere,
}

impl Tab {
    /// Turning to the tab of that name, of `count`.
    pub open spec fn turned(name: int, count: int) -> (Tab, Option<TabStep>) {
        if name < count {
            (
                Tab::Waiting { name: name as usize, attempt: 0 },
                Some(TabStep::Look { wait_ms: 0 }),
            )
        } else {
            (Tab::NotThere, None)
        }
    }

    /// What comes of a look or a selection, of `count` names.
    pub open spec fn next(self, yes: bool, count: usize) -> (Tab, Option<TabStep>) {
        match self {
            Tab::Waiting { name, attempt } => if yes || attempt + 1 >= TAB_ATTEMPTS {
                (Tab::Selecting { name, attempt }, Some(TabStep::Select { name }))
            } else {
                Tab::once_more(name, attempt)
            },
            Tab::Selecting { name, attempt } => if yes {
                (Tab::Shown { name }, None)
            } else if attempt + 1 < TAB_ATTEMPTS {
                Tab::once_more(name, attempt)
            } else {
                Tab::turned(name + 1, count as int)
            },
            _ => (self, None),
        }
    }

    pub open spec fn once_more(name: usize, attempt: u32) -> (Tab, Option<TabStep>) {
        (
            Tab::Waiting { name, attempt: (attempt + 1) as u32 },
            Some(TabStep::Look { wait_ms: TAB_RETRY_MS }),
        )
    }

    /// Whether it speaks of one of `count` names, and of a try there is.
    pub open spec fn is_of(self, count: usize) -> bool {
        match self {
            Tab::Waiting { name, attempt } => name < count && attempt < TAB_ATTEMPTS,
            Tab::Selecting { name, attempt } => name < count && attempt < TAB_ATTEMPTS,
            Tab::Shown { name } => name < count,
            Tab::NotThere => true,
        }
    }

    /// How many steps are left at most.
    pub open spec fn steps_left(self, count: usize) -> int {
        match self {
            Tab::Waiting { name, attempt } => 20 * (count - name) - 2 * attempt,
            Tab::Selecting { name, attempt } => 20 * (count - name) - 2 * attempt - 1,
            _ => 0,
        }
    }

    pub fn start(count: usize) -> (r: (Tab, Option<TabStep>))
        ensures
            r == Tab::turned(0, count as int),
            r.0.is_of(count),
    {
        if count > 0 {
            (Tab::Waiting { name: 0, attempt: 0 }, Some(TabStep::Look { wait_ms: 0 }))
        } else {
            (Tab::NotThere, None)
        }
    }

    /// What to do after a look or a selection that said `yes`; nothing more once
    /// a tab is shown or none is left.
    pub fn told(&mut self, yes: bool, count: usize) -> (step: Option<TabStep>)
        requires
            old(self).is_of(count),
        ensures
            (*final(self), step) == old(self).next(yes, count),
            final(self).is_of(count),
    {
        let (now, step): (Tab, Option<TabStep>) = match *self {
            Tab::Waiting { name, attempt } => if yes || attempt + 1 >= TAB_ATTEMPTS {
                (Tab::Selecting { name, attempt }, Some(TabStep::Select { name }))
            } else {
                (
                    Tab::Waiting { name, attempt: attempt + 1 },
                    Some(TabStep::Look { wait_ms: TAB_RETRY_MS }),
                )
            },
            Tab::Selecting { name, attempt } => if yes {
                (Tab::Shown { name }, None)
            } else if attempt + 1 < TAB_ATTEMPTS {
                (
                    Tab::Waiting { name, attempt: attempt + 1 },
                    Some(TabStep::Look { wait_ms: TAB_RETRY_MS }),
                )
            } else if name + 1 < count {
                (
                    Tab::Waiting { name: name + 1, attempt: 0 },
                    Some(TabStep::Look { wait_ms: 0 }),
                )
            } else {
                (Tab::NotThere, None)
            },
            Tab::Shown { name } => (Tab::Shown { name }, None),
            Tab::NotThere => (Tab::NotThere, None),
        };
        *self = now;
        step
    }

    /// The name of the tab that is shown.
    pub fn shown(&self) -> (r: Option<usize>)
        ensures
            r == (match *self {
                Tab::Shown { name } => Some(name),
                _ => None,
            }),
    {
        match *self {
            Tab::Shown { name } => Some(name),
            _ => None,
        }
    }
}

/// **The tab is believed, not the call, and no name is left untried**: one is
/// shown only after its own selection was seen to take, and the next is turned
/// to — or none is left — only after a selection that did not.
pub proof fn no_tab_is_left_untried(tab: Tab, yes: bool, count: usize)
    requires
        tab.is_of(count),
    ensures
        match (tab, tab.next(yes, count).0) {
            (Tab::Selecting { name, .. }, Tab::Shown { name: shown }) => yes && shown == name,
            (Tab::Selecting { name, attempt }, Tab::NotThere) => !yes && name + 1 == count
                && attempt + 1 == TAB_ATTEMPTS,
            (Tab::Selecting { name, attempt }, Tab::Waiting { name: next, .. }) => !yes && (next
                == name || next == name + 1 && attempt + 1 == TAB_ATTEMPTS),
            (Tab::Waiting { name, .. }, Tab::Waiting { name: next, .. }) => !yes && next == name,
            (Tab::Waiting { name, .. }, Tab::Selecting { name: next, .. }) => next == name,
            (Tab::Waiting { .. }, _) | (Tab::Selecting { .. }, _) => false,
            (_, next) => next == tab,
        },
        tab.next(yes, count).1 matches Some(_) ==> tab.next(yes, count).0.steps_left(count)
            < tab.steps_left(count),
{
}

/// Whether where the keyboard is inside the window has to be asked: only in a
/// window with tabs, and only once it is in front.
pub fn strip_matters(in_front: bool, class_name: &str) -> (r: bool)
    ensures
        r == (in_front && hosts_tabs(class_name@)),
{
    in_front && text::same(class_name, super::window::TERMINAL_WINDOW_CLASS)
}

/// Whether to look once more for the window to have the keyboard.
pub fn look_again(attempt: u32, in_front: bool) -> (r: bool)
    ensures
        r == (!in_front && attempt + 1 < TAB_ATTEMPTS),
{
    !in_front && attempt < TAB_ATTEMPTS - 1
}

/// A raise after `looks` looks that were all answered the same.
pub open spec fn after_looks(raise: Raise, yes: bool, looks: nat) -> Raise
    decreases looks,
{
    if looks == 0 {
        raise
    } else {
        after_looks(raise, yes, (looks - 1) as nat).next(yes).0
    }
}

proof fn looks_go_on(raise: Raise, yes: bool, first: nat, more: nat)
    ensures
        after_looks(raise, yes, first + more) == after_looks(
            after_looks(raise, yes, first),
            yes,
            more,
        ),
    decreases more,
{
    if more > 0 {
        looks_go_on(raise, yes, first, (more - 1) as nat);
    }
}

proof fn still_restoring(way: Way, left: u32, looks: nat)
    requires
        looks <= left,
    ensures
        after_looks(Raise::Restoring { way, left }, true, looks) == (Raise::Restoring {
            way,
            left: (left - looks) as u32,
        }),
    decreases looks,
{
    if looks > 0 {
        still_restoring(way, left, (looks - 1) as nat);
    }
}

proof fn still_forced(last: bool, left: u32, looks: nat)
    requires
        looks <= left,
    ensures
        after_looks(Raise::Forced { last, left }, false, looks) == (Raise::Forced {
            last,
            left: (left - looks) as u32,
        }),
    decreases looks,
{
    if looks > 0 {
        still_forced(last, left, (looks - 1) as nat);
    }
}

/// **A minimised window is restored in three ways, one after the other**:
/// asked politely and looked at four times, then by its own thread and then by
/// the switcher, nine times each; a window that is still minimised then is
/// given up. Each way is tried as it is taken up.
pub proof fn a_minimised_window_is_restored_in_three_ways()
    ensures
        ({
            let at = |looks: nat| after_looks(Raise::first().0, true, looks);
            &&& at(1) matches Raise::Restoring { way: Way::Politely, .. }
            &&& at(4) matches Raise::Restoring { way: Way::Politely, .. }
            &&& at(5) matches Raise::Restoring { way: Way::ByItsThread, .. }
            &&& at(13) matches Raise::Restoring { way: Way::ByItsThread, .. }
            &&& at(14) matches Raise::Restoring { way: Way::BySwitcher, .. }
            &&& at(22) matches Raise::Restoring { way: Way::BySwitcher, .. }
            &&& at(23) == (Raise::Over { raised: false })
            &&& at(0).next(true).1 matches Some(round) && round.deed == Deed::Restore(Way::Politely)
            &&& at(4).next(true).1 matches Some(round) && round.deed == Deed::Restore(
                Way::ByItsThread,
            )
            &&& at(13).next(true).1 matches Some(round) && round.deed == Deed::Restore(
                Way::BySwitcher,
            )
        }),
{
    let first = Raise::first().0;
    let one = Raise::Restoring { way: Way::Politely, left: 3 };
    let two = Raise::Restoring { way: Way::ByItsThread, left: 8 };
    let three = Raise::Restoring { way: Way::BySwitcher, left: 8 };
    assert(after_looks(first, true, 0) == first);
    assert(after_looks(first, true, 1) == one);
    looks_go_on(first, true, 1, 3);
    still_restoring(Way::Politely, 3, 3);
    assert(after_looks(first, true, 5) == two);
    looks_go_on(first, true, 5, 8);
    still_restoring(Way::ByItsThread, 8, 8);
    assert(after_looks(first, true, 14) == three);
    looks_go_on(first, true, 14, 8);
    still_restoring(Way::BySwitcher, 8, 8);
    assert(after_looks(first, true, 23) == (Raise::Over { raised: false }));
}

/// **A window is forced to the front twice**: a window that is not minimised is
/// forced at once; one that does not come is looked for ten times, then forced
/// again after a switch and looked for ten times more, and given up then.
pub proof fn a_window_is_forced_twice()
    ensures
        ({
            let at = |looks: nat| after_looks(Raise::first().0, false, looks);
            &&& at(0).next(false).1 matches Some(round) && round.deed == Deed::Force
                && round.question == Question::InFront
            &&& at(10) matches Raise::Forced { last: false, .. }
            &&& at(11) matches Raise::Forced { last: true, .. }
            &&& at(10).next(false).1 matches Some(round) && round.deed == Deed::SwitchAndForce
            &&& at(20) matches Raise::Forced { last: true, .. }
            &&& at(21) == (Raise::Over { raised: false })
        }),
{
    let first = Raise::first().0;
    assert(after_looks(first, false, 0) == first);
    assert(after_looks(first, false, 1) == (Raise::Forced { last: false, left: 9 }));
    looks_go_on(first, false, 1, 9);
    still_forced(false, 9, 9);
    assert(after_looks(first, false, 11) == (Raise::Forced { last: true, left: 9 }));
    looks_go_on(first, false, 11, 9);
    still_forced(true, 9, 9);
    assert(after_looks(first, false, 21) == (Raise::Over { raised: false }));
}

/// **Looks are spaced out**: 40 ms between one look and the next, 120 ms before
/// a window that came is looked at once more, and whatever is asked next is
/// what the raise is waiting for.
pub proof fn looks_are_spaced_out(raise: Raise, yes: bool)
    ensures
        raise.next(yes).1 matches Some(round) ==> {
            &&& round.deed is Nothing ==> round.wait_ms == (if raise.next(yes).0 is Staying {
                120u64
            } else {
                40u64
            })
            &&& raise.next(yes).0 is Restoring <==> round.question == Question::Minimized
            &&& raise.next(yes).0 is Restoring || raise.next(yes).0 is Forced || raise.next(yes).0
                is Staying
        },
        raise is Over ==> raise.next(yes) == (raise, None::<Round>),
{
}

/// **A tab is given ten chances**: it is selected as soon as it is ready, or on
/// the tenth look in any case; a selection that does not take is looked for
/// again 25 ms later, nine times over, and then the next tab has its turn.
pub proof fn a_tab_is_given_ten_chances(name: usize, attempt: u32, count: usize)
    requires
        name < count,
        attempt < 10,
    ensures
        ({
            let waiting = Tab::Waiting { name, attempt };
            let selecting = Tab::Selecting { name, attempt };
            let again = (
                Tab::Waiting { name, attempt: (attempt + 1) as u32 },
                Some(TabStep::Look { wait_ms: 25 }),
            );
            let select = (selecting, Some(TabStep::Select { name }));
            &&& waiting.next(true, count) == select
            &&& attempt == 9 ==> waiting.next(false, count) == select
            &&& attempt < 9 ==> waiting.next(false, count) == again
            &&& selecting.next(true, count) == (Tab::Shown { name }, None::<TabStep>)
            &&& attempt < 9 ==> selecting.next(false, count) == again
            &&& attempt == 9 && name + 1 < count ==> selecting.next(false, count) == (
                Tab::Waiting { name: (name + 1) as usize, attempt: 0 },
                Some(TabStep::Look { wait_ms: 0 }),
            )
            &&& attempt == 9 && name + 1 == count ==> selecting.next(false, count) == (
                Tab::NotThere,
                None::<TabStep>,
            )
        }),
        Tab::turned(0, 0).0 == Tab::NotThere,
        Tab::turned(0, count as int).0 == (Tab::Waiting { name: 0, attempt: 0 }),
{
}

} // verus!
