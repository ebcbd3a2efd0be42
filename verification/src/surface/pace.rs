//! What a device's thread does next.
//!
//! Every thread that drives a device runs the same loop: leave it alone while
//! it is unticked, hand it back the moment it is, look for it again now and
//! then while it is not there, and paint it while it is. The decisions are
//! here; finding, painting and handing back are the thread's.

use vstd::prelude::*;

verus! {

/// How long a thread with nothing to drive waits before it looks again, in
/// milliseconds.
pub const REST_MS: u64 = 200;

/// What to do next.
#[derive(Debug, Clone, Copy, PartialEq, Eq, Structural)]
pub enum Turn {
    /// It was just unticked: hand it back if it is held, and say that it is
    /// off. Then rest.
    LetGo { held: bool },
    /// Nothing: it is unticked, or it is not time to look again.
    Rest,
    /// Look for it.
    Connect,
    /// Paint it.
    Paint,
}

/// Where a device's thread is.
#[derive(Debug, Clone, Copy, PartialEq, Eq, Structural)]
pub struct Pace {
    /// Whether it was ticked when last looked at.
    pub enabled: bool,
    /// Whether the device is held.
    pub live: bool,
    /// When to look for it next, in milliseconds.
    pub next_attempt: u64,
}

/// What comes next, and where that leaves the thread.
pub open spec fn taken(pace: Pace, wanted: bool, now: u64) -> (Turn, Pace) {
    // Ticked again, it is looked for at once.
    let due = if wanted && !pace.enabled {
        now
    } else {
        pace.next_attempt
    };
    let next = Pace { enabled: wanted, live: pace.live && wanted, next_attempt: due };
    let turn = if !wanted {
        if pace.enabled {
            Turn::LetGo { held: pace.live }
        } else {
            Turn::Rest
        }
    } else if pace.live {
        Turn::Paint
    } else if now < due {
        Turn::Rest
    } else {
        Turn::Connect
    };
    (turn, next)
}

impl Pace {
    /// A thread that has just started: ticked until somebody says otherwise,
    /// and looking at once.
    pub fn start(now: u64) -> (pace: Pace)
        ensures
            pace == (Pace { enabled: true, live: false, next_attempt: now }),
    {
        Pace { enabled: true, live: false, next_attempt: now }
    }

    /// What to do next, given whether the device is ticked.
    pub fn turn(&mut self, wanted: bool, now: u64) -> (turn: Turn)
        ensures
            (turn, *final(self)) == taken(*old(self), wanted, now),
    {
        let mut let_go = false;
        let held: bool = self.live;
        if wanted != self.enabled {
            self.enabled = wanted;
            if wanted {
                self.next_attempt = now;
            } else {
                let_go = true;
            }
        }
        if !wanted {
            self.live = false;
            return if let_go { Turn::LetGo { held } } else { Turn::Rest };
        }
        if self.live {
            Turn::Paint
        } else if now < self.next_attempt {
            Turn::Rest
        } else {
            Turn::Connect
        }
    }

    /// The device was found and taken.
    pub fn connected(&mut self)
        ensures
            *final(self) == (Pace { live: true, ..*old(self) }),
    {
        self.live = true;
    }

    /// The device was not found, or went away: look again after `retry_ms`.
    pub fn failed(&mut self, now: u64, retry_ms: u64)
        ensures
            *final(self) == (Pace {
                live: false,
                next_attempt: if now + retry_ms > u64::MAX {
                    u64::MAX
                } else {
                    (now + retry_ms) as u64
                },
                ..*old(self)
            }),
    {
        self.live = false;
        self.next_attempt = if retry_ms > u64::MAX - now { u64::MAX } else { now + retry_ms };
    }
}

/// **An unticked device is left alone**: while it is unticked it is neither
/// looked for nor painted, and it is held no longer; it is handed back exactly
/// once, and only if it was held.
pub proof fn an_unticked_device_is_left_alone(pace: Pace, now: u64, later: u64)
    ensures
        ({
            let (turn, next) = taken(pace, false, now);
            &&& turn != Turn::Connect && turn != Turn::Paint
            &&& !next.live
            &&& turn == (Turn::LetGo { held: true }) <==> pace.enabled && pace.live
            &&& taken(next, false, later).0 == Turn::Rest
        }),
{
}

/// **A device that is ticked is driven**: painted while it is held, and looked
/// for as soon as it may be when it is not — at once when it was just ticked.
pub proof fn a_ticked_device_is_driven(pace: Pace, now: u64)
    ensures
        taken(pace, true, now).0 == (if pace.live {
            Turn::Paint
        } else if pace.enabled && now < pace.next_attempt {
            Turn::Rest
        } else {
            Turn::Connect
        }),
{
}

} // verus!
