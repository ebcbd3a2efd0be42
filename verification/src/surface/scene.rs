//! When a frame is due, and what goes in it.
//!
//! Every lighting thread asks the same questions each tick: has anything
//! changed, is anything moving, what are the lanes showing right now — and
//! each is also the application's clock, sweeping stale sessions and retiring
//! an expired preview so lanes stay honest while the window is hidden in the
//! tray. That sequencing lives here once, so two surfaces cannot drift apart
//! on it. The surfaces themselves only connect, map key indices to LEDs, and
//! write.

use vstd::prelude::*;

use super::palette;
use crate::settings::{Settings, Setup};
use crate::state::State;
use crate::tracker::{Desk, Preview, Tracker, sitting};

verus! {

/// One frame's worth of input: what every lane is showing, under which
/// settings, at which moment of the animation.
pub struct Frame<'a> {
    pub states: &'a Vec<Option<State>>,
    pub settings: &'a Settings,
    /// Monotonic since the scene began — the animation's clock.
    pub elapsed_ms: u64,
}

/// The change detection behind a surface's loop. A motionless, unchanged board
/// gets no frame: the difference between a resting app and one that allocates
/// and writes a keyboard thirty times a second to say nothing.
pub struct Scene {
    /// What the keys were last told, so a still board is written once.
    last_states: Vec<Option<State>>,
    /// Kept so it is re-made only when the settings actually change — it
    /// carries every lane-name String.
    settings: Option<Settings>,
    dirty: bool,
}

/// A [`Scene`], as sequences.
pub ghost struct Picture {
    pub states: Seq<Option<State>>,
    pub settings: Option<Setup>,
    pub dirty: bool,
}

impl View for Scene {
    type V = Picture;

    closed spec fn view(&self) -> Picture {
        Picture {
            states: self.last_states@,
            settings: match self.settings {
                Some(settings) => Some(settings@),
                None => None,
            },
            dirty: self.dirty,
        }
    }
}

/// What the lane shows: the preview, while one plays, or its session.
pub open spec fn lane_shows(desk: Desk, lane: usize) -> Option<State> {
    match desk.preview {
        Some(preview) => Some(preview.state),
        None => match sitting(desk.sessions, lane) {
            Some(at) => Some(desk.sessions[at].shows()),
            None => None,
        },
    }
}

pub open spec fn lanes_show(desk: Desk) -> Seq<Option<State>> {
    Seq::new(desk.settings.lane_count as nat, |lane: int| lane_shows(desk, lane as usize))
}

/// A preview, unless it has expired.
pub open spec fn lasting(preview: Option<Preview>, now: u64) -> Option<Preview> {
    match preview {
        Some(preview) => if preview.expires_at <= now {
            None
        } else {
            Some(preview)
        },
        None => None,
    }
}

/// The tracker after the clock has run: swept, and without an expired
/// preview.
pub open spec fn clocked(desk: Desk, now: u64) -> Desk {
    Desk { preview: lasting(desk.preview, now), ..desk.swept(now) }
}

impl Picture {
    /// What a scene is before anything has been shown.
    pub open spec fn fresh() -> Picture {
        Picture { states: seq![], settings: None, dirty: true }
    }

    /// Whether this board has to be told anything to show `desk`.
    pub open spec fn due(self, desk: Desk) -> bool {
        self.dirty || self.settings != Some(desk.settings) || self.states != lanes_show(desk)
            || palette::in_motion(lanes_show(desk))
    }

    /// After `desk` has been shown, or found to be showing already.
    pub open spec fn showing(desk: Desk) -> Picture {
        Picture { states: lanes_show(desk), settings: Some(desk.settings), dirty: false }
    }
}

impl Default for Scene {
    fn default() -> (scene: Self)
        ensures
            scene@ == Picture::fresh(),
    {
        Self::new()
    }
}

impl Scene {
    pub fn new() -> (scene: Self)
        ensures
            scene@ == Picture::fresh(),
    {
        Scene { last_states: Vec::new(), settings: None, dirty: true }
    }

    /// Forces the next tick to produce a frame — for a keyboard that just
    /// (re)connected and knows nothing yet.
    pub fn invalidate(&mut self)
        ensures
            final(self)@ == (Picture { dirty: true, ..old(self)@ }),
    {
        self.dirty = true;
    }

    /// What the board is showing right now, without counting it as painted.
    ///
    /// For a surface that paints on its own terms — one whose keys carry an
    /// elapsed time, say, which changes while the lane's state does not — and
    /// so cannot take "nothing changed" from [`Self::tick`] as "nothing to
    /// do". `None` before the first tick, when there is nothing to show yet.
    pub fn current(&self, elapsed_ms: u64) -> (frame: Option<Frame<'_>>)
        ensures
            match self@.settings {
                Some(settings) => frame matches Some(frame) && frame.states@ == self@.states
                    && frame.settings@ == settings && frame.elapsed_ms == elapsed_ms,
                None => frame is None,
            },
    {
        match &self.settings {
            Some(settings) => Some(Frame { states: &self.last_states, settings, elapsed_ms }),
            None => None,
        }
    }

    /// Runs the clock and says whether a frame is due.
    ///
    /// Always sweeps and retires an expired preview, whether or not anything
    /// is connected — that is the clock's job. Returns `None` when the board
    /// is unchanged and nothing on it moves; otherwise the frame, and the
    /// scene counts it as painted.
    pub fn tick(&mut self, tracker: &mut Tracker, now: u64, elapsed_ms: u64) -> (frame: Option<
        Frame<'_>,
    >)
        ensures
            final(tracker)@ == clocked(old(tracker)@, now),
            final(self)@ == Picture::showing(clocked(old(tracker)@, now)),
            frame is Some == old(self)@.due(clocked(old(tracker)@, now)),
            frame matches Some(frame) ==> {
                &&& frame.states@ == lanes_show(clocked(old(tracker)@, now))
                &&& frame.settings@ == old(tracker)@.settings
                &&& frame.elapsed_ms == elapsed_ms
            },
    {
        let due: bool = self.advance(tracker, now);
        if due {
            self.current(elapsed_ms)
        } else {
            None
        }
    }

    /// The clock and the comparison of [`Self::tick`].
    fn advance(&mut self, tracker: &mut Tracker, now: u64) -> (due: bool)
        ensures
            final(tracker)@ == clocked(old(tracker)@, now),
            final(self)@ == Picture::showing(clocked(old(tracker)@, now)),
            due == old(self)@.due(clocked(old(tracker)@, now)),
    {
        let ghost was = self@;
        tracker.sweep(now);
        // A preview overrides every lane while it lasts, and this is what
        // retires it — the window may be closed, and a preview that
        // outlives anyone looking at it should still die.
        if let Some(preview) = tracker.preview {
            if preview.expires_at <= now {
                tracker.preview = None;
            }
        }
        let ghost desk = tracker@;
        assert(desk == clocked(old(tracker)@, now));
        let states = shown_by(tracker);
        let changed: bool = match &self.settings {
            Some(cached) => !cached.same(&tracker.settings),
            None => true,
        };
        if changed {
            self.settings = Some(tracker.settings.copy());
            self.dirty = true;
        }
        if !same_states(&states, &self.last_states) {
            self.last_states = states;
            self.dirty = true;
        }
        let due: bool = self.dirty || palette::animated(&self.last_states);
        self.dirty = false;
        assert(self@.states == lanes_show(desk));
        due
    }
}

/// What every lane of `tracker` shows.
fn shown_by(tracker: &Tracker) -> (states: Vec<Option<State>>)
    ensures
        states@ == lanes_show(tracker@),
{
    let lanes: usize = tracker.settings.lane_count;
    let mut states: Vec<Option<State>> = Vec::new();
    let mut lane: usize = 0;
    while lane < lanes
        invariant
            lane <= lanes == tracker.settings.lane_count,
            states@ =~= lanes_show(tracker@).take(lane as int),
        decreases lanes - lane,
    {
        let state: Option<State> = match tracker.preview {
            Some(preview) => Some(preview.state),
            None => match tracker.on_lane(lane) {
                Some(session) => Some(session.effective_state()),
                None => None,
            },
        };
        states.push(state);
        lane = lane + 1;
    }
    assert(states@ =~= lanes_show(tracker@));
    states
}

fn same_states(left: &Vec<Option<State>>, right: &Vec<Option<State>>) -> (r: bool)
    ensures
        r == (left@ == right@),
{
    if left.len() != right.len() {
        return false;
    }
    let mut i: usize = 0;
    while i < left.len()
        invariant
            i <= left@.len() == right@.len(),
            forall|j: int| 0 <= j < i ==> left@[j] == right@[j],
        decreases left@.len() - i,
    {
        let same: bool = match (left[i], right[i]) {
            (Some(a), Some(b)) => a == b,
            (None, None) => true,
            _ => false,
        };
        if !same {
            assert(left@[i as int] != right@[i as int]);
            return false;
        }
        i = i + 1;
    }
    assert(left@ =~= right@);
    true
}

/// **A still, unchanged board is painted once**: after a tick, a scene that
/// nothing has invalidated owes no frame for the same board unless something
/// on it moves.
pub proof fn a_still_board_is_painted_once(desk: Desk)
    ensures
        Picture::showing(desk).due(desk) == palette::in_motion(lanes_show(desk)),
{
}

/// **Motion is a frame every tick**, and so are an invalidated board, a change
/// of what a lane shows and a change of settings.
pub proof fn a_change_is_a_frame(view: Picture, desk: Desk)
    requires
        palette::in_motion(lanes_show(desk)) || view.dirty || view.states != lanes_show(desk)
            || view.settings != Some(desk.settings),
    ensures
        view.due(desk),
{
}

/// **An expired preview is retired by the clock**, and only an expired one.
pub proof fn only_an_expired_preview_is_retired(desk: Desk, now: u64)
    ensures
        clocked(desk, now).preview == desk.preview <==> !(desk.preview matches Some(preview)
            && preview.expires_at <= now),
{
}

/// **A lane shows whoever sits on it**: the state of the one session on that
/// lane, or nothing — and while a preview lasts, every lane shows the preview.
pub proof fn a_lane_shows_whoever_sits_there(desk: Desk, lane: usize, at: int)
    requires
        lane < desk.settings.lane_count,
    ensures
        desk.preview matches Some(preview) ==> lanes_show(desk)[lane as int] == Some(preview.state),
        desk.preview is None && (forall|i: int|
            0 <= i < desk.sessions.len() ==> (#[trigger] desk.sessions[i]).lane != Some(lane))
            ==> lanes_show(desk)[lane as int] is None,
        desk.preview is None && 0 <= at < desk.sessions.len() && desk.sessions[at].lane == Some(lane)
            && (forall|i: int|
            0 <= i < desk.sessions.len() && i != at ==> (#[trigger] desk.sessions[i]).lane != Some(
                lane,
            )) ==> lanes_show(desk)[lane as int] == Some(desk.sessions[at].shows()),
        lanes_show(desk).len() == desk.settings.lane_count,
{
    crate::tracker::found_on_its_lane(desk.sessions, lane);
}

/// **A preview lasts until its time**: up to it the preview is kept as it is,
/// and from it on there is none.
pub proof fn a_preview_lasts_until_its_time(desk: Desk, preview: Preview, now: u64)
    requires
        desk.preview == Some(preview),
    ensures
        now < preview.expires_at ==> clocked(desk, now).preview == Some(preview),
        preview.expires_at <= now ==> clocked(desk, now).preview is None,
        clocked(Desk { preview: None, ..desk }, now).preview is None,
{
}

} // verus!
