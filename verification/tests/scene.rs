//! When a frame is due.

use agent_frow::settings::{Settings, ONE};
use agent_frow::state::State;
use agent_frow::surface::scene::Scene;
use agent_frow::table::Table;
use agent_frow::tracker::{Preview, Session, Tracker};

fn tracker() -> Tracker {
    Tracker::new(Settings::default(), Table::new())
}

fn session(state: State, lane: usize) -> Session {
    Session {
        source: "codex-win".to_owned(),
        session_id: format!("s{lane}"),
        agent: None,
        cwd: None,
        state,
        since: 0,
        first_seen: 0,
        last_event: 0,
        events: 1,
        note: String::new(),
        subagents: Table::new(),
        lane: Some(lane),
        wt_session: None,
        ancestors: Vec::new(),
        gauges: Default::default(),
        failure: None,
    }
}

#[test]
fn a_still_unchanged_board_is_painted_once() {
    let mut tracker = tracker();
    let mut scene = Scene::new();
    assert!(scene.tick(&mut tracker, 0, 0).is_some(), "first frame");
    assert!(scene.tick(&mut tracker, 1, 1).is_none(), "nothing changed");
    scene.invalidate();
    assert!(
        scene.tick(&mut tracker, 2, 2).is_some(),
        "a reconnect repaints"
    );
}

#[test]
fn a_change_of_state_or_settings_is_a_frame() {
    let mut tracker = tracker();
    let mut scene = Scene::new();
    scene.tick(&mut tracker, 0, 0);
    tracker.sessions.push(session(State::Done, 1));
    let frame = scene.tick(&mut tracker, 1, 1).expect("a lane appeared");
    assert_eq!(frame.states[1], Some(State::Done));
    assert!(scene.tick(&mut tracker, 2, 2).is_none());
    tracker.settings.tuning.brightness = ONE / 2;
    let frame = scene.tick(&mut tracker, 3, 3).expect("settings changed");
    assert_eq!(frame.settings.tuning.brightness, ONE / 2);
}

#[test]
fn motion_is_a_frame_every_tick() {
    let mut tracker = tracker();
    tracker.sessions.push(session(State::Running, 0));
    let mut scene = Scene::new();
    for now in 0..5 {
        assert!(scene.tick(&mut tracker, now, now).is_some(), "tick {now}");
    }
}

#[test]
fn current_reports_the_board_without_counting_as_painted() {
    let mut tracker = tracker();
    let mut scene = Scene::new();
    assert!(scene.current(0).is_none(), "nothing before the first tick");
    scene.tick(&mut tracker, 0, 0);
    tracker.sessions.push(session(State::Waiting, 2));
    // The change is visible to the clock but a look is not a paint.
    assert!(scene.tick(&mut tracker, 1, 1).is_some());
    assert_eq!(scene.current(1).unwrap().states[2], Some(State::Waiting));
    scene.invalidate();
    assert_eq!(scene.current(1).unwrap().states[2], Some(State::Waiting));
    assert!(
        scene.tick(&mut tracker, 2, 2).is_some(),
        "current() left the frame due"
    );
}

#[test]
fn an_expired_preview_is_retired_by_the_clock() {
    let mut tracker = tracker();
    tracker.preview = Some(Preview {
        state: State::Error,
        expires_at: 100,
    });
    let mut scene = Scene::new();
    let frame = scene.tick(&mut tracker, 50, 0).expect("preview plays");
    assert!(frame.states.iter().all(|s| *s == Some(State::Error)));
    let frame = scene.tick(&mut tracker, 100, 1).expect("preview ended");
    assert!(frame.states.iter().all(Option::is_none));
    assert!(tracker.preview.is_none());
}
