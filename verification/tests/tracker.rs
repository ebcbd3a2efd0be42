//! Who sits where, and in which state.

use agent_frow::agents::Agent;
use agent_frow::event::{Event, Kind, Parsed};
use agent_frow::gauges::Gauges;
use agent_frow::settings::{AgentFilter, SavedAgent, Settings};
use agent_frow::state::State;
use agent_frow::table::Table;
use agent_frow::tracker::{
    clock, elapsed, held, KeyboardStatus, Session, Tracker, ACTIVE_IDLE_MS, RESTING_IDLE_MS,
    SUBAGENT_IDLE_MS,
};

#[test]
fn driving_says_exactly_what_the_surface_said() {
    let status = KeyboardStatus::driving("Stream Deck", "Mk2: 15 keys".to_owned(), 15);
    assert!(status.connected);
    assert_eq!(status.driven, 15);
    assert_eq!(status.detail, "Mk2: 15 keys");
    let f_row = KeyboardStatus::connected("Keychron", "V3 Ultra", 12);
    assert_eq!(f_row.detail, "V3 Ultra", "a whole row is just the model");
    let partial = KeyboardStatus::connected("Keychron", "V0", 10);
    assert!(partial.detail.contains("only 10 of the 12"));
}

#[test]
fn elapsed_is_a_stopwatch() {
    assert_eq!(elapsed(0, 3_000), "3s");
    assert_eq!(elapsed(0, 80_000), "1m 20s");
    assert_eq!(elapsed(0, 7_500_000), "2h 5m");
    assert_eq!(
        elapsed(10, 0),
        "0s",
        "a clock behind the event is not negative"
    );
}

#[test]
fn held_is_a_count() {
    assert_eq!(held(0, 0), "0s");
    assert_eq!(held(0, 59_000), "59s");
    assert_eq!(held(0, 60_000), "1m");
    assert_eq!(held(0, 80_000), "1m", "no seconds past the first minute");
    assert_eq!(held(0, 3_599_000), "59m");
    assert_eq!(held(0, 3_600_000), "1h 0m");
    assert_eq!(held(0, 5_400_000), "1h 30m");
}

#[test]
fn the_clock_counts_in_waiting_and_ticks_everywhere_else() {
    assert_eq!(clock(State::Waiting, 0, 80_000), "1m");
    assert_eq!(clock(State::Running, 0, 80_000), "1m 20s");
    assert_eq!(clock(State::Done, 0, 80_000), "1m 20s");
}

fn tracker() -> Tracker {
    Tracker::new(Settings::default(), Table::new())
}

fn event(kind: Kind, session_id: &str, at: u64) -> Event {
    Event {
        at,
        source: "codex-win".to_owned(),
        kind,
        session_id: session_id.to_owned(),
        cwd: Some(format!("/home/j/{session_id}")),
        tool_name: None,
        start_source: None,
        notification: None,
        proposed_plan: false,
        agent: None,
        subagent: false,
        wt_session: None,
        ancestors: Vec::new(),
        gauges: None,
        error_type: None,
        sender: Some(Agent::Codex),
    }
}

fn accept(tracker: &mut Tracker, event: Event) {
    let at = event.at;
    tracker.accept(Parsed::Event(Box::new(event)), at);
}

fn state_of(tracker: &Tracker, lane: usize) -> Option<State> {
    tracker.on_lane(lane).map(Session::effective_state)
}

#[test]
fn a_turn_runs_waits_and_is_done() {
    let mut tracker = tracker();
    accept(&mut tracker, event(Kind::SessionStart, "a", 1));
    assert_eq!(state_of(&tracker, 0), Some(State::Connected));
    accept(&mut tracker, event(Kind::UserPromptSubmit, "a", 2));
    assert_eq!(state_of(&tracker, 0), Some(State::Running));
    accept(&mut tracker, event(Kind::PermissionRequest, "a", 3));
    assert_eq!(state_of(&tracker, 0), Some(State::Waiting));
    assert!(tracker.answerable(0));
    accept(&mut tracker, event(Kind::PostToolUse, "a", 4));
    assert_eq!(state_of(&tracker, 0), Some(State::Running));
    accept(&mut tracker, event(Kind::Stop, "a", 5));
    assert_eq!(state_of(&tracker, 0), Some(State::Done));
    assert_eq!(tracker.on_lane(0).unwrap().since, 5);
    accept(&mut tracker, event(Kind::SessionEnd, "a", 6));
    assert!(tracker.on_lane(0).is_none());
    assert_eq!(tracker.events, 6);
}

#[test]
fn newcomers_take_the_lowest_free_lane_and_move_nobody() {
    let mut tracker = tracker();
    for (at, id) in ["a", "b", "c", "d"].iter().enumerate() {
        accept(&mut tracker, event(Kind::SessionStart, id, 1 + at as u64));
    }
    assert_eq!(tracker.on_lane(0).unwrap().session_id, "a");
    assert_eq!(tracker.on_lane(1).unwrap().session_id, "b");
    assert_eq!(tracker.on_lane(2).unwrap().session_id, "c");
    let extra = tracker.overflow();
    assert_eq!(extra.len(), 1);
    assert_eq!(extra[0].session_id, "d");
    // A lane that comes free goes to whoever has waited longest.
    accept(&mut tracker, event(Kind::SessionEnd, "b", 9));
    assert_eq!(tracker.on_lane(1).unwrap().session_id, "d");
    assert_eq!(tracker.on_lane(0).unwrap().session_id, "a");
    assert!(tracker.overflow().is_empty());
}

#[test]
fn a_saved_agent_goes_back_to_its_lane() {
    let mut tracker = tracker();
    tracker.settings.saved.push(SavedAgent {
        agent: AgentFilter::Codex,
        folder: "/home/j/b".to_owned(),
        lane: 2,
    });
    accept(&mut tracker, event(Kind::SessionStart, "b", 1));
    assert_eq!(tracker.on_lane(2).unwrap().session_id, "b");
    assert!(tracker.running(&tracker.settings.saved[0]));
}

#[test]
fn silence_only_ever_idles() {
    let mut tracker = tracker();
    accept(&mut tracker, event(Kind::SessionStart, "a", 1));
    accept(&mut tracker, event(Kind::UserPromptSubmit, "b", 1));
    tracker.sweep(1 + RESTING_IDLE_MS);
    assert_eq!(state_of(&tracker, 0), Some(State::Idle), "resting");
    assert_eq!(state_of(&tracker, 1), Some(State::Running), "still at work");
    tracker.sweep(1 + ACTIVE_IDLE_MS);
    assert_eq!(state_of(&tracker, 1), Some(State::Idle));
    assert_eq!(tracker.sessions.len(), 2, "nobody is evicted");
}

#[test]
fn a_busy_subagent_keeps_the_lane_running_until_it_falls_silent() {
    let mut tracker = tracker();
    accept(&mut tracker, event(Kind::SessionStart, "a", 1));
    let mut sub = event(Kind::SubagentStart, "a", 2);
    sub.agent = Some("sub-1".to_owned());
    sub.subagent = true;
    accept(&mut tracker, sub);
    accept(&mut tracker, event(Kind::Stop, "a", 3));
    assert_eq!(state_of(&tracker, 0), Some(State::Running));
    tracker.sweep(2 + SUBAGENT_IDLE_MS);
    assert_eq!(state_of(&tracker, 0), Some(State::Done));
    tracker.sweep(3 + RESTING_IDLE_MS);
    assert_eq!(state_of(&tracker, 0), Some(State::Idle));
}

#[test]
fn a_status_line_is_numbers_and_nothing_else() {
    let mut tracker = tracker();
    accept(&mut tracker, event(Kind::SessionStart, "a", 1));
    let mut line = event(Kind::StatusLine, "a", 5);
    line.gauges = Some(Gauges {
        context_used: Some(40),
        five_hour: None,
        seven_day: None,
    });
    accept(&mut tracker, line);
    let session = tracker.on_lane(0).unwrap();
    assert_eq!(session.gauges.context_used, Some(40));
    assert_eq!(session.last_event, 1);
    assert_eq!(tracker.events, 1);
    // One for a session nobody holds introduces nobody.
    accept(&mut tracker, event(Kind::StatusLine, "z", 6));
    assert_eq!(tracker.sessions.len(), 1);
}

#[test]
fn a_failure_says_why_and_a_new_turn_forgets_it() {
    let mut tracker = tracker();
    accept(&mut tracker, event(Kind::UserPromptSubmit, "a", 1));
    let mut failed = event(Kind::StopFailure, "a", 2);
    failed.error_type = Some("rate_limit".to_owned());
    accept(&mut tracker, failed);
    assert_eq!(state_of(&tracker, 0), Some(State::Error));
    assert_eq!(
        tracker.on_lane(0).unwrap().failure.as_deref(),
        Some("rate limit")
    );
    accept(&mut tracker, event(Kind::UserPromptSubmit, "a", 3));
    assert_eq!(tracker.on_lane(0).unwrap().failure, None);
}

#[test]
fn what_we_do_not_register_is_counted_by_its_name() {
    let mut tracker = tracker();
    for _ in 0..2 {
        tracker.accept(
            Parsed::Unrecognised {
                source: "codex-win".to_owned(),
                name: "TeammateIdle".to_owned(),
            },
            7,
        );
    }
    assert_eq!(tracker.unrecognised_events.get("TeammateIdle"), Some(2));
    assert_eq!(tracker.last_seen.get("codex-win"), Some(7));
}

#[test]
fn two_moves_the_same_way_leave_everybody_where_they_were() {
    let mut tracker = tracker();
    accept(&mut tracker, event(Kind::SessionStart, "a", 1));
    accept(&mut tracker, event(Kind::SessionStart, "b", 2));
    let before = tracker.settings.copy();
    tracker.move_lane(0, 2);
    assert_eq!(tracker.on_lane(2).unwrap().session_id, "a");
    tracker.move_lane(0, 2);
    assert_eq!(tracker.on_lane(0).unwrap().session_id, "a");
    assert_eq!(tracker.on_lane(1).unwrap().session_id, "b");
    assert!(tracker.settings.same(&before));
}

#[test]
fn a_dismissal_frees_a_lane_and_a_promotion_takes_one() {
    let mut tracker = tracker();
    for (at, id) in ["a", "b", "c", "d"].iter().enumerate() {
        accept(&mut tracker, event(Kind::SessionStart, id, 1 + at as u64));
    }
    tracker.promote("codex-win", "d");
    assert_eq!(tracker.on_lane(2).unwrap().session_id, "d", "the bottom lane");
    assert_eq!(tracker.overflow()[0].session_id, "c");
    tracker.dismiss(0);
    assert_eq!(tracker.on_lane(0).unwrap().session_id, "c");
    tracker.dismiss_session("codex-win", "d");
    assert!(tracker.on_lane(2).is_none());
}

#[test]
fn a_summons_needs_somebody_to_bring_forward() {
    let mut tracker = tracker();
    assert_eq!(
        tracker.summon_target(0).err().as_deref(),
        Some("lane 1 is empty — nothing to focus")
    );
    accept(&mut tracker, event(Kind::SessionStart, "a", 1));
    // Nobody above it is known: the tab's name is all there is to go by.
    assert!(tracker.summon_target(0).unwrap().0.is_empty());
    let mut seen = event(Kind::UserPromptSubmit, "a", 2);
    seen.ancestors = vec![agent_frow::event::Ancestor {
        pid: 9,
        exe: None,
    }];
    accept(&mut tracker, seen);
    let (line, names) = tracker.summon_target(0).unwrap();
    assert_eq!(line.len(), 1);
    assert_eq!(names, vec!["a"]);
    assert_eq!(
        tracker.summon_session("codex-win", "nobody").err().as_deref(),
        Some("that session is gone — nothing to focus")
    );
}

#[test]
fn a_surface_has_one_row_in_the_window() {
    let mut tracker = tracker();
    assert!(!tracker.keyboard_connected());
    tracker.report_keyboard(KeyboardStatus::searching("Keychron"));
    tracker.report_keyboard(KeyboardStatus::off("Corsair"));
    tracker.report_keyboard(KeyboardStatus::connected("Keychron", "V3", 12));
    assert_eq!(tracker.keyboards.len(), 2);
    assert!(tracker.keyboard_connected());
    tracker.report_keyboard(KeyboardStatus::unavailable("Keychron", "gone".to_owned()));
    assert!(!tracker.keyboard_connected());
}

#[test]
fn fewer_lanes_put_the_last_ones_off_the_keyboard() {
    let mut tracker = tracker();
    tracker.set_lane_count(4);
    for (at, id) in ["a", "b", "c", "d"].iter().enumerate() {
        accept(&mut tracker, event(Kind::SessionStart, id, 1 + at as u64));
    }
    assert_eq!(tracker.on_lane(3).unwrap().session_id, "d");
    tracker.set_lane_count(3);
    assert!(tracker.on_lane(3).is_none());
    assert_eq!(tracker.overflow()[0].session_id, "d");
}

#[test]
fn the_knob_steps_through_the_numpads_lanes() {
    let mut tracker = tracker();
    tracker.select_delta(1);
    assert_eq!(tracker.selected, Some(0));
    tracker.select_delta(1);
    assert_eq!(tracker.selected, Some(1));
    tracker.select_delta(-1);
    tracker.select_delta(-1);
    assert_eq!(tracker.selected, Some(2), "it wraps");
    tracker.toggle_lock();
    assert!(tracker.locked);
    tracker.select(0);
    assert_eq!(tracker.selected, Some(0));
}

#[test]
fn a_subagent_never_names_the_project() {
    let mut tracker = tracker();
    let mut first = event(Kind::PostToolUse, "a", 1);
    first.subagent = true;
    first.agent = Some("helper".to_owned());
    first.cwd = Some("/home/j/a/frontend".to_owned());
    accept(&mut tracker, first);
    assert_eq!(tracker.on_lane(0).unwrap().cwd, None);
    accept(&mut tracker, event(Kind::UserPromptSubmit, "a", 2));
    assert_eq!(tracker.on_lane(0).unwrap().cwd.as_deref(), Some("/home/j/a"));
    let mut later = event(Kind::PostToolUse, "a", 3);
    later.cwd = Some("/home/j/a/docs".to_owned());
    accept(&mut tracker, later);
    assert_eq!(tracker.on_lane(0).unwrap().cwd.as_deref(), Some("/home/j/a"));
}

#[test]
fn trouble_is_not_hidden_by_a_busy_subagent() {
    let mut tracker = tracker();
    accept(&mut tracker, event(Kind::UserPromptSubmit, "a", 1));
    let mut helper = event(Kind::PostToolUse, "a", 2);
    helper.subagent = true;
    helper.agent = Some("helper".to_owned());
    accept(&mut tracker, helper);
    accept(&mut tracker, event(Kind::Stop, "a", 3));
    assert_eq!(state_of(&tracker, 0), Some(State::Running));
    accept(&mut tracker, event(Kind::StopFailure, "a", 4));
    assert_eq!(state_of(&tracker, 0), Some(State::Error));
}

#[test]
fn a_session_with_no_folder_yet_leaves_saved_lanes_alone() {
    let mut tracker = tracker();
    tracker.settings.saved.push(SavedAgent {
        agent: AgentFilter::Codex,
        folder: "/home/j/b".to_owned(),
        lane: 0,
    });
    let mut helper = event(Kind::PostToolUse, "a", 1);
    helper.subagent = true;
    accept(&mut tracker, helper);
    assert_eq!(tracker.on_lane(1).unwrap().session_id, "a");
    accept(&mut tracker, event(Kind::SessionStart, "c", 2));
    assert_eq!(tracker.on_lane(0).unwrap().session_id, "c", "a preference is no reservation");
    accept(&mut tracker, event(Kind::SessionStart, "b", 3));
    assert_eq!(tracker.on_lane(2).unwrap().session_id, "b");
}

#[test]
fn an_unknown_notification_is_counted_and_moves_nothing() {
    let mut tracker = tracker();
    accept(&mut tracker, event(Kind::UserPromptSubmit, "a", 1));
    let mut odd = event(Kind::Notification, "a", 2);
    odd.notification = Some("teammate_idle".to_owned());
    accept(&mut tracker, odd);
    assert_eq!(state_of(&tracker, 0), Some(State::Running));
    assert_eq!(tracker.on_lane(0).unwrap().since, 1);
    assert_eq!(tracker.unknown_notifications.get("teammate_idle"), Some(1));
}

#[test]
fn an_event_that_leaves_something_out_clears_nothing() {
    let mut tracker = tracker();
    let mut first = event(Kind::SessionStart, "a", 1);
    first.wt_session = Some("tab".to_owned());
    first.gauges = Some(Gauges {
        context_used: Some(12),
        five_hour: None,
        seven_day: None,
    });
    accept(&mut tracker, first);
    let mut next = event(Kind::UserPromptSubmit, "a", 2);
    next.cwd = None;
    accept(&mut tracker, next);
    let session = tracker.on_lane(0).unwrap();
    assert_eq!(session.wt_session.as_deref(), Some("tab"));
    assert_eq!(session.gauges.context_used, Some(12));
    assert_eq!(session.cwd.as_deref(), Some("/home/j/a"));
    assert_eq!(session.first_seen, 1);
}
