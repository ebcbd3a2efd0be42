//! What an event does to a session's state, and what it starts one in.

use agent_frow::event::{Event, Kind};
use agent_frow::state::{adopt, classify, step, Note, State, Step};

fn event(kind: Kind) -> Event {
    Event {
        at: 1,
        source: "codex-win".to_owned(),
        kind,
        session_id: "a".to_owned(),
        cwd: None,
        tool_name: None,
        start_source: None,
        notification: None,
        proposed_plan: false,
        agent: None,
        subagent: false,
        wt_session: None,
        ancestors: Vec::new(),
        gauges: None,
        error_type: None,
        sender: None,
    }
}

fn notification(named: &str) -> Event {
    let mut event = event(Kind::Notification);
    event.notification = Some(named.to_owned());
    event
}

fn compaction() -> Event {
    let mut event = event(Kind::SessionStart);
    event.start_source = Some("compact".to_owned());
    event
}

#[test]
fn a_compaction_does_not_end_the_turn() {
    for state in State::all() {
        assert_eq!(step(state, &compaction()), Step::Stay);
        assert_eq!(step(state, &event(Kind::SessionStart)), Step::Become(State::Connected));
    }
    let mut resumed = compaction();
    resumed.start_source = Some("resume".to_owned());
    assert_eq!(step(State::Running, &resumed), Step::Become(State::Connected));
    assert_eq!(adopt(&compaction()), Some(State::Running));
}

#[test]
fn a_subagent_moves_nothing() {
    for kind in [Kind::PostToolUse, Kind::PermissionRequest, Kind::Stop, Kind::SessionEnd] {
        let mut event = event(kind);
        event.subagent = true;
        for state in State::all() {
            assert_eq!(step(state, &event), Step::Stay);
        }
        assert_eq!(adopt(&event), Some(State::Connected));
    }
}

#[test]
fn activity_clears_waiting_alone() {
    for kind in [Kind::PostToolUse, Kind::PostToolUseFailure, Kind::PermissionDenied] {
        for state in State::all() {
            let expected = if state == State::Waiting {
                Step::Become(State::Running)
            } else {
                Step::Stay
            };
            assert_eq!(step(state, &event(kind)), expected);
        }
        assert_eq!(adopt(&event(kind)), Some(State::Running));
    }
}

#[test]
fn an_idle_prompt_interrupts_a_running_turn_alone() {
    for state in State::all() {
        let expected = if state == State::Running {
            Step::Become(State::Interrupted)
        } else {
            Step::Stay
        };
        assert_eq!(step(state, &notification("idle_prompt")), expected);
        assert_eq!(
            step(state, &notification("elicitation_dialog")),
            Step::Become(State::Waiting)
        );
        assert_eq!(step(state, &notification("agent_completed")), Step::Stay);
        assert_eq!(step(state, &notification("something_new")), Step::Stay);
        assert_eq!(step(state, &event(Kind::Notification)), Step::Stay);
    }
    assert_eq!(adopt(&notification("idle_prompt")), Some(State::Connected));
    assert_eq!(adopt(&notification("permission_prompt")), Some(State::Waiting));
}

#[test]
fn an_end_is_an_end() {
    assert_eq!(step(State::Running, &event(Kind::Stop)), Step::Become(State::Done));
    assert_eq!(step(State::Running, &event(Kind::StopFailure)), Step::Become(State::Error));
    assert_eq!(step(State::Running, &event(Kind::SessionEnd)), Step::Release);
    assert_eq!(adopt(&event(Kind::Stop)), Some(State::Done));
    assert_eq!(adopt(&event(Kind::StopFailure)), Some(State::Error));
    assert_eq!(adopt(&event(Kind::SessionEnd)), None);
}

#[test]
fn only_a_notification_on_the_list_is_acted_on() {
    assert_eq!(classify("permission_prompt"), Note::NeedsUser);
    assert_eq!(classify("agent_needs_input"), Note::NeedsUser);
    assert_eq!(classify("elicitation_url_dialog"), Note::NeedsUser);
    assert_eq!(classify("idle_prompt"), Note::Idle);
    assert_eq!(classify("auth_success"), Note::Ignored);
    assert_eq!(classify("elicitation_response"), Note::Ignored);
    assert_eq!(classify("Idle_prompt"), Note::Unknown);
    assert_eq!(classify(""), Note::Unknown);
}

#[test]
fn each_state_has_its_tint() {
    assert_eq!(State::Waiting.tint(), [250, 190, 60]);
    assert_eq!(State::Connected.tint(), State::Idle.tint());
    let busy: Vec<State> = State::all().into_iter().filter(|state| state.is_active()).collect();
    assert_eq!(busy, [State::Running, State::Waiting]);
}
