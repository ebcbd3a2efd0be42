//! What a hook's record says.

use agent_frow::agents::{Agent, Name};
use agent_frow::event::{failure_word, Ancestor, Event, Kind, Parsed};
use agent_frow::json::{parse, Json};

fn agent_name() -> Name {
    let name = format!("{:?}", Agent::Claude);
    Name {
        word: name.to_lowercase(),
        title: format!("{name} Code"),
    }
}

/// A JSON text; `AGENT` stands for the agent's own word.
fn json(text: &str) -> Json {
    parse(&text.replace("AGENT", &agent_name().word)).unwrap()
}

fn event(text: &str, now: u64) -> Event {
    match Event::parse(&json(text), now, &agent_name()) {
        Parsed::Event(event) => *event,
        other => panic!("expected an event, got {other:?}"),
    }
}

#[test]
fn a_subagent_event_is_marked_as_one() {
    let parsed = event(
        r#"{
            "src": "AGENT-win",
            "hook_event_name": "PostToolUse",
            "session_id": "s1",
            "tool_name": "Bash",
            "agent_id": "sub-7"
        }"#,
        10,
    );
    assert!(parsed.subagent);
    assert_eq!(parsed.note(), "PostToolUse Bash");
    assert_eq!(parsed.sender, Some(Agent::Claude));
}

#[test]
fn a_question_about_to_be_asked_is_named_as_such() {
    let parsed = event(
        r#"{
            "src": "codex-wsl",
            "hook_event_name": "PreToolUse",
            "session_id": "s1",
            "tool_name": "request_user_input"
        }"#,
        10,
    );
    assert_eq!(parsed.kind, Kind::PreToolUse);
    assert!(!parsed.subagent);
    assert_eq!(parsed.note(), "PreToolUse request_user_input");
    assert_eq!(parsed.sender, Some(Agent::Codex));
}

#[test]
fn a_stop_that_proposes_a_plan_says_so() {
    let parsed = event(
        r#"{
            "src": "codex-wsl",
            "hook_event_name": "Stop",
            "session_id": "s1",
            "proposed_plan": true
        }"#,
        10,
    );
    assert!(parsed.proposed_plan);
    assert_eq!(parsed.note(), "Stop proposed plan");
    // Absent — the record every hook sent before the flag existed.
    let plain = event(
        r#"{ "src": "codex-wsl", "hook_event_name": "Stop", "session_id": "s1" }"#,
        10,
    );
    assert!(!plain.proposed_plan);
    assert_eq!(plain.note(), "Stop");
}

#[test]
fn ancestors_pair_with_their_names_by_index() {
    let own = format!("{}.exe", agent_name().word);
    let parsed = event(
        r#"{
            "src": "AGENT-win",
            "hook_event_name": "Stop",
            "session_id": "s1",
            "ancestors": [100, 200],
            "ancestor_names": ["AGENT.exe", "explorer.exe"]
        }"#,
        10,
    );
    assert_eq!(
        parsed.ancestors,
        vec![
            Ancestor {
                pid: 100,
                exe: Some(own)
            },
            Ancestor {
                pid: 200,
                exe: Some("explorer.exe".to_owned())
            },
        ]
    );
}

#[test]
fn an_old_hook_without_names_degrades_to_identity_unknown() {
    let parsed = event(
        r#"{
            "src": "AGENT-win",
            "hook_event_name": "Stop",
            "session_id": "s1",
            "ancestors": [100, 200]
        }"#,
        10,
    );
    assert_eq!(
        parsed.ancestors,
        vec![
            Ancestor {
                pid: 100,
                exe: None
            },
            Ancestor {
                pid: 200,
                exe: None
            },
        ]
    );
}

#[test]
fn a_malformed_names_array_never_poisons_the_pids() {
    // Shorter than the pids, with a non-string and an empty entry: each
    // index degrades alone.
    let parsed = event(
        r#"{
            "src": "AGENT-win",
            "hook_event_name": "Stop",
            "session_id": "s1",
            "ancestors": [100, 200, 300],
            "ancestor_names": [42, "  "]
        }"#,
        10,
    );
    assert_eq!(
        parsed.ancestors,
        vec![
            Ancestor {
                pid: 100,
                exe: None
            },
            Ancestor {
                pid: 200,
                exe: None
            },
            Ancestor {
                pid: 300,
                exe: None
            },
        ]
    );
}

#[test]
fn an_event_we_do_not_register_is_named_rather_than_dropped() {
    match Event::parse(
        &json(r#"{ "src": "codex-wsl", "hook_event_name": "TeammateIdle" }"#),
        10,
        &agent_name(),
    ) {
        Parsed::Unrecognised { source, name } => {
            assert_eq!(source, "codex-wsl");
            assert_eq!(name, "TeammateIdle");
        }
        other => panic!("expected unrecognised, got {other:?}"),
    }
}

#[test]
fn an_event_without_a_name_says_that() {
    match Event::parse(&json("{}"), 10, &agent_name()) {
        Parsed::Unrecognised { source, name } => {
            assert_eq!(source, "unknown");
            assert_eq!(name, "(no hook_event_name)");
        }
        other => panic!("expected unrecognised, got {other:?}"),
    }
}

#[test]
fn a_timestamp_from_the_future_does_not_win() {
    // Otherwise a lane reports how long it has been in a state as a number
    // that counts backwards.
    let parsed = event(
        r#"{ "src": "AGENT-win", "hook_event_name": "Stop", "t": 9999 }"#,
        500,
    );
    assert_eq!(parsed.at, 500);
    let past = event(
        r#"{ "src": "AGENT-win", "hook_event_name": "Stop", "t": 400 }"#,
        500,
    );
    assert_eq!(past.at, 400);
}

#[test]
fn every_kind_reads_back_from_its_own_name() {
    for name in [
        "SessionStart",
        "UserPromptSubmit",
        "PreToolUse",
        "PostToolUse",
        "PostToolUseFailure",
        "PermissionRequest",
        "PermissionDenied",
        "Notification",
        "SubagentStart",
        "SubagentStop",
        "Stop",
        "StopFailure",
        "SessionEnd",
        "StatusLine",
    ] {
        assert_eq!(Kind::parse(name).map(Kind::label), Some(name));
    }
    assert_eq!(Kind::parse("stop"), None);
}

#[test]
fn a_failure_is_said_in_a_word_or_two() {
    assert!(!failure_word(None).is_empty());
    assert_eq!(failure_word(Some("rate_limit")), "rate limit");
}
