//! The numbers beside a state.

use agent_frow::agents::Agent;
use agent_frow::gauges::{
    attach, candidates, codex_gauges, from_rollout, from_text, percent, rollout_of, Gauges,
};
use agent_frow::json::{parse, pretty, Json};

/// A real line from a real rollout, numbers included.
const REAL: &str = r#"{"timestamp":"2026-08-25T23:59:00.000Z","ordinal":17,"type":"event_msg","payload":{"type":"token_count","info":{"total_token_usage":{"input_tokens":27000000,"cached_input_tokens":11008,"cache_write_input_tokens":0,"output_tokens":239,"reasoning_output_tokens":87,"total_tokens":27299811},"last_token_usage":{"input_tokens":213000,"cached_input_tokens":11008,"cache_write_input_tokens":0,"output_tokens":239,"reasoning_output_tokens":87,"total_tokens":213922},"model_context_window":258400},"rate_limits":{"limit_id":"codex","limit_name":null,"primary":{"used_percent":5.0,"window_minutes":10080,"resets_at":1788295730},"secondary":null,"credits":{"has_credits":false,"unlimited":false,"balance":"0"},"plan_type":"prolite"}}}"#;

fn json(text: &str) -> Json {
    parse(text).unwrap()
}

#[test]
fn codex_context_follows_the_tui_formula() {
    let gauges = codex_gauges(REAL).unwrap();
    // (213922 − 12000) / (258400 − 12000) = 0.8195…
    assert_eq!(gauges.context_used, Some(82));
}

#[test]
fn codex_limits_are_told_apart_by_their_window() {
    let gauges = codex_gauges(REAL).unwrap();
    assert_eq!(gauges.seven_day, Some(5), "10080 minutes is the week");
    assert_eq!(
        gauges.five_hour, None,
        "and this plan has no five-hour window"
    );

    let both = REAL.replace(
        r#""secondary":null"#,
        r#""secondary":{"used_percent":41.6,"window_minutes":10080,"resets_at":1}"#,
    );
    let both = both.replace(
        r#""window_minutes":10080,"resets_at":1788295730"#,
        r#""window_minutes":300,"resets_at":1788295730"#,
    );
    let gauges = codex_gauges(&both).unwrap();
    assert_eq!(gauges.five_hour, Some(5));
    assert_eq!(gauges.seven_day, Some(42));
}

#[test]
fn a_line_without_usage_still_yields_limits() {
    let limits_only = r#"{
        "type": "event_msg",
        "payload": { "type": "token_count", "info": null,
            "rate_limits": { "primary": { "used_percent": 12, "window_minutes": 299 } } }
    }"#;
    let gauges = codex_gauges(limits_only).unwrap();
    assert_eq!(gauges.context_used, None);
    assert_eq!(gauges.five_hour, Some(12));
    assert!(codex_gauges(r#"{"type":"event_msg","payload":{"type":"turn_started"}}"#).is_none());
    assert!(codex_gauges("not json").is_none());
}

#[test]
fn the_last_complete_token_count_wins() {
    let older = REAL.replace(r#""total_tokens":213922"#, r#""total_tokens":100000"#);
    let truncated = &REAL[..REAL.len() / 2];
    let gauges = from_text(&format!(
        "{{\"type\":\"session_meta\"}}\n{older}\n{REAL}\n{truncated}"
    ))
    .unwrap();
    assert_eq!(
        gauges.context_used,
        Some(82),
        "the complete newer line, not the older or the cut one"
    );
}

#[test]
fn earlier_lines_fill_what_the_last_one_lacks() {
    let limits_only = r#"{"type":"event_msg","payload":{"type":"token_count","info":null,"rate_limits":{"primary":{"used_percent":7,"window_minutes":10080}}}}"#;
    let gauges = from_text(&format!("{REAL}\n{limits_only}\n")).unwrap();
    assert_eq!(gauges.seven_day, Some(7), "the newest limit");
    assert_eq!(
        gauges.context_used,
        Some(82),
        "the newest usage, one line back"
    );
    assert!(from_text("").is_none());
}

#[test]
fn a_wsl_transcript_is_reached_through_wsl_localhost() {
    let found = candidates(
        "codex-wsl",
        "/home/me/.codex/sessions/2026/08/25/rollout-x.jsonl",
        &vec!["Ubuntu".to_owned(), "Debian".to_owned()],
    );
    assert_eq!(
        found,
        [
            r"\\wsl.localhost\Ubuntu\home\me\.codex\sessions\2026\08\25\rollout-x.jsonl",
            r"\\wsl.localhost\Debian\home\me\.codex\sessions\2026\08\25\rollout-x.jsonl",
        ]
    );
}

#[test]
fn a_windows_transcript_is_used_as_is() {
    let found = candidates("codex-win", r"C:\Users\me\.codex\sessions\r.jsonl", &vec![]);
    assert_eq!(found, [r"C:\Users\me\.codex\sessions\r.jsonl"]);
}

#[test]
fn claude_transcripts_are_never_read() {
    let word = format!("{:?}", Agent::Claude).to_lowercase();
    assert!(candidates(
        &format!("{word}-wsl"),
        &format!("/home/me/.{word}/projects/x/t.jsonl"),
        &vec!["Ubuntu".to_owned()]
    )
    .is_empty());
    assert!(candidates(
        &format!("{word}-win"),
        &format!(r"C:\Users\me\.{word}\t.jsonl"),
        &vec![]
    )
    .is_empty());
}

#[test]
fn a_percentage_is_rounded_and_clamped() {
    assert_eq!(percent(&json("42.6")), Some(43));
    assert_eq!(percent(&json("140")), Some(100));
    assert_eq!(percent(&json("-3")), Some(0));
    assert_eq!(percent(&json("\"x\"")), None);
    assert_eq!(percent(&Json::Null), None);
}

#[test]
fn the_wire_shape_round_trips() {
    let gauges = Gauges {
        context_used: Some(42),
        five_hour: None,
        seven_day: Some(3),
    };
    let wire = gauges.to_json();
    assert_eq!(pretty(&wire), pretty(&json(r#"{"ctx": 42, "d7": 3}"#)));
    assert_eq!(Gauges::from_json(&wire), Some(gauges));
    assert_eq!(Gauges::from_json(&json("\"no\"")), None);
    let mut merged = Gauges {
        context_used: None,
        five_hour: Some(9),
        seven_day: None,
    };
    merged.merge(gauges);
    assert_eq!(
        merged,
        Gauges {
            context_used: Some(42),
            five_hour: Some(9),
            seven_day: Some(3)
        }
    );
}

#[test]
fn the_window_sentence_dashes_the_unknown() {
    let gauges = Gauges {
        context_used: Some(42),
        five_hour: None,
        seven_day: Some(3),
    };
    assert_eq!(gauges.sentence().as_deref(), Some("ctx 42% · 5h — · 7d 3%"));
    assert_eq!(Gauges::default().sentence(), None);
}

#[test]
fn only_a_codex_event_that_names_its_rollout_gains_numbers() {
    let named = json(r#"{"src":"codex-win","transcript_path":"C:\\r.jsonl"}"#);
    assert_eq!(
        rollout_of(&named),
        Some(("codex-win".to_owned(), "C:\\r.jsonl".to_owned()))
    );
    assert!(rollout_of(&json(r#"{"src":"other-win","transcript_path":"x"}"#)).is_none());
    assert!(rollout_of(&json(r#"{"src":"codex-win"}"#)).is_none());
    let found = Gauges {
        context_used: Some(1),
        five_hour: None,
        seven_day: None,
    };
    let with = attach(named, Some(found));
    assert_eq!(
        Gauges::from_json(with.get("gauges").unwrap()),
        Some(found)
    );
    let without = attach(json("{}"), None);
    assert!(without.get("gauges").is_none());
}

#[test]
fn newer_numbers_replace_only_what_they_know() {
    let mut known = Gauges {
        context_used: Some(40),
        five_hour: None,
        seven_day: Some(7),
    };
    known.merge(Gauges {
        context_used: Some(55),
        five_hour: None,
        seven_day: None,
    });
    assert_eq!(known.context_used, Some(55));
    assert_eq!(known.five_hour, None);
    assert_eq!(known.seven_day, Some(7));
}

#[test]
fn a_tail_cut_inside_a_letter_still_yields_its_numbers() {
    let mut bytes = vec![0x82, 0xac, b'\n'];
    bytes.extend_from_slice(REAL.as_bytes());
    assert_eq!(from_rollout(&bytes), codex_gauges(REAL));
    assert!(from_rollout(&bytes).is_some());
    assert_eq!(from_rollout(&vec![0xff]), None);
}
