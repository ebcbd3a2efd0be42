//! The command line.

use agent_frow::agents::{Agent, Flavor, Found, Host, Name};
use agent_frow::commands::{
    afterwards, command_of, doctor, flag_value, report, selected, started, Checked, Command,
};
use agent_frow::install::{plan_install, plan_remove};
use agent_frow::table::Table;

fn agent_name() -> Name {
    let name = format!("{:?}", Agent::Claude);
    Name {
        word: name.to_lowercase(),
        title: format!("{name} Code"),
    }
}

fn words(list: &[&str]) -> Vec<String> {
    list.iter().map(|word| (*word).to_owned()).collect()
}

fn found(agent: Agent, evidence: &[&str]) -> Found {
    Found {
        flavor: Flavor {
            agent,
            host: Host::Windows,
        },
        home: "H".to_owned(),
        config: "H\\c.json".to_owned(),
        evidence: words(evidence),
    }
}

#[test]
fn the_first_word_is_the_command() {
    assert_eq!(command_of(&words(&[])), Command::Run);
    assert_eq!(command_of(&words(&["run"])), Command::Run);
    assert_eq!(command_of(&words(&["doctor", "x"])), Command::Doctor);
    assert_eq!(command_of(&words(&["install"])), Command::Install);
    assert_eq!(command_of(&words(&["remove"])), Command::Remove);
    assert_eq!(
        command_of(&words(&["-h"])),
        Command::Unknown("-h".to_owned())
    );
}

#[test]
fn a_flag_is_followed_by_its_value() {
    let flags = words(&["install", "--source", "codex-win", "--source", "x"]);
    assert_eq!(flag_value(&flags, "--source").as_deref(), Some("codex-win"));
    assert_eq!(flag_value(&flags, "--other"), None);
    assert_eq!(flag_value(&words(&["--source"]), "--source"), None);
}

#[test]
fn a_source_picks_its_flavor() {
    let name = agent_name();
    let both = || vec![found(Agent::Claude, &[]), found(Agent::Codex, &[])];
    assert_eq!(selected(both(), &words(&["install"]), &name).len(), 2);
    let one = selected(both(), &words(&["install", "--source", "codex-win"]), &name);
    assert_eq!(one.len(), 1);
    assert_eq!(one[0].flavor.agent, Agent::Codex);
}

#[test]
fn a_plan_is_told_before_it_is_written() {
    let name = agent_name();
    let codex = found(Agent::Codex, &[]);
    let plan = plan_install(&codex, "C:\\L", None, &name).unwrap();
    let lines = report(&codex, &plan, false, &name);
    assert_eq!(lines.len(), 3);
    assert!(lines[0].ends_with("  [codex-win]"), "{}", lines[0]);
    assert_eq!(lines[1], "  H\\c.json");
    assert!(lines[2].starts_with("  registering  SessionStart, UserPromptSubmit"));
    let dry = report(&codex, &plan, true, &name);
    assert_eq!(dry[3], "  --dry-run: not written. Proposed file:\n");
    assert_eq!(dry[4], "    {");
    assert_eq!(dry.len(), 4 + plan.after.lines().count());
    let removed = plan_remove(&codex, Some(&plan.after)).unwrap();
    assert!(report(&codex, &removed, false, &name)[2].starts_with("  removing     "));
    let nothing = plan_remove(&codex, Some("{}\n")).unwrap();
    assert_eq!(
        report(&codex, &nothing, false, &name)[2],
        "  already as it should be — nothing to write"
    );
}

#[test]
fn the_doctor_says_what_is_missing() {
    let name = agent_name();
    let lines = doctor("D", false, true, &Vec::new(), &Table::new(), 0, &name);
    assert_eq!(lines[0], "install directory  D");
    assert_eq!(
        lines[1],
        "  agent-frow-hook.exe  MISSING — run `agent-frow install`\n"
    );
    assert_eq!(lines[2], "start with Windows  yes\n");
    assert_eq!(lines[3], "no agents found");
    assert_eq!(
        lines[4],
        format!(
            "  looked for .{} and .codex in the Windows profile and in every WSL home",
            name.word
        )
    );

    let codex = found(Agent::Codex, &["sessions"]);
    let text = plan_install(&codex, "D", None, &name).unwrap().after;
    let checked = vec![Checked {
        found: codex,
        config_present: true,
        text: Some(text),
    }];
    let lines = doctor("D", true, false, &checked, &Table::new(), 0, &name);
    assert_eq!(lines[1], "  agent-frow-hook.exe  present\n");
    assert_eq!(lines[2], "start with Windows  no\n");
    assert_eq!(lines[3], "agents");
    assert!(lines[4].ends_with("   [codex-win]"), "{}", lines[4]);
    assert_eq!(lines[5], "    directory   H");
    assert_eq!(lines[6], "    config      H\\c.json");
    assert_eq!(lines[7], "    in use      yes (sessions)");
    assert_eq!(lines[8], "    hooks       9 registered");
    assert_eq!(lines[9], "    last event  never");
    assert_eq!(
        lines[10],
        "                registered but never seen — open Codex, run /hooks, and trust the entry"
    );
    let mut seen = Table::new();
    seen.insert("codex-win".to_owned(), 1_000);
    let lines = doctor("D", true, false, &checked, &seen, 6_000, &name);
    assert_eq!(lines.len(), 10, "and once it was seen, nothing more");

    let bare = vec![Checked {
        found: found(Agent::Codex, &[]),
        config_present: false,
        text: None,
    }];
    let lines = doctor("D", true, false, &bare, &Table::new(), 0, &name);
    assert_eq!(
        lines[6],
        "    config      H\\c.json  (not written yet — installing creates it)"
    );
    assert_eq!(
        lines[7],
        "    in use      no sign of use — this may be a leftover directory"
    );
    assert_eq!(lines[8], "    hooks       not registered");
    assert_eq!(lines.len(), 10);
}

#[test]
fn half_a_registration_is_named_as_such() {
    let name = agent_name();
    let text = r#"{"hooks": {
        "Stop": [{"hooks": [{"command": "agent-frow-hook"}]}],
        "Old": [{"hooks": [{"command": "agent-frow-hook"}]}]
    }}"#;
    let checked = vec![Checked {
        found: found(Agent::Codex, &[]),
        config_present: true,
        text: Some(text.to_owned()),
    }];
    let lines = doctor("D", true, false, &checked, &Table::new(), 0, &name);
    assert!(
        lines[8].starts_with("    hooks       2 registered, MISSING SessionStart, "),
        "{}",
        lines[8]
    );
    assert_eq!(
        lines[9],
        "    stale       Old — registered by an older build, install removes them"
    );
}

#[test]
fn codex_has_to_be_told_twice() {
    assert_eq!(
        afterwards(&vec![found(Agent::Claude, &[])]),
        ["\nRestart each agent so it reads its hooks."]
    );
    assert_eq!(afterwards(&vec![found(Agent::Codex, &[])]).len(), 2);
}

#[test]
fn a_settings_file_that_cannot_be_read_is_reported() {
    let name = agent_name();
    let plain = started(None, None, &name);
    assert!(plain.settings_error.is_none());
    assert!(plain.last_seen.is_empty());
    let broken = started(Some(Ok("{".to_owned())), Some("{\"codex-win\": 7}"), &name);
    assert!(broken.settings_error.is_some());
    assert!(broken.settings.same(&plain.settings));
    assert_eq!(broken.last_seen.get("codex-win"), Some(7));
    let locked = started(Some(Err("locked".to_owned())), None, &name);
    assert!(locked.settings_error.is_some());
}
