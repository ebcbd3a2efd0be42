//! Editing an agent's configuration.

use agent_frow::agents::{Agent, Flavor, Found, Host, Name};
use agent_frow::install::{
    command_for, copying, events, installed_events, installed_version, launch_decision,
    missing_events, plan_install, plan_remove, stale_events, Copying, Error, Launch,
};
use serde_json::Value;

const DIR: &str = "C:\\Users\\me\\AppData\\Local\\agent-frow";

fn agent_name() -> Name {
    let name = format!("{:?}", Agent::Claude);
    Name {
        word: name.to_lowercase(),
        title: format!("{name} Code"),
    }
}

fn wsl() -> Host {
    Host::Wsl {
        distro: "Ubuntu".to_owned(),
        user: "me".to_owned(),
    }
}

fn found(agent: Agent, host: Host) -> Found {
    Found {
        flavor: Flavor { agent, host },
        home: "C:\\Users\\me\\.agent".to_owned(),
        config: "C:\\Users\\me\\.agent\\hooks.json".to_owned(),
        evidence: Vec::new(),
    }
}

fn tree(text: &str) -> Value {
    serde_json::from_str(text).unwrap()
}

#[test]
fn the_command_is_one_the_agent_can_run() {
    let name = agent_name();
    let line = command_for(&found(Agent::Codex, Host::Windows).flavor, DIR, &name);
    assert_eq!(
        line,
        "C:/Users/me/AppData/Local/agent-frow/agent-frow-hook.exe --source codex-win"
    );
    let line = command_for(&found(Agent::Codex, wsl()).flavor, DIR, &name);
    assert_eq!(
        line,
        "/mnt/c/Users/me/AppData/Local/agent-frow/agent-frow-hook.exe --source codex-wsl"
    );
    let line = command_for(
        &found(Agent::Claude, Host::Windows).flavor,
        "C:\\Some One",
        &name,
    );
    assert_eq!(
        line,
        format!(
            "\"C:/Some One/agent-frow-hook.exe\" --source {}-win",
            name.word
        )
    );
}

#[test]
fn an_install_registers_every_event() {
    let name = agent_name();
    for agent in [Agent::Claude, Agent::Codex] {
        let plan = plan_install(&found(agent, Host::Windows), DIR, None, &name).unwrap();
        assert_eq!(plan.before, "{}");
        assert_eq!(plan.events_added, events(agent));
        assert!(plan.events_removed.is_empty());
        assert!(!plan.is_noop());
        assert!(plan.after.ends_with("}\n"));
        let mut registered = events(agent);
        registered.sort();
        assert_eq!(installed_events(Some(&plan.after)), registered);
        assert!(missing_events(agent, Some(&plan.after)).is_empty());
        assert!(stale_events(agent, Some(&plan.after)).is_empty());
    }
}

#[test]
fn an_entry_is_in_the_agents_own_words() {
    let name = agent_name();
    let plan = plan_install(&found(Agent::Codex, Host::Windows), DIR, None, &name).unwrap();
    let after = tree(&plan.after);
    let end = &after["hooks"]["SessionEnd"][0];
    assert!(end.get("matcher").is_none());
    let hook = &end["hooks"][0];
    assert_eq!(hook["type"], "command");
    assert_eq!(
        hook["command"].as_str().unwrap(),
        command_for(&found(Agent::Codex, Host::Windows).flavor, DIR, &name)
    );
    let asked = &after["hooks"]["PreToolUse"][0]["matcher"];
    assert!(asked.as_str().unwrap().contains("request_user_input"));
    let stop = &after["hooks"]["Stop"][0]["hooks"][0]["timeout"];
    assert_ne!(stop, &hook["timeout"], "the end of a session is not waited for as long");

    let plan = plan_install(&found(Agent::Claude, Host::Windows), DIR, None, &name).unwrap();
    let after = tree(&plan.after);
    assert_eq!(after["hooks"]["Stop"][0]["matcher"], "*");
}

#[test]
fn somebody_elses_hooks_stay() {
    let name = agent_name();
    let before = r#"{
      "model": "o4",
      "hooks": {
        "Stop": [{"hooks": [{"type": "command", "command": "notify"}]}],
        "PreCompact": [{"hooks": [{"type": "command", "command": "x/agent-frow-hook.exe"}]}]
      }
    }"#;
    let found = found(Agent::Codex, Host::Windows);
    assert_eq!(stale_events(Agent::Codex, Some(before)), ["PreCompact"]);
    assert_eq!(installed_events(Some(before)), ["PreCompact"]);
    let plan = plan_install(&found, DIR, Some(before), &name).unwrap();
    assert_eq!(plan.events_removed, ["PreCompact"]);
    let after = tree(&plan.after);
    assert_eq!(after["model"], "o4");
    assert_eq!(after["hooks"]["Stop"].as_array().unwrap().len(), 2);
    assert_eq!(after["hooks"]["Stop"][0]["hooks"][0]["command"], "notify");
    assert!(after["hooks"].get("PreCompact").is_none());

    let removed = plan_remove(&found, Some(&plan.after)).unwrap();
    assert!(removed.events_added.is_empty());
    assert_eq!(removed.events_removed.len(), events(Agent::Codex).len());
    let left = tree(&removed.after);
    assert_eq!(left["hooks"].as_object().unwrap().len(), 1);
    assert_eq!(left["hooks"]["Stop"].as_array().unwrap().len(), 1);
}

#[test]
fn removing_leaves_nothing_of_ours_behind() {
    let name = agent_name();
    let found = found(Agent::Claude, Host::Windows);
    let plan = plan_install(&found, DIR, Some("  "), &name).unwrap();
    let removed = plan_remove(&found, Some(&plan.after)).unwrap();
    assert_eq!(removed.after, "{}\n");
    let again = plan_install(&found, DIR, Some(&plan.after), &name).unwrap();
    assert_eq!(again.after, plan.after);
    assert!(again.is_noop());
}

#[test]
fn a_configuration_that_is_not_ours_to_read_is_left_alone() {
    let name = agent_name();
    let found = found(Agent::Codex, Host::Windows);
    let broken = plan_install(&found, DIR, Some("{"), &name).err().unwrap();
    assert!(matches!(broken, Error::Unparseable(_)));
    assert!(broken.describe().starts_with("the configuration is not valid JSON ("));
    assert!(broken.describe().ends_with(") — refusing to touch it"));
    let list = plan_remove(&found, Some("[]")).err();
    assert_eq!(list, Some(Error::NotAnObject));
    let hooks = plan_install(&found, DIR, Some("{\"hooks\": 3}"), &name).err();
    assert_eq!(hooks, Some(Error::NotAnObject));
    assert_eq!(
        Error::NotAnObject.describe(),
        "the configuration is not a JSON object"
    );
    assert_eq!(
        Error::Unreadable("locked".to_owned()).describe(),
        "could not read the configuration: locked"
    );
    assert_eq!(
        Error::Write("full".to_owned()).describe(),
        "could not write the configuration: full"
    );
    assert!(installed_events(Some("{")).is_empty());
    assert!(installed_events(None).is_empty());
    assert_eq!(missing_events(Agent::Codex, None), events(Agent::Codex));
}

#[test]
fn numbers_nobody_touches_keep_their_value() {
    let name = agent_name();
    let found = found(Agent::Codex, Host::Windows);
    let before = r#"{"a": 0.1, "b": -7, "c": 18446744073709551615, "d": [1e300, null, true]}"#;
    let plan = plan_install(&found, DIR, Some(before), &name).unwrap();
    let removed = plan_remove(&found, Some(&plan.after)).unwrap();
    assert_eq!(tree(&removed.after), tree(before));
}

#[test]
fn a_bare_launch_installs_only_what_is_not_there() {
    assert_eq!(launch_decision(true, false, None, "1.0"), Launch::Run);
    assert_eq!(launch_decision(false, true, Some("1.0"), "1.0"), Launch::Run);
    assert_eq!(
        launch_decision(false, true, Some("0.9"), "1.0"),
        Launch::Install
    );
    assert_eq!(launch_decision(false, true, None, "1.0"), Launch::Install);
    assert_eq!(
        launch_decision(false, false, Some("1.0"), "1.0"),
        Launch::Install
    );
    assert_eq!(installed_version(Some(" 1.0\n")).as_deref(), Some("1.0"));
    assert_eq!(installed_version(Some("  ")), None);
    assert_eq!(installed_version(None), None);
}

#[test]
fn a_copy_moves_the_old_one_out_of_the_way() {
    assert_eq!(copying(false, true, true, false), Copying::Skip);
    assert_eq!(copying(false, false, true, false), Copying::Refuse);
    assert_eq!(copying(true, false, true, true), Copying::Keep);
    assert_eq!(copying(true, false, true, false), Copying::Copy { aside: true });
    assert_eq!(copying(true, true, false, false), Copying::Copy { aside: false });
}

#[test]
fn an_event_that_holds_no_list_is_left_as_it_is() {
    let name = agent_name();
    let found = found(Agent::Codex, Host::Windows);
    let before = r#"{"hooks": {"Stop": "later", "Elsewhere": []}}"#;
    let plan = plan_install(&found, DIR, Some(before), &name).unwrap();
    let after = tree(&plan.after);
    assert_eq!(after["hooks"]["Stop"], "later");
    assert!(after["hooks"].get("Elsewhere").is_none());
    assert!(plan.events_removed.is_empty());
    let mut expected = events(Agent::Codex);
    expected.retain(|event| event != "Stop");
    assert_eq!(plan.events_added, expected);
}
