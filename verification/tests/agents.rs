//! Finding the agents, and what they are called.

use agent_frow::agents::{
    decode_utf16le, distro_names, homes_root, host_label, places, probe, Agent, Flavor, Host, Name,
    WslHome,
};

fn agent_name() -> Name {
    let name = format!("{:?}", Agent::Claude);
    Name {
        word: name.to_lowercase(),
        title: format!("{name} Code"),
    }
}

fn utf16le(text: &str) -> Vec<u8> {
    let mut bytes = Vec::new();
    for ch in text.encode_utf16() {
        bytes.extend_from_slice(&ch.to_le_bytes());
    }
    bytes
}

#[test]
fn utf16_output_decodes_to_distribution_names() {
    // What `wsl.exe -l -q` actually writes: UTF-16LE with CRLF endings.
    let bytes = utf16le("Ubuntu\r\nDebian\r\n");
    let names: Vec<String> = decode_utf16le(&bytes)
        .lines()
        .map(|line| line.trim().to_owned())
        .filter(|line| !line.is_empty())
        .collect();
    assert_eq!(names, vec!["Ubuntu", "Debian"]);
    assert_eq!(distro_names(&bytes), vec!["Ubuntu", "Debian"]);
}

#[test]
fn an_odd_byte_and_a_broken_pair_do_not_stop_the_decoding() {
    let mut bytes = utf16le("Ü");
    bytes.extend_from_slice(&0xD800u16.to_le_bytes());
    bytes.extend_from_slice(&utf16le("x"));
    bytes.push(7);
    assert_eq!(decode_utf16le(&bytes), "Ü\u{FFFD}x");
}

#[test]
fn source_names_cover_the_four_flavors() {
    let name = agent_name();
    let wsl = Host::Wsl {
        distro: "Ubuntu".into(),
        user: "jerome".into(),
    };
    let cases = [
        (Agent::Claude, Host::Windows, format!("{}-win", name.word)),
        (Agent::Codex, Host::Windows, "codex-win".to_owned()),
        (Agent::Claude, wsl.clone(), format!("{}-wsl", name.word)),
        (Agent::Codex, wsl, "codex-wsl".to_owned()),
    ];
    for (agent, host, expected) in cases {
        assert_eq!(Flavor { agent, host }.source(&name), expected);
    }
}

#[test]
fn a_source_leads_back_to_its_agent_and_its_host() {
    let name = agent_name();
    for agent in [Agent::Claude, Agent::Codex] {
        for host in [
            Host::Windows,
            Host::Wsl {
                distro: "Ubuntu".into(),
                user: "me".into(),
            },
        ] {
            let wsl = host != Host::Windows;
            let source = Flavor { agent, host }.source(&name);
            assert_eq!(Agent::from_source(&source, &name), Some(agent));
            assert_eq!(host_label(&source), if wsl { "WSL" } else { "Windows" });
        }
    }
    assert_eq!(Agent::from_source("gemini-win", &name), None);
    assert_eq!(host_label("codex-mac"), "unknown host");
}

#[test]
fn a_flavor_says_what_it_is_and_what_is_left_to_do() {
    let name = agent_name();
    let windows = Flavor {
        agent: Agent::Claude,
        host: Host::Windows,
    };
    assert_eq!(windows.describe(&name), format!("{} on Windows", name.title));
    assert_eq!(
        windows.trust_hint(),
        "Then restart the agent so it reads its hooks."
    );
    let wsl = Flavor {
        agent: Agent::Codex,
        host: Host::Wsl {
            distro: "Ubuntu".into(),
            user: "me".into(),
        },
    };
    assert_eq!(wsl.describe(&name), "Codex in WSL (Ubuntu, me)");
    assert_eq!(
        wsl.trust_hint(),
        "Then run /hooks inside Codex and trust the entry, or it never runs."
    );
}

#[test]
fn an_agent_is_found_where_its_directory_is() {
    let name = agent_name();
    assert!(probe(
        Agent::Codex,
        &name,
        Host::Windows,
        "C:\\Users\\me",
        '\\',
        false,
        &vec![true; 4]
    )
    .is_none());
    let found = probe(
        Agent::Codex,
        &name,
        Host::Windows,
        "C:\\Users\\me",
        '\\',
        true,
        &vec![true, false, true, false],
    )
    .unwrap();
    assert_eq!(found.home, "C:\\Users\\me\\.codex");
    assert_eq!(found.config, "C:\\Users\\me\\.codex\\hooks.json");
    assert_eq!(found.evidence, vec!["sessions", "memories"]);
    assert!(found.looks_used());
    let bare = probe(
        Agent::Claude,
        &name,
        Host::Windows,
        "/home/me",
        '/',
        true,
        &vec![false; 3],
    )
    .unwrap();
    assert_eq!(bare.config, format!("/home/me/.{}/settings.json", name.word));
    assert!(!bare.looks_used());
}

#[test]
fn every_place_is_both_agents_in_every_home() {
    let homes = vec![WslHome {
        distro: "Ubuntu".into(),
        user: "me".into(),
        home: format!("{}\\me", homes_root("Ubuntu")),
    }];
    let all = places(Some("C:\\Users\\me"), &homes);
    assert_eq!(all.len(), 4);
    assert_eq!(all[0], (Agent::Claude, Host::Windows, "C:\\Users\\me".into()));
    assert_eq!(all[1].0, Agent::Codex);
    assert_eq!(all[3].2, "\\\\wsl.localhost\\Ubuntu\\home\\me");
    assert_eq!(places(None, &homes).len(), 2);
}
