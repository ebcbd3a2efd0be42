//! The window's settings, and the file they live in.

use agent_frow::agents::{Agent, Name};
use agent_frow::settings::{
    parse, to_json, AgentFilter, Gain, MiniWindow, Rgb, SavedAgent, Settings, Tuning,
    KEYBOARD_LANES, ONE,
};

fn agent_name() -> Name {
    let name = format!("{:?}", Agent::Claude);
    Name {
        word: name.to_lowercase(),
        title: format!("{name} Code"),
    }
}

fn read(text: &str) -> Result<Settings, String> {
    parse(text, &agent_name())
}

fn write(settings: &Settings) -> String {
    to_json(settings, &agent_name())
}

/// A single-precision number the way a tuning holds it.
fn share(n: f32) -> u32 {
    (f64::from(n) * f64::from(ONE)) as u32
}

fn gain(r: f32, g: f32, b: f32) -> Gain {
    Gain {
        r: share(r),
        g: share(g),
        b: share(b),
    }
}

/// A single-precision number the way a window's place holds it.
fn bits(n: f32) -> u64 {
    f64::from(n).to_bits()
}

#[test]
fn colour_gain_round_trips_and_clamps() {
    let mut settings = Settings::default();
    settings.tuning.color_gain = gain(0.8, 1.0, 0.6);
    let text = write(&settings);
    assert_eq!(
        read(&text).unwrap().tuning.color_gain,
        gain(0.8, 1.0, 0.6)
    );

    // Out of range clamps; a missing channel stays at unity.
    let parsed = read(r#"{"color_gain": {"r": 99.0, "b": -3}}"#).unwrap();
    assert_eq!(parsed.tuning.color_gain, gain(2.0, 1.0, 0.25));

    // A settings file from before the field existed is untouched.
    assert_eq!(
        read("{}").unwrap().tuning.color_gain,
        gain(1.0, 1.0, 1.0)
    );
}

#[test]
fn each_device_has_its_own_tuning_and_the_old_slider_is_the_fallback() {
    // A pre-device file: its one brightness is what every device gets.
    let old = read(r#"{"brightness": 0.5}"#).unwrap();
    assert_eq!(old.tuning("Keychron").brightness, share(0.5));
    assert_eq!(old.tuning("Stream Deck").brightness, share(0.5));

    let mut settings = old;
    let mut deck = settings.tuning("Stream Deck");
    deck.brightness = share(1.0);
    settings.tuning_mut("Stream Deck", deck);
    assert_eq!(settings.tuning("Stream Deck").brightness, share(1.0));
    assert_eq!(
        settings.tuning("Keychron").brightness,
        share(0.5),
        "one device's slider moves nothing else"
    );
    // The device's entry started from the shared tuning, gain included.
    assert_eq!(
        settings.tuning("Stream Deck").color_gain,
        gain(1.0, 1.0, 1.0)
    );

    let parsed = read(&write(&settings)).unwrap();
    assert_eq!(parsed.devices.pairs(), settings.devices.pairs());
    assert_eq!(parsed.tuning, settings.tuning);
    // A device entry missing a field fills it from the shared tuning.
    let partial =
        read(r#"{"color_gain": {"r": 0.5}, "devices": {"Corsair": {"brightness": 0.3}}}"#).unwrap();
    assert_eq!(partial.tuning("Corsair").color_gain, gain(0.5, 1.0, 1.0));
    assert_eq!(partial.tuning("Corsair").brightness, share(0.3));
}

#[test]
fn the_mini_window_is_remembered_whole_or_not_at_all() {
    let mut settings = Settings::default();
    settings.mini_window = Some(MiniWindow {
        x: bits(1900.0),
        y: bits(40.0),
        width: bits(440.0),
        row_height: bits(64.0),
    });
    assert_eq!(
        read(&write(&settings)).unwrap().mini_window,
        settings.mini_window
    );
    assert_eq!(read("{}").unwrap().mini_window, None);
    // Half a window is no window: it would open somewhere absurd.
    assert_eq!(
        read(r#"{"mini_window": {"x": 10, "y": 10}}"#)
            .unwrap()
            .mini_window,
        None
    );
}

#[test]
fn settings_survive_a_round_trip() {
    let mut settings = Settings::default();
    settings.set_lane_count(6);
    settings.lanes[1].name = "Backend".to_owned();
    settings.lanes[1].color = Rgb::new(1, 2, 3);
    settings.saved.push(SavedAgent {
        agent: AgentFilter::Codex,
        folder: r"C:\dev\thing".to_owned(),
        lane: 2,
    });
    settings.saved.push(SavedAgent {
        agent: AgentFilter::Any,
        folder: "/home/j/other".to_owned(),
        lane: 5,
    });
    settings.settings_open = true;
    settings.mini = true;
    settings.tuning.brightness = share(0.6);
    settings.devices.insert(
        "Stream Deck".to_owned(),
        Tuning {
            brightness: share(1.0),
            color_gain: gain(1.0, 0.9, 0.8),
        },
    );
    settings.disabled.insert("Corsair".to_owned(), ());
    settings.mini_window = Some(MiniWindow {
        x: bits(12.0),
        y: bits(34.0),
        width: bits(500.0),
        row_height: bits(70.0),
    });
    assert!(read(&write(&settings)).unwrap().same(&settings));
    assert!(settings.copy().same(&settings));
    assert!(!settings.same(&Settings::default()));
}

#[test]
fn a_legacy_bind_becomes_a_saved_agent_with_that_lane() {
    let settings = read(
        &r##"{
            "lane_count": 4,
            "lanes": [
                { "name": "", "color": "#50aaff", "bind": null },
                { "name": "", "color": "#fabe3c", "bind": null },
                { "name": "", "color": "#5ad282",
                  "bind": { "agent": "AGENT", "folder": "C:\\dev\\thing" } },
                { "name": "", "color": "#e16ec8", "bind": null }
            ]
        }"##
        .replace("AGENT", &agent_name().word),
    )
    .unwrap();
    assert_eq!(
        settings.saved,
        vec![SavedAgent {
            agent: AgentFilter::Claude,
            folder: r"C:\dev\thing".to_owned(),
            lane: 2,
        }]
    );
    // Written back in the new shape only.
    let text = write(&settings);
    assert!(!text.contains("\"bind\""));
    assert!(text.contains("\"saved\""));
    assert!(read(&text).unwrap().same(&settings));
}

#[test]
fn the_file_counts_lanes_from_one_and_drops_what_it_cannot_place() {
    let settings = read(
        r#"{ "saved": [
            { "agent": "any", "folder": "/a", "lane": 1 },
            { "agent": "any", "folder": "/b", "lane": 0 },
            { "agent": "any", "folder": "/c", "lane": 7 },
            { "agent": "any", "folder": "", "lane": 2 },
            { "agent": "any", "folder": "/A/", "lane": 3 }
        ] }"#,
    )
    .unwrap();
    // Lane 1 in the file is index 0; 0 and 7 are not lanes; an empty folder
    // is nothing; "/A/" is "/a" again and the first entry keeps its lane.
    assert_eq!(settings.saved.len(), 1);
    assert_eq!(settings.saved[0].folder, "/a");
    assert_eq!(settings.saved[0].lane, 0);
}

#[test]
fn a_file_that_does_not_parse_is_refused() {
    assert!(read("{ not json").is_err());
    assert!(read("[]").is_err());
}

#[test]
fn one_bad_field_does_not_cost_the_whole_file() {
    let settings =
        read(r#"{ "lane_count": 12, "lanes": [ { "name": "Kept", "color": "purple" } ] }"#)
            .unwrap();
    // Twelve lanes is past the six the file keeps room for, so it is not
    // a count.
    assert_eq!(settings.lane_count, Settings::default().lane_count);
    assert_eq!(settings.lanes[0].name, "Kept");
    assert_eq!(settings.lanes[0].color, Settings::default().lanes[0].color);
}

#[test]
fn the_lane_count_is_any_of_three_to_six() {
    let mut settings = Settings::default();
    assert_eq!(settings.lane_count, KEYBOARD_LANES, "the keyboard's three");
    settings.set_lane_count(5);
    assert_eq!(settings.lane_count, 5, "no longer has to divide twelve");
    settings.set_lane_count(2);
    assert_eq!(
        settings.lane_count, 5,
        "fewer than the keyboard has is refused"
    );
    settings.set_lane_count(7);
    assert_eq!(settings.lane_count, 5, "more than is kept for is refused");
    // A file from the days of the 4 × 3 and 6 × 2 layouts still means
    // what it meant: that many lanes.
    assert_eq!(read(r#"{ "lane_count": 4 }"#).unwrap().lane_count, 4);
    assert_eq!(read(r#"{ "lane_count": 6 }"#).unwrap().lane_count, 6);
}

#[test]
fn a_saved_agent_matches_the_same_folder_written_differently() {
    let saved = SavedAgent {
        agent: AgentFilter::Any,
        folder: r"C:\Dev\Thing\".to_owned(),
        lane: 0,
    };
    assert!(saved.matches(Agent::Codex, Some("c:/dev/thing")));
    assert!(!saved.matches(Agent::Codex, Some("c:/dev/other")));
    assert!(!saved.matches(Agent::Codex, None));

    let mut settings = Settings::default();
    settings.saved.push(saved);
    assert_eq!(
        settings.saved_matching(Some(Agent::Claude), Some("c:/dev/thing")),
        Some(0)
    );
    assert_eq!(settings.saved_matching(None, Some("c:/dev/thing")), None);
    assert!(settings.prefers(0));
    assert!(!settings.prefers(1));
}

#[test]
fn folders_are_told_apart_in_any_alphabet() {
    // Letters outside ASCII have a small form too.
    let saved = SavedAgent {
        agent: AgentFilter::Codex,
        folder: r"C:\ÄRGER".to_owned(),
        lane: 1,
    };
    assert!(saved.matches(Agent::Codex, Some("c:/ärger/")));
    assert!(!saved.matches(Agent::Claude, Some("c:/ärger/")), "not that agent");
}

#[test]
fn a_filter_says_whom_it_accepts() {
    let name = agent_name();
    assert_eq!(AgentFilter::all().len(), 3);
    for filter in AgentFilter::all() {
        assert_eq!(AgentFilter::parse(&filter.key(&name), &name), filter);
    }
    assert_eq!(AgentFilter::parse("whoever", &name), AgentFilter::Any);
    assert_eq!(AgentFilter::Any.label(&name), "any agent");
    assert_eq!(AgentFilter::Codex.label(&name), "Codex");
    assert_eq!(AgentFilter::Claude.label(&name), name.title);
}

#[test]
fn a_colour_reads_back_from_its_hex() {
    let rgb = Rgb::new(0x50, 0xAA, 0xFF);
    assert_eq!(rgb.to_hex(), "#50aaff");
    assert_eq!(Rgb::from_hex("#50aaff"), Some(rgb));
    assert_eq!(Rgb::from_hex("50aaff"), Some(rgb));
    assert_eq!(Rgb::from_hex("purple"), None);
}

#[test]
fn an_unticked_device_stays_unticked_in_the_file() {
    let mut settings = Settings::default();
    assert!(settings.device_enabled("Corsair"));
    settings.set_device_enabled("Corsair", false);
    let parsed = read(&write(&settings)).unwrap();
    assert!(!parsed.device_enabled("Corsair"));
    assert!(parsed.device_enabled("Keychron"));
    settings.set_device_enabled("Corsair", true);
    assert!(settings.device_enabled("Corsair"));
}

#[test]
fn a_lane_is_called_what_the_user_typed_or_after_its_project() {
    let mut settings = Settings::default();
    assert_eq!(settings.display_name(1, None), "Lane 2");
    assert_eq!(settings.display_name(1, Some("api")), "api");
    settings.lanes[1].name = "  Backend ".to_owned();
    assert!(settings.named(1));
    assert_eq!(settings.display_name(1, Some("api")), "Backend");
}

#[test]
fn a_number_is_written_so_that_it_is_read_back_as_itself() {
    for brightness in [0.05f32, 0.1, 0.3, 0.6, 0.8, 1.0] {
        let mut settings = Settings::default();
        settings.tuning.brightness = share(brightness);
        assert_eq!(
            read(&write(&settings)).unwrap().tuning.brightness,
            share(brightness)
        );
    }
}

#[test]
fn fewer_lanes_keep_the_names_of_the_rest() {
    let mut settings = Settings::default();
    settings.set_lane_count(6);
    settings.lanes[5].name = "release".to_owned();
    let colour = settings.lanes[5].color;
    settings.set_lane_count(3);
    assert_eq!(settings.lane_count, 3);
    settings.set_lane_count(6);
    assert_eq!(settings.lanes[5].name, "release");
    assert_eq!(settings.lanes[5].color, colour);
}
