//! The V0 Ultra's nine keys.

use agent_frow::settings::{Rgb, Settings, Tuning, Gain, ONE};
use agent_frow::state::State;
use agent_frow::surface::keychron::hid::Found;
use agent_frow::surface::keychron_v0::foreground::{Verdicts, FOREGROUND_TTL_MS};
use agent_frow::surface::keychron_v0::surface::{
    asked, balance, compose, describe, driving_sentence, is_somebody_elses, not_taken, KEYS,
    TOP_KEYS,
};
use agent_frow::surface::palette;

fn settings(lane_count: usize) -> Settings {
    let mut settings = Settings::default();
    settings.set_lane_count(lane_count);
    settings
}

fn nowhere() -> Vec<bool> {
    vec![false; 6]
}

fn colors_of(frame: &[(usize, Rgb)]) -> Vec<Rgb> {
    let mut by_key = vec![palette::off(); KEYS];
    for (key, color) in frame {
        by_key[*key] = *color;
    }
    by_key
}

#[test]
fn every_frame_names_exactly_the_nine_keys_once() {
    let states = vec![
        Some(State::Running),
        None,
        Some(State::Waiting),
        None,
        None,
        None,
    ];
    let frame = compose(Some(0), false, &states, &settings(6), 123, &nowhere());
    let mut named: Vec<usize> = frame.iter().map(|(key, _)| *key).collect();
    named.sort_unstable();
    assert_eq!(named, (0..KEYS).collect::<Vec<usize>>());
}

#[test]
fn the_top_line_is_the_displayed_agents_classic_lane() {
    let states = vec![
        Some(State::Waiting),
        Some(State::Running),
        None,
        None,
        None,
        None,
    ];
    let settings = settings(6);
    let lane_color = settings.lanes[0].color;
    let frame = compose(Some(0), false, &states, &settings, 0, &nowhere());
    let expected = palette::lane_colors(Some(State::Waiting), lane_color, TOP_KEYS, 0);
    assert_eq!(&colors_of(&frame)[..TOP_KEYS], &expected[..]);
    // Nothing displayed: the top line goes dark, the column stays lit.
    let dark = compose(None, false, &states, &settings, 0, &nowhere());
    assert!(colors_of(&dark)[..TOP_KEYS]
        .iter()
        .all(|c| *c == palette::off()));
    assert_ne!(
        colors_of(&dark)[TOP_KEYS],
        palette::off(),
        "M1 still shows its agent"
    );
}

#[test]
fn the_m_column_is_one_agent_per_key_and_dark_past_the_shown_lanes() {
    let states = vec![
        Some(State::Connected),
        None,
        Some(State::Error),
        None,
        None,
        None,
    ];
    let settings = settings(3);
    let frame = compose(None, false, &states, &settings, 7, &nowhere());
    let keys = colors_of(&frame);
    assert_eq!(keys[TOP_KEYS], palette::base(settings.lanes[0].color));
    assert_eq!(keys[TOP_KEYS + 1], palette::off(), "an empty lane is dark");
    assert_eq!(keys[TOP_KEYS + 2], palette::dark_red());
    assert_eq!(
        keys[TOP_KEYS + 3],
        palette::off(),
        "past the three lanes shown"
    );
    assert_eq!(keys[TOP_KEYS + 4], palette::off());
}

#[test]
fn the_locked_selection_fades_toward_white_on_its_m_key_only() {
    let states = vec![
        Some(State::Running),
        Some(State::Running),
        None,
        None,
        None,
        None,
    ];
    let settings = settings(6);
    // Sample at the fade's peak so the locked key is unmistakably white.
    let elapsed = 1200;
    let unlocked = colors_of(&compose(
        Some(0),
        false,
        &states,
        &settings,
        elapsed,
        &nowhere(),
    ));
    let locked = colors_of(&compose(
        Some(0),
        true,
        &states,
        &settings,
        elapsed,
        &nowhere(),
    ));
    assert_eq!(
        locked[TOP_KEYS],
        palette::lock_blend(settings.lanes[0].color, elapsed)
    );
    assert_ne!(locked[TOP_KEYS], unlocked[TOP_KEYS], "the lock is visible");
    assert_eq!(
        locked[TOP_KEYS + 1],
        unlocked[TOP_KEYS + 1],
        "the neighbour is untouched"
    );
    assert_eq!(
        &locked[..TOP_KEYS],
        &unlocked[..TOP_KEYS],
        "the top line stays a faithful state render"
    );
    // A locked selection whose lane is empty has nothing to fade.
    let empty = vec![None, None, None, None, None, None];
    let idle = colors_of(&compose(
        Some(0),
        true,
        &empty,
        &settings,
        elapsed,
        &nowhere(),
    ));
    assert_eq!(idle[TOP_KEYS], palette::off());
}

#[test]
fn a_waiting_agents_m_key_asks_about_its_terminal_and_only_then() {
    let states = vec![
        Some(State::Waiting),
        Some(State::Running),
        None,
        None,
        None,
        None,
    ];
    let settings = settings(6);
    assert_eq!(
        asked(None, false, &states, &settings),
        vec![0],
        "only the Waiting lane asks"
    );
    let frame = compose(None, false, &states, &settings, 300, &vec![true; 6]);
    // Foreground: steady full — the top line does the pulsing.
    assert_eq!(colors_of(&frame)[TOP_KEYS], settings.lanes[0].color);
    // Not foreground: the double pulse, which at this instant is not full.
    let away = compose(None, false, &states, &settings, 300, &nowhere());
    assert_ne!(colors_of(&away)[TOP_KEYS], settings.lanes[0].color);
    // What is said of a lane that does not ask changes nothing.
    let only_first = compose(
        None,
        false,
        &states,
        &settings,
        300,
        &vec![true, false, false, false, false, false],
    );
    assert_eq!(frame, only_first);
    assert!(
        asked(Some(0), true, &states, &settings).is_empty(),
        "a pinned lane is fading, wherever its terminal is"
    );
}

#[test]
fn a_frame_takes_the_devices_own_balance() {
    let frame = vec![(3, Rgb::new(100, 100, 100))];
    let tuning = Tuning {
        brightness: ONE,
        color_gain: Gain {
            r: ONE / 2,
            g: ONE,
            b: ONE + ONE,
        },
    };
    assert_eq!(balance(&frame, tuning), vec![(3, Rgb::new(50, 100, 200))]);
}

#[test]
fn a_verdict_is_trusted_for_a_moment() {
    let mut verdicts = Verdicts::new();
    assert_eq!(verdicts.known("codex-win", "a", 0), None);
    verdicts.learn("codex-win", "a", true, 1000);
    verdicts.learn("codex-win", "b", false, 1000);
    assert_eq!(verdicts.known("codex-win", "a", 1000), Some(true));
    assert_eq!(verdicts.known("codex-win", "b", 1000), Some(false));
    assert_eq!(
        verdicts.known("codex-win", "a", 999 + FOREGROUND_TTL_MS),
        Some(true)
    );
    assert_eq!(
        verdicts.known("codex-win", "a", 1000 + FOREGROUND_TTL_MS),
        None
    );
    verdicts.learn("codex-win", "a", false, 5000);
    assert_eq!(verdicts.known("codex-win", "a", 5000), Some(false));
    assert_eq!(verdicts.known("codex-wsl", "a", 5000), None);
    assert_eq!(verdicts.list.len(), 2, "one to a session");
}

#[test]
fn what_is_said_of_a_numpad() {
    assert_eq!(
        driving_sentence("V0 Ultra over USB"),
        "V0 Ultra over USB: the four shape keys and M1–M5"
    );
    assert_eq!(not_taken(false), "not detected");
    assert_eq!(not_taken(true), "not responding — retrying");
    assert!(is_somebody_elses("it has 87 LEDs: a different Keychron"));
    assert!(!is_somebody_elses("no answer"));
    let found = Found {
        path: "p".to_owned(),
        product: "Keychron V0 Ultra".to_owned(),
        product_id: 0x0B0F,
    };
    assert_eq!(
        describe(&found, "1.2", &vec![0, 1, 25]),
        "Keychron V0 Ultra over USB (pid 0B0F): firmware 1.2, the nine at [0, 1, 25]"
    );
}
