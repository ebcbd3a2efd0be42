//! What the keys look like, on every keyboard.

use agent_frow::settings::{Gain, Rgb, Settings, Tuning, KEYS, ONE};
use agent_frow::state::State;
use agent_frow::surface::corsair;
use agent_frow::surface::palette::{
    animated, base, bright_red, dark_red, frame, lane_colors, lock_blend, m_key, off, tune,
    BREATHE_PERIOD_MS, DONE_PERIOD_MS, LOCK_PERIOD_MS, PULSE_PERIOD_MS, SCANNER_PERIOD_MS,
};

fn settings(lane_count: usize) -> Settings {
    let mut settings = Settings::default();
    settings.set_lane_count(lane_count);
    settings.tuning.brightness = ONE;
    settings
}

fn share(n: f32) -> u32 {
    (f64::from(n) * f64::from(ONE)) as u32
}

fn tuning(brightness: f32, r: f32, g: f32, b: f32) -> Tuning {
    Tuning {
        brightness: share(brightness),
        color_gain: Gain {
            r: share(r),
            g: share(g),
            b: share(b),
        },
    }
}

fn full() -> Tuning {
    tuning(1.0, 1.0, 1.0, 1.0)
}

fn lane() -> Rgb {
    Rgb::new(80, 170, 255)
}

#[test]
fn only_running_and_waiting_animate() {
    assert!(animated(&vec![None, Some(State::Idle), Some(State::Running)]));
    assert!(animated(&vec![Some(State::Waiting)]));
    for still in [State::Connected, State::Done, State::Error, State::Idle] {
        assert!(!animated(&vec![Some(still), None]), "{still:?}");
    }
    assert!(!animated(&vec![]));
}

#[test]
fn colour_gain_corrects_each_channel_and_clamps() {
    let corrected = |color: Rgb, gain: [f32; 3]| tune(color, tuning(1.0, gain[0], gain[1], gain[2]));
    let gain = [0.5, 1.0, 2.0];
    assert_eq!(
        corrected(Rgb::new(100, 100, 100), gain),
        Rgb::new(50, 100, 200)
    );
    assert_eq!(
        corrected(Rgb::new(200, 0, 200), gain),
        Rgb::new(100, 0, 255),
        "clamps at full rather than wrapping"
    );
    assert_eq!(
        corrected(Rgb::new(80, 170, 255), [1.0, 1.0, 1.0]),
        Rgb::new(80, 170, 255),
        "unity gain is identity"
    );
    assert_eq!(
        corrected(off(), [2.0, 2.0, 2.0]),
        off(),
        "black stays black under any gain"
    );
}

#[test]
fn idle_is_one_dim_key_and_darkness() {
    let colors = lane_colors(Some(State::Idle), lane(), 4, 0);
    assert_eq!(colors[0], base(lane()), "leftmost holds the seat");
    for color in &colors[1..] {
        assert_eq!(*color, off(), "the rest go dark");
    }
}

#[test]
fn palette_a_frame_never_names_a_key_that_is_not_ours() {
    // The constraint the whole surface exists under: write the twelve and
    // leave the rest of the keyboard to whoever set it up.
    let available: Vec<usize> = (0..200).collect();
    for lanes in [3, 4, 5, 6] {
        let states = vec![Some(State::Running); lanes];
        let frame = frame(&states, &settings(lanes), full(), 0, &available);
        assert_eq!(frame.len(), KEYS, "{lanes} lanes");
        for (key, _) in frame {
            assert!(key < KEYS, "key {key} is not one of ours");
        }
    }
    let reported: Vec<u32> = (0..200).collect();
    for lanes in [3, 4, 6] {
        let states = vec![Some(State::Running); lanes];
        let frame = corsair::palette::frame(&states, &settings(lanes), 0, &reported);
        assert_eq!(frame.len(), KEYS, "{lanes} lanes");
        for (id, _) in frame {
            assert!(
                (corsair::surface::F_ROW_FIRST_LUID
                    ..corsair::surface::F_ROW_FIRST_LUID + KEYS as u32)
                    .contains(&id),
                "{id} is not one of ours"
            );
        }
    }
}

#[test]
fn lanes_past_the_keyboard_have_no_keys() {
    // Six lanes, and only the three past the keyboard have anything on
    // them: the twelve keys stay dark, and nothing is named past them.
    let available: Vec<usize> = (0..200).collect();
    let states = vec![
        None,
        None,
        None,
        Some(State::Waiting),
        Some(State::Error),
        Some(State::Running),
    ];
    let frame = frame(&states, &settings(6), full(), 0, &available);
    assert_eq!(frame.len(), KEYS);
    for (key, color) in frame {
        assert!(key < KEYS, "key {key} is not one of ours");
        assert_eq!(color, off(), "key {key} lit by a lane that has no keys");
    }
}

#[test]
fn a_keyboard_missing_those_keys_is_never_handed_them() {
    let available = vec![0, 1, 2];
    let frame = frame(
        &vec![Some(State::Running); 4],
        &settings(4),
        full(),
        0,
        &available,
    );
    assert_eq!(frame.len(), 3);
}

#[test]
fn a_keyboard_missing_those_leds_is_never_handed_them() {
    let available = vec![2, 3, 4];
    let frame =
        corsair::palette::frame(&vec![Some(State::Running); 4], &settings(4), 0, &available);
    assert_eq!(frame.len(), 3);
}

#[test]
fn palette_an_empty_lane_is_dark() {
    assert!(lane_colors(None, lane(), 4, 500).iter().all(|c| *c == off()));
}

#[test]
fn an_empty_lane_is_dark() {
    assert!(corsair::palette::lane_colors(None, lane(), 4, 500)
        .iter()
        .all(|c| *c == off()));
}

#[test]
fn palette_connected_is_the_whole_lane_resting_in_its_own_colour() {
    let colors = lane_colors(Some(State::Connected), lane(), 4, 987);
    assert!(colors.iter().all(|c| *c == base(lane())), "{colors:?}");
    // A fifth of the colour, rounded.
    assert_eq!(colors[0], Rgb::new(16, 34, 51));
}

#[test]
fn palette_reporting_states_mark_the_leftmost_key_at_full_and_quiet_states_do_not() {
    for state in [
        State::Waiting,
        State::Done,
        State::Error,
        State::Interrupted,
    ] {
        let colors = lane_colors(Some(state), lane(), 4, 0);
        assert_eq!(colors[0], lane(), "{state:?} leftmost");
    }
    // Connected and Running have nothing to report, so no marker: at t=0
    // Running's light is at slot 0 itself, so sample it with the light in
    // the off-lane slot — exactly four-fifths through, position 4.0 of 5,
    // a whole slot from key 3 ahead and from key 0 behind.
    let connected = lane_colors(Some(State::Connected), lane(), 4, 0);
    assert_ne!(connected[0], lane());
    let gap = SCANNER_PERIOD_MS * 4 / 5;
    let running = lane_colors(Some(State::Running), lane(), 4, gap);
    assert_eq!(running[0], base(lane()));
}

#[test]
fn error_is_dark_red_whatever_the_lane_colour() {
    for lane_color in [lane(), Rgb::new(250, 190, 60), Rgb::new(90, 210, 130)] {
        let error = lane_colors(Some(State::Error), lane_color, 4, 333);
        assert!(error[1..].iter().all(|c| *c == dark_red()), "{error:?}");
        // And steady: trouble does not need to move to be seen.
        assert_eq!(error, lane_colors(Some(State::Error), lane_color, 4, 999));
    }
}

#[test]
fn error_is_dark_red_and_interrupted_is_bright_red_whatever_the_lane_colour() {
    for lane_color in [lane(), Rgb::new(250, 190, 60), Rgb::new(90, 210, 130)] {
        let error = corsair::palette::lane_colors(Some(State::Error), lane_color, 4, 333);
        assert!(error[1..].iter().all(|c| *c == dark_red()), "{error:?}");
        let interrupted =
            corsair::palette::lane_colors(Some(State::Interrupted), lane_color, 4, 333);
        assert!(
            interrupted[1..].iter().all(|c| *c == bright_red()),
            "{interrupted:?}"
        );
        // And both are steady: trouble does not need to move to be seen.
        assert_eq!(
            error,
            corsair::palette::lane_colors(Some(State::Error), lane_color, 4, 999)
        );
    }
    assert_eq!(dark_red(), Rgb::new(110, 0, 0));
    assert_eq!(bright_red(), Rgb::new(255, 40, 40));
}

#[test]
fn palette_running_keeps_the_whole_lane_glowing_under_one_travelling_light() {
    let floor = base(lane());
    let mut bright_counts = Vec::new();
    for elapsed in (0..SCANNER_PERIOD_MS).step_by(50) {
        let colors = lane_colors(Some(State::Running), lane(), 4, elapsed);
        // Never below the resting glow anywhere.
        for c in &colors {
            assert!(
                c.r >= floor.r && c.g >= floor.g && c.b >= floor.b,
                "{colors:?}"
            );
        }
        // The light is a narrow window, not a wash: at most two adjacent
        // keys sit meaningfully above the floor at any instant.
        let bright = colors
            .iter()
            .filter(|c| c.r > floor.r + 20 || c.g > floor.g + 20 || c.b > floor.b + 20)
            .count();
        assert!(bright <= 2, "{bright} keys lit at {elapsed}ms: {colors:?}");
        bright_counts.push(bright);
    }
    // And it does actually travel: sometimes present, sometimes off-lane.
    assert!(bright_counts.iter().any(|n| *n > 0));
    assert!(bright_counts.contains(&0));
}

#[test]
fn palette_waiting_beats_between_the_glow_and_full_and_its_marker_never_moves() {
    let mut seen_high = false;
    let mut seen_low = false;
    for elapsed in (0..PULSE_PERIOD_MS).step_by(25) {
        let colors = lane_colors(Some(State::Waiting), lane(), 4, elapsed);
        assert_eq!(colors[0], lane(), "the marker moved at {elapsed}ms");
        // The beating keys all beat together.
        assert!(colors[1..].windows(2).all(|pair| pair[0] == pair[1]));
        if colors[1] == lane() {
            seen_high = true;
        }
        if colors[1] == base(lane()) {
            seen_low = true;
        }
    }
    assert!(seen_high, "the pulse never reached 100%");
    assert!(seen_low, "the pulse never rested at the glow");
}

#[test]
fn palette_brightness_scales_everything_and_never_inverts_it() {
    let bright = settings(4);
    let dim = tuning(0.25, 1.0, 1.0, 1.0);
    let available: Vec<usize> = (0..KEYS).collect();
    let states = vec![Some(State::Done); 4];
    for ((_, full), (_, low)) in frame(&states, &bright, full(), 0, &available)
        .into_iter()
        .zip(frame(&states, &bright, dim, 0, &available))
    {
        assert!(low.r <= full.r && low.g <= full.g && low.b <= full.b);
    }
    let mut faint = settings(4);
    faint.tuning.brightness = share(0.25);
    let reported = corsair::palette::our_led_ids();
    for ((_, full), (_, low)) in corsair::palette::frame(&states, &bright, 0, &reported)
        .into_iter()
        .zip(corsair::palette::frame(&states, &faint, 0, &reported))
    {
        assert!(low.r <= full.r && low.g <= full.g && low.b <= full.b);
    }
}

#[test]
fn a_single_pulse_is_one_beat_and_a_long_rest() {
    // Done is the one state that beats once.
    let period = DONE_PERIOD_MS;
    let key = |elapsed: u64| m_key(Some(State::Done), lane(), elapsed, false, false);
    assert_eq!(key(0), base(lane()));
    assert_eq!(key(period / 8), lane(), "the beat's peak");
    for elapsed in (period / 4..period).step_by(50) {
        assert_eq!(key(elapsed), base(lane()), "resting at {elapsed}ms");
    }
    for elapsed in (0..period).step_by(25) {
        let level = key(elapsed);
        assert!(base(lane()).g <= level.g && level.g <= lane().g);
    }
}

#[test]
fn an_m_key_follows_the_owners_table() {
    // Empty is dark; Connected and Idle rest at the glow.
    assert_eq!(m_key(None, lane(), 123, false, false), off());
    for quiet in [State::Connected, State::Idle] {
        assert_eq!(m_key(Some(quiet), lane(), 123, false, false), base(lane()));
    }
    // Error is the fixed red whatever the lane colour or selection.
    for selected in [false, true] {
        assert_eq!(
            m_key(
                Some(State::Error),
                Rgb::new(90, 210, 130),
                55,
                selected,
                false
            ),
            dark_red()
        );
    }
    // Waiting with the terminal focused holds full — the top line beats.
    assert_eq!(m_key(Some(State::Waiting), lane(), 999, false, true), lane());
    // Waiting unfocused beats between the glow and full.
    let mut seen_high = false;
    let mut seen_low = false;
    for elapsed in (0..PULSE_PERIOD_MS).step_by(25) {
        let color = m_key(Some(State::Waiting), lane(), elapsed, false, false);
        seen_high |= color == lane();
        seen_low |= color == base(lane());
    }
    assert!(seen_high && seen_low, "the pulse spans glow to full");
    // Running breathes: it moves, and never sinks below the glow.
    let floor = base(lane());
    let samples: Vec<Rgb> = (0..BREATHE_PERIOD_MS)
        .step_by(100)
        .map(|elapsed| m_key(Some(State::Running), lane(), elapsed, false, false))
        .collect();
    assert!(samples.windows(2).any(|pair| pair[0] != pair[1]));
    for color in &samples {
        assert!(color.r >= floor.r && color.g >= floor.g && color.b >= floor.b);
    }
}

#[test]
fn the_selected_key_rests_brighter_and_keeps_its_motion() {
    let resting = m_key(Some(State::Connected), lane(), 0, false, false);
    let selected = m_key(Some(State::Connected), lane(), 0, true, false);
    assert!(
        selected.r > resting.r || selected.g > resting.g || selected.b > resting.b,
        "{selected:?} should out-glow {resting:?}"
    );
    // Full stays full: a selected Waiting-focused key is exactly the colour.
    assert_eq!(m_key(Some(State::Waiting), lane(), 7, true, true), lane());
    // And a selected Running still visibly breathes.
    let samples: Vec<Rgb> = (0..BREATHE_PERIOD_MS)
        .step_by(100)
        .map(|elapsed| m_key(Some(State::Running), lane(), elapsed, true, false))
        .collect();
    assert!(samples.windows(2).any(|pair| pair[0] != pair[1]));
}

#[test]
fn the_lock_fade_runs_the_lane_colour_to_pure_white_and_back() {
    // A lane with headroom on every channel, so "never darker" is a real
    // check on all three (the usual lane's blue is already full).
    let lane = Rgb::new(80, 170, 200);
    assert_eq!(lock_blend(lane, 0), lane, "starts as the lane");
    let peak = lock_blend(lane, LOCK_PERIOD_MS / 2);
    assert_eq!(peak, Rgb::new(255, 255, 255), "full white at the peak");
    for elapsed in (0..LOCK_PERIOD_MS).step_by(50) {
        let color = lock_blend(lane, elapsed);
        assert!(
            color.r >= lane.r && color.g >= lane.g && color.b >= lane.b,
            "never darker than the lane: {color:?}"
        );
    }
}

#[test]
fn tune_composes_brightness_and_gain_like_the_f_row_does() {
    let tuning = tuning(0.5, 1.0, 0.5, 2.0);
    assert_eq!(
        tune(Rgb::new(200, 200, 100), tuning),
        Rgb::new(100, 50, 100)
    );
    assert_eq!(tune(off(), tuning), off(), "black stays black");
}

#[test]
fn a_scanner_is_halfway_lit_halfway_between_two_keys() {
    // At a tenth of the period the light is half a slot along: eased, half.
    let colors = lane_colors(Some(State::Running), lane(), 4, SCANNER_PERIOD_MS / 10);
    assert_eq!(colors[0], Rgb::new(40, 85, 128));
    assert_eq!(colors[1], Rgb::new(40, 85, 128));
    assert_eq!(colors[2], base(lane()));
}
