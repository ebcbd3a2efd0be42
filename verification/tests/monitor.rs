//! The mini window's rows.

use agent_frow::gauges::Gauges;
use agent_frow::settings::{Rgb, Settings};
use agent_frow::state::State;
use agent_frow::surface::monitor::{
    chosen, hint, ink_grey, keycap, lines_of, off_keyboard_colour, placed, repaint_after,
    row_height_for, rows, type_sizes, window_size, Action, Row, Size, Target, ANIMATED_FRAME_MS,
    COLS, DEFAULT_ROW_HEIGHT, DEFAULT_WIDTH, MIN_HEIGHT, MIN_ROW_HEIGHT, MIN_WIDTH,
    RESTING_FRAME_MS,
};
use agent_frow::surface::palette;
use agent_frow::surface::streamdeck::canvas::{Ink, Label};
use agent_frow::table::Table;
use agent_frow::tracker::{Preview, Session, Tracker};

fn session(state: State, lane: Option<usize>, cwd: &str) -> Session {
    Session {
        source: "codex-win".to_owned(),
        session_id: format!("s-{}", cwd.replace('/', "-")),
        agent: None,
        cwd: Some(cwd.to_owned()),
        state,
        since: 0,
        first_seen: 0,
        last_event: 0,
        events: 1,
        note: String::new(),
        subagents: Table::new(),
        lane,
        wt_session: None,
        ancestors: Vec::new(),
        gauges: Default::default(),
        failure: None,
    }
}

fn tracker(lane_count: usize) -> Tracker {
    let mut tracker = Tracker::new(Settings::default(), Table::new());
    tracker.settings.set_lane_count(lane_count);
    tracker
}

fn label(row: &Row, col: usize) -> &Label {
    &row.keys[col].label
}

#[test]
fn only_lanes_with_a_session_are_rows_then_the_off_keyboard_sessions() {
    let mut tracker = tracker(3);
    tracker
        .sessions
        .push(session(State::Running, Some(1), "/home/j/api"));
    tracker
        .sessions
        .push(session(State::Done, None, "/home/j/extra"));
    let rows = rows(&tracker, 5_000, 0);
    assert_eq!(rows.len(), 2, "one lane in use and one off the keyboard");
    let api = &rows[0];
    assert_eq!(api.name, "api");
    assert_eq!(api.target, Target::Lane(1));
    assert_eq!(api.state, State::Running);
    assert_eq!(api.colour, tracker.settings.lanes[1].color);
    assert_eq!(api.keys.len(), COLS);
    assert!(!api.off_keyboard);
    let extra = &rows[1];
    assert!(extra.off_keyboard);
    assert_eq!(extra.name, "extra");
    assert_eq!(extra.colour, off_keyboard_colour());
    assert_eq!(extra.keys.len(), COLS);
    assert_eq!(
        extra.target,
        Target::Session {
            source: "codex-win".to_owned(),
            id: "s--home-j-extra".to_owned(),
        }
    );
}

#[test]
fn an_empty_board_has_no_rows() {
    assert!(rows(&tracker(4), 0, 0).is_empty());
}

#[test]
fn a_row_reads_name_numbers_state_left_to_right() {
    let mut tracker = tracker(3);
    let mut running = session(State::Running, Some(0), "/home/j/api");
    running.gauges = Gauges {
        context_used: Some(42),
        five_hour: None,
        seven_day: Some(3),
    };
    tracker.sessions.push(running);
    let row = rows(&tracker, 80_000, 0).remove(0);
    assert_eq!(*label(&row, 0), Label::Name("api".to_owned()));
    assert_eq!(
        *label(&row, 1),
        Label::Gauge {
            name: "ctx",
            value: Some(42)
        }
    );
    assert_eq!(
        *label(&row, 2),
        Label::Gauge {
            name: "5h",
            value: None
        }
    );
    assert_eq!(
        *label(&row, 3),
        Label::Gauge {
            name: "7d",
            value: Some(3)
        }
    );
    assert_eq!(
        *label(&row, 4),
        Label::Status {
            state: "Running",
            elapsed: "1m 20s".to_owned()
        }
    );
}

#[test]
fn a_preview_lights_a_row_with_its_state_and_no_time_or_numbers() {
    let mut tracker = tracker(3);
    tracker
        .sessions
        .push(session(State::Done, Some(0), "/home/j/api"));
    tracker.preview = Some(Preview {
        state: State::Waiting,
        expires_at: 10,
    });
    let rows = rows(&tracker, 5, 0);
    assert_eq!(rows.len(), 1, "a preview adds no rows for empty lanes");
    let row = &rows[0];
    assert_eq!(row.state, State::Waiting);
    assert_eq!(
        *label(row, 4),
        Label::Status {
            state: "Waiting",
            elapsed: String::new()
        }
    );
    assert_eq!(*label(row, 1), Label::Blank, "a preview has no numbers");
    assert_eq!(row.keys[0].colour, row.colour, "the marker key at full");
}

#[test]
fn waiting_beats_the_middle_keys_and_never_puts_up_answer_keys() {
    let mut tracker = tracker(3);
    tracker
        .sessions
        .push(session(State::Waiting, Some(0), "/home/j/api"));
    let colour = tracker.settings.lanes[0].color;
    let mut seen_high = false;
    let mut seen_low = false;
    for elapsed in (0..1200).step_by(25) {
        let row = rows(&tracker, 0, elapsed).remove(0);
        assert_eq!(row.keys[0].colour, colour, "the marker never moves");
        assert_eq!(
            row.keys[4].colour,
            palette::base(colour),
            "the state key holds still, as on the deck"
        );
        for key in &row.keys[1..4] {
            assert!(
                matches!(key.label, Label::Gauge { .. }),
                "the middle keys are numbers, never ▲▼Enter: {:?}",
                key.label
            );
        }
        if row.keys[1].colour == colour {
            seen_high = true;
        }
        if row.keys[1].colour == palette::base(colour) {
            seen_low = true;
        }
    }
    assert!(
        seen_high && seen_low,
        "the pulse beats between glow and full"
    );
}

#[test]
fn idle_is_one_quiet_name_key_and_error_says_why() {
    let mut tracker = tracker(3);
    tracker
        .sessions
        .push(session(State::Idle, Some(0), "/home/j/api"));
    let mut failed = session(State::Error, Some(1), "/home/j/web");
    failed.failure = Some("rate limit".to_owned());
    tracker.sessions.push(failed);
    let rows = rows(&tracker, 60_000, 0);
    let idle = &rows[0];
    assert_eq!(*label(idle, 0), Label::Name("api".to_owned()));
    assert!(idle.keys[1..].iter().all(|key| key.label == Label::Blank));
    assert!(idle.keys.iter().all(|key| key.ink == Ink::Quiet));
    let error = &rows[1];
    assert_eq!(
        *label(error, 4),
        Label::Status {
            state: "Error",
            elapsed: "rate limit".to_owned()
        }
    );
    assert!(
        error.keys[1..4]
            .iter()
            .all(|key| key.colour == palette::dark_red()),
        "red in the middle, as everywhere"
    );
}

#[test]
fn the_window_fits_its_rows_and_a_resize_is_read_back_as_a_row_height() {
    let width = DEFAULT_WIDTH as u32;
    let row = DEFAULT_ROW_HEIGHT as u32;
    let one = window_size(1, width, row);
    let three = window_size(3, width, row);
    assert!(three.1 > one.1);
    assert_eq!(
        window_size(0, width, row),
        one,
        "no rows is still one row's worth"
    );
    assert!(one.0 >= MIN_WIDTH && one.1 >= u128::from(MIN_HEIGHT));
    assert_eq!(window_size(2, 10_000, 1_000).0, MIN_WIDTH, "never narrower");
    // What the user dragged the corner to comes back as the row height
    // that reproduces it.
    let height = row_height_for(three.1 as u64, 3);
    assert_eq!(height, DEFAULT_ROW_HEIGHT);
    assert_eq!(row_height_for(0, 3), MIN_ROW_HEIGHT);
    assert_eq!(three.1, 3 * 64_000 + 2 * 6_000 + 2 * 6_000);
}

#[test]
fn only_a_moving_row_asks_for_frames() {
    let mut tracker = tracker(3);
    tracker
        .sessions
        .push(session(State::Done, Some(0), "/home/j/api"));
    assert_eq!(repaint_after(&rows(&tracker, 0, 0)), RESTING_FRAME_MS);
    tracker.sessions[0].state = State::Running;
    assert_eq!(repaint_after(&rows(&tracker, 0, 0)), ANIMATED_FRAME_MS);
    assert_eq!(repaint_after(&vec![]), RESTING_FRAME_MS);
}

#[test]
fn keys_share_the_width_with_gaps_between() {
    // Five keys over 224 points: four gaps of six, forty points each.
    assert_eq!(placed(224_000, 5, 0), (0, 40_000));
    assert_eq!(placed(224_000, 5, 4), (184_000, 40_000));
    assert_eq!(placed(0, 5, 1), (7_000, 1_000), "never less than a point");
}

#[test]
fn a_gesture_means_one_thing() {
    assert_eq!(
        chosen(Some(Target::Lane(2)), false, true, true),
        Some(Action::Focus(Target::Lane(2)))
    );
    assert_eq!(
        chosen(Some(Target::Lane(2)), true, false, false),
        Some(Action::Resize)
    );
    assert_eq!(chosen(None, false, true, true), Some(Action::Leave));
    assert_eq!(chosen(None, false, false, true), Some(Action::Move));
    assert_eq!(chosen(None, false, false, false), None);
}

#[test]
fn a_key_is_set_word_over_number() {
    assert_eq!(
        lines_of(&Label::Gauge {
            name: "ctx",
            value: Some(42)
        }),
        vec![
            ("ctx".to_owned(), Size::Small),
            ("42%".to_owned(), Size::Large)
        ]
    );
    assert_eq!(
        lines_of(&Label::Gauge {
            name: "5h",
            value: None
        })[1]
            .0,
        "—"
    );
    assert_eq!(
        lines_of(&Label::Status {
            state: "Done",
            elapsed: String::new()
        }),
        vec![("Done".to_owned(), Size::Large)]
    );
    assert_eq!(
        lines_of(&Label::Name("api".to_owned())),
        vec![("api".to_owned(), Size::Spread)]
    );
    assert!(lines_of(&Label::Blank).is_empty());
    assert_eq!(type_sizes(64_000), (19_200, 14_400));
    assert_eq!(type_sizes(0), (10_000, 9_000));
    assert_eq!(type_sizes(900_000), (20_000, 15_000));
}

#[test]
fn a_dark_key_is_still_a_key() {
    assert_eq!(keycap(palette::off()), Rgb::new(26, 26, 26));
    assert_eq!(keycap(Rgb::new(1, 0, 0)), Rgb::new(1, 0, 0));
    assert_eq!(ink_grey(Ink::Quiet), 140);
    assert_eq!(ink_grey(Ink::Lit(255)), 0);
    let mut tracker = tracker(3);
    tracker.sessions.push(session(State::Done, None, "/x/extra"));
    let row = rows(&tracker, 0, 0).remove(0);
    assert_eq!(hint(&row), "Focus extra (off the keyboard)");
}
