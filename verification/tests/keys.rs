//! What the summon keys mean.

use agent_frow::focus::Key;
use agent_frow::keys::{
    handle_press, key_label, lane_keys_label, numpad_press_of, press_of, Press, SUMMON_KEYS,
};
use agent_frow::settings::{Settings, KEYS_PER_LANE};
use agent_frow::table::Table;
use agent_frow::tracker::Tracker;

#[test]
fn every_key_of_a_lane_summons_it_and_none_reaches_a_lane_off_the_keyboard() {
    // Whatever the lane count, the twelve keys are lanes 1–3, four each.
    for lane_count in [3, 4, 5, 6] {
        for index in 0..SUMMON_KEYS {
            assert_eq!(
                press_of(index, lane_count, false),
                Some(Press::Summon(index / KEYS_PER_LANE)),
                "{lane_count} lanes, key {index}"
            );
        }
    }
    assert_eq!(press_of(SUMMON_KEYS, 6, false), None, "past the F-row");
}

#[test]
fn while_a_lane_answers_its_three_keys_after_the_first_are_up_down_enter() {
    assert_eq!(
        press_of(0, 3, true),
        Some(Press::Summon(0)),
        "the first key still summons"
    );
    assert_eq!(press_of(1, 3, true), Some(Press::Answer(0, Key::Up)));
    assert_eq!(press_of(2, 3, true), Some(Press::Answer(0, Key::Down)));
    assert_eq!(press_of(3, 3, true), Some(Press::Answer(0, Key::Enter)));
    assert_eq!(press_of(5, 3, true), Some(Press::Answer(1, Key::Up)));
    assert_eq!(press_of(11, 3, true), Some(Press::Answer(2, Key::Enter)));
    assert_eq!(
        press_of(7, 3, false),
        Some(Press::Summon(1)),
        "not answerable: a summon like any other key"
    );
}

#[test]
fn keys_are_named_as_the_user_remapped_them() {
    assert_eq!(key_label(0), "F13");
    assert_eq!(key_label(11), "F24");
    assert_eq!(key_label(12), "Ctrl+Shift+F13", "the numpad's first chord");
    assert_eq!(key_label(23), "Ctrl+Shift+F24");
    assert_eq!(lane_keys_label(0).as_deref(), Some("F13–F16"));
    assert_eq!(lane_keys_label(2).as_deref(), Some("F21–F24"));
    assert_eq!(lane_keys_label(3), None, "no keys past the keyboard");
}

#[test]
fn the_numpad_chords_mean_the_owners_table() {
    assert_eq!(
        numpad_press_of(0, 5, Some(2), false),
        Some(Press::Select(-1))
    );
    assert_eq!(numpad_press_of(1, 5, None, false), Some(Press::Select(1)));
    assert_eq!(numpad_press_of(2, 5, None, false), Some(Press::ToggleLock));
    assert_eq!(
        numpad_press_of(3, 5, None, false),
        Some(Press::Summon(0)),
        "M1"
    );
    assert_eq!(
        numpad_press_of(7, 5, None, false),
        Some(Press::Summon(4)),
        "M5"
    );
    assert_eq!(
        numpad_press_of(7, 4, None, false),
        None,
        "M5 past the lanes"
    );
    assert_eq!(
        numpad_press_of(7, 6, None, false),
        Some(Press::Summon(4)),
        "six lanes still cap at five M keys"
    );
    assert_eq!(
        numpad_press_of(8, 5, Some(2), false),
        Some(Press::Summon(2)),
        "the top line's first key summons the shown agent"
    );
    assert_eq!(
        numpad_press_of(8, 5, Some(2), true),
        Some(Press::Summon(2)),
        "answerable or not"
    );
    assert_eq!(
        numpad_press_of(9, 5, Some(2), true),
        Some(Press::Answer(2, Key::Up))
    );
    assert_eq!(
        numpad_press_of(10, 5, Some(2), true),
        Some(Press::Answer(2, Key::Down))
    );
    assert_eq!(
        numpad_press_of(11, 5, Some(2), true),
        Some(Press::Answer(2, Key::Enter))
    );
    assert_eq!(
        numpad_press_of(10, 5, Some(2), false),
        Some(Press::Summon(2)),
        "not answerable: the answer keys summon, like the F-row's"
    );
    assert_eq!(
        numpad_press_of(11, 5, None, false),
        None,
        "nothing displayed"
    );
    assert_eq!(
        numpad_press_of(8, 5, None, true),
        None,
        "nothing displayed: the first key too"
    );
    assert_eq!(
        numpad_press_of(12, 5, Some(0), true),
        None,
        "past the chords"
    );
}

#[test]
fn the_top_line_is_an_f_row_lane_for_the_shown_agent() {
    // Chords 8..12 on the shown lane mean exactly what F-row keys 4..8
    // mean on lane 1, answerable or not — one rule, two keyboards.
    for answerable in [false, true] {
        for offset in 0..KEYS_PER_LANE {
            assert_eq!(
                numpad_press_of(8 + offset, 5, Some(1), answerable),
                press_of(KEYS_PER_LANE + offset, 3, answerable),
                "offset {offset}, answerable {answerable}"
            );
        }
    }
}

#[test]
fn a_press_is_remembered_and_what_is_left_to_do_is_said() {
    let mut tracker = Tracker::new(Settings::default(), Table::new());
    assert_eq!(handle_press(&mut tracker, 5, 77), Some(Press::Summon(1)));
    assert_eq!(tracker.last_key, Some((5, 77)));
    // The knob and the lock are done on the spot.
    assert_eq!(handle_press(&mut tracker, SUMMON_KEYS + 2, 78), None);
    assert_eq!(tracker.last_key, Some((SUMMON_KEYS + 2, 78)));
}
