//! The F-row's keys: three lanes of four. Any key of a lane brings its agent
//! forward; while the lane is Waiting, the three after the first answer it
//! instead — Up, Down, Enter — the rule a Stream Deck row follows, on the
//! keyboard.
//!
//! The app listens for **F13–F24**, not F1–F12. The F-row's ordinary meanings
//! belong to every other application on the machine, so the user remaps the
//! keyboard's F-row to F13–F24 in the keyboard's own software — an iCUE
//! profile, the Keychron Launcher keymap — a one-time setup, and from then on
//! those twelve codes mean nothing to anything but us.

use vstd::prelude::*;

use crate::focus::Key;
use crate::settings::{KEYBOARD_LANES, KEYS, KEYS_PER_LANE, NUMPAD_LANES};
use crate::text::{self, decimal};
use crate::tracker::{Desk, Tracker, stepped};

verus! {

/// F13, the first code of the range we own.
pub const VK_F13: u32 = 0x7C;

/// How many codes: F13 through F24, one per F-row key.
pub const SUMMON_KEYS: usize = KEYS;

/// The numpad's controls: the same twelve codes again, under Ctrl+Shift —
/// knob CCW/CW/press, M1–M5, then the top line's four keys left to right.
/// The user imports the keymap file into the Keychron Launcher; bare F13–F24
/// belong to the F-row.
pub const NUMPAD_KEYS: usize = 12;

pub open spec fn label_of(index: int) -> Seq<char> {
    if index < SUMMON_KEYS {
        "F"@ + decimal((13 + index) as nat)
    } else {
        "Ctrl+Shift+F"@ + decimal((13 + index - SUMMON_KEYS) as nat)
    }
}

/// The label a key index carries in the window: 0 → "F13"; the numpad's
/// chords follow, 12 → "Ctrl+Shift+F13".
pub fn key_label(index: usize) -> (label: String)
    requires
        index + 13 <= usize::MAX,
    ensures
        label@ == label_of(index as int),
{
    if index < SUMMON_KEYS {
        let mut label = "F".to_owned();
        label.push_str(text::number(13 + index as u64).as_str());
        label
    } else {
        let mut label = "Ctrl+Shift+F".to_owned();
        label.push_str(text::number(13 + index as u64 - SUMMON_KEYS as u64).as_str());
        label
    }
}

/// The keys a lane has on the keyboard, "F13–F16" — or `None` for a lane
/// past the three the keyboard carries.
pub fn lane_keys_label(lane: usize) -> (label: Option<String>)
    ensures
        match label {
            Some(label) => lane < KEYBOARD_LANES && label@ == label_of(4 * lane) + "–"@ + label_of(
                4 * lane + 3,
            ),
            None => lane >= KEYBOARD_LANES,
        },
{
    if lane >= KEYBOARD_LANES {
        return None;
    }
    let first: usize = lane * KEYS_PER_LANE;
    let mut label = key_label(first);
    label.push_str("–");
    label.push_str(key_label(first + KEYS_PER_LANE - 1).as_str());
    Some(label)
}

/// What a press on any surface does.
#[derive(Debug, Clone, Copy, PartialEq, Eq, Structural)]
pub enum Press {
    /// Bring the lane's agent forward.
    Summon(usize),
    /// Bring it forward and answer it with one key.
    Answer(usize, Key),
    /// Move the numpad's selection this many steps — the knob turning.
    Select(isize),
    /// Pin the numpad's selection, or unpin it — the knob pressed.
    ToggleLock,
}

/// What pressing key `offset` of a four-key lane means: every key summons the
/// lane; while the lane is answerable the three after the first are Up, Down
/// and Enter.
pub open spec fn meant(lane: usize, offset: int, answerable: bool) -> Press {
    if answerable && offset == 1 {
        Press::Answer(lane, Key::Up)
    } else if answerable && offset == 2 {
        Press::Answer(lane, Key::Down)
    } else if answerable && offset == 3 {
        Press::Answer(lane, Key::Enter)
    } else {
        Press::Summon(lane)
    }
}

/// What pressing key `offset` (0..4) of a four-key lane means. This is the
/// rule the lane pattern draws — the steady marker first, the beating answer
/// keys after it — so the F-row and the numpad's top line both bind through it
/// and cannot drift apart.
pub fn lane_press(lane: usize, offset: usize, answerable: bool) -> (press: Press)
    ensures
        press == meant(lane, offset as int, answerable),
{
    match (answerable, offset) {
        (true, 1) => Press::Answer(lane, Key::Up),
        (true, 2) => Press::Answer(lane, Key::Down),
        (true, 3) => Press::Answer(lane, Key::Enter),
        _ => Press::Summon(lane),
    }
}

/// What an F-row key means; nothing past the lanes the keyboard has.
pub open spec fn row_press(index: int, lane_count: usize, answerable: bool) -> Option<Press> {
    let lane = index / 4;
    if lane >= lane_count || lane >= KEYBOARD_LANES {
        None
    } else {
        Some(meant(lane as usize, index % 4, answerable))
    }
}

/// What pressing F-row key `index` (0 → F13) means with `lane_count` lanes,
/// the key's lane `answerable` or not. The lane is the key's group of four;
/// a key past the lanes the keyboard has is nothing.
pub fn press_of(index: usize, lane_count: usize, answerable: bool) -> (press: Option<Press>)
    ensures
        press == row_press(index as int, lane_count, answerable),
{
    let lane: usize = index / KEYS_PER_LANE;
    if lane >= lane_count || lane >= KEYBOARD_LANES {
        return None;
    }
    Some(lane_press(lane, index % KEYS_PER_LANE, answerable))
}

/// What a numpad chord means.
pub open spec fn chord_press(
    index: int,
    lane_count: usize,
    selected: Option<usize>,
    answerable: bool,
) -> Option<Press> {
    if index == 0 {
        Some(Press::Select((-1) as isize))
    } else if index == 1 {
        Some(Press::Select(1))
    } else if index == 2 {
        Some(Press::ToggleLock)
    } else if 3 <= index <= 7 {
        if index - 3 < lane_count {
            Some(Press::Summon((index - 3) as usize))
        } else {
            None
        }
    } else if 8 <= index <= 11 {
        match selected {
            Some(lane) => Some(meant(lane, index - 8, answerable)),
            None => None,
        }
    } else {
        None
    }
}

/// What pressing numpad chord `index` (0 → Ctrl+Shift+F13) means: the knob's
/// three, then M1–M5 summoning their lanes, then the top line's four keys
/// acting on `selected` — the agent it is showing — as one F-row lane: any of
/// them summons it, and while it is answerable the three after the first are
/// ⏶⏷Enter. With nothing shown the top line is nothing: no stray keystrokes.
pub fn numpad_press_of(
    index: usize,
    lane_count: usize,
    selected: Option<usize>,
    answerable: bool,
) -> (press: Option<Press>)
    ensures
        press == chord_press(index as int, lane_count, selected, answerable),
{
    let shown: usize = if lane_count < NUMPAD_LANES { lane_count } else { NUMPAD_LANES };
    if index == 0 {
        Some(Press::Select(-1))
    } else if index == 1 {
        Some(Press::Select(1))
    } else if index == 2 {
        Some(Press::ToggleLock)
    } else if index <= 7 {
        let lane: usize = index - 3;
        if lane < shown {
            Some(Press::Summon(lane))
        } else {
            None
        }
    } else if index <= 11 {
        match selected {
            Some(lane) => Some(lane_press(lane, index - 8, answerable)),
            None => None,
        }
    } else {
        None
    }
}

/// What is left to do about a press once the tracker has heard of it: raise a
/// lane's window, or raise it and answer.
pub open spec fn left_to_do(press: Option<Press>) -> Option<Press> {
    match press {
        Some(Press::Summon(lane)) => Some(Press::Summon(lane)),
        Some(Press::Answer(lane, key)) => Some(Press::Answer(lane, key)),
        _ => None,
    }
}

/// What the key at `index` means to this tracker.
pub open spec fn pressed(desk: Desk, index: int) -> Option<Press> {
    if index < SUMMON_KEYS {
        row_press(index, desk.settings.lane_count, desk.answerable((index / 4) as usize))
    } else {
        chord_press(
            index - SUMMON_KEYS,
            desk.settings.lane_count,
            desk.selected,
            desk.selected matches Some(lane) && desk.answerable(lane),
        )
    }
}

/// The tracker after a press: it remembers the key, and a chord moves or pins
/// the numpad's selection — a key that summons selects what it summons: the
/// user's hand moves the cursor, always, locked or not.
pub open spec fn after_press(desk: Desk, index: usize, now: u64) -> Desk {
    let seen = Desk { last_key: Some((index, now)), ..desk };
    if index < SUMMON_KEYS {
        seen
    } else {
        match pressed(desk, index as int) {
            Some(Press::Select(delta)) => Desk {
                selected: stepped(
                    desk.selected,
                    delta as int,
                    if desk.settings.lane_count < NUMPAD_LANES {
                        desk.settings.lane_count as int
                    } else {
                        NUMPAD_LANES as int
                    },
                ),
                ..seen
            },
            Some(Press::ToggleLock) => Desk { locked: !desk.locked, ..seen },
            Some(Press::Summon(lane)) => Desk { selected: Some(lane), ..seen },
            _ => seen,
        }
    }
}

/// One press: records it, and says what it means. Selection and lock are done
/// here; what is left is a window to raise, or to raise and answer — which can
/// block, and so is the caller's. A key past the lanes is recorded, and
/// nothing else.
pub fn handle_press(tracker: &mut Tracker, index: usize, now: u64) -> (left: Option<Press>)
    ensures
        final(tracker)@ == after_press(old(tracker)@, index, now),
        left == left_to_do(pressed(old(tracker)@, index as int)),
{
    if index >= SUMMON_KEYS {
        return handle_chord(tracker, index - SUMMON_KEYS, now);
    }
    tracker.last_key = Some((index, now));
    let lane: usize = index / KEYS_PER_LANE;
    press_of(index, tracker.settings.lane_count, tracker.answerable(lane))
}

/// One numpad chord, handled like [`handle_press`].
fn handle_chord(tracker: &mut Tracker, chord: usize, now: u64) -> (left: Option<Press>)
    requires
        chord + 12 <= usize::MAX,
    ensures
        final(tracker)@ == after_press(old(tracker)@, (chord + 12) as usize, now),
        left == left_to_do(pressed(old(tracker)@, chord + 12)),
{
    tracker.last_key = Some((SUMMON_KEYS + chord, now));
    let answerable: bool = match tracker.selected {
        Some(lane) => tracker.answerable(lane),
        None => false,
    };
    match numpad_press_of(chord, tracker.settings.lane_count, tracker.selected, answerable) {
        Some(Press::Select(delta)) => {
            tracker.select_delta(delta);
            None
        },
        Some(Press::ToggleLock) => {
            tracker.toggle_lock();
            None
        },
        Some(Press::Summon(lane)) => {
            tracker.select(lane);
            Some(Press::Summon(lane))
        },
        Some(Press::Answer(lane, key)) => Some(Press::Answer(lane, key)),
        None => None,
    }
}

/// **One rule, two keyboards**: the numpad's top line means on the shown lane
/// exactly what the F-row's keys mean on theirs.
pub proof fn the_top_line_is_an_f_row_lane(
    lane: usize,
    offset: int,
    lane_count: usize,
    answerable: bool,
)
    requires
        lane < KEYBOARD_LANES,
        lane < lane_count,
        0 <= offset < KEYS_PER_LANE,
    ensures
        chord_press(8 + offset, lane_count, Some(lane), answerable) == row_press(
            4 * lane + offset,
            lane_count,
            answerable,
        ),
{
    assert((4 * lane + offset) / 4 == lane);
    assert((4 * lane + offset) % 4 == offset);
}

/// **A key is sent only to a lane that is waiting**: no press answers unless
/// its lane is answerable.
pub proof fn only_a_waiting_lane_is_answered(desk: Desk, index: int, lane: usize, key: Key)
    requires
        0 <= index,
        pressed(desk, index) == Some(Press::Answer(lane, key)),
    ensures
        desk.answerable(lane),
{
}

/// **Every key of a lane summons it**, answerable or not, unless it answers;
/// and no F-row key reaches a lane off the keyboard.
pub proof fn every_key_of_a_lane_reaches_it(index: int, lane_count: usize, answerable: bool)
    requires
        0 <= index,
    ensures
        match row_press(index, lane_count, answerable) {
            Some(Press::Summon(lane)) => lane == index / 4 && lane < KEYBOARD_LANES && lane
                < lane_count,
            Some(Press::Answer(lane, _)) => answerable && lane == index / 4 && lane
                < KEYBOARD_LANES && lane < lane_count,
            Some(_) => false,
            None => index / 4 >= KEYBOARD_LANES || index / 4 >= lane_count,
        },
{
}

/// **Each control of the numpad has its own meaning**: turning the knob steps
/// the selection back and on, pressing it pins it; each M key reaches its own
/// lane, as long as there is one; the top line acts on the agent it shows, and
/// on nobody when it shows none; and past the twelve there is nothing.
pub proof fn each_chord_has_its_meaning(
    lane: usize,
    offset: int,
    index: int,
    lane_count: usize,
    selected: Option<usize>,
    answerable: bool,
)
    requires
        0 <= offset < 4,
    ensures
        chord_press(0, lane_count, selected, answerable) == Some(Press::Select((-1) as isize)),
        chord_press(1, lane_count, selected, answerable) == Some(Press::Select(1)),
        chord_press(2, lane_count, selected, answerable) == Some(Press::ToggleLock),
        lane < 5 ==> chord_press(3 + lane, lane_count, selected, answerable) == (if lane
            < lane_count {
            Some(Press::Summon(lane))
        } else {
            None
        }),
        selected is None ==> chord_press(8 + offset, lane_count, selected, answerable) is None,
        selected is Some && (offset == 0 || !answerable) ==> chord_press(
            8 + offset,
            lane_count,
            selected,
            answerable,
        ) == Some(Press::Summon(selected->0)),
        index >= 12 ==> chord_press(index, lane_count, selected, answerable) is None,
{
}

/// **While a lane waits, its second, third and fourth keys are Up, Down and
/// Enter**, in that order, and its first still summons it; of a lane that does
/// not wait every key summons it.
pub proof fn the_answer_keys_are_in_their_order(lane: usize, offset: int, lane_count: usize)
    requires
        lane < 3,
        lane < lane_count,
        0 <= offset < 4,
    ensures
        row_press(4 * lane + offset, lane_count, false) == Some(Press::Summon(lane)),
        row_press(4 * lane, lane_count, true) == Some(Press::Summon(lane)),
        row_press(4 * lane + 1, lane_count, true) == Some(Press::Answer(lane, Key::Up)),
        row_press(4 * lane + 2, lane_count, true) == Some(Press::Answer(lane, Key::Down)),
        row_press(4 * lane + 3, lane_count, true) == Some(Press::Answer(lane, Key::Enter)),
{
    assert((4 * lane + offset) / 4 == lane);
    assert((4 * lane + 1) / 4 == lane && (4 * lane + 1) % 4 == 1);
    assert((4 * lane + 2) / 4 == lane && (4 * lane + 2) % 4 == 2);
    assert((4 * lane + 3) / 4 == lane && (4 * lane + 3) % 4 == 3);
    assert((4 * lane) / 4 == lane as int && (4 * lane) % 4 == 0);
}

/// **A press does one thing**: it is remembered; the sessions and the settings
/// are as they were; only the knob pins or unpins; an F-row key moves no
/// selection, and a chord that summons selects what it summons.
pub proof fn a_press_does_one_thing(desk: Desk, index: usize, now: u64)
    ensures
        ({
            let after = after_press(desk, index, now);
            &&& after.last_key == Some((index, now))
            &&& after.sessions == desk.sessions
            &&& after.settings == desk.settings
            &&& after.locked == (if index == 14 {
                !desk.locked
            } else {
                desk.locked
            })
            &&& index < 12 || index == 14 || index >= 20 ==> after.selected == desk.selected
            &&& 15 <= index < 20 ==> after.selected == (if index - 15 < desk.settings.lane_count {
                Some((index - 15) as usize)
            } else {
                desk.selected
            })
        }),
{
}

/// A press that is the tracker's own leaves nothing to do; any other is left
/// whole.
pub proof fn only_a_window_is_left_to_raise(desk: Desk, index: int)
    requires
        0 <= index,
    ensures
        12 <= index <= 14 ==> left_to_do(pressed(desk, index)) is None,
        index < 12 || 15 <= index ==> left_to_do(pressed(desk, index)) == pressed(desk, index),
{
}

/// **A key's label is the key's code**: the F-row's are F13 to F24, and the
/// numpad's the same again under Ctrl and Shift.
pub proof fn a_label_is_the_keys_code(index: int)
    requires
        0 <= index < 24,
    ensures
        index < 12 ==> label_of(index) == "F"@ + decimal((13 + index) as nat),
        index >= 12 ==> label_of(index) == "Ctrl+Shift+"@ + label_of(index - 12),
{
    reveal_strlit("F");
    reveal_strlit("Ctrl+Shift+F");
    reveal_strlit("Ctrl+Shift+");
    if index >= 12 {
        assert("Ctrl+Shift+F"@ =~= "Ctrl+Shift+"@ + "F"@);
        let code = decimal((13 + index - 12) as nat);
        assert("Ctrl+Shift+F"@ + code =~= "Ctrl+Shift+"@ + ("F"@ + code));
    }
}

} // verus!
