//! What the numpad shows: the top line and the agent column.
//!
//! Unlike the F-row this surface paints on its own terms, the way the deck
//! does: selection, lock and the foreground of a Waiting agent's terminal all
//! change without any lane changing state.

use vstd::prelude::*;

use crate::settings::{NUMPAD_LANES, Rgb, Settings, Setup, Tuning};
use crate::state::State;
use crate::surface::keychron::hid::Found;
use crate::surface::keychron::session::{DIFFERENT_BOARD, Remembered, Snapshot, V0_ULTRA};
use crate::surface::keychron::surface::model_of;
use crate::surface::palette::{
    self, black, color_at, color_of, fading, lane_key, m_color, state_at, state_of, tuned,
};
use crate::text::{self, hex_word, list_text};

verus! {

/// How this surface names itself in the window.
pub const SURFACE: &'static str = "V0 Ultra";

/// The keys by position: the four shape keys are the top line…
pub const TOP_KEYS: usize = 4;

/// …then one M key per lane.
pub const KEYS: usize = 9;

/// How many lanes the column shows.
pub open spec fn column(setup: Setup) -> int {
    if setup.lane_count < NUMPAD_LANES {
        setup.lane_count as int
    } else {
        NUMPAD_LANES as int
    }
}

/// Whether what a lane's M key shows depends on where its terminal is.
pub open spec fn asks(
    selected: Option<usize>,
    locked: bool,
    states: Seq<Option<State>>,
    setup: Setup,
    lane: int,
) -> bool {
    &&& 0 <= lane < column(setup)
    &&& state_at(states, lane) == Some(State::Waiting)
    &&& !(locked && selected == Some(lane as usize))
}

/// The colour of key `key` of the nine.
///
/// Keys 0 to 3 are the top line: the classic four-key lane pattern of the
/// displayed agent, dark when nothing is displayed. Keys 4 to 8 are the M
/// column: one agent per key, the selected one lifted, the locked one fading
/// colour-to-white, a lane past the shown count dark.
pub open spec fn key_of_nine(
    selected: Option<usize>,
    locked: bool,
    states: Seq<Option<State>>,
    setup: Setup,
    elapsed_ms: u64,
    in_front: Seq<bool>,
    key: int,
) -> Rgb {
    let lane = key - TOP_KEYS;
    if key < TOP_KEYS {
        match selected {
            Some(lane) => lane_key(
                state_at(states, lane as int),
                color_at(setup, lane as int),
                key,
                TOP_KEYS as int,
                elapsed_ms,
            ),
            None => lane_key(None, black(), key, TOP_KEYS as int, elapsed_ms),
        }
    } else if lane >= column(setup) {
        black()
    } else if locked && selected == Some(lane as usize) && state_at(states, lane) is Some {
        fading(color_at(setup, lane), elapsed_ms)
    } else {
        m_color(
            state_at(states, lane),
            color_at(setup, lane),
            elapsed_ms,
            selected == Some(lane as usize),
            asks(selected, locked, states, setup, lane) && lane < in_front.len() && in_front[lane],
        )
    }
}

/// The lanes whose terminals the next frame needs to know about, in order.
pub open spec fn asking(
    selected: Option<usize>,
    locked: bool,
    states: Seq<Option<State>>,
    setup: Setup,
    upto: int,
) -> Seq<usize>
    decreases upto,
{
    if upto <= 0 {
        seq![]
    } else {
        let before = asking(selected, locked, states, setup, upto - 1);
        if asks(selected, locked, states, setup, upto - 1) {
            before.push((upto - 1) as usize)
        } else {
            before
        }
    }
}

fn lanes_shown(settings: &Settings) -> (r: usize)
    ensures
        r == column(settings@),
{
    if settings.lane_count < NUMPAD_LANES {
        settings.lane_count
    } else {
        NUMPAD_LANES
    }
}

fn is_lane(selected: Option<usize>, lane: usize) -> (r: bool)
    ensures
        r == (selected == Some(lane)),
{
    match selected {
        Some(at) => at == lane,
        None => false,
    }
}

fn is_waiting(state: Option<State>) -> (r: bool)
    ensures
        r == (state == Some(State::Waiting)),
{
    match state {
        Some(State::Waiting) => true,
        _ => false,
    }
}

/// The lanes whose terminals to look for before [`compose`].
pub fn asked(
    selected: Option<usize>,
    locked: bool,
    states: &Vec<Option<State>>,
    settings: &Settings,
) -> (lanes: Vec<usize>)
    ensures
        lanes@ == asking(selected, locked, states@, settings@, NUMPAD_LANES as int),
{
    let shown: usize = lanes_shown(settings);
    let mut lanes: Vec<usize> = Vec::new();
    let mut lane: usize = 0;
    while lane < NUMPAD_LANES
        invariant
            lane <= NUMPAD_LANES,
            shown == column(settings@),
            lanes@ == asking(selected, locked, states@, settings@, lane as int),
        decreases NUMPAD_LANES - lane,
    {
        let pinned: bool = locked && is_lane(selected, lane);
        if lane < shown && is_waiting(state_of(states, lane)) && !pinned {
            lanes.push(lane);
        }
        lane = lane + 1;
    }
    lanes
}

/// One numpad frame, untuned and by key position. `in_front` says, lane by
/// lane, whose terminal is the foreground window; only what [`asked`] names
/// is read.
pub fn compose(
    selected: Option<usize>,
    locked: bool,
    states: &Vec<Option<State>>,
    settings: &Settings,
    elapsed_ms: u64,
    in_front: &Vec<bool>,
) -> (keys: Vec<(usize, Rgb)>)
    ensures
        keys@ == Seq::new(
            KEYS as nat,
            |key: int|
                (
                    key as usize,
                    key_of_nine(
                        selected,
                        locked,
                        states@,
                        settings@,
                        elapsed_ms,
                        in_front@,
                        key,
                    ),
                ),
        ),
{
    let mut keys: Vec<(usize, Rgb)> = Vec::new();
    let shown: usize = lanes_shown(settings);
    let top = match selected {
        Some(lane) => palette::lane_colors(
            state_of(states, lane),
            color_of(settings, lane),
            TOP_KEYS,
            elapsed_ms,
        ),
        None => palette::lane_colors(None, palette::off(), TOP_KEYS, elapsed_ms),
    };
    let mut key: usize = 0;
    while key < KEYS
        invariant
            key <= KEYS,
            shown == column(settings@),
            top@ == Seq::new(
                TOP_KEYS as nat,
                |i: int|
                    key_of_nine(selected, locked, states@, settings@, elapsed_ms, in_front@, i),
            ),
            keys@ =~= Seq::new(
                key as nat,
                |i: int|
                    (
                        i as usize,
                        key_of_nine(
                            selected,
                            locked,
                            states@,
                            settings@,
                            elapsed_ms,
                            in_front@,
                            i,
                        ),
                    ),
            ),
        decreases KEYS - key,
    {
        let color: Rgb = if key < TOP_KEYS {
            top[key]
        } else {
            let lane: usize = key - TOP_KEYS;
            if lane >= shown {
                palette::off()
            } else {
                let state = state_of(states, lane);
                let is_selected: bool = is_lane(selected, lane);
                if locked && is_selected && state.is_some() {
                    palette::lock_blend(color_of(settings, lane), elapsed_ms)
                } else {
                    let focused: bool = is_waiting(state) && lane < in_front.len()
                        && in_front[lane];
                    palette::m_key(
                        state,
                        color_of(settings, lane),
                        elapsed_ms,
                        is_selected,
                        focused,
                    )
                }
            }
        };
        keys.push((key, color));
        key = key + 1;
    }
    keys
}

/// A frame with the device's own brightness and colour balance on every key.
pub fn balance(keys: &Vec<(usize, Rgb)>, tuning: Tuning) -> (r: Vec<(usize, Rgb)>)
    ensures
        r@ == keys@.map_values(|key: (usize, Rgb)| (key.0, tuned(key.1, tuning))),
{
    let mut out: Vec<(usize, Rgb)> = Vec::new();
    let mut i: usize = 0;
    while i < keys.len()
        invariant
            i <= keys@.len(),
            out@ =~= keys@.take(i as int).map_values(
                |key: (usize, Rgb)| (key.0, tuned(key.1, tuning)),
            ),
        decreases keys@.len() - i,
    {
        out.push((keys[i].0, palette::tune(keys[i].1, tuning)));
        i = i + 1;
    }
    assert(keys@.take(keys@.len() as int) =~= keys@);
    out
}

/// Whether a stored snapshot is the numpad's: it has a colour for each of the
/// numpad's LEDs and no more.
pub open spec fn restores(kept: Remembered) -> bool {
    Some(kept.colours.len() as int) == match V0_ULTRA.leds_expected() {
        Some(leds) => Some(leds as int),
        None => Some(0int),
    }
}

/// The cross-restore guard: whatever a file claims, it only restores a board
/// with the numpad's LED count.
pub fn restorable(snapshot: &Snapshot) -> (r: bool)
    ensures
        r == restores(snapshot@),
{
    let leds: u8 = match V0_ULTRA.expect_leds() {
        Some(leds) => leds,
        None => 0,
    };
    snapshot.colours.len() == leds as usize
}

/// Whether a failed handshake means somebody else's board rather than a
/// broken one: the F-row's Ultra answers this handshake too.
pub fn is_somebody_elses(error: &str) -> (r: bool)
    ensures
        r == text::ends(error@, DIFFERENT_BOARD@),
{
    text::ends_with(error, DIFFERENT_BOARD)
}

/// Why no board was taken: one that errored is a board that may be ours and is
/// not answering; none at all — or only the F-row's — is simply absence.
pub fn not_taken(errored: bool) -> (r: &'static str)
    ensures
        r@ == (if errored {
            "not responding — retrying"@
        } else {
            "not detected"@
        }),
{
    if errored {
        "not responding — retrying"
    } else {
        "not detected"
    }
}

/// What the window says of a numpad that is being driven.
pub fn driving_sentence(model: &str) -> (r: String)
    ensures
        r@ == model@ + ": the four shape keys and M1–M5"@,
{
    let mut sentence = model.to_owned();
    sentence.push_str(": the four shape keys and M1–M5");
    sentence
}

/// The line `doctor` has for a numpad that answered.
pub fn describe(found: &Found, firmware: &str, leds: &Vec<u8>) -> (line: String)
    ensures
        line@ == found.product@ + " over "@ + found.way() + " (pid "@ + hex_word(found.product_id)
            + "): firmware "@ + firmware@ + ", the nine at "@ + list_text(leds@),
{
    let mut line = model_of(found);
    line.push_str(" (pid ");
    line.push_str(text::hex_of_word(found.product_id).as_str());
    line.push_str("): firmware ");
    line.push_str(firmware);
    line.push_str(", the nine at ");
    line.push_str(text::list_of(leds).as_str());
    line
}

/// **A terminal is looked for only where it matters**: two looks that agree on
/// every lane that asks make the same frame.
pub proof fn only_a_waiting_lane_asks_about_its_terminal(
    selected: Option<usize>,
    locked: bool,
    states: Seq<Option<State>>,
    setup: Setup,
    elapsed_ms: u64,
    one: Seq<bool>,
    other: Seq<bool>,
    key: int,
)
    requires
        one.len() == other.len(),
        forall|lane: int|
            0 <= lane < one.len() && asks(selected, locked, states, setup, lane)
                ==> #[trigger] one[lane] == #[trigger] other[lane],
    ensures
        key_of_nine(selected, locked, states, setup, elapsed_ms, one, key) == key_of_nine(
            selected,
            locked,
            states,
            setup,
            elapsed_ms,
            other,
            key,
        ),
{
}

/// **The lock shows on its own key only**: pinning the selection changes at
/// most the selected lane's M key, and never the top line.
pub proof fn the_lock_shows_on_its_own_key_only(
    selected: Option<usize>,
    states: Seq<Option<State>>,
    setup: Setup,
    elapsed_ms: u64,
    in_front: Seq<bool>,
    key: int,
)
    requires
        0 <= key < KEYS,
        selected matches Some(lane) ==> key != TOP_KEYS + lane,
    ensures
        key_of_nine(selected, true, states, setup, elapsed_ms, in_front, key) == key_of_nine(
            selected,
            false,
            states,
            setup,
            elapsed_ms,
            in_front,
            key,
        ),
{
}

/// **The four keys on top are the selected lane's, and key `n` of the column
/// is lane `n`'s**: what any other lane is doing changes none of the top row,
/// and a key of the column changes with its own lane alone.
pub proof fn each_key_of_the_nine_shows_its_lane(
    selected: Option<usize>,
    locked: bool,
    states: Seq<Option<State>>,
    others: Seq<Option<State>>,
    setup: Setup,
    elapsed_ms: u64,
    in_front: Seq<bool>,
    key: int,
)
    requires
        0 <= key < 9,
        states.len() == others.len(),
        key < 4 ==> (selected matches Some(lane) ==> lane < states.len() && states[lane as int]
            == others[lane as int]),
        key >= 4 ==> key - 4 < states.len() && states[key - 4] == others[key - 4],
    ensures
        key_of_nine(selected, locked, states, setup, elapsed_ms, in_front, key) == key_of_nine(
            selected,
            locked,
            others,
            setup,
            elapsed_ms,
            in_front,
            key,
        ),
        key < 4 && selected is None ==> key_of_nine(
            selected,
            locked,
            states,
            setup,
            elapsed_ms,
            in_front,
            key,
        ) == (Rgb { r: 0, g: 0, b: 0 }),
        key < 4 ==> (selected matches Some(lane) ==> key_of_nine(
            selected,
            locked,
            states,
            setup,
            elapsed_ms,
            in_front,
            key,
        ) == lane_key(
            states[lane as int],
            if lane < setup.lanes.len() {
                setup.lanes[lane as int].1
            } else {
                Rgb { r: 0, g: 0, b: 0 }
            },
            key,
            4,
            elapsed_ms,
        )),
{
}

/// **What a key of the column shows**: dark past the lanes there are and where
/// nobody sits, the fade where the lock holds its lane, and else what its lane
/// is doing, lifted where it is selected.
pub proof fn the_column_shows_the_lanes_there_are(
    selected: Option<usize>,
    locked: bool,
    states: Seq<Option<State>>,
    setup: Setup,
    elapsed_ms: u64,
    in_front: Seq<bool>,
    lane: usize,
)
    requires
        lane < 5,
    ensures
        ({
            let rgb = key_of_nine(
                selected,
                locked,
                states,
                setup,
                elapsed_ms,
                in_front,
                4 + lane as int,
            );
            let own = if lane < setup.lanes.len() {
                setup.lanes[lane as int].1
            } else {
                Rgb { r: 0, g: 0, b: 0 }
            };
            let dark = lane >= setup.lane_count || lane >= states.len() || states[lane as int]
                is None;
            &&& dark ==> rgb == (Rgb { r: 0, g: 0, b: 0 })
            &&& !dark && locked && selected == Some(lane) ==> rgb == fading(own, elapsed_ms)
            &&& !dark && !(locked && selected == Some(lane)) ==> rgb == m_color(
                states[lane as int],
                own,
                elapsed_ms,
                selected == Some(lane),
                states[lane as int] == Some(State::Waiting) && lane < in_front.len()
                    && in_front[lane as int],
            )
        }),
{
}

/// **Whose terminals are asked after**: each waiting lane of the column, once
/// and in order — but not the one that the lock holds.
pub proof fn the_waiting_lanes_are_asked_after(
    selected: Option<usize>,
    locked: bool,
    states: Seq<Option<State>>,
    setup: Setup,
    upto: int,
)
    requires
        0 <= upto <= 5,
    ensures
        ({
            let asked = asking(selected, locked, states, setup, upto);
            &&& forall|lane: usize|
                lane < upto ==> (#[trigger] asked.contains(lane) <==> (lane < setup.lane_count
                    && lane < states.len() && states[lane as int] == Some(State::Waiting) && !(locked
                    && selected == Some(lane))))
            &&& forall|i: int| 0 <= i < asked.len() ==> (#[trigger] asked[i]) < upto
            &&& forall|i: int, j: int|
                0 <= i < j < asked.len() ==> (#[trigger] asked[i]) < (#[trigger] asked[j])
        }),
    decreases upto,
{
    if upto > 0 {
        the_waiting_lanes_are_asked_after(selected, locked, states, setup, upto - 1);
        let before = asking(selected, locked, states, setup, upto - 1);
        let asked = asking(selected, locked, states, setup, upto);
        let last = (upto - 1) as usize;
        assert forall|lane: usize| lane < upto implies (#[trigger] asked.contains(lane) <==> (lane
            < setup.lane_count && lane < states.len() && states[lane as int] == Some(State::Waiting)
            && !(locked && selected == Some(lane)))) by {
            if before.contains(lane) {
                let i = choose|i: int| 0 <= i < before.len() && before[i] == lane;
                assert(asked[i] == lane);
            }
            if asked.contains(lane) && lane < last {
                let i = choose|i: int| 0 <= i < asked.len() && asked[i] == lane;
                assert(i < before.len() && before[i] == lane);
            }
            if lane == last {
                if asks(selected, locked, states, setup, upto - 1) {
                    assert(asked[before.len() as int] == last);
                } else {
                    assert(!before.contains(last));
                }
            }
        }
    }
}

/// **A pad is put back from what was read of all its LEDs**, which are 26.
pub proof fn a_pad_is_put_back_whole(kept: Remembered)
    ensures
        restores(kept) <==> kept.colours.len() == 26,
{
}

} // verus!
