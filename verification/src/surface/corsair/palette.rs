//! What the twelve keys look like, for one frame, by the SDK's LED ids.
//!
//! The lanes share the row between them: three lanes have four keys each,
//! four have three, six have two. What a lane's keys look like is the shared
//! palette's to say.

use vstd::prelude::*;

use super::surface::{F_ROW_FIRST_LUID, has_led, luid};
use crate::settings::{KEYS, Rgb, Settings, Setup};
use crate::single::{self, fraction};
use crate::state::State;
use crate::surface::palette::{color_at, color_of, dimmed, lane_key, scale, state_at, state_of};

pub use crate::surface::palette::lane_colors;

verus! {

/// Every LED id we are ever allowed to write, derived from [`luid`] so
/// "which keys are ours" has exactly one answer.
pub fn our_led_ids() -> (ids: Vec<u32>)
    ensures
        ids@ == Seq::new(KEYS as nat, |key: int| (F_ROW_FIRST_LUID + key) as u32),
{
    let mut ids: Vec<u32> = Vec::new();
    let mut key: usize = 0;
    while key < KEYS
        invariant
            key <= KEYS,
            ids@ =~= Seq::new(key as nat, |i: int| (F_ROW_FIRST_LUID + i) as u32),
        decreases KEYS - key,
    {
        ids.push(luid(key));
        key = key + 1;
    }
    ids
}

/// How many keys each lane has of the row.
pub open spec fn keys_each(lane_count: int) -> int {
    if lane_count <= 0 {
        0
    } else {
        KEYS as int / lane_count
    }
}

/// What one frame says of key `key`.
pub open spec fn led_shown(
    states: Seq<Option<State>>,
    setup: Setup,
    elapsed_ms: u64,
    key: int,
) -> Rgb {
    let keys = keys_each(setup.lane_count as int);
    let lane = key / keys;
    dimmed(
        lane_key(
            state_at(states, lane),
            color_at(setup, lane),
            key % keys,
            keys,
            elapsed_ms,
        ),
        fraction(setup.tuning.brightness),
    )
}

/// The first `upto` keys that the device has, each with its colour.
pub open spec fn leds_shown(
    states: Seq<Option<State>>,
    setup: Setup,
    elapsed_ms: u64,
    available: Seq<u32>,
    upto: int,
) -> Seq<(u32, Rgb)>
    decreases upto,
{
    if upto <= 0 {
        seq![]
    } else {
        let before = leds_shown(states, setup, elapsed_ms, available, upto - 1);
        let id = (F_ROW_FIRST_LUID + (upto - 1)) as u32;
        if available.contains(id) {
            before.push((id, led_shown(states, setup, elapsed_ms, upto - 1)))
        } else {
            before
        }
    }
}

/// One frame: which LED gets which colour.
///
/// **Only ever the twelve.** The SDK sets only the LEDs it is handed and
/// leaves the others alone, so naming twelve is all it takes to leave every
/// other key to the user's own profile.
///
/// `available` is what the device actually reports, so a keyboard without a
/// full F-row is never handed ids it does not have.
pub fn frame(
    states: &Vec<Option<State>>,
    settings: &Settings,
    elapsed_ms: u64,
    available: &Vec<u32>,
) -> (frame: Vec<(u32, Rgb)>)
    ensures
        frame@ == leds_shown(
            states@,
            settings@,
            elapsed_ms,
            available@,
            settings.lane_count * keys_each(settings.lane_count as int),
        ),
{
    let mut frame: Vec<(u32, Rgb)> = Vec::new();
    if settings.lane_count == 0 || settings.lane_count > KEYS {
        proof {
            let count = settings.lane_count as int;
            if count > KEYS {
                assert(KEYS as int / count == 0) by (nonlinear_arith)
                    requires
                        count > KEYS,
                ;
            }
            assert(count * keys_each(count) == 0) by (nonlinear_arith)
                requires
                    keys_each(count) == 0,
            ;
        }
        return frame;
    }
    let lanes: usize = settings.lane_count;
    let keys: usize = KEYS / lanes;
    let brightness = single::fraction_of(settings.tuning.brightness);
    assert(0 < keys && lanes * keys <= KEYS) by (nonlinear_arith)
        requires
            0 < lanes <= 12,
            KEYS == 12,
            keys == KEYS as int / lanes as int,
    ;
    let mut lane: usize = 0;
    while lane < lanes
        invariant
            lane <= lanes,
            lanes == settings.lane_count,
            0 < lanes <= 12,
            0 < keys <= 12,
            keys == keys_each(lanes as int),
            lanes * keys <= KEYS,
            brightness.fit(),
            brightness@ == fraction(settings@.tuning.brightness),
            frame@ == leds_shown(states@, settings@, elapsed_ms, available@, lane * keys),
        decreases lanes - lane,
    {
        let lane_color = color_of(settings, lane);
        let colors = lane_colors(state_of(states, lane), lane_color, keys, elapsed_ms);
        let mut offset: usize = 0;
        assert(lane * keys + 0 == lane * keys);
        while offset < keys
            invariant
                lane < lanes,
                lanes == settings.lane_count,
                0 < lanes <= 12,
                0 < keys <= 12,
                keys == keys_each(lanes as int),
                lanes * keys <= KEYS,
                brightness.fit(),
                brightness@ == fraction(settings@.tuning.brightness),
                offset <= keys,
                lane_color == color_at(settings@, lane as int),
                colors@ == Seq::new(
                    keys as nat,
                    |i: int|
                        lane_key(
                            state_at(states@, lane as int),
                            lane_color,
                            i,
                            keys as int,
                            elapsed_ms,
                        ),
                ),
                frame@ == leds_shown(
                    states@,
                    settings@,
                    elapsed_ms,
                    available@,
                    lane * keys + offset,
                ),
            decreases keys - offset,
        {
            assert(lane * keys + offset < lanes * keys) by (nonlinear_arith)
                requires
                    lane < lanes,
                    offset < keys,
            ;
            assert(0 <= lane * keys) by (nonlinear_arith);
            let key: usize = lane * keys + offset;
            proof {
                vstd::arithmetic::div_mod::lemma_fundamental_div_mod_converse(
                    key as int,
                    keys as int,
                    lane as int,
                    offset as int,
                );
            }
            let id: u32 = luid(key);
            if has_led(available, id) {
                frame.push((id, scale(colors[offset], brightness)));
            }
            offset = offset + 1;
        }
        assert(lane * keys + keys == (lane + 1) * keys) by (nonlinear_arith);
        lane = lane + 1;
    }
    frame
}

/// **Only ever the twelve**: a frame names no LED outside the F-row and none
/// the device does not report, each at most once and in the order of the row.
pub proof fn a_frame_names_only_our_leds(
    states: Seq<Option<State>>,
    setup: Setup,
    elapsed_ms: u64,
    available: Seq<u32>,
    upto: int,
)
    requires
        upto <= KEYS,
    ensures
        forall|i: int|
            0 <= i < leds_shown(states, setup, elapsed_ms, available, upto).len() ==> {
                let id = (#[trigger] leds_shown(states, setup, elapsed_ms, available, upto)[i]).0;
                F_ROW_FIRST_LUID <= id < F_ROW_FIRST_LUID + upto && available.contains(id)
            },
        forall|i: int, j: int|
            0 <= i < j < leds_shown(states, setup, elapsed_ms, available, upto).len() ==> (
            #[trigger] leds_shown(states, setup, elapsed_ms, available, upto)[i]).0 < (
            #[trigger] leds_shown(states, setup, elapsed_ms, available, upto)[j]).0,
    decreases upto,
{
    if upto > 0 {
        a_frame_names_only_our_leds(states, setup, elapsed_ms, available, upto - 1);
        let before = leds_shown(states, setup, elapsed_ms, available, upto - 1);
        let after = leds_shown(states, setup, elapsed_ms, available, upto);
        assert forall|i: int| 0 <= i < after.len() implies {
            let id = (#[trigger] after[i]).0;
            F_ROW_FIRST_LUID <= id < F_ROW_FIRST_LUID + upto && available.contains(id)
        } by {
            if i < before.len() {
                assert(after[i] == before[i]);
            }
        }
        assert forall|i: int, j: int| 0 <= i < j < after.len() implies (#[trigger] after[i]).0 < (
        #[trigger] after[j]).0 by {
            assert(after[i] == before[i]);
            if j < before.len() {
                assert(after[j] == before[j]);
            }
        }
    }
}

/// **Twelve keys shared out evenly**: each lane has as many neighbouring keys
/// as the next, and an LED shows the lane its key belongs to — the lane's own
/// colour on the first of its keys where it is done or waits, nothing where
/// nobody sits.
pub proof fn an_led_shows_its_lane(
    states: Seq<Option<State>>,
    others: Seq<Option<State>>,
    setup: Setup,
    elapsed_ms: u64,
    lane: int,
    place: int,
    keys: int,
)
    requires
        0 < setup.lane_count <= 12,
        keys * setup.lane_count <= 12 < (keys + 1) * setup.lane_count,
        0 <= lane < setup.lane_count,
        0 <= place < keys,
        lane < states.len(),
        lane < others.len(),
        states[lane] == others[lane],
    ensures
        ({
            let rgb = led_shown(states, setup, elapsed_ms, keys * lane + place);
            let own = if lane < setup.lanes.len() {
                setup.lanes[lane].1
            } else {
                Rgb { r: 0, g: 0, b: 0 }
            };
            let level = fraction(setup.tuning.brightness);
            &&& rgb == led_shown(others, setup, elapsed_ms, keys * lane + place)
            &&& rgb == dimmed(lane_key(states[lane], own, place, keys, elapsed_ms), level)
        }),
{
    let count = setup.lane_count as int;
    assert(keys_each(count) == keys) by (nonlinear_arith)
        requires
            keys_each(count) == 12int / count,
            0 < count,
            keys * count <= 12 < (keys + 1) * count,
    ;
    let key = keys * lane + place;
    vstd::arithmetic::div_mod::lemma_fundamental_div_mod_converse(key, keys, lane, place);
}

/// **Every LED that is there is lit**, and by the lane whose key it is: the
/// LED of key `n` is number `n + 2`.
pub proof fn every_led_there_is_lit(
    states: Seq<Option<State>>,
    setup: Setup,
    elapsed_ms: u64,
    available: Seq<u32>,
    upto: int,
    key: int,
)
    requires
        0 <= key < upto <= 12,
    ensures
        available.contains((key + 2) as u32) <==> leds_shown(
            states,
            setup,
            elapsed_ms,
            available,
            upto,
        ).contains(((key + 2) as u32, led_shown(states, setup, elapsed_ms, key))),
    decreases upto,
{
    let all = leds_shown(states, setup, elapsed_ms, available, upto);
    let before = leds_shown(states, setup, elapsed_ms, available, upto - 1);
    let said = ((key + 2) as u32, led_shown(states, setup, elapsed_ms, key));
    a_frame_names_only_our_leds(states, setup, elapsed_ms, available, upto);
    if all.contains(said) {
        let i = choose|i: int| 0 <= i < all.len() && all[i] == said;
        assert(available.contains(all[i].0));
    }
    if available.contains((key + 2) as u32) {
        if key == upto - 1 {
            assert(all[before.len() as int] == said);
        } else {
            every_led_there_is_lit(states, setup, elapsed_ms, available, upto - 1, key);
            let i = choose|i: int| 0 <= i < before.len() && before[i] == said;
            assert(all[i] == said);
        }
    }
}

} // verus!
