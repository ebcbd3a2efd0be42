//! What the twelve keys look like, for one frame.
//!
//! Pure arithmetic and no device: it names keys by their position on the
//! F-row, 0 through 11, and never an LED id. Each surface maps a key index to
//! whatever its keyboard calls that LED and hands the result across its own
//! boundary — so a second keyboard is a second mapping, not a second palette.
//!
//! **The lane's colour is the base for everything**, and a change of colour
//! only ever means trouble: dark red is Error, bright red is Interrupted, and
//! nothing else on the row is allowed to be red. Everything ordinary — idle,
//! working, finished, being asked a question — is the lane's own colour at some
//! brightness and in some motion, which is what lets a glance answer "which
//! lane" and "how bad" as two separate questions.
//!
//! A brightness is a number of single precision; a channel is what it comes to,
//! to the nearest, halves up.

use vstd::arithmetic::power2::pow2;
use vstd::prelude::*;

use crate::keys::{Press, row_press};
use crate::settings::{Gain, KEYBOARD_LANES, KEYS_PER_LANE, Rgb, Settings, Setup, Tuning};
use crate::single::{
    self, Single, channel, channel_back, channel_ordered, difference, floated, fraction, near,
    of_channel, one, product, quotient, ratio, sum,
};
use crate::state::State;

verus! {

/// One full circuit of Running's travelling light.
pub const SCANNER_PERIOD_MS: u64 = 1400;

/// One double-pulse cycle of Waiting: two beats, then quiet. Short enough that
/// the beats read as urgent, which nothing else on the board is allowed to.
pub const PULSE_PERIOD_MS: u64 = 1200;

/// One low-to-full breathe of a Running agent on a single key — the numpad's
/// M column, where a lane is one key and the scanner has nowhere to travel.
pub const BREATHE_PERIOD_MS: u64 = 2000;

/// One single-pulse cycle of Done on a single key: a beat, then a long quiet.
/// Slower than Waiting's urgent pair — finished is news, not a question.
pub const DONE_PERIOD_MS: u64 = 2400;

/// One colour-to-white-and-back fade of the locked agent's key.
pub const LOCK_PERIOD_MS: u64 = 2400;

/// A lane with no session. The one colour that is not a preference: darkness is
/// how the row says nothing is there.
pub open spec fn black() -> Rgb {
    Rgb { r: 0, g: 0, b: 0 }
}

/// Error. Fixed, not a setting — red only means anything if nothing else may
/// use it, which is also why lane colours are asked to stay away from it. The
/// deep shade, by the owner's eye on the real keys.
pub open spec fn deep_red() -> Rgb {
    Rgb { r: 110, g: 0, b: 0 }
}

/// Interrupted: something stopped part-way and is waiting to be resumed.
pub open spec fn light_red() -> Rgb {
    Rgb { r: 255, g: 40, b: 40 }
}

/// The colour of a lane with no session.
pub fn off() -> (rgb: Rgb)
    ensures
        rgb == black(),
{
    Rgb { r: 0, g: 0, b: 0 }
}

/// The colour of Error.
pub fn dark_red() -> (rgb: Rgb)
    ensures
        rgb == deep_red(),
{
    Rgb { r: 110, g: 0, b: 0 }
}

/// The colour of Interrupted.
pub fn bright_red() -> (rgb: Rgb)
    ensures
        rgb == light_red(),
{
    Rgb { r: 255, g: 40, b: 40 }
}

/// The whole number nearest `n / d`; of two as near, the larger.
pub open spec fn rounded(n: nat, d: nat) -> nat {
    (2 * n + d) / (2 * d)
}

/// No more than all of it.
pub open spec fn at_most_one(factor: nat) -> nat {
    if factor <= one() {
        factor
    } else {
        one()
    }
}

/// A colour at `factor` of its brightness, and no more than all of it.
pub open spec fn dimmed(color: Rgb, factor: nat) -> Rgb {
    let f = at_most_one(factor);
    Rgb {
        r: channel(product(of_channel(color.r), f)),
        g: channel(product(of_channel(color.g), f)),
        b: channel(product(of_channel(color.b), f)),
    }
}

/// One, and what it is not more than.
fn unit() -> (r: Single)
    ensures
        r.wf(),
        r.e <= 300,
        r@ == one(),
{
    assert(1 * one() == one());
    single::whole(1)
}

fn of_byte(value: u8) -> (r: Single)
    ensures
        r.wf(),
        r.e <= 300,
        r@ == of_channel(value),
{
    single::whole(value as u64)
}

pub fn scale(color: Rgb, factor: Single) -> (r: Rgb)
    requires
        factor.fit(),
    ensures
        r == dimmed(color, factor@),
{
    let f = factor.min(unit());
    Rgb {
        r: of_byte(color.r).times(f).channel(),
        g: of_byte(color.g).times(f).channel(),
        b: of_byte(color.b).times(f).channel(),
    }
}

/// The resting glow: how bright "present, nothing to report" sits, a fifth.
pub open spec fn resting() -> nat {
    ratio(1, 5)
}

/// What a beat adds at its height: all that the glow leaves.
pub open spec fn above_resting() -> nat {
    difference(one(), resting())
}

/// How bright the resting glow is.
pub fn rest() -> (r: Single)
    ensures
        r.wf(),
        r.e <= 300,
        r@ == resting(),
{
    single::ratio_of(1, 5)
}

pub open spec fn glow(color: Rgb) -> Rgb {
    dimmed(color, resting())
}

/// The lane's colour at the resting glow — what "present, nothing to report"
/// looks like, for a surface that needs the shade by itself.
pub fn base(lane_color: Rgb) -> (r: Rgb)
    ensures
        r == glow(lane_color),
{
    scale(lane_color, rest())
}

/// A share of one is no more than one.
proof fn a_phase_is_no_more(n: nat, d: nat)
    requires
        n <= d,
        0 < d,
    ensures
        ratio(n, d) <= one(),
{
    vstd::arithmetic::power2::lemma_pow2_pos(149);
    assert((n * one()) * 1 <= one() * d) by (nonlinear_arith)
        requires
            n <= d,
            one() > 0,
    ;
    single::near_ordered(n * one(), d, one(), 1);
    channel_back(1);
    assert(1 * one() == one());
}

/// Where in its period a motion is.
pub open spec fn phase(elapsed_ms: nat, period: nat) -> nat {
    ratio(elapsed_ms % period, period)
}

/// A triangle wave, up to one and back to nothing.
pub open spec fn swing(elapsed_ms: nat, period: nat) -> nat {
    let at = phase(elapsed_ms, period);
    if at < ratio(1, 2) {
        product(at, 2 * one())
    } else {
        product(difference(one(), at), 2 * one())
    }
}

/// Two beats and a rest. Reads as deliberate rather than as a pulse that lost
/// its rhythm.
pub open spec fn two_beats(elapsed_ms: nat, period: nat) -> nat {
    if phase(elapsed_ms, period) < ratio(1, 2) {
        swing(elapsed_ms % period * 4, period)
    } else {
        0
    }
}

/// One beat and a rest — [`two_beats`]' calm sibling.
pub open spec fn one_beat(elapsed_ms: nat, period: nat) -> nat {
    if phase(elapsed_ms, period) < ratio(1, 4) {
        swing(elapsed_ms % period * 4, period)
    } else {
        0
    }
}

fn phase_of(elapsed_ms: u64, period: u64) -> (at: Single)
    requires
        0 < period < 10000,
    ensures
        at.wf(),
        at.e <= 300,
        at@ == phase(elapsed_ms as nat, period as nat),
        at@ <= one(),
{
    proof {
        a_phase_is_no_more(elapsed_ms as nat % period as nat, period as nat);
    }
    single::ratio_of((elapsed_ms % period) as u32, period as u32)
}

fn triangle(elapsed_ms: u64, period: u64) -> (level: Single)
    requires
        0 < period < 10000,
    ensures
        level.wf(),
        level.e <= 3000,
        level@ == swing(elapsed_ms as nat, period as nat),
{
    let at = phase_of(elapsed_ms, period);
    if at.below(single::ratio_of(1, 2)) {
        at.times(single::whole(2))
    } else {
        unit().minus(at).times(single::whole(2))
    }
}

fn double_pulse(elapsed_ms: u64, period: u64) -> (level: Single)
    requires
        0 < period < 10000,
    ensures
        level.wf(),
        level.e <= 3000,
        level@ == two_beats(elapsed_ms as nat, period as nat),
{
    if phase_of(elapsed_ms, period).below(single::ratio_of(1, 2)) {
        triangle(elapsed_ms % period * 4, period)
    } else {
        single::whole(0)
    }
}

fn single_pulse(elapsed_ms: u64, period: u64) -> (level: Single)
    requires
        0 < period < 10000,
    ensures
        level.wf(),
        level.e <= 3000,
        level@ == one_beat(elapsed_ms as nat, period as nat),
{
    if phase_of(elapsed_ms, period).below(single::ratio_of(1, 4)) {
        triangle(elapsed_ms % period * 4, period)
    } else {
        single::whole(0)
    }
}

/// How far apart two places are.
pub open spec fn apart(a: nat, b: nat) -> nat {
    if a >= b {
        difference(a, b)
    } else {
        difference(b, a)
    }
}

/// How far key `index` of `keys` is from the travelling light, at most one
/// slot; there is one slot more than there are keys.
///
/// That extra slot is the whole trick: with one slot per key the light has to
/// jump from the last key straight back to the first, and however smoothly it
/// crossfades, the wrap is always a pop. The extra slot is where it sits while
/// it is off the lane — it leaves past the right-hand key, is nowhere for a
/// moment, and arrives at the left-hand one.
pub open spec fn distance(elapsed_ms: nat, period: nat, index: nat, keys: nat) -> nat {
    let slots = sum(floated(keys), one());
    let place = product(phase(elapsed_ms, period), slots);
    let raw = apart(place, floated(index));
    let round = if raw <= slots {
        difference(slots, raw)
    } else {
        0
    };
    at_most_one(
        if raw <= round {
            raw
        } else {
            round
        },
    )
}

/// How lit a key is with the light where it is now: all of it under the light,
/// none a whole slot away, eased in between — the smallest steps at the ends,
/// where something appearing or vanishing is most conspicuous.
pub open spec fn lit(elapsed_ms: nat, period: nat, index: nat, keys: nat) -> nat {
    let t = difference(one(), distance(elapsed_ms, period, index, keys));
    product(product(t, t), difference(3 * one(), product(2 * one(), t)))
}

/// Twice what is no more than one is no more than three.
proof fn twice_is_under_three(t: nat)
    requires
        t <= one(),
    ensures
        product(2 * one(), t) <= 3 * one(),
{
    vstd::arithmetic::power2::lemma_pow2_pos(149);
    single::product_ordered(2 * one(), t, 2 * one(), one());
    channel_back(2);
    single::product_one(2 * one());
}

fn scanner_weight(elapsed_ms: u64, index: usize, keys: usize) -> (w: Single)
    requires
        index < keys,
    ensures
        w.wf(),
        w.e <= 0x10_0000,
        w@ == lit(elapsed_ms as nat, SCANNER_PERIOD_MS as nat, index as nat, keys as nat),
{
    let slots = single::whole(keys as u64).plus(unit());
    let place = phase_of(elapsed_ms, SCANNER_PERIOD_MS).times(slots);
    let key = single::whole(index as u64);
    let raw = if place.below(key) { key.minus(place) } else { place.minus(key) };
    let round = if slots.below(raw) { single::whole(0) } else { slots.minus(raw) };
    let far = raw.min(round).min(unit());
    let t = unit().minus(far);
    proof {
        single::near_ordered((one() - far@) as nat, 1, one(), 1);
        channel_back(1);
        twice_is_under_three(t@);
    }
    t.times(t).times(single::whole(3).minus(single::whole(2).times(t)))
}

/// Key `index` of a lane's `keys` — the owner's table.
///
/// For every state that has something to report, the leftmost key holds the
/// lane's colour at full brightness: that is which lane is talking. Connected
/// and Running have nothing to report, so they get no marker — the whole lane
/// is simply its colour, resting or with the runner crossing it.
pub open spec fn lane_key(
    state: Option<State>,
    color: Rgb,
    index: int,
    keys: int,
    elapsed_ms: u64,
) -> Rgb {
    match state {
        None => black(),
        Some(State::Connected) => glow(color),
        Some(State::Running) => {
            // The runner rides over the resting glow: never below it, and all
            // of the colour under the light itself.
            let w = lit(elapsed_ms as nat, SCANNER_PERIOD_MS as nat, index as nat, keys as nat);
            dimmed(
                color,
                if resting() >= w {
                    resting()
                } else {
                    w
                },
            )
        },
        Some(State::Waiting) => if index == 0 {
            color
        } else {
            dimmed(color, over_glow(two_beats(elapsed_ms as nat, PULSE_PERIOD_MS as nat)))
        },
        Some(State::Done) => if index == 0 {
            color
        } else {
            glow(color)
        },
        Some(State::Error) => if index == 0 {
            color
        } else {
            deep_red()
        },
        Some(State::Interrupted) => if index == 0 {
            color
        } else {
            light_red()
        },
        // Nothing heard for a while: the lane keeps its seat but stops taking
        // the eye — one dim key says "still here", the rest go dark.
        Some(State::Idle) => if index == 0 {
            glow(color)
        } else {
            black()
        },
    }
}

/// How bright a beat is on top of the glow.
pub open spec fn over_glow(beat: nat) -> nat {
    sum(resting(), product(above_resting(), beat))
}

fn rest_of() -> (r: Single)
    ensures
        r.wf(),
        r.e <= 1000,
        r@ == above_resting(),
        0 < r@,
{
    proof {
        a_phase_is_no_more(1, 5);
        something_above();
    }
    unit().minus(rest())
}

fn glowing(beat: Single) -> (r: Single)
    requires
        beat.fit(),
        beat.e <= 0x100_0000,
    ensures
        r.wf(),
        r.e <= beat.e + 5000,
        r@ == over_glow(beat@),
{
    rest().plus(rest_of().times(beat))
}

/// The colours of one lane's keys.
///
/// In Waiting the keys that beat after the marker are, on the F-row, exactly
/// the three answer keys: the pattern is the affordance, and needs no second
/// one.
pub fn lane_colors(
    state: Option<State>,
    lane_color: Rgb,
    keys: usize,
    elapsed_ms: u64,
) -> (colors: Vec<Rgb>)
    ensures
        colors@ == Seq::new(
            keys as nat,
            |i: int| lane_key(state, lane_color, i, keys as int, elapsed_ms),
        ),
{
    let mut colors: Vec<Rgb> = Vec::new();
    let mut i: usize = 0;
    while i < keys
        invariant
            i <= keys,
            colors@ =~= Seq::new(
                i as nat,
                |j: int| lane_key(state, lane_color, j, keys as int, elapsed_ms),
            ),
        decreases keys - i,
    {
        colors.push(key_color(state, lane_color, i, keys, elapsed_ms));
        i = i + 1;
    }
    colors
}

fn key_color(state: Option<State>, color: Rgb, index: usize, keys: usize, elapsed_ms: u64) -> (r: Rgb)
    requires
        index < keys,
    ensures
        r == lane_key(state, color, index as int, keys as int, elapsed_ms),
{
    match state {
        None => off(),
        Some(State::Connected) => base(color),
        Some(State::Running) => {
            let w = scanner_weight(elapsed_ms, index, keys);
            scale(color, rest().max(w))
        },
        Some(State::Waiting) => if index == 0 {
            color
        } else {
            scale(color, glowing(double_pulse(elapsed_ms, PULSE_PERIOD_MS)))
        },
        Some(State::Done) => if index == 0 {
            color
        } else {
            base(color)
        },
        Some(State::Error) => if index == 0 {
            color
        } else {
            dark_red()
        },
        Some(State::Interrupted) => if index == 0 {
            color
        } else {
            bright_red()
        },
        Some(State::Idle) => if index == 0 {
            base(color)
        } else {
            off()
        },
    }
}

/// The brighter floor the selected key's motion is lifted onto.
pub open spec fn floor() -> nat {
    ratio(11, 20)
}

/// A brightness, lifted from the glow to the brighter floor where the key is
/// selected.
pub open spec fn lifted(raw: nat, selected: bool) -> nat {
    if selected {
        let over = if raw <= resting() {
            0
        } else {
            quotient(difference(raw, resting()), above_resting())
        };
        sum(floor(), product(difference(one(), floor()), at_most_one(over)))
    } else {
        raw
    }
}

/// One agent as one key.
pub open spec fn m_color(
    state: Option<State>,
    color: Rgb,
    elapsed_ms: u64,
    selected: bool,
    terminal_foreground: bool,
) -> Rgb {
    let e = elapsed_ms as nat;
    match state {
        None => black(),
        Some(State::Error) => deep_red(),
        Some(State::Interrupted) => light_red(),
        Some(State::Connected) | Some(State::Idle) => dimmed(color, lifted(resting(), selected)),
        Some(State::Running) => dimmed(color, lifted(over_glow(swing(e, 2000)), selected)),
        Some(State::Waiting) => if terminal_foreground {
            dimmed(color, lifted(one(), selected))
        } else {
            dimmed(color, lifted(over_glow(two_beats(e, 1200)), selected))
        },
        Some(State::Done) => dimmed(color, lifted(over_glow(one_beat(e, 2400)), selected)),
    }
}

fn level(raw: Single, selected: bool) -> (r: Single)
    requires
        raw.fit(),
        raw.e <= 0x100_0000,
    ensures
        r.wf(),
        r.e <= 0x1000_0000,
        r@ == lifted(raw@, selected),
{
    if !selected {
        return raw;
    }
    let resting = rest();
    let over = if resting.below(raw) {
        raw.minus(resting).over(rest_of())
    } else {
        single::whole(0)
    };
    let floor = single::ratio_of(11, 20);
    proof {
        a_phase_is_no_more(11, 20);
    }
    floor.plus(unit().minus(floor).times(over.min(unit())))
}

/// One agent as one key — the numpad's M column. The owner's table:
/// Connected and Idle rest at the glow; Running breathes low to full; Waiting
/// double-pulses, unless the agent's terminal is the foreground window, in
/// which case the key holds full and the top line does the pulsing; Done
/// beats once a cycle; Error and Interrupted are the fixed reds, steady. The
/// selected agent's key carries the same motion lifted onto a brighter floor,
/// which is how the column says which agent the top line is showing.
pub fn m_key(
    state: Option<State>,
    lane_color: Rgb,
    elapsed_ms: u64,
    selected: bool,
    terminal_foreground: bool,
) -> (r: Rgb)
    ensures
        r == m_color(state, lane_color, elapsed_ms, selected, terminal_foreground),
{
    match state {
        None => off(),
        Some(State::Error) => dark_red(),
        Some(State::Interrupted) => bright_red(),
        Some(State::Connected) | Some(State::Idle) => scale(lane_color, level(rest(), selected)),
        Some(State::Running) => scale(
            lane_color,
            level(glowing(triangle(elapsed_ms, BREATHE_PERIOD_MS)), selected),
        ),
        Some(State::Waiting) => if terminal_foreground {
            scale(lane_color, level(unit(), selected))
        } else {
            scale(
                lane_color,
                level(glowing(double_pulse(elapsed_ms, PULSE_PERIOD_MS)), selected),
            )
        },
        Some(State::Done) => scale(
            lane_color,
            level(glowing(single_pulse(elapsed_ms, DONE_PERIOD_MS)), selected),
        ),
    }
}

/// A channel, `toward` of the way to white.
pub open spec fn whitened(value: u8, toward: nat) -> u8 {
    channel(sum(of_channel(value), product(difference(of_channel(255), of_channel(value)), toward)))
}

fn whiten(value: u8, toward: Single) -> (r: u8)
    requires
        toward.fit(),
        toward.e <= 0x1_0000,
    ensures
        r == whitened(value, toward@),
{
    let v = of_byte(value);
    assert(of_channel(value) <= of_channel(255)) by (nonlinear_arith)
        requires
            value <= 255,
            of_channel(value) == value as nat * one(),
            of_channel(255) == 255 * one(),
    ;
    v.plus(of_byte(255).minus(v).times(toward)).channel()
}

/// The locked agent's key.
pub open spec fn fading(color: Rgb, elapsed_ms: u64) -> Rgb {
    let toward = swing(elapsed_ms as nat, 2400);
    Rgb {
        r: whitened(color.r, toward),
        g: whitened(color.g, toward),
        b: whitened(color.b, toward),
    }
}

/// The locked agent's key: the lane's colour at full, fading to white and
/// back. White is the one shade no lane may own and no state pattern uses, so
/// it can mean exactly one thing — pinned.
pub fn lock_blend(lane_color: Rgb, elapsed_ms: u64) -> (r: Rgb)
    ensures
        r == fading(lane_color, elapsed_ms),
{
    let toward = triangle(elapsed_ms, LOCK_PERIOD_MS);
    Rgb {
        r: whiten(lane_color.r, toward),
        g: whiten(lane_color.g, toward),
        b: whiten(lane_color.b, toward),
    }
}

/// A channel under a gain: no more than full.
pub open spec fn gained(value: u8, gain: u32) -> u8 {
    channel(product(of_channel(value), fraction(gain)))
}

/// Per-channel calibration, last thing before the wire: some keyboards render
/// a colour completely differently from the screen (blue too strong, red too
/// weak), and a gain is the honest model for that — black stays black, dim
/// colours correct in proportion, and it composes with brightness. The window
/// is never corrected; this exists to make the keys match it.
pub open spec fn balanced(color: Rgb, gain: Gain) -> Rgb {
    Rgb { r: gained(color.r, gain.r), g: gained(color.g, gain.g), b: gained(color.b, gain.b) }
}

fn gain_of(value: u8, gain: u32) -> (r: u8)
    ensures
        r == gained(value, gain),
{
    of_byte(value).times(single::fraction_of(gain)).channel()
}

/// A device's own brightness and colour balance.
pub open spec fn tuned(color: Rgb, tuning: Tuning) -> Rgb {
    balanced(dimmed(color, fraction(tuning.brightness)), tuning.color_gain)
}

/// A device's own brightness and colour balance, last thing before its wire —
/// what [`frame`] does for the F-row, for a surface that composes its keys
/// itself.
pub fn tune(color: Rgb, tuning: Tuning) -> (r: Rgb)
    ensures
        r == tuned(color, tuning),
{
    let dim = scale(color, single::fraction_of(tuning.brightness));
    Rgb {
        r: gain_of(dim.r, tuning.color_gain.r),
        g: gain_of(dim.g, tuning.color_gain.g),
        b: gain_of(dim.b, tuning.color_gain.b),
    }
}

/// Whether this one state moves: Running's light travels and Waiting beats;
/// everything else holds still.
pub fn moves(state: State) -> (r: bool)
    ensures
        r == state.active(),
{
    match state {
        State::Running | State::Waiting => true,
        _ => false,
    }
}

/// Whether any of these states moves.
pub open spec fn in_motion(states: Seq<Option<State>>) -> bool {
    exists|i: int|
        0 <= i < states.len() && ((#[trigger] states[i]) matches Some(state) && state.active())
}

/// Whether any of these states needs a fresh frame every tick. Everything
/// else is motionless, and a motionless board is repainted only when it
/// changes — the difference between a resting app and one that allocates and
/// writes the SDK thirty times a second to say nothing.
pub fn animated(states: &Vec<Option<State>>) -> (r: bool)
    ensures
        r == in_motion(states@),
{
    let mut i: usize = 0;
    while i < states.len()
        invariant
            i <= states@.len(),
            forall|j: int|
                0 <= j < i ==> !((#[trigger] states@[j]) matches Some(state) && state.active()),
        decreases states@.len() - i,
    {
        if let Some(state) = states[i] {
            if moves(state) {
                return true;
            }
        }
        i = i + 1;
    }
    false
}

/// What a lane shows; nothing past the states there are.
pub open spec fn state_at(states: Seq<Option<State>>, lane: int) -> Option<State> {
    if 0 <= lane < states.len() {
        states[lane]
    } else {
        None
    }
}

/// A lane's colour; dark past the lanes there are.
pub open spec fn color_at(setup: Setup, lane: int) -> Rgb {
    if 0 <= lane < setup.lanes.len() {
        setup.lanes[lane].1
    } else {
        black()
    }
}

pub fn state_of(states: &Vec<Option<State>>, lane: usize) -> (r: Option<State>)
    ensures
        r == state_at(states@, lane as int),
{
    if lane < states.len() {
        states[lane]
    } else {
        None
    }
}

pub fn color_of(settings: &Settings, lane: usize) -> (r: Rgb)
    ensures
        r == color_at(settings@, lane as int),
{
    if lane < settings.lanes.len() {
        assert(settings@.lanes[lane as int] == settings.lanes@[lane as int]@);
        settings.lanes[lane].color
    } else {
        off()
    }
}

/// What one frame says of key `key`.
pub open spec fn key_shown(
    states: Seq<Option<State>>,
    setup: Setup,
    tuning: Tuning,
    elapsed_ms: u64,
    key: int,
) -> Rgb {
    let lane = key / 4;
    tuned(lane_key(state_at(states, lane), color_at(setup, lane), key % 4, 4, elapsed_ms), tuning)
}

/// The first `upto` keys that the device has, each with its colour.
pub open spec fn shown(
    states: Seq<Option<State>>,
    setup: Setup,
    tuning: Tuning,
    elapsed_ms: u64,
    available: Seq<usize>,
    upto: int,
) -> Seq<(usize, Rgb)>
    decreases upto,
{
    if upto <= 0 {
        seq![]
    } else {
        let before = shown(states, setup, tuning, elapsed_ms, available, upto - 1);
        let key = upto - 1;
        if available.contains(key as usize) {
            before.push((key as usize, key_shown(states, setup, tuning, elapsed_ms, key)))
        } else {
            before
        }
    }
}

/// How many keys the lanes take up on the keyboard.
pub open spec fn row_keys(lane_count: usize) -> int {
    if lane_count < KEYBOARD_LANES {
        4 * lane_count
    } else {
        12
    }
}

pub fn has_key(available: &Vec<usize>, key: usize) -> (r: bool)
    ensures
        r == available@.contains(key),
{
    let mut i: usize = 0;
    while i < available.len()
        invariant
            i <= available@.len(),
            forall|j: int| 0 <= j < i ==> available@[j] != key,
        decreases available@.len() - i,
    {
        if available[i] == key {
            assert(available@[i as int] == key);
            return true;
        }
        i = i + 1;
    }
    false
}

/// One frame: which key gets which colour, by F-row position.
///
/// **Only ever the twelve.** Naming twelve keys is all it takes to leave every
/// other key to the user's own lighting, whichever keyboard renders it.
///
/// The keyboard carries lanes 1–3 whatever the lane count, four keys each; a
/// lane past them is another surface's to show, so it never names a key here.
///
/// `available` is which of the twelve the device actually has, so a keyboard
/// without a full F-row is never handed keys it does not have; `tuning` is
/// that device's own brightness and colour balance.
pub fn frame(
    states: &Vec<Option<State>>,
    settings: &Settings,
    tuning: Tuning,
    elapsed_ms: u64,
    available: &Vec<usize>,
) -> (frame: Vec<(usize, Rgb)>)
    ensures
        frame@ == shown(
            states@,
            settings@,
            tuning,
            elapsed_ms,
            available@,
            row_keys(settings.lane_count),
        ),
{
    let lanes: usize = if settings.lane_count < KEYBOARD_LANES {
        settings.lane_count
    } else {
        KEYBOARD_LANES
    };
    let mut frame: Vec<(usize, Rgb)> = Vec::new();
    let mut lane: usize = 0;
    while lane < lanes
        invariant
            lane <= lanes <= 3,
            frame@ == shown(states@, settings@, tuning, elapsed_ms, available@, 4 * lane as int),
        decreases lanes - lane,
    {
        let lane_color = color_of(settings, lane);
        let colors = lane_colors(state_of(states, lane), lane_color, KEYS_PER_LANE, elapsed_ms);
        let mut offset: usize = 0;
        while offset < KEYS_PER_LANE
            invariant
                lane < lanes <= 3,
                offset <= 4,
                lane_color == color_at(settings@, lane as int),
                colors@ == Seq::new(
                    4,
                    |i: int|
                        lane_key(state_at(states@, lane as int), lane_color, i, 4, elapsed_ms),
                ),
                frame@ == shown(
                    states@,
                    settings@,
                    tuning,
                    elapsed_ms,
                    available@,
                    4 * lane + offset,
                ),
            decreases 4 - offset,
        {
            let key: usize = lane * KEYS_PER_LANE + offset;
            assert(key as int / 4 == lane && key as int % 4 == offset);
            if has_key(available, key) {
                frame.push((key, tune(colors[offset], tuning)));
            }
            offset = offset + 1;
        }
        lane = lane + 1;
    }
    frame
}

/// **Only ever the twelve**: a frame names no key past the F-row and none the
/// device does not have, each at most once and in the order of the row.
pub proof fn a_frame_names_only_our_keys(
    states: Seq<Option<State>>,
    setup: Setup,
    tuning: Tuning,
    elapsed_ms: u64,
    available: Seq<usize>,
    upto: int,
)
    requires
        upto <= 12,
    ensures
        ({
            let frame = shown(states, setup, tuning, elapsed_ms, available, upto);
            &&& forall|i: int|
                0 <= i < frame.len() ==> (#[trigger] frame[i]).0 < upto && available.contains(
                    frame[i].0,
                )
            &&& forall|i: int, j: int|
                0 <= i < j < frame.len() ==> (#[trigger] frame[i]).0 < (#[trigger] frame[j]).0
        }),
    decreases upto,
{
    if upto > 0 {
        a_frame_names_only_our_keys(states, setup, tuning, elapsed_ms, available, upto - 1);
        let before = shown(states, setup, tuning, elapsed_ms, available, upto - 1);
        let frame = shown(states, setup, tuning, elapsed_ms, available, upto);
        assert forall|i: int| 0 <= i < frame.len() implies (#[trigger] frame[i]).0 < upto
            && available.contains(frame[i].0) && (i < before.len() ==> frame[i] == before[i]) by {
            if i < before.len() {
                assert(before[i].0 < upto - 1);
            }
        }
    }
}

/// Every key of the live lanes that the device has is in the frame.
pub proof fn a_frame_names_every_key_there_is(
    states: Seq<Option<State>>,
    setup: Setup,
    tuning: Tuning,
    elapsed_ms: u64,
    available: Seq<usize>,
    upto: int,
    key: usize,
)
    requires
        upto <= 12,
        key < upto,
        available.contains(key),
    ensures
        shown(states, setup, tuning, elapsed_ms, available, upto).contains(
            (key, key_shown(states, setup, tuning, elapsed_ms, key as int)),
        ),
    decreases upto,
{
    let frame = shown(states, setup, tuning, elapsed_ms, available, upto);
    let said = (key, key_shown(states, setup, tuning, elapsed_ms, key as int));
    if key == upto - 1 {
        assert(frame[frame.len() - 1] == said);
    } else {
        a_frame_names_every_key_there_is(
            states,
            setup,
            tuning,
            elapsed_ms,
            available,
            upto - 1,
            key,
        );
        let before = shown(states, setup, tuning, elapsed_ms, available, upto - 1);
        let i = choose|i: int| 0 <= i < before.len() && before[i] == said;
        assert(frame[i] == said);
    }
}

/// Whether no channel of `dark` is above `light`'s.
pub open spec fn no_brighter(dark: Rgb, light: Rgb) -> bool {
    dark.r <= light.r && dark.g <= light.g && dark.b <= light.b
}

/// A larger share is no darker, and none is brighter than the whole.
proof fn shares_are_ordered(color: Rgb, less: nat, more: nat)
    requires
        less <= more,
    ensures
        no_brighter(dimmed(color, less), dimmed(color, more)),
        no_brighter(dimmed(color, more), color),
        dimmed(color, one()) == color,
        dimmed(color, 0) == black(),
{
    channels_are_ordered(color.r, less, more);
    channels_are_ordered(color.g, less, more);
    channels_are_ordered(color.b, less, more);
}

proof fn channels_are_ordered(value: u8, less: nat, more: nat)
    requires
        less <= more,
    ensures
        channel(product(of_channel(value), at_most_one(less))) <= channel(
            product(of_channel(value), at_most_one(more)),
        ) <= value,
        channel(product(of_channel(value), one())) == value,
        channel(product(of_channel(value), 0)) == 0,
{
    let v = of_channel(value);
    let (a, b) = (at_most_one(less), at_most_one(more));
    single::product_ordered(v, a, v, b);
    single::product_ordered(v, b, v, one());
    channel_ordered(product(v, a), product(v, b));
    channel_ordered(product(v, b), product(v, one()));
    channel_back(value);
    single::product_one(v);
    channel_back(0);
    assert(0 * one() == 0);
}

/// **Never below the resting glow, never above the lane's own colour**: where
/// a lane is at work its light only ever adds to the glow.
pub proof fn a_working_lane_keeps_its_glow(color: Rgb, index: int, keys: int, elapsed_ms: u64)
    requires
        0 <= index < keys,
    ensures
        no_brighter(glow(color), lane_key(Some(State::Running), color, index, keys, elapsed_ms)),
        no_brighter(lane_key(Some(State::Running), color, index, keys, elapsed_ms), color),
        no_brighter(glow(color), lane_key(Some(State::Waiting), color, index, keys, elapsed_ms)),
        no_brighter(lane_key(Some(State::Waiting), color, index, keys, elapsed_ms), color),
{
    let w = lit(elapsed_ms as nat, 1400, index as nat, keys as nat);
    let run = if resting() >= w {
        resting()
    } else {
        w
    };
    let beat = two_beats(elapsed_ms as nat, 1200);
    a_beat_is_over_the_glow(beat);
    shares_are_ordered(color, resting(), run);
    shares_are_ordered(color, resting(), over_glow(beat));
    shares_are_ordered(color, resting(), resting());
}

proof fn a_beat_is_over_the_glow(beat: nat)
    ensures
        resting() <= over_glow(beat),
        near(resting(), 1) == resting(),
{
    single::near_again(1 * one(), 5);
    single::sum_at_least(resting(), product(above_resting(), beat));
}

/// **Brightness scales everything and never inverts it**: a dimmer device's
/// keys are nowhere brighter, and black stays black under any tuning.
pub proof fn a_dimmer_device_is_nowhere_brighter(color: Rgb, dim: Tuning, bright: Tuning)
    requires
        dim.brightness <= bright.brightness,
        dim.color_gain == bright.color_gain,
    ensures
        no_brighter(tuned(color, dim), tuned(color, bright)),
        tuned(black(), dim) == black(),
{
    let (low, high) = (fraction(dim.brightness), fraction(bright.brightness));
    let (n, m) = (dim.brightness as nat, bright.brightness as nat);
    let p = pow2(121);
    assert((n * p) * 1 <= (m * p) * 1) by (nonlinear_arith)
        requires
            n <= m,
            p >= 0,
    ;
    single::near_ordered(n * p, 1, m * p, 1);
    shares_are_ordered(color, low, high);
    let (dark, light) = (dimmed(color, low), dimmed(color, high));
    gains_are_ordered(dark.r, light.r, dim.color_gain.r);
    gains_are_ordered(dark.g, light.g, dim.color_gain.g);
    gains_are_ordered(dark.b, light.b, dim.color_gain.b);
    nothing_stays_nothing(at_most_one(low));
}

proof fn nothing_stays_nothing(factor: nat)
    ensures
        channel(product(of_channel(0), factor)) == 0,
{
    channel_back(0);
    assert(of_channel(0) == 0) by {
        assert(0 * one() == 0);
    }
    assert(0 * factor == 0);
    single::product_one(0);
    assert(product(0, factor) == product(0, 0));
}

proof fn gains_are_ordered(dark: u8, light: u8, gain: u32)
    requires
        dark <= light,
    ensures
        gained(dark, gain) <= gained(light, gain),
        gained(0, gain) == 0,
{
    let g = fraction(gain);
    assert(of_channel(dark) <= of_channel(light)) by (nonlinear_arith)
        requires
            dark <= light,
            of_channel(dark) == dark as nat * one(),
            of_channel(light) == light as nat * one(),
    ;
    single::product_ordered(of_channel(dark), g, of_channel(light), g);
    channel_ordered(product(of_channel(dark), g), product(of_channel(light), g));
    nothing_stays_nothing(g);
}

/// **The lock fade is never darker than the lane**, starts as it is and is
/// white at its peak.
pub proof fn the_fade_only_whitens(color: Rgb, elapsed_ms: u64)
    ensures
        no_brighter(color, fading(color, elapsed_ms)),
        elapsed_ms as nat % 2400 == 0 ==> fading(color, elapsed_ms) == color,
        elapsed_ms as nat % 2400 == 1200 ==> fading(color, elapsed_ms) == (Rgb {
            r: 255,
            g: 255,
            b: 255,
        }),
{
    let toward = swing(elapsed_ms as nat, 2400);
    whitens(color.r, toward);
    whitens(color.g, toward);
    whitens(color.b, toward);
    a_swing_peaks_alone(elapsed_ms as nat, 2400);
}

proof fn whitens(value: u8, toward: nat)
    ensures
        value <= whitened(value, toward),
        toward == 0 ==> whitened(value, toward) == value,
        toward == one() ==> whitened(value, toward) == 255,
{
    let v = of_channel(value);
    let left = difference(of_channel(255), v);
    channel_back(value);
    channel_back(255);
    single::sum_at_least(v, product(left, toward));
    channel_ordered(v, sum(v, product(left, toward)));
    let rest = (255 - value) as u8;
    assert(of_channel(255) - v == of_channel(rest)) by (nonlinear_arith)
        requires
            v == value as nat * one(),
            of_channel(rest) == rest as nat * one(),
            of_channel(255) == 255 * one(),
            rest == 255 - value,
    ;
    channel_back(rest);
    single::product_one(left);
}

/// What a wave is made of, in steps of 2⁻¹².
proof fn halves()
    ensures
        ratio(1, 2) == 2048 * pow2(137),
        one() == 4096 * pow2(137),
        near(ratio(1, 2), 1) == ratio(1, 2),
        product(2048 * pow2(137), 2 * one()) == one(),
        near(one(), 1) == one(),
{
    let g = pow2(137);
    vstd::arithmetic::power2::lemma_pow2_pos(137);
    vstd::arithmetic::power2::lemma2_to64();
    vstd::arithmetic::power2::lemma_pow2_adds(12, 137);
    vstd::arithmetic::power2::lemma_pow2_adds(11, 137);
    single::near_same(2048 * g, 1, 2);
    single::near_itself(2048, 137);
    single::near_itself(4096, 137);
    assert(1 * one() == one());
    single::near_same(4096 * g, 1, one());
    assert((2048 * g) * (2 * one()) == one() * (4096 * g)) by (nonlinear_arith);
    assert(one() * 1 == one());
}

/// A wave is at its height in the middle of its period, a 2048th below it
/// elsewhere, and at nothing where it starts.
proof fn a_swing_peaks_alone(elapsed_ms: nat, period: nat)
    requires
        0 < period <= 4096,
        period % 2 == 0,
    ensures
        2 * (elapsed_ms % period) == period ==> swing(elapsed_ms, period) == one(),
        2 * (elapsed_ms % period) != period ==> 2048 * swing(elapsed_ms, period) <= 2047 * one(),
        elapsed_ms % period == 0 ==> swing(elapsed_ms, period) == 0,
{
    let x = elapsed_ms % period;
    let at = phase(elapsed_ms, period);
    let g = pow2(137);
    let u = one();
    vstd::arithmetic::power2::lemma_pow2_pos(137);
    halves();
    single::near_itself(2047, 137);
    let top = 2047 * g;
    assert(product(top, 2 * u) == 2 * top) by {
        single::near_same(2 * top, 1, u);
        vstd::arithmetic::power2::lemma_pow2_unfold(138);
        single::near_itself(2047, 138);
        assert(2047 * (2 * g) == 2 * top) by (nonlinear_arith)
            requires
                top == 2047 * g,
        ;
        assert(top * (2 * u) == u * (2 * top)) by (nonlinear_arith);
        assert(u * 1 == u);
    }
    if 2 * x < period {
        assert((x * u) * 1 <= top * period) by (nonlinear_arith)
            requires
                u == 4096 * g,
                top == 2047 * g,
                2 * x <= period - 2,
                period <= 4096,
                g > 0,
        {
            assert(4096 * x <= 2047 * period);
            assert((4096 * x) * g <= (2047 * period) * g);
        };
        single::near_ordered(x * u, period, top, 1);
        single::product_ordered(at, 2 * u, top, 2 * u);
        if x == 0 {
            assert(x * u == 0) by (nonlinear_arith)
                requires
                    x == 0,
            ;
            assert(at == 0) by {
                assert(0 * period == 0);
                single::near_same(0, 1, period);
                single::near_itself(0, 0);
                assert(0 * pow2(0) == 0);
                assert(period * 0 == 0 && period * 1 == period);
            }
            channel_back(2);
            single::product_one(2 * u);
            assert(0 * (2 * u) == 0 && (2 * u) * 0 == 0);
            assert(product(0, 2 * u) == product(2 * u, 0));
        }
    } else if 2 * x == period {
        single::near_same(u, 2, x);
        assert(x * 2 == period);
        assert(at == ratio(1, 2)) by {
            assert(1 * u == u);
        }
        assert(difference(u, at) == at);
    } else {
        let low = 2049 * g;
        single::near_itself(2049, 137);
        assert(low * period <= (x * u) * 1) by (nonlinear_arith)
            requires
                u == 4096 * g,
                low == 2049 * g,
                2 * x >= period + 2,
                period <= 4096,
                g > 0,
        {
            assert(4096 * x >= 2049 * period);
            assert((4096 * x) * g >= (2049 * period) * g);
        };
        single::near_ordered(low, 1, x * u, period);
        a_phase_is_no_more(x, period);
        single::near_ordered((u - at) as nat, 1, top, 1);
        single::product_ordered(difference(u, at), 2 * u, top, 2 * u);
    }
}

/// **The selected key rests brighter**: nowhere darker than the same key not
/// selected, whatever its agent is doing.
pub proof fn the_selected_key_is_no_darker(
    state: Option<State>,
    color: Rgb,
    elapsed_ms: u64,
    terminal_foreground: bool,
)
    ensures
        no_brighter(
            m_color(state, color, elapsed_ms, false, terminal_foreground),
            m_color(state, color, elapsed_ms, true, terminal_foreground),
        ),
{
    let e = elapsed_ms as nat;
    match state {
        Some(State::Running) => {
            a_swing_peaks_alone(e, 2000);
            no_darker_lifted(color, swing(e, 2000));
        },
        Some(State::Waiting) => {
            a_swing_peaks_alone(e % 1200 * 4, 1200);
            no_darker_lifted(color, two_beats(e, 1200));
        },
        Some(State::Done) => {
            a_swing_peaks_alone(e % 2400 * 4, 2400);
            no_darker_lifted(color, one_beat(e, 2400));
        },
        _ => {
            no_darker_lifted(color, 0);
        },
    }
}

/// Four fifths, and a little over one, in steps of 2⁻²⁶.
proof fn near_a_little_over()
    ensures
        near(53_687_091, 1) == 53_687_092,
        near(67_108_865, 1) == 67_108_864,
{
    let (a, b) = (53_687_091nat, 67_108_865nat);
    assert(a / 1 == a && b / 1 == b);
    assert(single::step(13_421_772) == 1);
    assert(single::step(26_843_545) == 2 * single::step(13_421_772));
    assert(single::step(a) == 2 * single::step(26_843_545));
    assert(single::step(8_388_608) == 1);
    assert(single::step(16_777_216) == 2 * single::step(8_388_608));
    assert(single::step(33_554_432) == 2 * single::step(16_777_216));
    assert(single::step(b) == 2 * single::step(33_554_432));
    assert(1nat * 4 == 4 && 1nat * 8 == 8);
    assert(a / 4 == 13_421_772 && a % 4 == 3);
    assert(b / 8 == 8_388_608 && b % 8 == 1);
    assert(crate::number::nearest_even(a, 4) == 13_421_773);
    assert(crate::number::nearest_even(b, 8) == 8_388_608);
}

/// The levels in steps of 2⁻²⁶.
proof fn levels()
    ensures
        one() == 0x400_0000 * pow2(123),
        resting() == 13_421_773 * pow2(123),
        above_resting() == 53_687_092 * pow2(123),
        floor() == 36_909_876 * pow2(123),
        difference(one(), floor()) == 30_198_988 * pow2(123),
        near(floor(), 1) == floor(),
        near(above_resting(), 1) == above_resting(),
        near(difference(one(), floor()), 1) == difference(one(), floor()),
        pow2(123) >= 0x100_0000,
{
    let q = pow2(123);
    vstd::arithmetic::power2::lemma2_to64();
    vstd::arithmetic::power2::lemma2_to64_rest();
    vstd::arithmetic::power2::lemma_pow2_adds(26, 123);
    vstd::arithmetic::power2::lemma_pow2_adds(24, 125);
    vstd::arithmetic::power2::lemma_pow2_adds(2, 123);
    vstd::arithmetic::power2::lemma_pow2_strictly_increases(24, 123);
    single::near_plain(0x400_0000, 5);
    single::near_shifted(0x400_0000, 5, 123);
    assert(1 * one() == one());
    near_a_little_over();
    single::near_shifted(53_687_091, 1, 123);
    single::near_again(53_687_091 * q, 1);
    single::near_plain(11 * 0x100_0000, 20);
    assert(near(11 * 0x100_0000, 20) == 9_227_469);
    single::near_shifted(11 * 0x100_0000, 20, 125);
    assert((11 * 0x100_0000) * pow2(125) == 11 * one()) by (nonlinear_arith)
        requires
            0x100_0000 * pow2(125) == one(),
    ;
    single::near_again(11 * one(), 20);
    single::near_itself(7_549_747, 125);
    assert(one() - floor() == 7_549_747 * pow2(125));
    single::near_again(7_549_747 * pow2(125), 1);
}

/// Lifting makes no beat darker.
proof fn a_beat_is_lifted(beat: nat)
    requires
        beat == one() || 2048 * beat <= 2047 * one(),
    ensures
        over_glow(beat) <= lifted(over_glow(beat), true),
        one() <= lifted(one(), true),
        resting() <= lifted(resting(), true),
{
    let q = pow2(123);
    let (u, b, w, f, g) = (
        one(),
        resting(),
        above_resting(),
        floor(),
        difference(one(), floor()),
    );
    levels();
    single::near_itself(0x80_0000, 126);
    vstd::arithmetic::power2::lemma2_to64();
    vstd::arithmetic::power2::lemma_pow2_adds(3, 123);
    assert(near(u, 1) == u);
    assert(lifted(u, true) == u) by {
        single::near_same(u, 1, w);
        assert(w * u == (w * u));
        assert(w * 1 == w);
        assert(quotient(w, w) == u);
        single::product_one(g);
        assert(f + g == u);
    }
    single::sum_at_least(f, product(g, 0));
    let raw = over_glow(beat);
    let x = product(w, beat);
    if beat == u {
        single::product_one(w);
        near_a_little_over();
        single::near_shifted(67_108_865, 1, 123);
        assert(raw == u);
    } else {
        let most = (2047 * pow2(138)) as nat;
        assert(2048 * most == 2047 * u) by {
            vstd::arithmetic::power2::lemma_pow2_adds(11, 138);
        }
        let high = product(w, most);
        single::product_ordered(w, beat, w, most);
        let n = w * most;
        assert(2048 * n == (2047 * w) * u) by (nonlinear_arith)
            requires
                n == w * most,
                2048 * most == 2047 * u,
        ;
        assert(0x80_0000 * u <= n) by (nonlinear_arith)
            requires
                2048 * n == (2047 * w) * u,
                w >= 0x100_0000,
                u > 0,
        {
            assert((2047 * w) * u >= 17_179_869_184 * u);
        };
        large_enough(n, u);
        single::near_close(n, u);
        assert(34_359_738_368 * high <= 34_342_963_199 * w) by (nonlinear_arith)
            requires
                0x100_0000 * (high * u) <= 0x100_0001 * n,
                2048 * n == (2047 * w) * u,
                u > 0,
        {
            assert((34_359_738_368 * high) * u <= (34_342_963_199 * w) * u);
        };
        assert(high <= 53_660_881 * q);
        single::near_ordered(b + x, 1, b + high, 1);
        let top = b + high;
        assert(top / 1 == top);
        single::near_close(top, 1);
        assert(raw <= 67_082_659 * q);
        lifts(raw);
    }
}

proof fn large_enough(n: nat, d: nat)
    requires
        d > 0,
        0x80_0000 * d <= n,
    ensures
        n / d >= 0x80_0000,
{
    vstd::arithmetic::div_mod::lemma_div_is_ordered(0x80_0000 * d as int, n as int, d as int);
    vstd::arithmetic::div_mod::lemma_fundamental_div_mod_converse(
        0x80_0000 * d as int,
        d as int,
        0x80_0000,
        0,
    );
}

/// The roundings of a lift take less than the lift gives.
proof fn rises(raw: int, q: int, diff: int, over: int, y: int, last: int)
    requires
        0 < q,
        36_909_876 * q < raw <= 67_082_659 * q,
        0xff_ffff * (raw - 13_421_773 * q) <= 0x100_0000 * diff,
        1_125_899_839_733_760 * diff <= 900_719_938_895_872 * over,
        506_654_914_458_420 * over <= 1_125_899_906_842_624 * y,
        0xff_ffff * (36_909_876 * q + y) <= 0x100_0000 * last,
    ensures
        raw <= last,
{
    let a = raw - 13_421_773 * q;
    assert(18_889_463_679_678_834_278_400 * a <= 15_111_572_970_362_846_052_352 * over);
    assert(142_610_663_247_005_809_381_326_664_500 * a <= 253_530_123_823_539_066_595_056_812_032 * y);
}

proof fn lifts(raw: nat)
    requires
        raw <= 67_082_659 * pow2(123),
    ensures
        raw <= lifted(raw, true),
{
    let q = pow2(123);
    let (u, b, w, f, g) = (
        one(),
        resting(),
        above_resting(),
        floor(),
        difference(one(), floor()),
    );
    levels();
    let over = if raw <= b {
        0
    } else {
        quotient(difference(raw, b), w)
    };
    single::sum_at_least(f, product(g, at_most_one(over)));
    if raw > f {
        let a = (raw - b) as nat;
        assert(a / 1 == a);
        single::near_close(a, 1);
        let diff = near(a, 1);
        assert(0xff_ffff * (raw - 13_421_773 * q) <= 0x100_0000 * diff);
        let n = diff * u;
        assert(n == 0x400_0000 * (diff * q)) by (nonlinear_arith)
            requires
                n == diff * u,
                u == 0x400_0000 * q,
        ;
        assert(0x80_0000 * w <= n) by (nonlinear_arith)
            requires
                n == 0x400_0000 * (diff * q),
                w == 53_687_092 * q,
                diff >= 0x100_0000,
                q > 0,
        ;
        large_enough(n, w);
        single::near_close(n, w);
        assert(1_125_899_839_733_760 * diff <= 900_719_938_895_872 * over) by (nonlinear_arith)
            requires
                0xff_ffff * n <= 0x100_0000 * (over * w),
                n == 0x400_0000 * (diff * q),
                w == 53_687_092 * q,
                q > 0,
        {
            assert(over * w == 53_687_092 * (over * q));
            assert((1_125_899_839_733_760 * diff) * q <= (900_719_938_895_872 * over) * q);
        };
        let part = at_most_one(over);
        if part == u {
            single::product_one(g);
            channel_back(1);
            assert(1 * u == u);
            assert(f + g == u);
        } else {
            assert(diff >= 20_000_000 * q);
            assert(over >= 20_000_000 * q);
            let m = g * over;
            assert(m == 30_198_988 * (over * q)) by (nonlinear_arith)
                requires
                    m == g * over,
                    g == 30_198_988 * q,
            ;
            assert(0x80_0000 * u <= m) by (nonlinear_arith)
                requires
                    m == 30_198_988 * (over * q),
                    u == 0x400_0000 * q,
                    over >= 0x400_0000,
                    q > 0,
            ;
            large_enough(m, u);
            single::near_close(m, u);
            let y = product(g, over);
            assert(506_654_914_458_420 * over <= 1_125_899_906_842_624 * y) by (nonlinear_arith)
                requires
                    0xff_ffff * m <= 0x100_0000 * (y * u),
                    m == 30_198_988 * (over * q),
                    u == 0x400_0000 * q,
                    q > 0,
            {
                assert(y * u == 0x400_0000 * (y * q));
                assert((506_654_914_458_420 * over) * q <= (1_125_899_906_842_624 * y) * q);
            };
            let all = f + y;
            assert(all / 1 == all);
            single::near_close(all, 1);
            let last = near(all, 1);
            rises(raw as int, q as int, diff as int, over as int, y as int, last as int);
        }
    }
}

proof fn no_darker_lifted(color: Rgb, beat: nat)
    requires
        beat == one() || 2048 * beat <= 2047 * one(),
    ensures
        no_brighter(
            dimmed(color, lifted(over_glow(beat), false)),
            dimmed(color, lifted(over_glow(beat), true)),
        ),
        no_brighter(dimmed(color, lifted(one(), false)), dimmed(color, lifted(one(), true))),
        no_brighter(
            dimmed(color, lifted(resting(), false)),
            dimmed(color, lifted(resting(), true)),
        ),
{
    a_beat_is_lifted(beat);
    shares_are_ordered(color, over_glow(beat), lifted(over_glow(beat), true));
    shares_are_ordered(color, one(), lifted(one(), true));
    shares_are_ordered(color, resting(), lifted(resting(), true));
}

proof fn something_above()
    ensures
        0 < above_resting(),
{
    levels();
    assert(53_687_092 * pow2(123) > 0) by (nonlinear_arith)
        requires
            pow2(123) >= 1,
    ;
}

/// Whether a key is the lane's own colour at some brightness.
pub open spec fn is_a_shade(color: Rgb, key: Rgb) -> bool {
    exists|factor: nat| key == #[trigger] dimmed(color, factor)
}

/// **A change of colour means trouble**: every ordinary state is the lane's own
/// colour at some brightness; only Error and Interrupted put another on its
/// keys, each its own red, and even there the first key names the lane.
pub proof fn a_change_of_colour_means_trouble(
    state: Option<State>,
    color: Rgb,
    index: int,
    keys: int,
    elapsed_ms: u64,
)
    requires
        0 <= index < keys,
    ensures
        ({
            let key = lane_key(state, color, index, keys, elapsed_ms);
            &&& state == Some(State::Error) ==> key == (if index == 0 {
                color
            } else {
                deep_red()
            })
            &&& state == Some(State::Interrupted) ==> key == (if index == 0 {
                color
            } else {
                light_red()
            })
            &&& state != Some(State::Error) && state != Some(State::Interrupted) ==> is_a_shade(
                color,
                key,
            )
        }),
{
    shares_are_ordered(color, 0, one());
}

/// Where a key is among the keys of a frame.
proof fn where_a_key_stands(
    states: Seq<Option<State>>,
    setup: Setup,
    tuning: Tuning,
    elapsed_ms: u64,
    available: Seq<usize>,
    upto: int,
    i: int,
)
    requires
        upto <= 12,
        0 <= i < shown(states, setup, tuning, elapsed_ms, available, upto).len(),
    ensures
        ({
            let said = shown(states, setup, tuning, elapsed_ms, available, upto)[i];
            said.0 < upto && said.1 == key_shown(
                states,
                setup,
                tuning,
                elapsed_ms,
                said.0 as int,
            )
        }),
    decreases upto,
{
    let before = shown(states, setup, tuning, elapsed_ms, available, upto - 1);
    if i < before.len() {
        where_a_key_stands(states, setup, tuning, elapsed_ms, available, upto - 1, i);
    }
}

/// **A lit key shows the lane that pressing it reaches**: of everything there
/// is, the colour of an F-row key depends on that one lane's state and colour.
/// An empty lane's keys are dark; a lane with something to report holds its own
/// colour on its first key; a lane in trouble is red on its other keys.
pub proof fn a_key_shows_the_lane_it_reaches(
    states: Seq<Option<State>>,
    setup: Setup,
    tuning: Tuning,
    elapsed_ms: u64,
    available: Seq<usize>,
    lane_count: usize,
    i: int,
    lane: usize,
    answerable: bool,
)
    requires
        0 <= i < shown(
            states,
            setup,
            tuning,
            elapsed_ms,
            available,
            row_keys(lane_count),
        ).len(),
        ({
            let key = shown(
                states,
                setup,
                tuning,
                elapsed_ms,
                available,
                row_keys(lane_count),
            )[i].0 as int;
            match row_press(key, lane_count, answerable) {
                Some(Press::Summon(reached)) => reached == lane,
                Some(Press::Answer(reached, _)) => reached == lane,
                _ => true,
            }
        }),
    ensures
        ({
            let said = shown(
                states,
                setup,
                tuning,
                elapsed_ms,
                available,
                row_keys(lane_count),
            )[i];
            let (key, rgb) = (said.0, said.1);
            let first = key == 4 * lane;
            let own = if lane < setup.lanes.len() {
                setup.lanes[lane as int].1
            } else {
                Rgb { r: 0, g: 0, b: 0 }
            };
            let state = if lane < states.len() {
                states[lane as int]
            } else {
                None
            };
            &&& lane < lane_count && lane < 3 && 4 * lane <= key < 4 * lane + 4
            &&& state is None ==> rgb == (Rgb { r: 0, g: 0, b: 0 })
            &&& first && (state == Some(State::Waiting) || state == Some(State::Done) || state
                == Some(State::Error) || state == Some(State::Interrupted)) ==> rgb == tuned(
                own,
                tuning,
            )
            &&& !first && state == Some(State::Error) ==> rgb == tuned(
                Rgb { r: 110, g: 0, b: 0 },
                tuning,
            )
            &&& !first && state == Some(State::Interrupted) ==> rgb == tuned(
                Rgb { r: 255, g: 40, b: 40 },
                tuning,
            )
            &&& !first && state == Some(State::Idle) ==> rgb == (Rgb { r: 0, g: 0, b: 0 })
            &&& state == Some(State::Connected) || (first && state == Some(State::Idle)) || (!first
                && state == Some(State::Done)) ==> rgb == tuned(glow(own), tuning)
        }),
{
    where_a_key_stands(
        states,
        setup,
        tuning,
        elapsed_ms,
        available,
        row_keys(lane_count),
        i,
    );
    let key = shown(states, setup, tuning, elapsed_ms, available, row_keys(lane_count))[i].0 as int;
    assert(key / 4 == lane);
    a_dimmer_device_is_nowhere_brighter(black(), tuning, tuning);
}

/// **What another lane does is not seen on a lane's keys**: two frames name the
/// same keys, and give a key the same colour wherever its lane has the same
/// state and the same colour in both.
pub proof fn a_lane_keeps_to_its_keys(
    states: Seq<Option<State>>,
    others: Seq<Option<State>>,
    setup: Setup,
    changed: Setup,
    tuning: Tuning,
    elapsed_ms: u64,
    available: Seq<usize>,
    upto: int,
    i: int,
    lane: int,
)
    requires
        0 <= upto <= 12,
        0 <= i < shown(states, setup, tuning, elapsed_ms, available, upto).len(),
        0 <= lane < states.len(),
        lane < others.len(),
        lane < setup.lanes.len(),
        lane < changed.lanes.len(),
        states[lane] == others[lane],
        setup.lanes[lane].1 == changed.lanes[lane].1,
    ensures
        ({
            let one = shown(states, setup, tuning, elapsed_ms, available, upto);
            let two = shown(others, changed, tuning, elapsed_ms, available, upto);
            &&& one.len() == two.len()
            &&& one[i].0 == two[i].0
            &&& 4 * lane <= one[i].0 < 4 * lane + 4 ==> one[i].1 == two[i].1
        }),
    decreases upto,
{
    if upto > 0 {
        let one = shown(states, setup, tuning, elapsed_ms, available, upto - 1);
        same_keys(states, others, setup, changed, tuning, elapsed_ms, available, upto - 1);
        if i < one.len() {
            a_lane_keeps_to_its_keys(
                states,
                others,
                setup,
                changed,
                tuning,
                elapsed_ms,
                available,
                upto - 1,
                i,
                lane,
            );
        }
    }
}

proof fn same_keys(
    states: Seq<Option<State>>,
    others: Seq<Option<State>>,
    setup: Setup,
    changed: Setup,
    tuning: Tuning,
    elapsed_ms: u64,
    available: Seq<usize>,
    upto: int,
)
    ensures
        shown(states, setup, tuning, elapsed_ms, available, upto).len() == shown(
            others,
            changed,
            tuning,
            elapsed_ms,
            available,
            upto,
        ).len(),
    decreases upto,
{
    if upto > 0 {
        same_keys(states, others, setup, changed, tuning, elapsed_ms, available, upto - 1);
    }
}

/// **A frame is the live lanes' keys, and all of them**: a key the device has
/// is in the frame exactly when pressing it reaches a lane.
pub proof fn a_frame_lights_the_keys_that_reach_a_lane(
    states: Seq<Option<State>>,
    setup: Setup,
    tuning: Tuning,
    elapsed_ms: u64,
    available: Seq<usize>,
    lane_count: usize,
    key: usize,
    answerable: bool,
)
    requires
        available.contains(key),
    ensures
        row_press(key as int, lane_count, answerable) is Some <==> exists|i: int|
            0 <= i < shown(
                states,
                setup,
                tuning,
                elapsed_ms,
                available,
                row_keys(lane_count),
            ).len() && (#[trigger] shown(
                states,
                setup,
                tuning,
                elapsed_ms,
                available,
                row_keys(lane_count),
            )[i]).0 == key,
{
    let frame = shown(states, setup, tuning, elapsed_ms, available, row_keys(lane_count));
    let upto = row_keys(lane_count);
    if row_press(key as int, lane_count, answerable) is Some {
        a_frame_names_every_key_there_is(
            states,
            setup,
            tuning,
            elapsed_ms,
            available,
            upto,
            key,
        );
        let said = (key, key_shown(states, setup, tuning, elapsed_ms, key as int));
        let i = choose|i: int| 0 <= i < frame.len() && frame[i] == said;
        assert(frame[i].0 == key);
    }
    a_frame_names_only_our_keys(states, setup, tuning, elapsed_ms, available, upto);
}

/// **Each state has its own pattern**: resting, the whole lane is its glow;
/// finished, its first key is its colour and the rest its glow; waiting, its
/// first key is its colour and the rest beat as one; silent, its first key is
/// its glow and the rest dark; empty, it is dark.
pub proof fn each_state_has_its_pattern(
    color: Rgb,
    index: int,
    other: int,
    keys: int,
    elapsed_ms: u64,
    later_ms: u64,
)
    requires
        0 < index < keys,
        0 < other < keys,
    ensures
        ({
            let at = |state: State, key: int| lane_key(Some(state), color, key, keys, elapsed_ms);
            &&& lane_key(None, color, index, keys, elapsed_ms) == (Rgb { r: 0, g: 0, b: 0 })
            &&& lane_key(None, color, 0, keys, elapsed_ms) == (Rgb { r: 0, g: 0, b: 0 })
            &&& at(State::Connected, 0) == glow(color) && at(State::Connected, index) == glow(color)
            &&& at(State::Idle, 0) == glow(color) && at(State::Idle, index) == (Rgb {
                r: 0,
                g: 0,
                b: 0,
            })
            &&& at(State::Done, 0) == color && at(State::Done, index) == glow(color)
            &&& at(State::Waiting, 0) == color && at(State::Waiting, index) == at(
                State::Waiting,
                other,
            )
            &&& at(State::Error, 0) == color && at(State::Error, index) == (Rgb {
                r: 110,
                g: 0,
                b: 0,
            })
            &&& at(State::Interrupted, 0) == color && at(State::Interrupted, index) == (Rgb {
                r: 255,
                g: 40,
                b: 40,
            })
        }),
        // Only Running and Waiting move.
        forall|state: State|
            state != State::Running && state != State::Waiting ==> #[trigger] lane_key(
                Some(state),
                color,
                index,
                keys,
                elapsed_ms,
            ) == lane_key(Some(state), color, index, keys, later_ms),
{
}

/// Where the light is after so many fifths of its round, on a lane of four.
proof fn fifths()
    ensures
        product(ratio(1, 5), 5 * one()) == one(),
        product(ratio(2, 5), 5 * one()) == 2 * one(),
        product(ratio(3, 5), 5 * one()) == 3 * one(),
        product(ratio(4, 5), 5 * one()) == 4 * one(),
        ratio(0, 5) == 0,
        near(5 * one(), 1) == 5 * one(),
{
    let u = one();
    let q = pow2(123);
    levels();
    near_a_little_over();
    single::near_shifted(67_108_865, 1, 123);
    vstd::arithmetic::power2::lemma_pow2_pos(149);
    // A fifth.
    single::near_same(67_108_865 * q, 1, u);
    assert((13_421_773 * q) * (5 * u) == u * (67_108_865 * q)) by (nonlinear_arith);
    assert(u * 1 == u);
    // Two and four fifths are a fifth, doubled.
    single::near_plain(0x400_0000, 5);
    assert(near(0x400_0000, 5) == 13_421_773);
    single::near_shifted(0x400_0000, 5, 124);
    single::near_shifted(0x400_0000, 5, 125);
    vstd::arithmetic::power2::lemma_pow2_unfold(124);
    vstd::arithmetic::power2::lemma_pow2_unfold(125);
    assert(0x400_0000 * (2 * q) == 2 * u) by (nonlinear_arith)
        requires
            u == 0x400_0000 * q,
    ;
    assert(0x400_0000 * (4 * q) == 4 * u) by (nonlinear_arith)
        requires
            u == 0x400_0000 * q,
    ;
    single::near_shifted(67_108_865, 1, 124);
    single::near_shifted(67_108_865, 1, 125);
    single::near_same(67_108_865 * (2 * q), 1, u);
    single::near_same(67_108_865 * (4 * q), 1, u);
    assert((13_421_773 * (2 * q)) * (5 * u) == u * (67_108_865 * (2 * q))) by (nonlinear_arith);
    assert((13_421_773 * (4 * q)) * (5 * u) == u * (67_108_865 * (4 * q))) by (nonlinear_arith);
    // Three fifths.
    single::near_plain(3 * 0x100_0000, 5);
    assert(near(3 * 0x100_0000, 5) == 10_066_330);
    single::near_shifted(3 * 0x100_0000, 5, 125);
    assert((3 * 0x100_0000) * (4 * q) == 3 * u) by (nonlinear_arith)
        requires
            u == 0x400_0000 * q,
    ;
    assert(near(50_331_650, 1) == 50_331_648) by {
        let b = 50_331_650nat;
        assert(b / 1 == b);
        assert(single::step(12_582_912) == 1);
        assert(single::step(25_165_825) == 2 * single::step(12_582_912));
        assert(single::step(b) == 2 * single::step(25_165_825));
        assert(1nat * 4 == 4);
        assert(b / 4 == 12_582_912 && b % 4 == 2);
        assert(crate::number::nearest_even(b, 4) == 12_582_912);
    }
    single::near_shifted(50_331_650, 1, 125);
    single::near_same(50_331_650 * (4 * q), 1, u);
    assert((10_066_330 * (4 * q)) * (5 * u) == u * (50_331_650 * (4 * q))) by (nonlinear_arith);
    // And the ends.
    single::near_itself(5, 149);
    single::near_itself(0, 0);
    assert(0 * pow2(0) == 0);
    single::near_same(0, 1, 5);
    assert(0 * u == 0);
}

/// **The running light crosses a lane of four from its first key to its last,
/// then is off it**: it starts on the first key, is on the next a fifth of a
/// round later, and so on; where it is, a key has the lane's full colour; and a
/// key it is a whole slot away from rests at the glow. For the last fifth it is
/// on no key.
pub proof fn the_running_light_goes_along_the_lane(color: Rgb, key: int, at: int, elapsed_ms: u64)
    requires
        0 <= key < 4,
        0 <= at < 5,
        elapsed_ms as nat % 1400 == 280 * at,
    ensures
        lane_key(Some(State::Running), color, key, 4, elapsed_ms) == (if key == at {
            color
        } else {
            glow(color)
        }),
{
    let u = one();
    fifths();
    vstd::arithmetic::power2::lemma_pow2_pos(149);
    single::floats_ordered(4, 4);
    single::floats_ordered(key as nat, key as nat);
    let slots = sum(floated(4), u);
    assert(slots == 5 * u);
    let turn = phase(elapsed_ms as nat, 1400);
    assert(turn == ratio(at as nat, 5)) by {
        single::near_same(at as nat * u, 5, 280);
        assert((280 * at as nat) * u == 280 * (at as nat * u)) by (nonlinear_arith);
    }
    let place = product(turn, slots);
    assert(place == at as nat * u) by {
        if at == 0 {
            single::product_one(5 * u);
            assert(0 * u == 0);
        }
    }
    let raw = apart(place, floated(key as nat));
    let gap = (if at >= key {
        at - key
    } else {
        key - at
    }) as nat;
    assert(raw == gap * u) by {
        single::near_itself(gap, 149);
        assert(at as nat * u - key as nat * u == (at - key) * u && key as nat * u - at as nat * u == (
        key - at) * u) by (nonlinear_arith)
            requires
                at >= 0,
                key >= 0,
        ;
    }
    let back = (5 - gap) as nat;
    assert(difference(slots, raw) == back * u) by {
        single::near_itself(back, 149);
        assert(5 * u - gap * u == back * u) by (nonlinear_arith)
            requires
                back == 5 - gap,
        ;
    }
    let far = distance(elapsed_ms as nat, 1400, key as nat, 4);
    assert(gap * u >= u && back * u >= u || gap == 0) by (nonlinear_arith)
        requires
            gap == 0 || gap >= 1,
            back >= 1,
            u > 0,
    ;
    single::near_itself(1, 149);
    single::near_itself(2, 149);
    single::near_itself(0, 0);
    assert(0 * pow2(0) == 0 && 1 * u == u && 0 * u == 0);
    if key == at {
        assert(far == 0);
        single::product_one(u);
        single::product_one(2 * u);
        assert(lit(elapsed_ms as nat, 1400, key as nat, 4) == u);
        a_phase_is_no_more(1, 5);
    } else {
        assert(far == u);
        single::product_one(0);
        single::product_one(2 * u);
        assert(product(0, 0) == 0);
        let rest = difference(3 * u, product(2 * u, 0));
        single::near_itself(3, 149);
        single::product_one(3 * u);
        assert(lit(elapsed_ms as nat, 1400, key as nat, 4) == 0);
    }
    shares_are_ordered(color, 0, u);
}

/// Eighths of a period are exact.
proof fn eighths(x: nat, period: nat, k: nat)
    requires
        k < 8,
        0 < period,
        8 * x == k * period,
    ensures
        ratio(x, period) == k * pow2(146),
        one() == 8 * pow2(146),
        ratio(1, 2) == 4 * pow2(146),
        ratio(1, 4) == 2 * pow2(146),
        pow2(146) > 0,
{
    let g = pow2(146);
    let u = one();
    vstd::arithmetic::power2::lemma_pow2_pos(146);
    vstd::arithmetic::power2::lemma_pow2_adds(3, 146);
    vstd::arithmetic::power2::lemma2_to64();
    assert(u == 8 * g);
    single::near_itself(k, 146);
    single::near_itself(4, 146);
    single::near_itself(2, 146);
    single::near_same(4 * g, 1, 2);
    single::near_same(2 * g, 1, 4);
    single::near_same(k * g, 1, period);
    assert(x * u == period * (k * g)) by (nonlinear_arith)
        requires
            u == 8 * g,
            8 * x == k * period,
    ;
    assert(period * 1 == period);
}

/// The foot and the top of every wave.
proof fn foot_and_top()
    ensures
        over_glow(0) == resting(),
        over_glow(one()) == one(),
        lifted(resting(), true) == floor(),
        lifted(one(), true) == one(),
{
    let q = pow2(123);
    levels();
    near_a_little_over();
    vstd::arithmetic::power2::lemma_pow2_pos(149);
    single::near_again(1 * one(), 5);
    single::product_one(above_resting());
    single::sum_at_least(resting(), 0);
    single::near_shifted(67_108_865, 1, 123);
    assert(13_421_773 * q + 53_687_092 * q == 67_108_865 * q);
    assert(over_glow(one()) == one());
    single::product_one(difference(one(), floor()));
    single::sum_at_least(floor(), 0);
    assert(36_909_876 * q + 30_198_988 * q == 0x400_0000 * q);
    single::near_itself(1, 149);
    assert(1 * one() == one());
    something_above();
    assert(quotient(above_resting(), above_resting()) == one()) by {
        let a = above_resting();
        assert(a * one() == one() * a) by (nonlinear_arith);
        single::near_same(one(), 1, a);
        assert(a * 1 == a);
    }
}

#[verifier::rlimit(40)]
proof fn waiting_beats(ask: nat)
    requires
        ask < 1200,
    ensures
        ask == 0 || ask == 300 || ask >= 600 ==> two_beats(ask, 1200) == 0,
        ask == 150 || ask == 450 ==> two_beats(ask, 1200) == one(),
{
    eighths(0, 1, 0);
    assert(ask % 1200 == ask);
    a_swing_peaks_alone(ask * 4, 1200);
    if ask == 0 {
        eighths(0, 1200, 0);
    } else if ask == 150 {
        eighths(150, 1200, 1);
    } else if ask == 300 {
        eighths(300, 1200, 2);
    } else if ask == 450 {
        eighths(450, 1200, 3);
    }
    if ask >= 600 {
        assert((1 * one()) * 1200 <= (ask * one()) * 2) by (nonlinear_arith)
            requires
                ask >= 600,
        ;
        single::near_ordered(1 * one(), 2, ask * one(), 1200);
    }
}

#[verifier::rlimit(40)]
proof fn done_beats(end: nat)
    requires
        end < 2400,
    ensures
        end == 0 || end >= 600 ==> one_beat(end, 2400) == 0,
        end == 300 ==> one_beat(end, 2400) == one(),
{
    eighths(0, 1, 0);
    assert(end % 2400 == end);
    a_swing_peaks_alone(end * 4, 2400);
    if end == 0 {
        eighths(0, 2400, 0);
    } else if end == 300 {
        eighths(300, 2400, 1);
    }
    if end >= 600 {
        assert((1 * one()) * 2400 <= (end * one()) * 4) by (nonlinear_arith)
            requires
                end >= 600,
        ;
        single::near_ordered(1 * one(), 4, end * one(), 2400);
    }
}

/// **What a lane's one key does over time**: it starts from the resting glow
/// and reaches the lane's whole colour — working, once in two seconds; waiting,
/// twice in the first half of its 1.2 seconds, and not at all in the second;
/// done, once in the first quarter of its 2.4 seconds and not again. The other
/// states stand still, and the two kinds of trouble are red.
#[verifier::rlimit(40)]
pub proof fn a_lanes_one_key_beats_as_its_state_does(
    color: Rgb,
    elapsed_ms: u64,
    later_ms: u64,
    foreground: bool,
)
    ensures
        ({
            let e = elapsed_ms as nat;
            let (run, ask, end) = (e % 2000, e % 1200, e % 2400);
            let at = |state: State| m_color(Some(state), color, elapsed_ms, false, false);
            &&& run == 0 ==> at(State::Running) == glow(color)
            &&& run == 1000 ==> at(State::Running) == color
            &&& ask == 0 || ask == 300 || ask >= 600 ==> at(State::Waiting) == glow(color)
            &&& ask == 150 || ask == 450 ==> at(State::Waiting) == color
            &&& end == 0 || end >= 600 ==> at(State::Done) == glow(color)
            &&& end == 300 ==> at(State::Done) == color
            &&& at(State::Connected) == glow(color) && at(State::Idle) == glow(color)
            &&& m_color(Some(State::Waiting), color, elapsed_ms, false, true) == color
            &&& forall|selected: bool| #[trigger] m_color(
                None,
                color,
                elapsed_ms,
                selected,
                foreground,
            ) == (Rgb { r: 0, g: 0, b: 0 })
            &&& forall|selected: bool| #[trigger] m_color(
                Some(State::Error),
                color,
                elapsed_ms,
                selected,
                foreground,
            ) == (Rgb { r: 110, g: 0, b: 0 })
            &&& forall|selected: bool| #[trigger] m_color(
                Some(State::Interrupted),
                color,
                elapsed_ms,
                selected,
                foreground,
            ) == (Rgb { r: 255, g: 40, b: 40 })
        }),
        // A lane's other keys beat while it waits as its one key does.
        forall|index: int|
            index > 0 ==> #[trigger] lane_key(Some(State::Waiting), color, index, 4, elapsed_ms)
                == m_color(Some(State::Waiting), color, elapsed_ms, false, false),
        forall|state: State, selected: bool|
            !state.active() && state != State::Done ==> #[trigger] m_color(
                Some(state),
                color,
                elapsed_ms,
                selected,
                foreground,
            ) == m_color(Some(state), color, later_ms, selected, !foreground),
{
    let e = elapsed_ms as nat;
    let (run, ask, end) = (e % 2000, e % 1200, e % 2400);
    foot_and_top();
    shares_are_ordered(color, 0, one());
    a_swing_peaks_alone(e, 2000);
    waiting_beats(ask);
    done_beats(end);
    assert(ask % 1200 == ask && end % 2400 == end);
    assert(two_beats(e, 1200) == two_beats(ask, 1200));
    assert(one_beat(e, 2400) == one_beat(end, 2400));
}

/// **A selected key stands out and still moves**: at rest it is at eleven
/// twentieths of its colour, and its beat takes it to the whole.
pub proof fn the_selected_key_rests_higher(color: Rgb, elapsed_ms: u64, foreground: bool)
    ensures
        m_color(Some(State::Connected), color, elapsed_ms, true, foreground) == dimmed(
            color,
            ratio(11, 20),
        ),
        m_color(Some(State::Idle), color, elapsed_ms, true, foreground) == dimmed(
            color,
            ratio(11, 20),
        ),
        m_color(Some(State::Waiting), color, elapsed_ms, true, true) == color,
        elapsed_ms as nat % 2000 == 0 ==> m_color(
            Some(State::Running),
            color,
            elapsed_ms,
            true,
            foreground,
        ) == dimmed(color, ratio(11, 20)),
        elapsed_ms as nat % 2000 == 1000 ==> m_color(
            Some(State::Running),
            color,
            elapsed_ms,
            true,
            foreground,
        ) == color,
{
    foot_and_top();
    shares_are_ordered(color, 0, one());
    a_swing_peaks_alone(elapsed_ms as nat, 2000);
}

/// **A channel is tuned on its own**: by its own gain and the one brightness.
/// At full brightness and with no gain a colour is shown as it is, and without
/// brightness, or a channel without gain, there is nothing.
pub proof fn a_channel_is_tuned_on_its_own(color: Rgb, other: Rgb, tuning: Tuning, like: Tuning)
    requires
        tuning.brightness == like.brightness,
    ensures
        color.r == other.r && tuning.color_gain.r == like.color_gain.r ==> tuned(color, tuning).r
            == tuned(other, like).r,
        color.g == other.g && tuning.color_gain.g == like.color_gain.g ==> tuned(color, tuning).g
            == tuned(other, like).g,
        color.b == other.b && tuning.color_gain.b == like.color_gain.b ==> tuned(color, tuning).b
            == tuned(other, like).b,
        tuning.brightness == 0 ==> tuned(color, tuning) == (Rgb { r: 0, g: 0, b: 0 }),
        tuning.color_gain.r == 0 ==> tuned(color, tuning).r == 0,
        tuning.color_gain.g == 0 ==> tuned(color, tuning).g == 0,
        tuning.color_gain.b == 0 ==> tuned(color, tuning).b == 0,
        tuning.brightness >= 0x1000_0000 && tuning.color_gain == (Gain {
            r: 0x1000_0000,
            g: 0x1000_0000,
            b: 0x1000_0000,
        }) ==> tuned(color, tuning) == color,
{
    let p = pow2(121);
    let whole = 0x1000_0000nat;
    vstd::arithmetic::power2::lemma_pow2_adds(28, 121);
    vstd::arithmetic::power2::lemma2_to64();
    single::near_itself(1, 149);
    single::near_itself(0, 121);
    assert(0 * p == 0 && 1 * one() == one());
    assert(fraction(0) == 0);
    assert(whole * p == one());
    assert(fraction(0x1000_0000) == one());
    shares_are_ordered(color, 0, one());
    let dark = dimmed(color, fraction(tuning.brightness));
    channels_are_ordered(dark.r, 0, 0);
    channels_are_ordered(dark.g, 0, 0);
    channels_are_ordered(dark.b, 0, 0);
    nothing_stays_nothing(fraction(tuning.color_gain.r));
    nothing_stays_nothing(fraction(tuning.color_gain.g));
    nothing_stays_nothing(fraction(tuning.color_gain.b));
    if tuning.brightness >= 0x1000_0000 {
        let n = tuning.brightness as nat;
        assert((whole * p) * 1 <= (n * p) * 1) by (nonlinear_arith)
            requires
                whole <= n,
        ;
        single::near_ordered(whole * p, 1, n * p, 1);
        assert(dark == color);
    }
}

/// Sixteenths of a period are exact.
proof fn sixteenths(x: nat, period: nat, k: nat)
    requires
        k < 16,
        0 < period,
        16 * x == k * period,
    ensures
        ratio(x, period) == k * pow2(145),
        one() == 16 * pow2(145),
        ratio(1, 2) == 8 * pow2(145),
        ratio(1, 4) == 4 * pow2(145),
        pow2(145) > 0,
{
    let g = pow2(145);
    let u = one();
    vstd::arithmetic::power2::lemma_pow2_pos(145);
    vstd::arithmetic::power2::lemma_pow2_adds(4, 145);
    vstd::arithmetic::power2::lemma2_to64();
    assert(u == 16 * g);
    single::near_itself(k, 145);
    single::near_itself(8, 145);
    single::near_itself(4, 145);
    single::near_same(8 * g, 1, 2);
    single::near_same(4 * g, 1, 4);
    single::near_same(k * g, 1, period);
    assert(x * u == period * (k * g)) by (nonlinear_arith)
        requires
            u == 16 * g,
            16 * x == k * period,
    ;
    assert(period * 1 == period);
}

/// Twice a number of sixteenths.
proof fn doubled(k: nat)
    requires
        k < 16,
    ensures
        product(k * pow2(145), 2 * one()) == 2 * k * pow2(145),
        difference(one(), k * pow2(145)) == (16 - k) as nat * pow2(145),
{
    let g = pow2(145);
    let u = one();
    vstd::arithmetic::power2::lemma_pow2_pos(149);
    vstd::arithmetic::power2::lemma_pow2_adds(4, 145);
    vstd::arithmetic::power2::lemma2_to64();
    single::near_itself(2 * k, 145);
    single::near_same((2 * k) * g, 1, u);
    assert((k * g) * (2 * u) == u * ((2 * k) * g)) by (nonlinear_arith);
    assert(u * 1 == u);
    let rest = (16 - k) as nat;
    single::near_itself(rest, 145);
    assert(u - k * g == rest * g) by (nonlinear_arith)
        requires
            u == 16 * g,
            rest == 16 - k,
    ;
}

/// A wave a quarter of its period from its ends is half way up.
proof fn half_way_up(elapsed_ms: nat, period: nat)
    requires
        0 < period,
        4 * (elapsed_ms % period) == period || 4 * (elapsed_ms % period) == 3 * period,
    ensures
        swing(elapsed_ms, period) == ratio(1, 2),
{
    let x = elapsed_ms % period;
    if 4 * x == period {
        sixteenths(x, period, 4);
        doubled(4);
    } else {
        sixteenths(x, period, 12);
        doubled(12);
        doubled(4);
    }
}

/// Half way from the glow to the whole is three fifths.
proof fn half_way_is_three_fifths()
    ensures
        over_glow(ratio(1, 2)) == ratio(3, 5),
{
    let q = pow2(123);
    let u = one();
    levels();
    halves();
    vstd::arithmetic::power2::lemma_pow2_pos(149);
    vstd::arithmetic::power2::lemma_pow2_unfold(124);
    vstd::arithmetic::power2::lemma_pow2_unfold(125);
    let half = ratio(1, 2);
    assert(2 * half == u);
    // Four fifths, halved.
    single::near_itself(13_421_773, 124);
    assert(26_843_546 * q == 13_421_773 * pow2(124));
    single::near_same(26_843_546 * q, 1, u);
    assert((53_687_092 * q) * half == u * (26_843_546 * q)) by (nonlinear_arith)
        requires
            2 * half == u,
    ;
    assert(u * 1 == u);
    assert(product(above_resting(), half) == 26_843_546 * q);
    // And on top of the glow.
    assert(13_421_773 * q + 26_843_546 * q == 40_265_319 * q);
    assert(near(40_265_319, 1) == 40_265_320) by {
        let b = 40_265_319nat;
        assert(b / 1 == b);
        assert(single::step(10_066_329) == 1);
        assert(single::step(20_132_659) == 2 * single::step(10_066_329));
        assert(single::step(b) == 2 * single::step(20_132_659));
        assert(1nat * 4 == 4);
        assert(b / 4 == 10_066_329 && b % 4 == 3);
        assert(crate::number::nearest_even(b, 4) == 10_066_330);
    }
    single::near_shifted(40_265_319, 1, 123);
    single::near_plain(3 * 0x100_0000, 5);
    assert(near(3 * 0x100_0000, 5) == 10_066_330);
    single::near_shifted(3 * 0x100_0000, 5, 125);
    assert((3 * 0x100_0000) * pow2(125) == 3 * u) by (nonlinear_arith)
        requires
            u == 0x400_0000 * q,
            pow2(125) == 4 * q,
    ;
}

/// **A beat rises and falls evenly**: half way between its foot and its top the
/// light is half way between the glow and the whole colour, at three fifths.
#[verifier::rlimit(40)]
pub proof fn a_beat_rises_evenly(color: Rgb, elapsed_ms: u64)
    ensures
        ({
            let e = elapsed_ms as nat;
            let (run, ask, end) = (e % 2000, e % 1200, e % 2400);
            let at = |state: State| m_color(Some(state), color, elapsed_ms, false, false);
            let half = dimmed(color, ratio(3, 5));
            &&& run == 500 || run == 1500 ==> at(State::Running) == half
            &&& ask == 75 || ask == 225 || ask == 375 || ask == 525 ==> at(State::Waiting) == half
            &&& end == 150 || end == 450 ==> at(State::Done) == half
        }),
{
    let e = elapsed_ms as nat;
    let (run, ask, end) = (e % 2000, e % 1200, e % 2400);
    half_way_is_three_fifths();
    if run == 500 || run == 1500 {
        half_way_up(e, 2000);
    }
    if ask == 75 || ask == 225 || ask == 375 || ask == 525 {
        half_way_up(ask * 4, 1200);
        sixteenths(ask, 1200, ask / 75);
        let (k, g) = (ask / 75, pow2(145));
        assert(k * g < 8 * g) by (nonlinear_arith)
            requires
                k < 8,
                g > 0,
        ;
        assert(two_beats(e, 1200) == ratio(1, 2));
    }
    if end == 150 || end == 450 {
        half_way_up(end * 4, 2400);
        sixteenths(end, 2400, end / 150);
        let (k, g) = (end / 150, pow2(145));
        assert(k * g < 4 * g) by (nonlinear_arith)
            requires
                k < 4,
                g > 0,
        ;
        assert(one_beat(e, 2400) == ratio(1, 2));
    }
}

/// **The lock's fade is even too**: half way, every channel is half way to
/// white.
pub proof fn the_fade_is_half_way_to_white(color: Rgb, elapsed_ms: u64)
    requires
        elapsed_ms as nat % 2400 == 600 || elapsed_ms as nat % 2400 == 1800,
    ensures
        fading(color, elapsed_ms).r == (color.r + 256) / 2,
        fading(color, elapsed_ms).g == (color.g + 256) / 2,
        fading(color, elapsed_ms).b == (color.b + 256) / 2,
{
    half_way_up(elapsed_ms as nat, 2400);
    whitens_half(color.r);
    whitens_half(color.g);
    whitens_half(color.b);
}

proof fn whitens_half(value: u8)
    ensures
        whitened(value, ratio(1, 2)) == (value + 256) / 2,
{
    let u = one();
    let g = pow2(148);
    let v = of_channel(value);
    let rest = (255 - value) as nat;
    vstd::arithmetic::power2::lemma_pow2_pos(148);
    vstd::arithmetic::power2::lemma_pow2_unfold(149);
    halves();
    assert(u == 2 * g);
    let half = ratio(1, 2);
    assert(half == g);
    single::near_itself(rest, 149);
    assert(of_channel(255) - v == rest * u) by (nonlinear_arith)
        requires
            v == value as nat * u,
            of_channel(255) == 255 * u,
            rest == 255 - value,
    ;
    let left = difference(of_channel(255), v);
    assert(left == rest * u);
    single::near_itself(rest, 148);
    single::near_same(rest * g, 1, u);
    assert((rest * u) * half == u * (rest * g)) by (nonlinear_arith)
        requires
            half == g,
    ;
    assert(u * 1 == u);
    assert(product(left, half) == rest * g);
    let all = (value + 255) as nat;
    single::near_itself(all, 148);
    assert(v + rest * g == all * g) by (nonlinear_arith)
        requires
            v == value as nat * u,
            u == 2 * g,
            rest == 255 - value,
            all == value + 255,
    ;
    let x = all * g;
    assert((2 * x + u) / (2 * u) == (all + 1) / 2) by (nonlinear_arith)
        requires
            x == all * g,
            u == 2 * g,
            g > 0,
    ;
}

/// **The running light swells and fades smoothly**: on a lane of one key a
/// quarter of a step away it is still at 27 of 32 parts, coming and going, and
/// three quarters away not above the glow.
#[verifier::rlimit(40)]
pub proof fn the_running_light_swells_and_fades(color: Rgb, elapsed_ms: u64)
    ensures
        ({
            let x = elapsed_ms as nat % 1400;
            let key = lane_key(Some(State::Running), color, 0, 1, elapsed_ms);
            &&& x == 175 || x == 1225 ==> key == dimmed(color, ratio(27, 32))
            &&& x == 525 || x == 875 ==> key == glow(color)
        }),
{
    let x = elapsed_ms as nat % 1400;
    let u = one();
    let g = pow2(145);
    if x == 175 || x == 525 || x == 875 || x == 1225 {
        let k = 2 * (x / 175);
        sixteenths(x, 1400, k);
        single::floats_ordered(1, 1);
        single::floats_ordered(0, 0);
        single::near_itself(2, 149);
        single::near_itself(0, 149);
        assert(1 * u == u && 0 * u == 0 && 1 * u + u == 2 * u);
        let slots = sum(floated(1), u);
        assert(slots == 2 * u);
        doubled(k);
        let place = product(phase(elapsed_ms as nat, 1400), slots);
        assert(place == 2 * k * g);
        single::near_itself(2 * k, 145);
        let raw = apart(place, floated(0));
        assert(raw == 2 * k * g);
        let back = (32 - 2 * k) as nat;
        single::near_itself(back, 145);
        assert(2 * u - raw == back * g) by (nonlinear_arith)
            requires
                raw == 2 * k * g,
                u == 16 * g,
                back == 32 - 2 * k,
        ;
        let far = distance(elapsed_ms as nat, 1400, 0, 1);
        let steps = if 2 * k <= 16 {
            (2 * k) as nat
        } else {
            back
        };
        assert(far == steps * g) by {
            if 2 * k <= 16 {
                assert((2 * k) * g <= back * g) by (nonlinear_arith)
                    requires
                        2 * k <= back,
                ;
            } else {
                assert(back * g < (2 * k) * g) by (nonlinear_arith)
                    requires
                        back < 2 * k,
                        g > 0,
                ;
            }
            assert(steps * g <= 16 * g) by (nonlinear_arith)
                requires
                    steps <= 16,
            ;
        }
        assert(steps == 4 || steps == 12);
        doubled(steps);
        smooth((16 - steps) as nat);
    }
}

/// Three quarters of the way the light is at 27 of 32, a quarter at 5.
proof fn smooth(k: nat)
    requires
        k == 4 || k == 12,
    ensures
        ({
            let t = k * pow2(145);
            let w = product(product(t, t), difference(3 * one(), product(2 * one(), t)));
            &&& k == 12 ==> w == ratio(27, 32) && w > resting()
            &&& k == 4 ==> w <= resting()
        }),
{
    let u = one();
    let g = pow2(145);
    let t = k * g;
    let h = pow2(141);
    vstd::arithmetic::power2::lemma_pow2_pos(141);
    vstd::arithmetic::power2::lemma_pow2_pos(123);
    vstd::arithmetic::power2::lemma_pow2_adds(4, 145);
    vstd::arithmetic::power2::lemma_pow2_adds(4, 141);
    vstd::arithmetic::power2::lemma_pow2_adds(8, 141);
    vstd::arithmetic::power2::lemma_pow2_adds(18, 123);
    vstd::arithmetic::power2::lemma2_to64();
    levels();
    let square = (k * k) as nat;
    single::near_itself(square, 141);
    single::near_same(square * h, 1, u);
    assert(t * t == u * (square * h)) by (nonlinear_arith)
        requires
            t == k * g,
            g == 16 * h,
            u == 256 * h,
            square == k * k,
    ;
    assert(u * 1 == u);
    assert(product(t, t) == square * h);
    single::near_itself(2 * k, 145);
    single::near_same((2 * k) * g, 1, u);
    assert((2 * u) * t == u * ((2 * k) * g)) by (nonlinear_arith)
        requires
            t == k * g,
    ;
    let rest = (48 - 2 * k) as nat;
    single::near_itself(rest, 145);
    assert(3 * u - (2 * k) * g == rest * g) by (nonlinear_arith)
        requires
            u == 16 * g,
            rest == 48 - 2 * k,
    ;
    let part = difference(3 * u, product(2 * u, t));
    assert(part == rest * g);
    let all = (square * rest) as nat;
    let f = pow2(137);
    vstd::arithmetic::power2::lemma_pow2_adds(4, 137);
    vstd::arithmetic::power2::lemma_pow2_adds(8, 137);
    vstd::arithmetic::power2::lemma_pow2_adds(12, 137);
    vstd::arithmetic::power2::lemma_pow2_adds(14, 123);
    if k == 12 {
        assert(all == 3456);
    } else {
        assert(all == 640);
    }
    single::near_itself(all, 137);
    single::near_same(all * f, 1, u);
    assert((square * h) * (rest * g) == u * (all * f)) by (nonlinear_arith)
        requires
            h == 16 * f,
            g == 256 * f,
            u == 4096 * f,
            all == square * rest,
    ;
    let w = product(product(t, t), part);
    assert(w == all * f);
    if k == 12 {
        let e = pow2(144);
        vstd::arithmetic::power2::lemma_pow2_adds(7, 137);
        vstd::arithmetic::power2::lemma_pow2_adds(5, 144);
        single::near_itself(27, 144);
        single::near_same(27 * e, 1, 32);
        assert(27 * u == 32 * (27 * e));
        assert(3456 * f == 27 * e);
    }
}

} // verus!
