//! What a frame costs: only the keys whose colour changed, and nothing when
//! none did.

use vstd::prelude::*;

use super::hid::Exchange;
use super::protocol::{Hsv, Order, wheel};
use super::session::{
    batch, by_led, carried_out, changes, colour_orders, frame_kept, frame_orders, inserted,
    key_of, leds_in, repainted, runs_of,
};
use crate::settings::Rgb;

verus! {

/// Whether a frame names no key twice.
pub open spec fn distinct(colours: Seq<(usize, Rgb)>) -> bool {
    forall|i: int, j: int|
        0 <= i < j < colours.len() ==> (#[trigger] colours[i]).0 != (#[trigger] colours[j]).0
}

/// Whether `colour` costs nothing: its key is past the LEDs, or already shows
/// it.
pub open spec fn settled(
    colour: (usize, Rgb),
    leds: Seq<u8>,
    painted: Seq<Option<Hsv>>,
) -> bool {
    colour.0 >= leds.len() || painted[colour.0 as int] == Some(wheel(colour.1))
}

/// Whether no LED is given two colours.
spec fn agree(changed: Seq<(u8, Hsv)>) -> bool {
    forall|a: (u8, Hsv), b: (u8, Hsv)|
        #[trigger] changed.contains(a) && #[trigger] changed.contains(b) && a.0 == b.0 ==> a.1
            == b.1
}

pub(crate) proof fn inserting_adds_one(sorted: Seq<(u8, Hsv)>, entry: (u8, Hsv), e: (u8, Hsv))
    ensures
        inserted(sorted, entry).contains(e) <==> sorted.contains(e) || e == entry,
    decreases sorted.len(),
{
    if sorted.len() == 0 || sorted.last().0 <= entry.0 {
        pushed(sorted, entry, e);
    } else {
        inserting_adds_one(sorted.drop_last(), entry, e);
        pushed(inserted(sorted.drop_last(), entry), sorted.last(), e);
        pushed(sorted.drop_last(), sorted.last(), e);
        assert(sorted.drop_last().push(sorted.last()) =~= sorted);
    }
}

proof fn pushed<A>(all: Seq<A>, one: A, e: A)
    ensures
        all.push(one).contains(e) <==> all.contains(e) || e == one,
{
    let more = all.push(one);
    assert(more[all.len() as int] == one);
    if all.contains(e) {
        let i = choose|i: int| 0 <= i < all.len() && all[i] == e;
        assert(more[i] == e);
    }
    if more.contains(e) {
        let i = choose|i: int| 0 <= i < more.len() && more[i] == e;
        if i < all.len() {
            assert(all[i] == e);
        }
    }
}

pub(crate) proof fn sorting_keeps(changed: Seq<(u8, Hsv)>, e: (u8, Hsv))
    ensures
        by_led(changed).contains(e) <==> changed.contains(e),
    decreases changed.len(),
{
    if changed.len() > 0 {
        sorting_keeps(changed.drop_last(), e);
        inserting_adds_one(by_led(changed.drop_last()), changed.last(), e);
        pushed(changed.drop_last(), changed.last(), e);
        assert(changed.drop_last().push(changed.last()) =~= changed);
    }
}

proof fn the_key_of_its_led(leds: Seq<u8>, led: u8)
    ensures
        0 <= key_of(leds, led) <= leds.len(),
        key_of(leds, led) < leds.len() ==> leds[key_of(leds, led)] == led,
        leds.contains(led) ==> key_of(leds, led) < leds.len(),
    decreases leds.len(),
{
    if leds.len() > 0 && leds[0] != led {
        let rest = leds.skip(1);
        the_key_of_its_led(rest, led);
        if leds.contains(led) {
            let i = choose|i: int| 0 <= i < leds.len() && leds[i] == led;
            assert(rest[i - 1] == led);
        }
    }
}

/// What is remembered of key `k` once `changed` was sent.
proof fn remembers(painted: Seq<Option<Hsv>>, leds: Seq<u8>, changed: Seq<(u8, Hsv)>, k: int)
    requires
        painted.len() == leds.len(),
        leds.no_duplicates(),
        0 <= k < leds.len(),
        agree(changed),
    ensures
        repainted(painted, leds, changed).len() == leds.len(),
        forall|e: (u8, Hsv)|
            #[trigger] changed.contains(e) && e.0 == leds[k] ==> repainted(
                painted,
                leds,
                changed,
            )[k] == Some(e.1),
        (forall|e: (u8, Hsv)| #[trigger] changed.contains(e) ==> e.0 != leds[k]) ==> repainted(
            painted,
            leds,
            changed,
        )[k] == painted[k],
    decreases changed.len(),
{
    if changed.len() > 0 {
        let fewer = changed.drop_last();
        let last = changed.last();
        assert(fewer.push(last) =~= changed);
        assert forall|e: (u8, Hsv)| #[trigger] changed.contains(e) <==> (fewer.contains(e) || e
            == last) by {
            pushed(fewer, last, e);
        }
        assert forall|a: (u8, Hsv), b: (u8, Hsv)| #[trigger]
            fewer.contains(a) && #[trigger] fewer.contains(b) && a.0 == b.0 implies a.1 == b.1 by {
            assert(changed.contains(a) && changed.contains(b));
        }
        remembers(painted, leds, fewer, k);
        the_key_of_its_led(leds, last.0);
        let key = key_of(leds, last.0);
        if last.0 == leds[k] {
            assert(leds.contains(last.0));
            assert(key == k);
        } else if key < leds.len() {
            assert(key != k);
        }
        let now = repainted(painted, leds, changed);
        assert forall|e: (u8, Hsv)| #[trigger] changed.contains(e) && e.0 == leds[k] implies now[k]
            == Some(e.1) by {
            if last.0 == leds[k] {
                assert(changed.contains(last));
            }
        }
        if forall|e: (u8, Hsv)| #[trigger] changed.contains(e) ==> e.0 != leds[k] {
            assert(changed.contains(last));
            assert forall|e: (u8, Hsv)| #[trigger] fewer.contains(e) implies e.0 != leds[k] by {
                assert(changed.contains(e));
            }
        }
    }
}

/// Every change is a key's that is not settled, and the other way round.
pub(crate) proof fn what_changes(
    colours: Seq<(usize, Rgb)>,
    leds: Seq<u8>,
    painted: Seq<Option<Hsv>>,
    e: (u8, Hsv),
)
    ensures
        changes(colours, leds, painted).contains(e) <==> exists|i: int|
            0 <= i < colours.len() && !settled(#[trigger] colours[i], leds, painted) && e == (
                leds[colours[i].0 as int],
                wheel(colours[i].1),
            ),
    decreases colours.len(),
{
    if colours.len() > 0 {
        let fewer = colours.drop_last();
        let last = colours.last();
        let before = changes(fewer, leds, painted);
        what_changes(fewer, leds, painted, e);
        let mine = (leds[last.0 as int], wheel(last.1));
        if !settled(last, leds, painted) {
            pushed(before, mine, e);
        }
        if before.contains(e) {
            let i = choose|i: int|
                0 <= i < fewer.len() && !settled(#[trigger] fewer[i], leds, painted) && e == (
                    leds[fewer[i].0 as int],
                    wheel(fewer[i].1),
                );
            assert(colours[i] == fewer[i]);
        }
        if exists|i: int|
            0 <= i < colours.len() && !settled(#[trigger] colours[i], leds, painted) && e == (
                leds[colours[i].0 as int],
                wheel(colours[i].1),
            ) {
            let i = choose|i: int|
                0 <= i < colours.len() && !settled(#[trigger] colours[i], leds, painted) && e == (
                    leds[colours[i].0 as int],
                    wheel(colours[i].1),
                );
            if i < fewer.len() {
                assert(fewer[i] == colours[i]);
            }
        }
        if !settled(last, leds, painted) {
            assert(colours[colours.len() - 1] == last);
        }
    }
}

/// **A frame that was taken is remembered**: each of its keys shows its colour,
/// and every other what it showed before.
pub proof fn a_frame_is_remembered(
    colours: Seq<(usize, Rgb)>,
    leds: Seq<u8>,
    painted: Seq<Option<Hsv>>,
)
    requires
        distinct(colours),
        leds.no_duplicates(),
        painted.len() == leds.len(),
    ensures
        ({
            let now = frame_kept(colours, leds, painted);
            &&& now.len() == leds.len()
            &&& forall|i: int|
                0 <= i < colours.len() ==> settled(#[trigger] colours[i], leds, now)
            &&& forall|k: int|
                0 <= k < leds.len() && (forall|i: int|
                    0 <= i < colours.len() ==> (#[trigger] colours[i]).0 != k) ==> #[trigger] now[k]
                    == painted[k]
        }),
{
    let all = changes(colours, leds, painted);
    let sorted = by_led(all);
    let now = frame_kept(colours, leds, painted);
    assert forall|a: (u8, Hsv), b: (u8, Hsv)| #[trigger]
        sorted.contains(a) && #[trigger] sorted.contains(b) && a.0 == b.0 implies a.1 == b.1 by {
        sorting_keeps(all, a);
        sorting_keeps(all, b);
        what_changes(colours, leds, painted, a);
        what_changes(colours, leds, painted, b);
        let i = choose|i: int|
            0 <= i < colours.len() && !settled(#[trigger] colours[i], leds, painted) && a == (
                leds[colours[i].0 as int],
                wheel(colours[i].1),
            );
        let j = choose|j: int|
            0 <= j < colours.len() && !settled(#[trigger] colours[j], leds, painted) && b == (
                leds[colours[j].0 as int],
                wheel(colours[j].1),
            );
        assert(colours[i].0 == colours[j].0);
        assert(i == j) by {
            if i < j {
                assert(colours[i].0 != colours[j].0);
            } else if j < i {
                assert(colours[j].0 != colours[i].0);
            }
        }
    }
    if leds.len() == 0 {
        nothing_to_remember(painted, leds, sorted);
    }
    assert forall|k: int| 0 <= k < leds.len() implies now.len() == leds.len() && (
    #[trigger] now[k] == painted[k] || sorted.contains((leds[k], now[k]->0)) && now[k] is Some) by {
        remembers(painted, leds, sorted, k);
        if exists|e: (u8, Hsv)| #[trigger] sorted.contains(e) && e.0 == leds[k] {
            let e = choose|e: (u8, Hsv)| #[trigger] sorted.contains(e) && e.0 == leds[k];
            assert(now[k] == Some(e.1));
            assert(e == (leds[k], now[k]->0));
        }
    }
    if leds.len() > 0 {
        assert(now[0] == now[0]);
    }
    assert forall|i: int| 0 <= i < colours.len() implies settled(
        #[trigger] colours[i],
        leds,
        now,
    ) by {
        let (key, rgb) = colours[i];
        if key < leds.len() {
            let k = key as int;
            remembers(painted, leds, sorted, k);
            let e = (leds[k], wheel(rgb));
            if !settled(colours[i], leds, painted) {
                what_changes(colours, leds, painted, e);
                sorting_keeps(all, e);
            } else {
                assert forall|j: int|
                    0 <= j < colours.len() && (#[trigger] colours[j]).0 == k implies settled(
                    colours[j],
                    leds,
                    painted,
                ) by {
                    assert(j == i) by {
                        if i < j {
                            assert(colours[i].0 != colours[j].0);
                        } else if j < i {
                            assert(colours[j].0 != colours[i].0);
                        }
                    }
                }
                untouched(colours, leds, painted, k);
            }
        }
    }
    assert forall|k: int|
        0 <= k < leds.len() && (forall|i: int|
            0 <= i < colours.len() ==> (#[trigger] colours[i]).0 != k) implies #[trigger] now[k]
        == painted[k] by {
        remembers(painted, leds, sorted, k);
        untouched(colours, leds, painted, k);
    }
}

proof fn nothing_to_remember(painted: Seq<Option<Hsv>>, leds: Seq<u8>, changed: Seq<(u8, Hsv)>)
    requires
        leds.len() == 0,
    ensures
        repainted(painted, leds, changed) == painted,
    decreases changed.len(),
{
    if changed.len() > 0 {
        nothing_to_remember(painted, leds, changed.drop_last());
        the_key_of_its_led(leds, changed.last().0);
    }
}

/// No change is key `k`'s when every colour for it is settled.
pub(crate) proof fn untouched(
    colours: Seq<(usize, Rgb)>,
    leds: Seq<u8>,
    painted: Seq<Option<Hsv>>,
    k: int,
)
    requires
        leds.no_duplicates(),
        0 <= k < leds.len(),
        forall|j: int|
            0 <= j < colours.len() && (#[trigger] colours[j]).0 == k ==> settled(
                colours[j],
                leds,
                painted,
            ),
    ensures
        forall|e: (u8, Hsv)| #[trigger]
            by_led(changes(colours, leds, painted)).contains(e) ==> e.0 != leds[k],
{
    let all = changes(colours, leds, painted);
    assert forall|e: (u8, Hsv)| #[trigger] by_led(all).contains(e) implies e.0 != leds[k] by {
        sorting_keeps(all, e);
        what_changes(colours, leds, painted, e);
        let j = choose|j: int|
            0 <= j < colours.len() && !settled(#[trigger] colours[j], leds, painted) && e == (
                leds[colours[j].0 as int],
                wheel(colours[j].1),
            );
        assert(colours[j].0 != k);
    }
}

/// A frame of settled keys changes nothing.
proof fn settled_changes_nothing(
    colours: Seq<(usize, Rgb)>,
    leds: Seq<u8>,
    painted: Seq<Option<Hsv>>,
)
    requires
        forall|i: int| 0 <= i < colours.len() ==> settled(#[trigger] colours[i], leds, painted),
    ensures
        changes(colours, leds, painted) == Seq::<(u8, Hsv)>::empty(),
    decreases colours.len(),
{
    if colours.len() > 0 {
        let fewer = colours.drop_last();
        assert forall|i: int| 0 <= i < fewer.len() implies settled(
            #[trigger] fewer[i],
            leds,
            painted,
        ) by {
            assert(fewer[i] == colours[i]);
        }
        settled_changes_nothing(fewer, leds, painted);
        assert(settled(colours[colours.len() - 1], leds, painted));
    }
}

/// One key that is not settled is one change.
proof fn one_unsettled_is_one_change(
    colours: Seq<(usize, Rgb)>,
    leds: Seq<u8>,
    painted: Seq<Option<Hsv>>,
    at: int,
)
    requires
        0 <= at < colours.len(),
        !settled(colours[at], leds, painted),
        forall|i: int|
            0 <= i < colours.len() && i != at ==> settled(#[trigger] colours[i], leds, painted),
    ensures
        changes(colours, leds, painted) == seq![
            (leds[colours[at].0 as int], wheel(colours[at].1)),
        ],
    decreases colours.len(),
{
    let fewer = colours.drop_last();
    assert forall|i: int| 0 <= i < fewer.len() implies fewer[i] == #[trigger] colours[i] by {}
    if at == colours.len() - 1 {
        settled_changes_nothing(fewer, leds, painted);
        assert(changes(colours, leds, painted) =~= seq![
            (leds[colours[at].0 as int], wheel(colours[at].1)),
        ]);
    } else {
        one_unsettled_is_one_change(fewer, leds, painted, at);
        assert(settled(colours[colours.len() - 1], leds, painted));
    }
}

/// **A still board costs nothing**: painting the colours that were just taken
/// once more sends no report at all, and goes well.
pub proof fn a_still_board_costs_nothing(
    colours: Seq<(usize, Rgb)>,
    leds: Seq<u8>,
    painted: Seq<Option<Hsv>>,
    before: Seq<Exchange>,
    after: Seq<Exchange>,
    r: Result<(), String>,
)
    requires
        distinct(colours),
        leds.no_duplicates(),
        painted.len() == leds.len(),
        carried_out(
            before,
            after,
            frame_orders(colours, leds, frame_kept(colours, leds, painted)),
            r,
        ),
    ensures
        frame_orders(colours, leds, frame_kept(colours, leds, painted)) == Seq::<Order>::empty(),
        frame_kept(colours, leds, frame_kept(colours, leds, painted)) == frame_kept(
            colours,
            leds,
            painted,
        ),
        r is Ok,
        after == before,
{
    let now = frame_kept(colours, leds, painted);
    a_frame_is_remembered(colours, leds, painted);
    settled_changes_nothing(colours, leds, now);
    let none = by_led(changes(colours, leds, now));
    assert(leds_in(none) =~= seq![]);
    assert(frame_orders(colours, leds, now) =~= seq![]);
    assert(after.take(before.len() as int) =~= after);
}

/// **One key costs one report**: when just one of the colours that were taken
/// is another, painting them sends that LED's colour and nothing else.
pub proof fn one_key_costs_one_report(
    colours: Seq<(usize, Rgb)>,
    leds: Seq<u8>,
    painted: Seq<Option<Hsv>>,
    at: int,
    rgb: Rgb,
)
    requires
        distinct(colours),
        leds.no_duplicates(),
        painted.len() == leds.len(),
        0 <= at < colours.len(),
        colours[at].0 < leds.len(),
        wheel(rgb) != wheel(colours[at].1),
    ensures
        frame_orders(
            colours.update(at, (colours[at].0, rgb)),
            leds,
            frame_kept(colours, leds, painted),
        ) == seq![
            Order::SetColours {
                start: leds[colours[at].0 as int],
                colours: seq![wheel(rgb)],
            },
        ],
{
    let now = frame_kept(colours, leds, painted);
    let other = colours.update(at, (colours[at].0, rgb));
    a_frame_is_remembered(colours, leds, painted);
    assert(settled(colours[at], leds, now));
    assert forall|i: int| 0 <= i < other.len() && i != at implies settled(
        #[trigger] other[i],
        leds,
        now,
    ) by {
        assert(other[i] == colours[i]);
    }
    one_unsettled_is_one_change(other, leds, now, at);
    let (led, hsv) = (leds[colours[at].0 as int], wheel(rgb));
    let changed = seq![(led, hsv)];
    assert(changes(other, leds, now) == changed);
    assert(changed.drop_last() =~= seq![]);
    assert(by_led(changed.drop_last()) =~= seq![]);
    assert(by_led(changed) =~= changed);
    assert(leds_in(changed) =~= seq![led]);
    assert(seq![led].drop_last() =~= seq![]);
    assert(runs_of(seq![led].drop_last(), 9) =~= seq![]);
    assert(runs_of(seq![led], 9) =~= seq![seq![led]]);
    assert(seq![led].contains(led)) by {
        assert(seq![led][0] == led);
    }
    assert(batch(changed.drop_last(), seq![led]) =~= seq![]);
    assert(batch(changed, seq![led]) =~= seq![hsv]);
    assert(colour_orders(changed) =~= seq![
        Order::SetColours { start: led, colours: seq![hsv] },
    ]);
}

/// **A key past the LEDs costs nothing**: a frame is painted as if it did not
/// name it.
pub proof fn a_key_past_the_leds_costs_nothing(
    before: Seq<(usize, Rgb)>,
    past: (usize, Rgb),
    rest: Seq<(usize, Rgb)>,
    leds: Seq<u8>,
    painted: Seq<Option<Hsv>>,
)
    requires
        past.0 >= leds.len(),
    ensures
        frame_orders(before + seq![past] + rest, leds, painted) == frame_orders(
            before + rest,
            leds,
            painted,
        ),
        frame_kept(before + seq![past] + rest, leds, painted) == frame_kept(
            before + rest,
            leds,
            painted,
        ),
{
    left_out(before, past, rest, leds, painted);
}

proof fn left_out(
    before: Seq<(usize, Rgb)>,
    past: (usize, Rgb),
    rest: Seq<(usize, Rgb)>,
    leds: Seq<u8>,
    painted: Seq<Option<Hsv>>,
)
    requires
        past.0 >= leds.len(),
    ensures
        changes(before + seq![past] + rest, leds, painted) == changes(
            before + rest,
            leds,
            painted,
        ),
    decreases rest.len(),
{
    let with = before + seq![past] + rest;
    if rest.len() == 0 {
        assert(with.drop_last() =~= before);
        assert(with.last() == past);
        assert(before + rest =~= before);
    } else {
        let fewer = rest.drop_last();
        left_out(before, past, fewer, leds, painted);
        assert(with.drop_last() =~= before + seq![past] + fewer);
        assert((before + rest).drop_last() =~= before + fewer);
        assert(with.last() == (before + rest).last());
    }
}

} // verus!
