//! The keyboard's side of the talk, as far as the app changes it: what each
//! order does to a board, and so what a take-over leaves and a hand-back
//! restores.

use vstd::prelude::*;

use super::frame::{
    distinct, inserting_adds_one, settled, sorting_keeps, untouched, what_changes,
};
use super::protocol::{
    EFFECT_MIXED, EffectSlot, Hsv, Order, Region, colour_at, slot_at,
};
use super::session::{
    Remembered, as_left, batch, black_orders, by_led, carried, changes, colour_orders,
    colour_questions, dark, frame_orders, full_list, inserted, leds_in, others, ownership_orders, packets, per_key_slot, read_snapshot,
    region_again, region_orders, region_questions, restore_orders, runs_of, shared,
    snapshot_orders, take_over_orders, was_running,
};
use crate::settings::Rgb;

verus! {

/// A board, as much of it as the app reads and writes: the lighting's values,
/// each LED's stored colour and region, and the three slots of each region's
/// list that a packet carries.
pub ghost struct Keyboard {
    pub effect: u8,
    pub brightness: u8,
    pub speed: u8,
    pub hue: u8,
    pub sat: u8,
    pub per_key_type: u8,
    pub colours: Seq<Hsv>,
    pub regions: Seq<u8>,
    pub ambient: Seq<EffectSlot>,
    pub ours: Seq<EffectSlot>,
}

/// `old` with `new` written over it from `start` on.
pub open spec fn overlaid<A>(old: Seq<A>, start: int, new: Seq<A>) -> Seq<A> {
    Seq::new(
        old.len(),
        |i: int|
            if start <= i < start + new.len() {
                new[i - start]
            } else {
                old[i]
            },
    )
}

impl Keyboard {
    /// A board of `count` LEDs that is in one piece.
    pub open spec fn wf(self, count: nat) -> bool {
        &&& count <= 255
        &&& self.colours.len() == count
        &&& self.regions.len() == count
        &&& forall|i: int| 0 <= i < count ==> (#[trigger] self.regions[i]) < 2
        &&& self.ambient.len() == 3
        &&& self.ours.len() == 3
    }

    /// What an order leaves. One past the board's last LED is refused.
    pub open spec fn after(self, order: Order) -> Keyboard {
        match order {
            Order::SetBrightness(brightness) => Keyboard { brightness, ..self },
            Order::SetEffect(effect) => Keyboard { effect, ..self },
            Order::SetSpeed(speed) => Keyboard { speed, ..self },
            Order::SetColour { hue, sat } => Keyboard { hue, sat, ..self },
            Order::SetPerKeyType(per_key_type) => Keyboard { per_key_type, ..self },
            Order::SetColours { start, colours } => if start + colours.len() <= self.colours.len() {
                Keyboard { colours: overlaid(self.colours, start as int, colours), ..self }
            } else {
                self
            },
            Order::SetRegions { start, regions } => if start + regions.len() <= self.regions.len() {
                Keyboard {
                    regions: overlaid(
                        self.regions,
                        start as int,
                        Seq::new(regions.len(), |i: int| regions[i].number()),
                    ),
                    ..self
                }
            } else {
                self
            },
            Order::SetEffectList { region: Region::Ambient, slots } => Keyboard {
                ambient: overlaid(self.ambient, 0, slots),
                ..self
            },
            Order::SetEffectList { region: Region::Ours, slots } => Keyboard {
                ours: overlaid(self.ours, 0, slots),
                ..self
            },
            _ => self,
        }
    }

    /// What `orders` leave, given one after the other.
    pub open spec fn after_all(self, orders: Seq<Order>) -> Keyboard
        decreases orders.len(),
    {
        if orders.len() == 0 {
            self
        } else {
            self.after_all(orders.drop_last()).after(orders.last())
        }
    }

    /// Whether `reply` tells the truth about this board.
    pub open spec fn tells(self, order: Order, reply: Seq<u8>) -> bool {
        match order {
            Order::GetEffect => reply[3] == self.effect,
            Order::GetBrightness => reply[3] == self.brightness,
            Order::GetSpeed => reply[3] == self.speed,
            Order::GetColour => reply[3] == self.hue && reply[4] == self.sat,
            Order::GetPerKeyType => reply[3] == self.per_key_type,
            Order::GetColours { start, count } => forall|i: int|
                0 <= i < count ==> #[trigger] colour_at(reply, 3 + 3 * i) == self.colours[start + i],
            Order::GetRegions { start, count } => forall|i: int|
                0 <= i < count ==> #[trigger] reply[3 + i] == self.regions[start + i],
            Order::GetEffectList(Region::Ambient) => forall|i: int|
                0 <= i < 3 ==> #[trigger] slot_at(reply, 3 + 8 * i) == self.ambient[i],
            Order::GetEffectList(Region::Ours) => forall|i: int|
                0 <= i < 3 ==> #[trigger] slot_at(reply, 3 + 8 * i) == self.ours[i],
            _ => true,
        }
    }

    /// What there is to remember of this board.
    pub open spec fn remembered(self) -> Remembered {
        Remembered {
            effect: self.effect,
            brightness: self.brightness,
            speed: self.speed,
            hue: self.hue,
            sat: self.sat,
            per_key_type: self.per_key_type,
            colours: Seq::new(self.colours.len(), |i: int| (i as u8, self.colours[i])),
            regions: self.regions,
            ambient: self.ambient,
            ours: self.ours,
        }
    }
}

proof fn after_both(board: Keyboard, first: Seq<Order>, second: Seq<Order>)
    ensures
        board.after_all(first + second) == board.after_all(first).after_all(second),
    decreases second.len(),
{
    if second.len() == 0 {
        assert(first + second =~= first);
    } else {
        assert((first + second).drop_last() =~= first + second.drop_last());
        after_both(board, first, second.drop_last());
    }
}

/// The LEDs of a whole board, from the first on.
pub open spec fn every_led(count: nat) -> Seq<u8> {
    Seq::new(count, |i: int| i as u8)
}

/// The `k`th nine of a board's LEDs.
pub open spec fn nine(count: nat, k: int) -> Seq<u8> {
    Seq::new(carried(count, 9, 9 * k) as nat, |i: int| (9 * k + i) as u8)
}

/// The LEDs of a whole board fall into runs of nine, from the first on.
proof fn runs_of_all(count: nat)
    requires
        count <= 256,
    ensures
        runs_of(every_led(count), 9).len() == packets(count, 9),
        forall|k: int|
            0 <= k < packets(count, 9) ==> #[trigger] runs_of(every_led(count), 9)[k] == nine(
                count,
                k,
            ),
    decreases count,
{
    let all = every_led(count);
    if count > 0 {
        let fewer = (count - 1) as nat;
        assert(all.drop_last() =~= every_led(fewer));
        runs_of_all(fewer);
        let runs = runs_of(every_led(fewer), 9);
        let n = packets(fewer, 9);
        if fewer % 9 == 0 {
            if n > 0 {
                assert(runs[n - 1] == nine(fewer, n - 1));
                assert(runs[n - 1].len() == 9);
            }
            assert(runs_of(all, 9) =~= runs.push(seq![all.last()]));
            assert forall|k: int| 0 <= k < packets(count, 9) implies #[trigger] runs_of(all, 9)[k]
                == nine(count, k) by {
                if k < n {
                    assert(runs_of(all, 9)[k] == runs[k]);
                } else {
                    assert(runs_of(all, 9)[k] =~= nine(count, k));
                }
            }
        } else {
            let last = runs[n - 1];
            assert(last == nine(fewer, n - 1));
            assert(last.last() == (fewer - 1) as u8);
            assert(runs_of(all, 9) =~= runs.update(n - 1, last.push(all.last())));
            assert forall|k: int| 0 <= k < packets(count, 9) implies #[trigger] runs_of(all, 9)[k]
                == nine(count, k) by {
                if k < n - 1 {
                    assert(runs_of(all, 9)[k] == runs[k]);
                } else {
                    assert(runs_of(all, 9)[k] =~= nine(count, k));
                }
            }
        }
    }
}

/// Of the first `upto` of a board's colours, those that the `k`th nine
/// carries.
proof fn batch_of_all(stored: Seq<(u8, Hsv)>, count: nat, k: int, upto: nat)
    requires
        count <= 256,
        stored.len() == count,
        forall|i: int| 0 <= i < count ==> (#[trigger] stored[i]).0 == i,
        0 <= k < packets(count, 9),
        upto <= count,
    ensures
        batch(stored.take(upto as int), nine(count, k)) == (if upto <= 9 * k {
            Seq::<Hsv>::empty()
        } else {
            Seq::new(carried(upto, 9, 9 * k) as nat, |i: int| stored[9 * k + i].1)
        }),
    decreases upto,
{
    let run = nine(count, k);
    if upto > 0 {
        let fewer = (upto - 1) as nat;
        batch_of_all(stored, count, k, fewer);
        assert(stored.take(upto as int).drop_last() =~= stored.take(fewer as int));
        let led = stored[fewer as int].0;
        if 9 * k <= fewer < 9 * k + 9 {
            assert(run[fewer - 9 * k] == led);
            assert(run.contains(led));
        } else {
            assert(!run.contains(led));
        }
        assert(batch(stored.take(upto as int), run) =~= if upto <= 9 * k {
            Seq::<Hsv>::empty()
        } else {
            Seq::new(carried(upto, 9, 9 * k) as nat, |i: int| stored[9 * k + i].1)
        });
    } else {
        assert(batch(stored.take(0), run) =~= Seq::<Hsv>::empty());
    }
}

/// Storing a whole board's colours leaves exactly those colours.
proof fn colours_come_back(board: Keyboard, stored: Seq<(u8, Hsv)>, count: nat, sent: nat)
    requires
        count <= 255,
        stored.len() == count,
        board.colours.len() == count,
        forall|i: int| 0 <= i < count ==> (#[trigger] stored[i]).0 == i,
        sent <= packets(count, 9),
    ensures
        colour_orders(stored).len() == packets(count, 9),
        board.after_all(colour_orders(stored).take(sent as int)) == (Keyboard {
            colours: Seq::new(
                count,
                |i: int|
                    if i < 9 * sent {
                        stored[i].1
                    } else {
                        board.colours[i]
                    },
            ),
            ..board
        }),
    decreases sent,
{
    let orders = colour_orders(stored);
    assert(leds_in(stored) =~= every_led(count));
    runs_of_all(count);
    let want = |upto: int|
        Seq::new(
            count,
            |i: int|
                if i < upto {
                    stored[i].1
                } else {
                    board.colours[i]
                },
        );
    if sent > 0 {
        let k = sent - 1;
        colours_come_back(board, stored, count, k as nat);
        assert(orders.take(sent as int).drop_last() =~= orders.take(k));
        batch_of_all(stored, count, k, count);
        assert(stored.take(count as int) =~= stored);
        let run = runs_of(leds_in(stored), 9)[k];
        assert(run == nine(count, k));
        assert(run[0] == 9 * k);
        let before = board.after_all(orders.take(k));
        let now = board.after_all(orders.take(sent as int));
        assert(now == before.after(orders[k]));
        assert(now.colours =~= want(9 * sent as int));
    } else {
        assert(orders.take(0) =~= seq![]);
        assert(board.colours =~= want(0));
    }
}

/// Setting a whole board's regions leaves exactly those regions.
proof fn regions_come_back(board: Keyboard, regions: Seq<Region>, count: nat, sent: nat)
    requires
        count <= 255,
        regions.len() == count,
        board.regions.len() == count,
        sent <= packets(count, 28),
    ensures
        region_orders(regions).len() == packets(count, 28),
        board.after_all(region_orders(regions).take(sent as int)) == (Keyboard {
            regions: Seq::new(
                count,
                |i: int|
                    if i < 28 * sent {
                        regions[i].number()
                    } else {
                        board.regions[i]
                    },
            ),
            ..board
        }),
    decreases sent,
{
    let orders = region_orders(regions);
    let want = |upto: int|
        Seq::new(
            count,
            |i: int|
                if i < upto {
                    regions[i].number()
                } else {
                    board.regions[i]
                },
        );
    if sent > 0 {
        let k = sent - 1;
        regions_come_back(board, regions, count, k as nat);
        assert(orders.take(sent as int).drop_last() =~= orders.take(k));
        let before = board.after_all(orders.take(k));
        let now = board.after_all(orders.take(sent as int));
        assert(now == before.after(orders[k]));
        assert(now.regions =~= want(28 * sent as int));
    } else {
        assert(orders.take(0) =~= seq![]);
        assert(board.regions =~= want(0));
    }
}

proof fn after_one(board: Keyboard, order: Order)
    ensures
        board.after_all(seq![order]) == board.after(order),
{
    reveal_with_fuel(Keyboard::after_all, 2);
    assert(seq![order].drop_last() =~= seq![]);
}

/// What a restore ends with: both lists and every plain value.
spec fn closing_orders(kept: Remembered) -> Seq<Order> {
    seq![
        Order::SetEffectList { region: Region::Ambient, slots: full_list(kept.ambient) },
        Order::SetEffectList { region: Region::Ours, slots: full_list(kept.ours) },
        Order::SetSpeed(kept.speed),
        Order::SetColour { hue: kept.hue, sat: kept.sat },
        Order::SetBrightness(kept.brightness),
        Order::SetEffect(kept.effect),
    ]
}

proof fn the_closing_orders(board: Keyboard, found: Keyboard)
    requires
        board.ambient.len() == found.ambient.len(),
        board.ours.len() == found.ours.len(),
        found.ambient.len() == 3,
        found.ours.len() == 3,
    ensures
        board.after_all(closing_orders(found.remembered())) == (Keyboard {
            effect: found.effect,
            brightness: found.brightness,
            speed: found.speed,
            hue: found.hue,
            sat: found.sat,
            ambient: found.ambient,
            ours: found.ours,
            ..board
        }),
{
    let rest = closing_orders(found.remembered());
    reveal_with_fuel(Keyboard::after_all, 7);
    let r5 = rest.drop_last();
    let r4 = r5.drop_last();
    let r3 = r4.drop_last();
    let r2 = r3.drop_last();
    let r1 = r2.drop_last();
    assert(r1.drop_last() =~= seq![]);
    let now = board.after_all(rest);
    assert(now.ambient =~= found.ambient);
    assert(now.ours =~= found.ours);
}

/// **The board comes back exactly as it was found.** Whatever was done to a
/// board in between, restoring what was remembered of it leaves every value,
/// every stored colour, every region and both lists as they were.
pub proof fn the_board_comes_back_as_it_was_found(count: nat, found: Keyboard, now: Keyboard)
    requires
        found.wf(count),
        now.wf(count),
    ensures
        now.after_all(restore_orders(found.remembered())) == found,
{
    let kept = found.remembered();
    let colours = colour_orders(kept.colours);
    let kind = seq![Order::SetPerKeyType(kept.per_key_type)];
    let numbers = Seq::new(kept.regions.len(), |i: int| region_again(kept.regions[i]));
    let regions = region_orders(numbers);
    let rest = closing_orders(kept);
    assert(restore_orders(kept) == colours + kind + regions + rest);
    after_both(now, colours + kind + regions, rest);
    after_both(now, colours + kind, regions);
    after_both(now, colours, kind);
    colours_come_back(now, kept.colours, count, packets(count, 9));
    assert(colours.take(packets(count, 9) as int) =~= colours);
    let one = now.after_all(colours);
    assert(one.colours =~= found.colours);
    let two = one.after_all(kind);
    after_one(one, kind[0]);
    assert(kind =~= seq![kind[0]]);
    assert(two == (Keyboard { per_key_type: kept.per_key_type, ..one }));
    regions_come_back(two, numbers, count, packets(count, 28));
    assert(regions.take(packets(count, 28) as int) =~= regions);
    let three = two.after_all(regions);
    assert(three.regions =~= found.regions);
    the_closing_orders(three, found);
}

/// A board that answers truthfully is remembered as it is.
pub proof fn a_snapshot_is_the_board(count: nat, board: Keyboard, replies: Seq<Seq<u8>>)
    requires
        board.wf(count),
        replies.len() == snapshot_orders(count).len(),
        forall|i: int|
            0 <= i < replies.len() ==> board.tells(snapshot_orders(count)[i], #[trigger] replies[i]),
    ensures
        read_snapshot(count, replies) == board.remembered(),
{
    let orders = snapshot_orders(count);
    let read = read_snapshot(count, replies);
    let colours = packets(count, 9) as int;
    let regions = packets(count, 29) as int;
    assert(replies[0] == replies[0] && replies[1] == replies[1] && replies[2] == replies[2]
        && replies[3] == replies[3] && replies[4] == replies[4]);
    assert(board.tells(orders[0], replies[0]));
    assert forall|led: int| 0 <= led < count implies read.colours[led]
        == board.remembered().colours[led] by {
        let k = led / 9;
        assert(orders[5 + k] == colour_questions(count)[k]);
        assert(board.tells(orders[5 + k], replies[5 + k]));
        assert(colour_at(replies[5 + k], 3 + 3 * (led % 9)) == board.colours[(9 * k) as u8 + led % 9]);
    }
    assert(read.colours =~= board.remembered().colours);
    assert forall|led: int| 0 <= led < count implies read.regions[led] == board.regions[led] by {
        let k = led / 29;
        assert(orders[5 + colours + k] == region_questions(count)[k]);
        assert(board.tells(orders[5 + colours + k], replies[5 + colours + k]));
        assert(replies[5 + colours + k][3 + led % 29] == board.regions[(29 * k) as u8 + led % 29]);
    }
    assert(read.regions =~= board.regions);
    let last = 5 + colours + regions;
    assert(orders[last] == Order::GetEffectList(Region::Ambient));
    assert(orders[last + 1] == Order::GetEffectList(Region::Ours));
    assert(board.tells(orders[last], replies[last]));
    assert(board.tells(orders[last + 1], replies[last + 1]));
    assert(read.ambient =~= board.ambient);
    assert(read.ours =~= board.ours);
}

/// The `i`th LED of `leds` is in one of its runs, and each run counts up by
/// one.
proof fn runs_count_up(leds: Seq<u8>, max: nat)
    requires
        max > 0,
    ensures
        forall|k: int, i: int|
            0 <= k < runs_of(leds, max).len() && 0 <= i < runs_of(leds, max)[k].len()
                ==> #[trigger] runs_of(leds, max)[k][i] == runs_of(leds, max)[k][0] + i,
        forall|k: int|
            0 <= k < runs_of(leds, max).len() ==> 0 < (#[trigger] runs_of(leds, max)[k]).len()
                <= max,
        forall|k: int, i: int|
            0 <= k < runs_of(leds, max).len() && 0 <= i < runs_of(leds, max)[k].len()
                ==> leds.contains(#[trigger] runs_of(leds, max)[k][i]),
    decreases leds.len(),
{
    if leds.len() > 0 {
        let fewer = leds.drop_last();
        let before = runs_of(fewer, max);
        let runs = runs_of(leds, max);
        let led = leds.last();
        runs_count_up(fewer, max);
        assert(leds[leds.len() - 1] == led);
        assert forall|k: int, i: int| 0 <= k < runs.len() && 0 <= i < runs[k].len() implies
            #[trigger] runs[k][i] == runs[k][0] + i && leds.contains(runs[k][i]) by {
            if k < before.len() && i < before[k].len() {
                assert(runs[k][i] == before[k][i]);
                assert(before[k][i] == before[k][0] + i);
                assert(runs[k][0] == before[k][0]);
                let j = choose|j: int| 0 <= j < fewer.len() && fewer[j] == before[k][i];
                assert(leds[j] == runs[k][i]);
            } else {
                assert(runs[k][i] == led);
                if k < before.len() {
                    assert(before[k].last() == before[k][0] + (before[k].len() - 1));
                }
            }
        }
        assert forall|k: int| 0 <= k < runs.len() implies 0 < (#[trigger] runs[k]).len() <= max by {
            if k < before.len() {
                assert(0 < before[k].len() <= max);
            }
        }
    }
}

/// None of the other LEDs is the app's, and all are on the board.
proof fn others_are_others(leds: Seq<u8>, count: nat)
    requires
        count <= 255,
    ensures
        forall|led: u8| #[trigger]
            others(leds, count).contains(led) <==> led < count && !leds.contains(led),
    decreases count,
{
    if count > 0 {
        let fewer = (count - 1) as nat;
        others_are_others(leds, fewer);
        let before = others(leds, fewer);
        let all = others(leds, count);
        assert forall|led: u8| #[trigger] all.contains(led) <==> led < count && !leds.contains(
            led,
        ) by {
            if all.contains(led) {
                let i = choose|i: int| 0 <= i < all.len() && all[i] == led;
                if i < before.len() {
                    assert(before[i] == led);
                    assert(before.contains(led));
                }
            }
            if led < fewer && !leds.contains(led) {
                assert(before.contains(led));
                let i = choose|i: int| 0 <= i < before.len() && before[i] == led;
                assert(all[i] == led);
            } else if led == fewer && !leds.contains(led) {
                assert(all[all.len() - 1] == led);
            }
        }
    }
}

/// Blacking out LEDs touches no other LED, and nothing else.
proof fn black_touches_only(board: Keyboard, leds: Seq<u8>, sent: nat)
    requires
        board.colours.len() <= 255,
        sent <= black_orders(leds).len(),
    ensures
        ({
            let now = board.after_all(black_orders(leds).take(sent as int));
            &&& now == (Keyboard { colours: now.colours, ..board })
            &&& now.colours.len() == board.colours.len()
            &&& forall|led: int|
                0 <= led < board.colours.len() && !leds.contains(led as u8)
                    ==> #[trigger] now.colours[led] == board.colours[led]
        }),
    decreases sent,
{
    let orders = black_orders(leds);
    runs_count_up(leds, 9);
    if sent > 0 {
        let k = sent - 1;
        black_touches_only(board, leds, k as nat);
        assert(orders.take(sent as int).drop_last() =~= orders.take(k));
        let before = board.after_all(orders.take(k));
        let now = board.after_all(orders.take(sent as int));
        assert(now == before.after(orders[k]));
        let run = runs_of(leds, 9)[k];
        assert forall|led: int|
            0 <= led < board.colours.len() && !leds.contains(led as u8) implies
            #[trigger] now.colours[led] == board.colours[led] by {
            if run[0] <= led < run[0] + run.len() {
                assert(run[led - run[0]] == run[0] + (led - run[0]));
            }
        }
    } else {
        assert(orders.take(0) =~= seq![]);
    }
}

/// Whether `led` is in one of the first `upto` of `runs`.
spec fn in_a_run(runs: Seq<Seq<u8>>, upto: int, led: u8) -> bool {
    exists|k: int, i: int|
        0 <= k < upto && 0 <= i < runs[k].len() && #[trigger] runs[k][i] == led
}

proof fn every_led_is_in_a_run(leds: Seq<u8>, max: nat, led: u8)
    requires
        leds.contains(led),
    ensures
        in_a_run(runs_of(leds, max), runs_of(leds, max).len() as int, led),
    decreases leds.len(),
{
    let fewer = leds.drop_last();
    let before = runs_of(fewer, max);
    let runs = runs_of(leds, max);
    if leds.last() == led {
        let k = runs.len() - 1;
        assert(runs[k][runs[k].len() - 1] == led);
    } else {
        let j = choose|j: int| 0 <= j < leds.len() && leds[j] == led;
        assert(fewer[j] == led);
        every_led_is_in_a_run(fewer, max, led);
        let (k, i) = choose|k: int, i: int|
            0 <= k < before.len() && 0 <= i < before[k].len() && #[trigger] before[k][i] == led;
        assert(runs[k][i] == led);
    }
}

/// Blacking out LEDs leaves each that was reached black.
proof fn black_is_black(board: Keyboard, leds: Seq<u8>, sent: nat, led: u8)
    requires
        board.colours.len() <= 255,
        forall|one: u8| #[trigger] leds.contains(one) ==> one < board.colours.len(),
        sent <= black_orders(leds).len(),
        in_a_run(runs_of(leds, 9), sent as int, led),
    ensures
        led < board.colours.len(),
        board.after_all(black_orders(leds).take(sent as int)).colours[led as int] == (Hsv {
            h: 0,
            s: 0,
            v: 0,
        }),
    decreases sent,
{
    let orders = black_orders(leds);
    let runs = runs_of(leds, 9);
    runs_count_up(leds, 9);
    let (k, i) = choose|k: int, i: int|
        0 <= k < sent && 0 <= i < runs[k].len() && #[trigger] runs[k][i] == led;
    let last = sent - 1;
    black_touches_only(board, leds, last as nat);
    assert(orders.take(sent as int).drop_last() =~= orders.take(last));
    let before = board.after_all(orders.take(last));
    let now = board.after_all(orders.take(sent as int));
    assert(now == before.after(orders[last]));
    let run = runs[last];
    assert(leds.contains(run[run.len() - 1]));
    assert(run[run.len() - 1] == run[0] + (run.len() - 1));
    assert(leds.contains(runs[k][i]));
    if k == last {
        assert(run[0] <= led < run[0] + run.len());
    } else {
        assert(in_a_run(runs, last, led));
        black_is_black(board, leds, last as nat, led);
    }
}

/// What a take-over ends with: what each region runs, and the mixed effect.
spec fn last_orders(ambient: Seq<EffectSlot>) -> Seq<Order> {
    seq![
        Order::SetEffectList { region: Region::Ambient, slots: full_list(ambient) },
        Order::SetEffectList { region: Region::Ours, slots: full_list(seq![per_key_slot()]) },
        Order::SetPerKeyType(0),
        Order::SetEffect(EFFECT_MIXED),
    ]
}

proof fn the_last_orders(board: Keyboard, ambient: Seq<EffectSlot>, count: nat)
    requires
        board.wf(count),
    ensures
        ({
            let now = board.after_all(last_orders(ambient));
            &&& now.wf(count)
            &&& now == (Keyboard {
                effect: EFFECT_MIXED,
                per_key_type: 0,
                ours: full_list(seq![per_key_slot()]),
                ambient: full_list(ambient),
                ..board
            })
        }),
{
    let rest = last_orders(ambient);
    reveal_with_fuel(Keyboard::after_all, 5);
    let r3 = rest.drop_last();
    let r2 = r3.drop_last();
    let r1 = r2.drop_last();
    assert(r1.drop_last() =~= seq![]);
    let now = board.after_all(rest);
    assert(now.ambient =~= full_list(ambient));
    assert(now.ours =~= full_list(seq![per_key_slot()]));
}

/// What a take-over leaves: the app's LEDs in its region, per key; the rest
/// in the other, running what the user had, or — when that was nothing — per
/// key too, and stored black; the app's own stored colours untouched, and
/// everybody's when something was running; brightness, speed and colour as they
/// were.
pub proof fn a_take_over_owns_only_its_keys(count: nat, board: Keyboard, leds: Seq<u8>, kept: Remembered)
    requires
        board.wf(count),
    ensures
        ({
            let now = board.after_all(take_over_orders(leds, count, kept));
            let running = was_running(kept);
            &&& now.wf(count)
            &&& now.effect == EFFECT_MIXED
            &&& now.per_key_type == 0
            &&& now.brightness == board.brightness
            &&& now.speed == board.speed
            &&& now.hue == board.hue
            &&& now.sat == board.sat
            &&& forall|led: int|
                0 <= led < count ==> #[trigger] now.regions[led] == (if leds.contains(led as u8) {
                    1u8
                } else {
                    0u8
                })
            &&& now.ours == full_list(seq![per_key_slot()])
            &&& now.ambient == full_list(
                if dark(running) {
                    seq![per_key_slot()]
                } else {
                    running
                },
            )
            &&& forall|led: int|
                0 <= led < count && (leds.contains(led as u8) || !dark(running))
                    ==> #[trigger] now.colours[led] == board.colours[led]
            &&& forall|led: int|
                0 <= led < count && !leds.contains(led as u8) && dark(running)
                    ==> #[trigger] now.colours[led] == (Hsv { h: 0, s: 0, v: 0 })
        }),
{
    let running = was_running(kept);
    let blackout = if dark(running) {
        black_orders(others(leds, count))
    } else {
        seq![]
    };
    let ambient = if dark(running) {
        seq![per_key_slot()]
    } else {
        running
    };
    let numbers = shared(leds, count);
    let regions = region_orders(numbers);
    let rest = last_orders(ambient);
    assert(take_over_orders(leds, count, kept) =~= blackout + regions + rest);
    after_both(board, blackout + regions, rest);
    after_both(board, blackout, regions);
    others_are_others(leds, count);
    if dark(running) {
        let black = black_orders(others(leds, count));
        black_touches_only(board, others(leds, count), black.len());
        assert(black.take(black.len() as int) =~= black);
        assert forall|led: int| 0 <= led < count && !leds.contains(led as u8) implies
            #[trigger] board.after_all(black).colours[led] == (Hsv { h: 0, s: 0, v: 0 }) by {
            assert(others(leds, count).contains(led as u8));
            every_led_is_in_a_run(others(leds, count), 9, led as u8);
            black_is_black(board, others(leds, count), black.len(), led as u8);
        }
    }
    let one = board.after_all(blackout);
    assert(one == (Keyboard { colours: one.colours, ..board }));
    regions_come_back(one, numbers, count, packets(count, 28));
    assert(regions.take(packets(count, 28) as int) =~= regions);
    let two = one.after_all(regions);
    the_last_orders(two, ambient, count);
}

/// A board that was taken over, and answers truthfully, is recognised: every
/// question of [`super::session::Board::is_ours`] is answered as the app left
/// it.
pub proof fn a_board_taken_over_is_ours(
    count: nat,
    board: Keyboard,
    leds: Seq<u8>,
    kept: Remembered,
    question: int,
    reply: Seq<u8>,
)
    requires
        board.wf(count),
        forall|i: int| 0 <= i < leds.len() ==> (#[trigger] leds[i]) < count,
        0 <= question < ownership_orders(leds).len(),
        board.after_all(take_over_orders(leds, count, kept)).tells(
            ownership_orders(leds)[question],
            reply,
        ),
    ensures
        as_left(ownership_orders(leds)[question], reply),
{
    a_take_over_owns_only_its_keys(count, board, leds, kept);
    let now = board.after_all(take_over_orders(leds, count, kept));
    let order = ownership_orders(leds)[question];
    if question == 1 {
        assert(slot_at(reply, 3 + 8 * 0int) == now.ours[0]);
    } else if question >= 2 {
        runs_count_up(leds, 29);
        let run = runs_of(leds, 29)[question - 2];
        assert(order == (Order::GetRegions { start: run[0], count: run.len() as u8 }));
        assert forall|j: int| 0 <= j < run.len() implies #[trigger] reply[3 + j] == 1 by {
            assert(run[j] == run[0] + j);
            assert(leds.contains(run[j]));
            assert(now.regions[run[0] + j] == 1);
        }
    }
}

/// Whether the LEDs go up from one entry to the next.
spec fn going_up(changed: Seq<(u8, Hsv)>) -> bool {
    forall|i: int, j: int|
        0 <= i < j < changed.len() ==> (#[trigger] changed[i]).0 < (#[trigger] changed[j]).0
}

/// Whether no LED is named twice.
spec fn named_once(changed: Seq<(u8, Hsv)>) -> bool {
    forall|i: int, j: int|
        0 <= i < j < changed.len() ==> (#[trigger] changed[i]).0 != (#[trigger] changed[j]).0
}

proof fn inserting_goes_up(sorted: Seq<(u8, Hsv)>, entry: (u8, Hsv))
    requires
        going_up(sorted),
        forall|i: int| 0 <= i < sorted.len() ==> (#[trigger] sorted[i]).0 != entry.0,
    ensures
        going_up(inserted(sorted, entry)),
    decreases sorted.len(),
{
    if sorted.len() == 0 || sorted.last().0 <= entry.0 {
        let all = sorted.push(entry);
        assert forall|i: int, j: int| 0 <= i < j < all.len() implies (#[trigger] all[i]).0 < (
        #[trigger] all[j]).0 by {
            if j == sorted.len() {
                assert(sorted[i].0 <= sorted.last().0 && sorted.last().0 != entry.0);
            }
        }
    } else {
        let before = sorted.drop_last();
        inserting_goes_up(before, entry);
        let put = inserted(before, entry);
        let all = put.push(sorted.last());
        assert forall|i: int, j: int| 0 <= i < j < all.len() implies (#[trigger] all[i]).0 < (
        #[trigger] all[j]).0 by {
            if j == put.len() {
                inserting_adds_one(before, entry, put[i]);
                assert(put.contains(put[i]));
                if before.contains(put[i]) {
                    let m = choose|m: int| 0 <= m < before.len() && before[m] == put[i];
                    assert(sorted[m].0 < sorted.last().0);
                }
            }
        }
    }
}

proof fn sorting_goes_up(changed: Seq<(u8, Hsv)>)
    requires
        named_once(changed),
    ensures
        going_up(by_led(changed)),
    decreases changed.len(),
{
    if changed.len() > 0 {
        let before = changed.drop_last();
        assert forall|i: int, j: int| 0 <= i < j < before.len() implies (#[trigger] before[i]).0 != (
        #[trigger] before[j]).0 by {
            assert(changed[i].0 != changed[j].0);
        }
        sorting_goes_up(before);
        let sorted = by_led(before);
        assert forall|i: int| 0 <= i < sorted.len() implies (#[trigger] sorted[i]).0
            != changed.last().0 by {
            sorting_keeps(before, sorted[i]);
            assert(sorted.contains(sorted[i]));
            let m = choose|m: int| 0 <= m < before.len() && before[m] == sorted[i];
            assert(changed[m].0 != changed[changed.len() - 1].0);
        }
        inserting_goes_up(sorted, changed.last());
    }
}

proof fn changes_name_once(
    colours: Seq<(usize, Rgb)>,
    leds: Seq<u8>,
    painted: Seq<Option<Hsv>>,
)
    requires
        distinct(colours),
        leds.no_duplicates(),
    ensures
        named_once(changes(colours, leds, painted)),
    decreases colours.len(),
{
    if colours.len() > 0 {
        let fewer = colours.drop_last();
        assert forall|i: int, j: int| 0 <= i < j < fewer.len() implies (#[trigger] fewer[i]).0 != (
        #[trigger] fewer[j]).0 by {
            assert(colours[i].0 != colours[j].0);
        }
        changes_name_once(fewer, leds, painted);
        let before = changes(fewer, leds, painted);
        let all = changes(colours, leds, painted);
        let key = colours.last().0;
        assert forall|i: int, j: int| 0 <= i < j < all.len() implies (#[trigger] all[i]).0 != (
        #[trigger] all[j]).0 by {
            if j == before.len() {
                what_changes(fewer, leds, painted, before[i]);
                assert(before.contains(before[i]));
                let m = choose|m: int|
                    0 <= m < fewer.len() && !settled(#[trigger] fewer[m], leds, painted) && before[i]
                        == (leds[fewer[m].0 as int], super::protocol::wheel(fewer[m].1));
                assert(colours[m].0 != colours[colours.len() - 1].0);
                assert(leds[fewer[m].0 as int] != leds[key as int]);
            }
        }
    }
}

/// The colours of a run are those of its LEDs, in their order.
proof fn a_batch_is_its_run(changed: Seq<(u8, Hsv)>, run: Seq<u8>, m: int)
    requires
        going_up(changed),
        0 <= m <= run.len(),
        forall|i: int| 0 <= i < run.len() ==> #[trigger] run[i] == run[0] + i,
        forall|i: int| 0 <= i < m ==> leds_in(changed).contains(#[trigger] run[i]),
        forall|i: int| m <= i < run.len() ==> !leds_in(changed).contains(#[trigger] run[i]),
    ensures
        batch(changed, run).len() == m,
        forall|i: int|
            0 <= i < m ==> changed.contains((run[i], #[trigger] batch(changed, run)[i])),
    decreases changed.len(),
{
    let names = leds_in(changed);
    if changed.len() == 0 {
        if m > 0 {
            assert(names.contains(run[0]));
        }
    } else {
        let before = changed.drop_last();
        let last = changed.last();
        let fewer = leds_in(before);
        assert forall|led: u8| #[trigger] names.contains(led) <==> fewer.contains(led) || led
            == last.0 by {
            if names.contains(led) {
                let i = choose|i: int| 0 <= i < names.len() && names[i] == led;
                if i < before.len() {
                    assert(fewer[i] == led);
                }
            }
            if fewer.contains(led) {
                let i = choose|i: int| 0 <= i < fewer.len() && fewer[i] == led;
                assert(names[i] == led);
            }
            if led == last.0 {
                assert(names[changed.len() - 1] == led);
            }
        }
        assert forall|led: u8| #[trigger] fewer.contains(led) implies led < last.0 by {
            let i = choose|i: int| 0 <= i < fewer.len() && fewer[i] == led;
            assert(changed[i].0 < changed[changed.len() - 1].0);
        }
        assert(names.contains(last.0));
        let kept = if run.contains(last.0) {
            let j = choose|j: int| 0 <= j < run.len() && run[j] == last.0;
            assert(j < m) by {
                if j >= m {
                    assert(!names.contains(run[j]));
                }
            }
            assert(j == m - 1) by {
                if j < m - 1 {
                    assert(names.contains(run[m - 1]));
                    assert(run[m - 1] == run[0] + (m - 1) && run[j] == run[0] + j);
                }
            }
            m - 1
        } else {
            m
        };
        assert forall|i: int| 0 <= i < kept implies fewer.contains(#[trigger] run[i]) by {
            assert(names.contains(run[i]));
            assert(run[i] == run[0] + i);
            if run[i] == last.0 {
                assert(run.contains(last.0));
                assert(run[m - 1] == run[0] + (m - 1));
            }
        }
        assert forall|i: int| kept <= i < run.len() implies !fewer.contains(#[trigger] run[i]) by {
            if i >= m {
                assert(!names.contains(run[i]));
            }
        }
        a_batch_is_its_run(before, run, kept);
        let held = batch(before, run);
        assert forall|i: int| 0 <= i < m implies changed.contains(
            (run[i], #[trigger] batch(changed, run)[i]),
        ) by {
            if i < kept {
                assert(batch(changed, run)[i] == held[i]);
                let e = (run[i], held[i]);
                assert(before.contains(e));
                let w = choose|w: int| 0 <= w < before.len() && before[w] == e;
                assert(changed[w] == e);
            } else {
                assert(changed[changed.len() - 1] == (run[i], last.1));
            }
        }
    }
}

/// What the colours sent so far have done to a board.
proof fn colours_arrive(board: Keyboard, changed: Seq<(u8, Hsv)>, sent: nat)
    requires
        going_up(changed),
        board.colours.len() <= 255,
        forall|i: int| 0 <= i < changed.len() ==> (#[trigger] changed[i]).0 < board.colours.len(),
        sent <= colour_orders(changed).len(),
    ensures
        ({
            let now = board.after_all(colour_orders(changed).take(sent as int));
            let runs = runs_of(leds_in(changed), 9);
            &&& now == (Keyboard { colours: now.colours, ..board })
            &&& now.colours.len() == board.colours.len()
            &&& forall|led: u8|
                #![trigger now.colours[led as int]]
                led < board.colours.len() ==> {
                    &&& in_a_run(runs, sent as int, led) ==> changed.contains(
                        (led, now.colours[led as int]),
                    )
                    &&& !in_a_run(runs, sent as int, led) ==> now.colours[led as int]
                        == board.colours[led as int]
                }
        }),
    decreases sent,
{
    let orders = colour_orders(changed);
    let names = leds_in(changed);
    let runs = runs_of(names, 9);
    runs_count_up(names, 9);
    if sent > 0 {
        let k = sent - 1;
        colours_arrive(board, changed, k as nat);
        assert(orders.take(sent as int).drop_last() =~= orders.take(k));
        let before = board.after_all(orders.take(k));
        let now = board.after_all(orders.take(sent as int));
        assert(now == before.after(orders[k]));
        let run = runs[k];
        assert forall|i: int| 0 <= i < run.len() implies #[trigger] run[i] == run[0] + i by {
            assert(runs[k][i] == runs[k][0] + i);
        }
        assert forall|i: int| 0 <= i < run.len() implies names.contains(#[trigger] run[i]) by {
            assert(names.contains(runs[k][i]));
        }
        a_batch_is_its_run(changed, run, run.len() as int);
        let end = run[run.len() - 1];
        assert(end == run[0] + (run.len() - 1));
        assert(names.contains(end));
        let w = choose|w: int| 0 <= w < names.len() && names[w] == end;
        assert(changed[w].0 == end);
        assert(orders[k] == Order::SetColours { start: run[0], colours: batch(changed, run) });
        assert forall|led: u8|
            #![trigger now.colours[led as int]]
            led < board.colours.len() implies {
                &&& in_a_run(runs, sent as int, led) ==> changed.contains(
                    (led, now.colours[led as int]),
                )
                &&& !in_a_run(runs, sent as int, led) ==> now.colours[led as int]
                    == board.colours[led as int]
            } by {
            assert(led < before.colours.len() && before.colours[led as int]
                == before.colours[led as int]);
            if run[0] <= led < run[0] + run.len() {
                let i = led - run[0];
                assert(run[i] == run[0] + i);
                assert(run[i] == led);
                assert(now.colours[led as int] == batch(changed, run)[i]);
                assert(changed.contains((run[i], batch(changed, run)[i])));
                assert(runs[k][i] == led);
                assert(in_a_run(runs, sent as int, led));
            } else {
                assert(now.colours[led as int] == before.colours[led as int]);
                if in_a_run(runs, sent as int, led) {
                    let (m, i) = choose|m: int, i: int|
                        0 <= m < sent && 0 <= i < runs[m].len() && #[trigger] runs[m][i] == led;
                    assert(runs[m][i] == runs[m][0] + i);
                    assert(m != k);
                    assert(in_a_run(runs, k, led));
                }
                if in_a_run(runs, k, led) {
                    let (m, i) = choose|m: int, i: int|
                        0 <= m < k && 0 <= i < runs[m].len() && #[trigger] runs[m][i] == led;
                    assert(runs[m][i] == led);
                    assert(in_a_run(runs, sent as int, led));
                }
            }
        }
    } else {
        assert(orders.take(0) =~= seq![]);
    }
}

/// **A frame lights the keys it names, and no others**: where what was painted
/// is what the board shows, after a frame's orders every key it names shows
/// the colour it was given, every other LED what it showed before, and nothing
/// else of the board has changed.
pub proof fn a_frame_lights_the_keys_it_names(
    count: nat,
    board: Keyboard,
    colours: Seq<(usize, Rgb)>,
    leds: Seq<u8>,
    painted: Seq<Option<Hsv>>,
)
    requires
        board.wf(count),
        distinct(colours),
        leds.no_duplicates(),
        forall|k: int| 0 <= k < leds.len() ==> (#[trigger] leds[k]) < count,
        painted.len() == leds.len(),
        forall|k: int|
            0 <= k < leds.len() && (#[trigger] painted[k]) is Some ==> painted[k] == Some(
                board.colours[leds[k] as int],
            ),
    ensures
        ({
            let now = board.after_all(frame_orders(colours, leds, painted));
            &&& now == (Keyboard { colours: now.colours, ..board })
            &&& now.colours.len() == count
            &&& forall|i: int|
                0 <= i < colours.len() && (#[trigger] colours[i]).0 < leds.len()
                    ==> now.colours[leds[colours[i].0 as int] as int] == super::protocol::wheel(
                    colours[i].1,
                )
            &&& forall|led: u8|
                led < count && (forall|i: int|
                    0 <= i < colours.len() && (#[trigger] colours[i]).0 < leds.len()
                        ==> leds[colours[i].0 as int] != led) ==> #[trigger] now.colours[led as int]
                    == board.colours[led as int]
        }),
{
    let changed = by_led(changes(colours, leds, painted));
    let orders = colour_orders(changed);
    let names = leds_in(changed);
    let runs = runs_of(names, 9);
    changes_name_once(colours, leds, painted);
    sorting_goes_up(changes(colours, leds, painted));
    assert forall|i: int| 0 <= i < changed.len() implies (#[trigger] changed[i]).0 < count
        && exists|m: int|
        0 <= m < colours.len() && (#[trigger] colours[m]).0 < leds.len()
            && leds[colours[m].0 as int] == changed[i].0 by {
        assert(changed.contains(changed[i]));
        sorting_keeps(changes(colours, leds, painted), changed[i]);
        what_changes(colours, leds, painted, changed[i]);
        let m = choose|m: int|
            0 <= m < colours.len() && !settled(#[trigger] colours[m], leds, painted) && changed[i]
                == (leds[colours[m].0 as int], super::protocol::wheel(colours[m].1));
        assert(colours[m].0 < leds.len() && leds[colours[m].0 as int] == changed[i].0);
    }
    colours_arrive(board, changed, orders.len());
    assert(orders.take(orders.len() as int) =~= orders);
    let now = board.after_all(orders);
    runs_count_up(names, 9);
    assert forall|led: u8|
        led < count && !names.contains(led) implies #[trigger] now.colours[led as int]
        == board.colours[led as int] by {
        if in_a_run(runs, runs.len() as int, led) {
            let (m, i) = choose|m: int, i: int|
                0 <= m < runs.len() && 0 <= i < runs[m].len() && #[trigger] runs[m][i] == led;
            assert(names.contains(runs[m][i]));
        }
    }
    assert forall|i: int| 0 <= i < colours.len() && (#[trigger] colours[i]).0 < leds.len() implies
        now.colours[leds[colours[i].0 as int] as int] == super::protocol::wheel(colours[i].1) by {
        let key = colours[i].0 as int;
        let led = leds[key];
        let hsv = super::protocol::wheel(colours[i].1);
        if settled(colours[i], leds, painted) {
            assert forall|j: int|
                0 <= j < colours.len() && (#[trigger] colours[j]).0 == key implies settled(
                colours[j],
                leds,
                painted,
            ) by {
                if i < j {
                    assert(colours[i].0 != colours[j].0);
                } else if j < i {
                    assert(colours[j].0 != colours[i].0);
                }
            }
            untouched(colours, leds, painted, key);
            if names.contains(led) {
                let w = choose|w: int| 0 <= w < names.len() && names[w] == led;
                assert(changed.contains(changed[w]));
            }
            assert(now.colours[led as int] == board.colours[led as int]);
            assert(painted[key] == Some(hsv));
        } else {
            let e = (led, hsv);
            what_changes(colours, leds, painted, e);
            sorting_keeps(changes(colours, leds, painted), e);
            assert(changed.contains(e));
            let w = choose|w: int| 0 <= w < changed.len() && changed[w] == e;
            assert(names[w] == led);
            every_led_is_in_a_run(names, 9, led);
            assert(now.colours[led as int] == now.colours[led as int]);
            let shown = (led, now.colours[led as int]);
            assert(changed.contains(shown));
            let v = choose|v: int| 0 <= v < changed.len() && changed[v] == shown;
            assert(v == w) by {
                if v < w {
                    assert(changed[v].0 < changed[w].0);
                } else if w < v {
                    assert(changed[w].0 < changed[v].0);
                }
            }
        }
    }
    assert forall|led: u8|
        led < count && (forall|i: int|
            0 <= i < colours.len() && (#[trigger] colours[i]).0 < leds.len()
                ==> leds[colours[i].0 as int] != led) implies #[trigger] now.colours[led as int]
        == board.colours[led as int] by {
        if names.contains(led) {
            let w = choose|w: int| 0 <= w < names.len() && names[w] == led;
            assert(changed[w].0 == led);
        }
    }
}

} // verus!
