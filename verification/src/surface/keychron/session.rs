//! One keyboard, from handshake to handing it back.
//!
//! The app never owns more than the few LEDs its surface names — the twelve
//! F-row keys on an Ultra, the nine shape-and-M keys on a V0 Ultra, each said
//! once as a [`Geometry`]. It puts the keyboard in its mixed mode — two
//! regions, each running its own effect — gives those LEDs to region 1
//! rendered per key from what the app sends, and leaves region 0, everything
//! else, running whatever the user had. Everything it changes is read first
//! into a [`Snapshot`] and written back on the way out, so the board the user
//! gets back is the board they had.
//!
//! What is asked, and in which order, is stated as a sequence of orders; what
//! each method did is stated over the transport's record of the talk.

use vstd::prelude::*;

use super::hid::{Exchange, Transport};
use super::protocol::{
    COLOURS_PER_PACKET, Command, EFFECT_MIXED, EFFECT_OFF, EFFECT_PER_KEY, EffectSlot, Hsv,
    Order, PER_KEY_PROTOCOL, PER_KEY_SOLID, REGIONS_PER_GET, REGIONS_PER_SET, Region, Reply,
    SLOTS_PER_PACKET, colour_at, f_row, f_row_of, lit, lit_leds, slot_at, wheel,
};
use crate::settings::Rgb;
use crate::text;

verus! {

/// How long a slot holds when a region rotates effects. Irrelevant with one
/// effect per region, which is all the app ever sets; the firmware's own
/// default, so a restored board reads naturally.
pub const SLOT_HOLD_MS: u32 = 5000;

/// The orders that `commands` give.
pub open spec fn orders_of(commands: Seq<Command>) -> Seq<Order> {
    Seq::new(commands.len(), |i: int| commands[i]@)
}

/// What was said after `before`.
pub open spec fn heard(before: Seq<Exchange>, after: Seq<Exchange>) -> Seq<Exchange> {
    after.skip(before.len() as int)
}

/// Whether `answer` takes `order`: it came, and nothing is wrong with it.
pub open spec fn takes(order: Order, answer: Result<Seq<u8>, Seq<char>>) -> bool {
    order.fits() && (answer matches Ok(reply) && order.objection(reply) is None)
}

/// Whether the talk went on from `before` to `after` by giving `orders` one
/// after the other, each after the last was taken: all of them when `ok`, and
/// otherwise up to the first that was not taken or could not be sent.
pub open spec fn said(
    before: Seq<Exchange>,
    after: Seq<Exchange>,
    orders: Seq<Order>,
    ok: bool,
) -> bool {
    let new = heard(before, after);
    &&& before.len() <= after.len()
    &&& after.take(before.len() as int) == before
    &&& new.len() <= orders.len()
    &&& forall|i: int| 0 <= i < new.len() ==> (#[trigger] new[i]).sent == orders[i].packet()
    &&& forall|i: int| 0 <= i < new.len() - 1 ==> takes(orders[i], (#[trigger] new[i]).answer)
    &&& if ok {
        &&& new.len() == orders.len()
        &&& new.len() > 0 ==> takes(orders[new.len() - 1], new.last().answer)
    } else {
        ||| broke_off(new, orders)
        ||| held_back(new, orders)
    }
}

/// The last order sent was not taken.
pub open spec fn broke_off(new: Seq<Exchange>, orders: Seq<Order>) -> bool {
    new.len() > 0 && orders[new.len() - 1].fits() && !takes(
        orders[new.len() - 1],
        new.last().answer,
    )
}

/// Every order sent was taken, and the next is over a limit.
pub open spec fn held_back(new: Seq<Exchange>, orders: Seq<Order>) -> bool {
    &&& new.len() < orders.len()
    &&& !orders[new.len() as int].fits()
    &&& new.len() > 0 ==> takes(orders[new.len() - 1], new.last().answer)
}

/// Whether `error` is the reason the talk ended where it did. When no answer
/// came at all, the words are the transport's own.
pub open spec fn blames(new: Seq<Exchange>, orders: Seq<Order>, error: Seq<char>) -> bool {
    if held_back(new, orders) {
        Some(error) == orders[new.len() as int].excess()
    } else {
        match new.last().answer {
            Ok(reply) => Some(error) == orders[new.len() - 1].objection(reply),
            Err(words) => error == words,
        }
    }
}

/// `said`, with the error accounted for.
pub open spec fn carried_out<A>(
    before: Seq<Exchange>,
    after: Seq<Exchange>,
    orders: Seq<Order>,
    r: Result<A, String>,
) -> bool {
    &&& said(before, after, orders, r is Ok)
    &&& r matches Err(error) ==> blames(heard(before, after), orders, error@)
}

/// What the keyboard was showing before the app touched it — everything the
/// app changes, so everything it can put back.
#[derive(Debug, Clone, PartialEq, Eq)]
pub struct Snapshot {
    pub effect: u8,
    pub brightness: u8,
    pub speed: u8,
    pub hue: u8,
    pub sat: u8,
    pub per_key_type: u8,
    /// The stored per-key colour of every LED on the board.
    pub colours: Vec<(u8, Hsv)>,
    /// The region of every LED on the board.
    pub regions: Vec<u8>,
    pub ambient: Vec<EffectSlot>,
    pub ours: Vec<EffectSlot>,
}

/// A [`Snapshot`] with its lists as sequences.
pub ghost struct Remembered {
    pub effect: u8,
    pub brightness: u8,
    pub speed: u8,
    pub hue: u8,
    pub sat: u8,
    pub per_key_type: u8,
    pub colours: Seq<(u8, Hsv)>,
    pub regions: Seq<u8>,
    pub ambient: Seq<EffectSlot>,
    pub ours: Seq<EffectSlot>,
}

impl View for Snapshot {
    type V = Remembered;

    open spec fn view(&self) -> Remembered {
        Remembered {
            effect: self.effect,
            brightness: self.brightness,
            speed: self.speed,
            hue: self.hue,
            sat: self.sat,
            per_key_type: self.per_key_type,
            colours: self.colours@,
            regions: self.regions@,
            ambient: self.ambient@,
            ours: self.ours@,
        }
    }
}

/// Sorted LED indices as runs of consecutive ones, each at most `max` long:
/// an LED joins the run before it when it is the next one and there is room.
pub open spec fn runs_of(leds: Seq<u8>, max: nat) -> Seq<Seq<u8>>
    decreases leds.len(),
{
    if leds.len() == 0 {
        seq![]
    } else {
        let before = runs_of(leds.drop_last(), max);
        if before.len() > 0 && before.last().len() < max && before.last().last() + 1
            == leds.last() {
            before.update(before.len() - 1, before.last().push(leds.last()))
        } else {
            before.push(seq![leds.last()])
        }
    }
}

pub open spec fn views(runs: Seq<Vec<u8>>) -> Seq<Seq<u8>> {
    Seq::new(runs.len(), |i: int| runs[i]@)
}

/// No run is empty, and none is longer than the packet.
proof fn runs_fit(leds: Seq<u8>, max: nat)
    ensures
        forall|i: int|
            0 <= i < runs_of(leds, max).len() ==> 0 < (#[trigger] runs_of(leds, max)[i]).len() && (
            max > 0 ==> runs_of(leds, max)[i].len() <= max),
    decreases leds.len(),
{
    if leds.len() > 0 {
        runs_fit(leds.drop_last(), max);
        let before = runs_of(leds.drop_last(), max);
        let all = runs_of(leds, max);
        assert forall|i: int| 0 <= i < all.len() implies 0 < (#[trigger] all[i]).len() && (max > 0
            ==> all[i].len() <= max) by {
            if i < before.len() {
                assert(0 < before[i].len());
            }
        }
    }
}

/// Splits sorted LED indices into runs of consecutive ones, each at most
/// `max` long — the shape one packet can carry. None is empty, so for a `max`
/// of zero each is one LED.
pub fn runs(leds: &Vec<u8>, max: usize) -> (runs: Vec<Vec<u8>>)
    ensures
        views(runs@) == runs_of(leds@, max as nat),
        forall|i: int|
            0 <= i < runs@.len() ==> 0 < (#[trigger] runs@[i])@.len() && (max > 0 ==> runs@[i]@.len()
                <= max),
{
    let mut runs: Vec<Vec<u8>> = Vec::new();
    let mut i: usize = 0;
    assert(views(runs@) =~= runs_of(leds@.take(0), max as nat));
    while i < leds.len()
        invariant
            i <= leds@.len(),
            views(runs@) == runs_of(leds@.take(i as int), max as nat),
        decreases leds@.len() - i,
    {
        let led: u8 = leds[i];
        let ghost before = runs_of(leds@.take(i as int), max as nat);
        proof {
            assert(leds@.take(i + 1).drop_last() =~= leds@.take(i as int));
            runs_fit(leds@.take(i as int), max as nat);
            assert(before.len() == runs@.len());
            assert(forall|k: int| 0 <= k < runs@.len() ==> before[k] == (#[trigger] runs@[k])@);
        }
        let count: usize = runs.len();
        let joins: bool = if count == 0 {
            false
        } else {
            assert(before[count - 1] == runs@[count - 1]@);
            let last = &runs[count - 1];
            last.len() < max && last[last.len() - 1] < 255 && last[last.len() - 1] + 1 == led
        };
        if joins {
            let mut run: Vec<u8> = match runs.pop() {
                Some(run) => run,
                None => Vec::new(),
            };
            run.push(led);
            runs.push(run);
            assert(views(runs@) =~= before.update(before.len() - 1, before.last().push(led)));
        } else {
            let mut run: Vec<u8> = Vec::new();
            run.push(led);
            assert(run@ =~= seq![led]);
            runs.push(run);
            assert(views(runs@) =~= before.push(seq![led]));
        }
        i = i + 1;
    }
    assert(leds@.take(i as int) =~= leds@);
    proof {
        runs_fit(leds@, max as nat);
        assert forall|k: int| 0 <= k < runs@.len() implies 0 < (#[trigger] runs@[k])@.len() && (max
            > 0 ==> runs@[k]@.len() <= max) by {
            assert(views(runs@)[k] == runs@[k]@);
        }
    }
    runs
}

/// The colours in `changed` whose LED is in `run`, in order.
pub open spec fn batch(changed: Seq<(u8, Hsv)>, run: Seq<u8>) -> Seq<Hsv>
    decreases changed.len(),
{
    if changed.len() == 0 {
        seq![]
    } else {
        let before = batch(changed.drop_last(), run);
        if run.contains(changed.last().0) {
            before.push(changed.last().1)
        } else {
            before
        }
    }
}

pub open spec fn leds_in(changed: Seq<(u8, Hsv)>) -> Seq<u8> {
    Seq::new(changed.len(), |i: int| changed[i].0)
}

/// The packets that store `changed`, one for each run of LEDs.
pub open spec fn colour_orders(changed: Seq<(u8, Hsv)>) -> Seq<Order> {
    let runs = runs_of(leds_in(changed), 9);
    Seq::new(
        runs.len(),
        |k: int| Order::SetColours { start: runs[k][0], colours: batch(changed, runs[k]) },
    )
}

fn holds(run: &Vec<u8>, led: u8) -> (r: bool)
    ensures
        r == run@.contains(led),
{
    let mut i: usize = 0;
    while i < run.len()
        invariant
            i <= run@.len(),
            forall|j: int| 0 <= j < i ==> run@[j] != led,
        decreases run@.len() - i,
    {
        if run[i] == led {
            assert(run@[i as int] == led);
            return true;
        }
        i = i + 1;
    }
    false
}

fn batch_for(changed: &Vec<(u8, Hsv)>, run: &Vec<u8>) -> (colours: Vec<Hsv>)
    ensures
        colours@ == batch(changed@, run@),
{
    let mut colours: Vec<Hsv> = Vec::new();
    let mut i: usize = 0;
    while i < changed.len()
        invariant
            i <= changed@.len(),
            colours@ == batch(changed@.take(i as int), run@),
        decreases changed@.len() - i,
    {
        assert(changed@.take(i + 1).drop_last() =~= changed@.take(i as int));
        if holds(run, changed[i].0) {
            colours.push(changed[i].1);
        }
        i = i + 1;
    }
    assert(changed@.take(i as int) =~= changed@);
    colours
}

fn colour_commands(changed: &Vec<(u8, Hsv)>) -> (commands: Vec<Command>)
    ensures
        orders_of(commands@) == colour_orders(changed@),
{
    let mut leds: Vec<u8> = Vec::new();
    let mut i: usize = 0;
    while i < changed.len()
        invariant
            i <= changed@.len(),
            leds@ =~= leds_in(changed@.take(i as int)),
        decreases changed@.len() - i,
    {
        leds.push(changed[i].0);
        i = i + 1;
    }
    assert(changed@.take(i as int) =~= changed@);
    let runs = runs(&leds, COLOURS_PER_PACKET);
    let mut commands: Vec<Command> = Vec::new();
    let mut k: usize = 0;
    while k < runs.len()
        invariant
            k <= runs@.len(),
            leds@ == leds_in(changed@),
            views(runs@) == runs_of(leds@, 9),
            forall|i: int| 0 <= i < runs@.len() ==> 0 < (#[trigger] runs@[i])@.len() <= 9,
            orders_of(commands@) =~= colour_orders(changed@).take(k as int),
        decreases runs@.len() - k,
    {
        assert(views(runs@)[k as int] == runs@[k as int]@);
        let colours = batch_for(changed, &runs[k]);
        let ghost next = colour_orders(changed@)[k as int];
        let ghost sent = commands@;
        commands.push(Command::SetColours { start: runs[k][0], colours });
        assert(commands@.last()@ == next);
        assert(orders_of(commands@) =~= orders_of(sent).push(next));
        k = k + 1;
    }
    assert(colour_orders(changed@).take(k as int) =~= colour_orders(changed@));
    commands
}

/// How many packets of `per` it takes to carry `count`.
pub open spec fn packets(count: nat, per: nat) -> nat {
    (count + per - 1) as nat / per
}

/// The packets that set every LED's region, 28 at a time from LED 0.
pub open spec fn region_orders(regions: Seq<Region>) -> Seq<Order> {
    Seq::new(
        packets(regions.len(), 28),
        |k: int|
            Order::SetRegions {
                start: (28 * k % 256) as u8,
                regions: regions.subrange(
                    28 * k,
                    if 28 * k + 28 <= regions.len() {
                        28 * k + 28
                    } else {
                        regions.len() as int
                    },
                ),
            },
    )
}

fn region_commands(regions: &Vec<Region>) -> (commands: Vec<Command>)
    ensures
        orders_of(commands@) == region_orders(regions@),
{
    let mut commands: Vec<Command> = Vec::new();
    let size: usize = regions.len();
    let mut start: usize = 0;
    let ghost mut k: int = 0;
    assert(orders_of(commands@) =~= region_orders(regions@).take(0));
    while start < size
        invariant
            size == regions@.len(),
            start == (if 28 * k <= size { 28 * k } else { size as int }),
            0 <= k <= packets(regions@.len(), 28),
            start == size ==> k == packets(regions@.len(), 28),
            orders_of(commands@) =~= region_orders(regions@).take(k),
        decreases size - start,
    {
        let end: usize = if size - start >= REGIONS_PER_SET { start + REGIONS_PER_SET } else { size };
        let mut chunk: Vec<Region> = Vec::new();
        let mut i: usize = start;
        while i < end
            invariant
                start <= i <= end <= regions@.len(),
                chunk@ =~= regions@.subrange(start as int, i as int),
            decreases end - i,
        {
            chunk.push(regions[i]);
            i = i + 1;
        }
        let ghost next = region_orders(regions@)[k];
        let ghost sent = commands@;
        commands.push(Command::SetRegions { start: (start % 256) as u8, regions: chunk });
        assert(commands@.last()@ == next);
        assert(orders_of(commands@) =~= orders_of(sent).push(next));
        proof {
            k = k + 1;
        }
        start = end;
    }
    assert(region_orders(regions@).take(k) =~= region_orders(regions@));
    commands
}

/// A region's list as it is sent: always the three slots the packet carries,
/// so a shorter list clears the slots after it rather than leaving an old
/// effect to rotate in.
pub open spec fn full_list(slots: Seq<EffectSlot>) -> Seq<EffectSlot> {
    Seq::new(
        3,
        |i: int|
            if i < slots.len() {
                slots[i]
            } else {
                EffectSlot::empty()
            },
    )
}

fn list_command(region: Region, slots: &Vec<EffectSlot>) -> (command: Command)
    ensures
        command@ == (Order::SetEffectList { region, slots: full_list(slots@) }),
{
    let mut list: Vec<EffectSlot> = Vec::new();
    let mut i: usize = 0;
    while i < SLOTS_PER_PACKET
        invariant
            i <= 3,
            list@ =~= full_list(slots@).take(i as int),
        decreases 3 - i,
    {
        list.push(if i < slots.len() { slots[i] } else { EffectSlot::none() });
        i = i + 1;
    }
    assert(list@ =~= full_list(slots@));
    Command::SetEffectList { region, slots: list }
}

/// Where the F-row's LEDs are when the keyboard will not say: the V3 Ultra's
/// layout, and every Ultra seen so far.
pub open spec fn default_f_row() -> Seq<u8> {
    seq![1, 2, 3, 4, 5, 6, 7, 8, 9, 10, 11, 12]
}

/// Where the V0 Ultra's nine LEDs are when the keyboard will not say: the
/// four shape keys, then M1–M5.
pub open spec fn default_v0() -> Seq<u8> {
    seq![0, 1, 2, 3, 4, 9, 14, 18, 23]
}

/// How one keyboard model lays out the keys the app owns: which matrix rows
/// the handshake asks for, how to read the app's LEDs out of the answers, and
/// what to assume when the keyboard will not say. The Ultra's F-row and the
/// V0 Ultra's shape-and-M keys are the same session logic under a different
/// one of these.
#[derive(Debug, Clone, Copy, PartialEq, Eq, Structural)]
pub enum Geometry {
    /// A Keychron Ultra: the twelve F-row LEDs off matrix row 0.
    Ultra,
    /// A V0 Ultra numpad: the four shape keys off row 0 — the knob holds its
    /// first column, with no LED — then M1–M5, the first LED of each row
    /// below.
    V0Ultra,
}

pub const ULTRA: Geometry = Geometry::Ultra;
pub const V0_ULTRA: Geometry = Geometry::V0Ultra;

/// The tail of a connect refusal that means "another Keychron, not a broken
/// one" — a surface reads it to tell somebody else's board from a failure.
pub const DIFFERENT_BOARD: &'static str = "a different Keychron";

pub open spec fn map_views(maps: Seq<Vec<Option<u8>>>) -> Seq<Seq<Option<u8>>> {
    Seq::new(maps.len(), |i: int| maps[i]@)
}

/// At most the first four LEDs of a row.
pub open spec fn first_four(map: Seq<Option<u8>>) -> Seq<u8> {
    if lit(map).len() <= 4 {
        lit(map)
    } else {
        lit(map).take(4)
    }
}

/// The first LED of each row, of the rows that have one.
pub open spec fn row_heads(maps: Seq<Seq<Option<u8>>>) -> Seq<u8>
    decreases maps.len(),
{
    if maps.len() == 0 {
        seq![]
    } else {
        let before = row_heads(maps.drop_last());
        let leds = lit(maps.last());
        if leds.len() > 0 {
            before.push(leds[0])
        } else {
            before
        }
    }
}

impl Geometry {
    pub open spec fn title(self) -> Seq<char> {
        match self {
            Geometry::Ultra => "Keychron Ultra"@,
            Geometry::V0Ultra => "V0 Ultra"@,
        }
    }

    /// The model family, for error messages.
    pub fn name(self) -> (name: &'static str)
        ensures
            name@ == self.title(),
    {
        match self {
            Geometry::Ultra => "Keychron Ultra",
            Geometry::V0Ultra => "V0 Ultra",
        }
    }

    pub open spec fn row_count(self) -> nat {
        match self {
            Geometry::Ultra => 1,
            Geometry::V0Ultra => 6,
        }
    }

    /// How many matrix rows the handshake asks for, from row 0 down.
    pub fn rows(self) -> (rows: u8)
        ensures
            rows == self.row_count(),
    {
        match self {
            Geometry::Ultra => 1,
            Geometry::V0Ultra => 6,
        }
    }

    pub open spec fn leds_expected(self) -> Option<u8> {
        match self {
            Geometry::Ultra => None,
            Geometry::V0Ultra => Some(26),
        }
    }

    /// The LED count this keyboard must report, when the geometry is specific
    /// to one board — how a V0 connect refuses an Ultra. `None` accepts any.
    pub fn expect_leds(self) -> (leds: Option<u8>)
        ensures
            leds == self.leds_expected(),
    {
        match self {
            Geometry::Ultra => None,
            Geometry::V0Ultra => Some(26),
        }
    }

    pub open spec fn assumed(self) -> Seq<u8> {
        match self {
            Geometry::Ultra => default_f_row(),
            Geometry::V0Ultra => default_v0(),
        }
    }

    /// The known layout, used when a map is refused or reads wrong.
    pub fn fallback(self) -> (leds: Vec<u8>)
        ensures
            leds@ == self.assumed(),
    {
        match self {
            Geometry::Ultra => vec![1, 2, 3, 4, 5, 6, 7, 8, 9, 10, 11, 12],
            Geometry::V0Ultra => vec![0, 1, 2, 3, 4, 9, 14, 18, 23],
        }
    }

    pub open spec fn picked(self, maps: Seq<Seq<Option<u8>>>) -> Seq<u8> {
        if maps.len() == 0 {
            seq![]
        } else {
            match self {
                Geometry::Ultra => f_row_of(maps[0]),
                Geometry::V0Ultra => first_four(maps[0]) + row_heads(maps.skip(1)),
            }
        }
    }

    /// The app's LEDs in key order, picked from the row maps — one map per
    /// row.
    pub fn pick(self, maps: &Vec<Vec<Option<u8>>>) -> (leds: Vec<u8>)
        ensures
            leds@ == self.picked(map_views(maps@)),
    {
        if maps.len() == 0 {
            return Vec::new();
        }
        match self {
            Geometry::Ultra => f_row(&maps[0]),
            Geometry::V0Ultra => v0_pick(maps),
        }
    }

    /// Where the keys are: as picked from the maps, unless that has the wrong
    /// number of keys.
    pub open spec fn placed(self, maps: Seq<Seq<Option<u8>>>) -> Seq<u8> {
        if self.picked(maps).len() == self.assumed().len() {
            self.picked(maps)
        } else {
            self.assumed()
        }
    }

    pub fn place(self, maps: &Vec<Vec<Option<u8>>>) -> (leds: Vec<u8>)
        ensures
            leds@ == self.placed(map_views(maps@)),
    {
        let picked = self.pick(maps);
        let fallback = self.fallback();
        if picked.len() == fallback.len() {
            picked
        } else {
            fallback
        }
    }

    /// What is said to a board with `count` LEDs that is not this model.
    pub open spec fn stranger(self, count: u8) -> Option<Seq<char>> {
        match self.leds_expected() {
            Some(expected) => if count == expected {
                None
            } else {
                Some(
                    text::decimal(count as nat) + " LEDs, and a "@ + self.title() + " has "@
                        + text::decimal(expected as nat) + " — "@ + "a different Keychron"@,
                )
            },
            None => None,
        }
    }

    /// Refuses a board that reports another model's LED count.
    pub fn recognise(self, count: u8) -> (r: Result<(), String>)
        ensures
            r is Ok <==> self.stranger(count) is None,
            r matches Err(error) ==> Some(error@) == self.stranger(count),
    {
        if let Some(expected) = self.expect_leds() {
            if count != expected {
                let mut error = text::number(count as u64);
                error.push_str(" LEDs, and a ");
                error.push_str(self.name());
                error.push_str(" has ");
                error.push_str(text::number(expected as u64).as_str());
                error.push_str(" — ");
                error.push_str("a different Keychron");
                return Err(error);
            }
        }
        Ok(())
    }
}

fn v0_pick(maps: &Vec<Vec<Option<u8>>>) -> (leds: Vec<u8>)
    requires
        maps@.len() > 0,
    ensures
        leds@ == first_four(map_views(maps@)[0]) + row_heads(map_views(maps@).skip(1)),
{
    let shapes = lit_leds(&maps[0]);
    let mut leds: Vec<u8> = Vec::new();
    let mut i: usize = 0;
    while i < shapes.len() && i < 4
        invariant
            i <= shapes@.len(),
            i <= 4,
            leds@ =~= shapes@.take(i as int),
        decreases 4 - i,
    {
        leds.push(shapes[i]);
        i = i + 1;
    }
    let ghost views = map_views(maps@);
    let ghost four = leds@;
    assert(four =~= first_four(views[0]));
    let mut row: usize = 1;
    assert(views.skip(1).take(0) =~= seq![]);
    while row < maps.len()
        invariant
            1 <= row <= maps@.len(),
            views == map_views(maps@),
            leds@ =~= four + row_heads(views.skip(1).take(row - 1)),
        decreases maps@.len() - row,
    {
        let found = lit_leds(&maps[row]);
        assert(views.skip(1).take(row as int).drop_last() =~= views.skip(1).take(row - 1));
        if found.len() > 0 {
            leds.push(found[0]);
        }
        row = row + 1;
    }
    assert(views.skip(1).take(row - 1) =~= views.skip(1));
    leds
}

/// Whether the keyboard speaks the app's protocol, and what is said if not.
pub open spec fn foreign(version: u16) -> Option<Seq<char>> {
    if version == PER_KEY_PROTOCOL {
        None
    } else {
        Some("per-key protocol "@ + text::decimal(version as nat) + ", and this app speaks 1"@)
    }
}

pub fn speaks(version: u16) -> (r: Result<(), String>)
    ensures
        r is Ok <==> foreign(version) is None,
        r matches Err(error) ==> Some(error@) == foreign(version),
{
    if version == PER_KEY_PROTOCOL {
        return Ok(());
    }
    let mut error = "per-key protocol ".to_owned();
    error.push_str(text::number(version as u64).as_str());
    error.push_str(", and this app speaks 1");
    Err(error)
}

/// A keyboard the app is talking to.
pub struct Board<T: Transport> {
    pub transport: T,
    pub firmware: String,
    pub led_count: u8,
    /// The LED index of each F-row key, by key position.
    pub leds: Vec<u8>,
    /// What each key was last sent, so a frame writes only what changed.
    pub painted: Vec<Option<Hsv>>,
}

impl<T: Transport> Board<T> {
    pub open spec fn talk(self) -> Seq<Exchange> {
        self.transport.talk()
    }

    /// One remembered colour, or none, for each key.
    pub open spec fn wf(self) -> bool {
        self.painted@.len() == self.leds@.len()
    }

    /// Whether only the talk, and what is remembered of the keys, may differ.
    pub open spec fn same_board(self, other: Self) -> bool {
        &&& self.firmware == other.firmware
        &&& self.led_count == other.led_count
        &&& self.leds == other.leds
    }

    fn ask(&mut self, command: &Command) -> (r: Result<Reply, String>)
        ensures
            final(self).same_board(*old(self)),
            final(self).painted == old(self).painted,
            carried_out(old(self).talk(), final(self).talk(), seq![command@], r),
            r matches Ok(answer) ==> command@.reads(final(self).talk().last().answer->Ok_0, answer),
    {
        let ghost before = self.talk();
        match command.encode() {
            Err(error) => {
                assert(before.skip(before.len() as int) =~= seq![]);
                assert(before.take(before.len() as int) =~= before);
                Err(error)
            },
            Ok(report) => {
                let answer = self.transport.exchange(&report);
                let ghost after = self.talk();
                assert(after.skip(before.len() as int) =~= seq![after.last()]);
                assert(after.take(before.len() as int) =~= before);
                match answer {
                    Err(error) => Err(error),
                    Ok(reply) => command.decode(&reply),
                }
            },
        }
    }

    /// Gives `commands` one after the other, each after the last was
    /// answered; the answers, in order.
    fn ask_all(&mut self, commands: &Vec<Command>) -> (r: Result<Vec<Reply>, String>)
        ensures
            final(self).same_board(*old(self)),
            final(self).painted == old(self).painted,
            carried_out(old(self).talk(), final(self).talk(), orders_of(commands@), r),
            r matches Ok(replies) ==> replies@.len() == commands@.len() && forall|i: int|
                0 <= i < commands@.len() ==> commands@[i]@.reads(
                    (#[trigger] heard(old(self).talk(), final(self).talk())[i]).answer->Ok_0,
                    replies@[i],
                ),
    {
        let ghost before = self.talk();
        let ghost orders = orders_of(commands@);
        let mut replies: Vec<Reply> = Vec::new();
        let mut i: usize = 0;
        assert(before.take(before.len() as int) =~= before);
        while i < commands.len()
            invariant
                i <= commands@.len(),
                i == replies@.len(),
                orders == orders_of(commands@),
                before == old(self).talk(),
                self.same_board(*old(self)),
                self.painted == old(self).painted,
                before.len() + i == self.talk().len(),
                self.talk().take(before.len() as int) == before,
                forall|j: int|
                    0 <= j < i ==> (#[trigger] heard(before, self.talk())[j]).sent
                        == orders[j].packet() && takes(
                        orders[j],
                        heard(before, self.talk())[j].answer,
                    ) && orders[j].reads(heard(before, self.talk())[j].answer->Ok_0, replies@[j]),
            decreases commands@.len() - i,
        {
            let ghost so_far = self.talk();
            let answer = self.ask(&commands[i]);
            let ghost now = self.talk();
            let ghost new = heard(before, now);
            proof {
                let step = heard(so_far, now);
                assert(now.take(so_far.len() as int) =~= so_far);
                assert(now.take(before.len() as int) =~= so_far.take(before.len() as int));
                assert forall|j: int| 0 <= j < i implies new[j] == heard(before, so_far)[j] by {
                    assert(now[before.len() + j] == so_far[before.len() + j]);
                }
                if step.len() == 1 {
                    assert(step[0] == now.last());
                    assert(new[i as int] == now.last());
                }
            }
            match answer {
                Err(error) => {
                    proof {
                        assert(said(before, now, orders, false));
                    }
                    return Err(error);
                },
                Ok(reply) => {
                    replies.push(reply);
                },
            }
            i = i + 1;
        }
        Ok(replies)
    }
}

/// What the row maps say, of the rows that were answered before the first
/// that was not.
pub open spec fn rows_heard(new: Seq<Exchange>) -> Seq<Seq<Option<u8>>>
    decreases new.len(),
{
    if new.len() == 0 {
        seq![]
    } else {
        let before = rows_heard(new.drop_last());
        let row = (new.len() - 1) as u8;
        if before.len() == new.len() - 1 && takes(Order::RowMap(row), new.last().answer) {
            before.push(row_map_in(new.last().answer->Ok_0))
        } else {
            before
        }
    }
}

pub open spec fn row_map_in(reply: Seq<u8>) -> Seq<Option<u8>> {
    Seq::new(
        29,
        |i: int|
            if reply[3 + i] != 0xFF {
                Some(reply[3 + i])
            } else {
                None
            },
    )
}

/// The orders of a handshake: the protocol, the LED count, the firmware.
pub open spec fn greeting() -> Seq<Order> {
    seq![Order::ProtocolVersion, Order::LedCount, Order::FirmwareVersion]
}

/// The version a board says it speaks.
pub open spec fn version_in(reply: Seq<u8>) -> u16 {
    (reply[3] + 0x100 * reply[4]) as u16
}

/// How a question ended, its answer left aside.
pub open spec fn ended<A>(r: Result<A, String>) -> Result<(), String> {
    match r {
        Ok(_) => Ok(()),
        Err(error) => Err(error),
    }
}

/// Whether the talk from `before` to `now` is a handshake that came to nothing,
/// and `error` is why: a question of the greeting was not answered as it should
/// be, the board speaks another protocol, or it is another board.
pub open spec fn turned_away(
    before: Seq<Exchange>,
    now: Seq<Exchange>,
    geometry: Geometry,
    error: String,
) -> bool {
    let new = heard(before, now);
    let speaks = foreign(version_in(new[0].answer->Ok_0)) is None;
    let known = geometry.stranger(new[1].answer->Ok_0[3]) is None;
    ||| {
        &&& carried_out(before, now, greeting(), Err::<(), String>(error))
        &&& new.len() >= 2 ==> speaks
        &&& new.len() == 3 ==> known
    }
    ||| {
        &&& said(before, now, greeting().take(1), true)
        &&& foreign(version_in(new[0].answer->Ok_0)) == Some(error@)
    }
    ||| {
        &&& said(before, now, greeting().take(2), true)
        &&& speaks
        &&& geometry.stranger(new[1].answer->Ok_0[3]) == Some(error@)
    }
}

/// A talk that went on by one question is that question's, of a longer list.
proof fn one_more_asked(
    before: Seq<Exchange>,
    so_far: Seq<Exchange>,
    now: Seq<Exchange>,
    orders: Seq<Order>,
    asked: int,
    r: Result<(), String>,
)
    requires
        0 <= asked < orders.len(),
        said(before, so_far, orders.take(asked), true),
        carried_out(so_far, now, seq![orders[asked]], r),
    ensures
        r is Ok ==> said(before, now, orders.take(asked + 1), true),
        r is Err ==> carried_out(before, now, orders, r),
        so_far.len() == before.len() + asked,
        r is Ok ==> now.len() == before.len() + asked + 1,
        forall|i: int| 0 <= i < asked ==> heard(before, now)[i] == #[trigger] heard(before, so_far)[i],
{
    let new = heard(before, now);
    let old = heard(before, so_far);
    let step = heard(so_far, now);
    assert(old.len() == asked);
    assert(now.take(before.len() as int) =~= so_far.take(before.len() as int)) by {
        assert(now.take(so_far.len() as int) =~= so_far);
    }
    assert forall|i: int| 0 <= i < asked implies new[i] == #[trigger] old[i] by {
        assert(now[before.len() + i] == so_far[before.len() + i]) by {
            assert(now.take(so_far.len() as int)[before.len() + i] == so_far[before.len() + i]);
        }
    }
    assert forall|i: int| 0 <= i < asked implies takes(orders[i], (#[trigger] new[i]).answer)
        && new[i].sent == orders[i].packet() by {
        assert(new[i] == old[i]);
        assert(orders.take(asked)[i] == orders[i]);
        if i == asked - 1 {
            assert(old.last() == old[i]);
        }
    }
    if step.len() == 1 {
        assert(new[asked] == step[0]);
        assert(new.last() == step.last());
    } else {
        assert(step.len() == 0);
        assert(now.len() == so_far.len());
        if asked > 0 {
            assert(new.last() == new[asked - 1]);
        }
    }
    if r is Ok {
        let more = orders.take(asked + 1);
        assert forall|i: int| 0 <= i < new.len() implies (#[trigger] new[i]).sent
            == more[i].packet() by {}
        assert forall|i: int| 0 <= i < new.len() - 1 implies takes(
            more[i],
            (#[trigger] new[i]).answer,
        ) by {}
    }
}

impl<T: Transport> Board<T> {
    /// Whether this board is what `geometry`'s handshake, begun after
    /// `before`, learned: the three questions of the greeting, then the row
    /// maps until one is refused or all are in.
    pub open spec fn learned(self, before: Seq<Exchange>, geometry: Geometry) -> bool {
        let new = heard(before, self.talk());
        let rows = new.skip(3);
        let version = (new[0].answer->Ok_0[3] + 0x100 * new[0].answer->Ok_0[4]) as u16;
        &&& self.talk().len() >= before.len() + 3
        &&& said(before, self.talk().take(before.len() as int + 3), greeting(), true)
        &&& foreign(version) is None
        &&& self.led_count == new[1].answer->Ok_0[3]
        &&& geometry.stranger(self.led_count) is None
        &&& self.firmware@ == text::lossy(text::up_to_zero(new[2].answer->Ok_0.skip(1)))
        &&& rows.len() <= geometry.row_count()
        &&& forall|i: int|
            0 <= i < rows.len() ==> (#[trigger] rows[i]).sent == Order::RowMap(i as u8).packet()
        &&& rows.len() < geometry.row_count() ==> rows_heard(rows).len() < rows.len()
        &&& rows_heard(rows).len() + 1 >= rows.len()
        &&& self.leds@ == geometry.placed(rows_heard(rows))
        &&& self.painted@ == Seq::new(self.leds@.len(), |i: int| None::<Hsv>)
    }

    /// [`Self::connect_with`] for the Ultra.
    pub fn connect(transport: T) -> (r: Result<Self, String>)
        ensures
            r matches Ok(board) ==> board.wf() && board.learned(transport.talk(), ULTRA),
    {
        Self::connect_with(transport, &ULTRA)
    }

    /// A board over `transport` that has answered [`Self::greet`]. A transport
    /// that was turned away is gone with its talk, so why it was is said there.
    pub fn connect_with(transport: T, geometry: &Geometry) -> (r: Result<Self, String>)
        ensures
            r matches Ok(board) ==> board.wf() && board.learned(transport.talk(), *geometry),
    {
        let mut board = Board {
            transport,
            firmware: String::new(),
            led_count: 0,
            leds: Vec::new(),
            painted: Vec::new(),
        };
        match board.greet(geometry) {
            Ok(_) => Ok(board),
            Err(error) => Err(error),
        }
    }

    /// The handshake: the protocol the app speaks, how many LEDs there are,
    /// and where this geometry's are — asked, not assumed, so another board
    /// of the family with a different matrix reads its own rows.
    pub fn greet(&mut self, geometry: &Geometry) -> (r: Result<(), String>)
        ensures
            match r {
                Ok(_) => final(self).wf() && final(self).learned(old(self).talk(), *geometry),
                Err(error) => {
                    &&& turned_away(old(self).talk(), final(self).talk(), *geometry, error)
                    &&& final(self).same_board(*old(self))
                    &&& final(self).painted == old(self).painted
                },
            },
    {
        let ghost at0 = self.talk();
        assert(said(at0, at0, greeting().take(0), true)) by {
            assert(at0.take(at0.len() as int) =~= at0);
        }
        let answer = self.ask(&Command::ProtocolVersion);
        let ghost at1 = self.talk();
        proof {
            one_more_asked(at0, at0, at1, greeting(), 0, ended(answer));
        }
        let version: u16 = match answer {
            Err(error) => {
                return Err(error);
            },
            Ok(Reply::Version(version)) => version,
            Ok(_) => {
                assert(false);
                0
            },
        };
        assert(at1.last() == heard(at0, at1)[0]);
        if let Err(error) = speaks(version) {
            return Err(error);
        }
        let answer = self.ask(&Command::LedCount);
        let ghost at2 = self.talk();
        proof {
            one_more_asked(at0, at1, at2, greeting(), 1, ended(answer));
            assert(heard(at0, at2)[0] == heard(at0, at1)[0]);
        }
        let count: u8 = match answer {
            Err(error) => {
                return Err(error);
            },
            Ok(Reply::Byte(count)) => count,
            Ok(_) => {
                assert(false);
                0
            },
        };
        assert(at2.last() == heard(at0, at2)[1]);
        if let Err(error) = geometry.recognise(count) {
            return Err(error);
        }
        let answer = self.ask(&Command::FirmwareVersion);
        proof {
            let at3 = self.talk();
            one_more_asked(at0, at2, at3, greeting(), 2, ended(answer));
            assert(heard(at0, at3)[0] == heard(at0, at2)[0]);
            assert(heard(at0, at3)[1] == heard(at0, at2)[1]);
        }
        let firmware: String = match answer {
            Err(error) => {
                return Err(error);
            },
            Ok(Reply::Text(text)) => text,
            Ok(_) => {
                assert(false);
                String::new()
            },
        };
        let ghost at3 = self.talk();
        proof {
            assert(at1.take(at0.len() as int) =~= at0);
            assert(at2.take(at1.len() as int) =~= at1);
            assert(at3.take(at2.len() as int) =~= at2);
            assert(heard(at0, at1).len() == 1 && heard(at1, at2).len() == 1 && heard(at2, at3).len() == 1);
            let new = heard(at0, at3);
            assert(at3[at0.len() as int] == at1[at0.len() as int]);
            assert(new[0] == heard(at0, at1)[0]);
            assert(at3[at0.len() as int + 1] == at2[at1.len() as int]);
            assert(new[1] == heard(at1, at2)[0]);
            assert(new[2] == heard(at2, at3)[0]);
            assert(at3.take(at0.len() as int) =~= at0) by {
                assert(at1.take(at0.len() as int) =~= at0);
            }
            assert(new =~= seq![new[0], new[1], new[2]]);
            assert(said(at0, at3, greeting(), true));
        }
        let mut maps: Vec<Vec<Option<u8>>> = Vec::new();
        let rows: u8 = geometry.rows();
        let mut row: u8 = 0;
        let mut refused: bool = false;
        assert(heard(at3, at3) =~= seq![]);
        assert(map_views(maps@) =~= seq![]);
        while row < rows && !refused
            invariant
                row <= rows <= 6,
                at3.len() + row == self.talk().len(),
                self.talk().take(at3.len() as int) == at3,
                maps@.len() == (if refused { row - 1 } else { row as int }),
                refused ==> row > 0,
                forall|i: int|
                    0 <= i < row ==> (#[trigger] heard(at3, self.talk())[i]).sent
                        == Order::RowMap(i as u8).packet(),
                map_views(maps@) == rows_heard(heard(at3, self.talk())),
            decreases rows - row + (if refused { 0int } else { 1int }),
        {
            let ghost so_far = self.talk();
            let answer = self.ask(&Command::RowMap(row));
            let ghost now = self.talk();
            proof {
                assert(now.take(so_far.len() as int) =~= so_far);
                assert(now.take(at3.len() as int) =~= so_far.take(at3.len() as int));
                assert(heard(so_far, now).len() == 1);
                assert(heard(at3, now).drop_last() =~= heard(at3, so_far));
                assert(heard(at3, now).last() == heard(so_far, now)[0]);
                assert forall|i: int| 0 <= i < row + 1 implies (#[trigger] heard(at3, now)[i]).sent
                    == Order::RowMap(i as u8).packet() by {
                    if i < row {
                        assert(heard(at3, now)[i] == heard(at3, so_far)[i]);
                    }
                }
            }
            match answer {
                Ok(Reply::RowMap(map)) => {
                    let ghost earlier = maps@;
                    assert(map@ =~= row_map_in(now.last().answer->Ok_0));
                    maps.push(map);
                    assert(map_views(maps@) =~= map_views(earlier).push(map@));
                },
                Ok(_) => {
                    refused = true;
                },
                Err(_) => {
                    refused = true;
                },
            }
            row = row + 1;
        }
        let leds = geometry.place(&maps);
        let mut i: usize = 0;
        let size: usize = leds.len();
        let mut painted: Vec<Option<Hsv>> = Vec::new();
        while i < size
            invariant
                i <= size,
                painted@ =~= Seq::new(i as nat, |j: int| None::<Hsv>),
            decreases size - i,
        {
            painted.push(None);
            i = i + 1;
        }
        self.led_count = count;
        self.firmware = firmware;
        self.leds = leds;
        self.painted = painted;
        proof {
            let new = heard(at0, self.talk());
            let now = self.talk();
            assert(now.take(at0.len() as int + 3) =~= at3);
            assert(new.skip(3) =~= heard(at3, now));
            assert(new[0] == heard(at0, at3)[0]) by {
                assert(now[at0.len() as int] == at3[at0.len() as int]);
            }
            assert(new[1] == heard(at0, at3)[1]) by {
                assert(now[at0.len() as int + 1] == at3[at0.len() as int + 1]);
            }
            assert(new[2] == heard(at0, at3)[2]) by {
                assert(now[at0.len() as int + 2] == at3[at0.len() as int + 2]);
            }
        }
        Ok(())
    }

    /// Which of the keys this keyboard has, by position.
    pub fn available(&self) -> (keys: Vec<usize>)
        ensures
            keys@ == Seq::new(self.leds@.len(), |i: int| i as usize),
    {
        let mut keys: Vec<usize> = Vec::new();
        let mut i: usize = 0;
        while i < self.leds.len()
            invariant
                i <= self.leds@.len(),
                keys@ =~= Seq::new(i as nat, |j: int| j as usize),
            decreases self.leds@.len() - i,
        {
            keys.push(i);
            i = i + 1;
        }
        keys
    }
}

/// How many of `count` a packet of `per` that starts at `start` carries.
pub open spec fn carried(count: nat, per: nat, start: int) -> int {
    if start + per <= count {
        per as int
    } else {
        count - start
    }
}

pub open spec fn colour_questions(count: nat) -> Seq<Order> {
    Seq::new(
        packets(count, 9),
        |k: int| Order::GetColours { start: (9 * k) as u8, count: carried(count, 9, 9 * k) as u8 },
    )
}

pub open spec fn region_questions(count: nat) -> Seq<Order> {
    Seq::new(
        packets(count, 29),
        |k: int|
            Order::GetRegions { start: (29 * k) as u8, count: carried(count, 29, 29 * k) as u8 },
    )
}

/// Everything the app is about to change, asked: the five values, every
/// stored colour, every region, and both regions' lists.
pub open spec fn snapshot_orders(count: nat) -> Seq<Order> {
    seq![
        Order::GetEffect,
        Order::GetBrightness,
        Order::GetSpeed,
        Order::GetColour,
        Order::GetPerKeyType,
    ] + colour_questions(count) + region_questions(count) + seq![
        Order::GetEffectList(Region::Ambient),
        Order::GetEffectList(Region::Ours),
    ]
}

/// What the answers to [`snapshot_orders`] say.
pub open spec fn read_snapshot(count: nat, replies: Seq<Seq<u8>>) -> Remembered {
    let colours = packets(count, 9) as int;
    let regions = packets(count, 29) as int;
    Remembered {
        effect: replies[0][3],
        brightness: replies[1][3],
        speed: replies[2][3],
        hue: replies[3][3],
        sat: replies[3][4],
        per_key_type: replies[4][3],
        colours: Seq::new(
            count,
            |led: int| (led as u8, colour_at(replies[5 + led / 9], 3 + 3 * (led % 9))),
        ),
        regions: Seq::new(count, |led: int| replies[5 + colours + led / 29][3 + led % 29]),
        ambient: Seq::new(3, |i: int| slot_at(replies[5 + colours + regions], 3 + 8 * i)),
        ours: Seq::new(3, |i: int| slot_at(replies[6 + colours + regions], 3 + 8 * i)),
    }
}

/// The answers in `new`, where they came.
pub open spec fn answers(new: Seq<Exchange>) -> Seq<Seq<u8>> {
    Seq::new(new.len(), |i: int| new[i].answer->Ok_0)
}

fn snapshot_commands(count: u8) -> (commands: Vec<Command>)
    ensures
        orders_of(commands@) == snapshot_orders(count as nat),
{
    let mut commands: Vec<Command> = Vec::new();
    commands.push(Command::GetEffect);
    commands.push(Command::GetBrightness);
    commands.push(Command::GetSpeed);
    commands.push(Command::GetColour);
    commands.push(Command::GetPerKeyType);
    let ghost first = orders_of(commands@);
    assert(first =~= seq![
        Order::GetEffect,
        Order::GetBrightness,
        Order::GetSpeed,
        Order::GetColour,
        Order::GetPerKeyType,
    ]);
    let mut start: u16 = 0;
    let ghost mut k: int = 0;
    assert(first + colour_questions(count as nat).take(0) =~= first);
    while start < count as u16
        invariant
            0 <= k <= packets(count as nat, 9),
            start == (if 9 * k <= count { 9 * k } else { count as int }),
            start == count ==> k == packets(count as nat, 9),
            orders_of(commands@) =~= first + colour_questions(count as nat).take(k),
        decreases count - start,
    {
        let room: u16 = count as u16 - start;
        let size: u8 = if room >= 9 { 9 } else { room as u8 };
        let ghost sent = commands@;
        commands.push(Command::GetColours { start: start as u8, count: size });
        proof {
            assert(commands@.last()@ == colour_questions(count as nat)[k]);
            assert(orders_of(commands@) =~= orders_of(sent).push(colour_questions(count as nat)[k]));
            k = k + 1;
        }
        start = start + size as u16;
    }
    let ghost second = orders_of(commands@);
    assert(second =~= first + colour_questions(count as nat));
    start = 0;
    proof {
        k = 0;
    }
    assert(second + region_questions(count as nat).take(0) =~= second);
    while start < count as u16
        invariant
            0 <= k <= packets(count as nat, 29),
            start == (if 29 * k <= count { 29 * k } else { count as int }),
            start == count ==> k == packets(count as nat, 29),
            orders_of(commands@) =~= second + region_questions(count as nat).take(k),
        decreases count - start,
    {
        let room: u16 = count as u16 - start;
        let size: u8 = if room >= 29 { 29 } else { room as u8 };
        let ghost sent = commands@;
        commands.push(Command::GetRegions { start: start as u8, count: size });
        proof {
            assert(commands@.last()@ == region_questions(count as nat)[k]);
            assert(orders_of(commands@) =~= orders_of(sent).push(region_questions(count as nat)[k]));
            k = k + 1;
        }
        start = start + size as u16;
    }
    let ghost third = orders_of(commands@);
    assert(third =~= second + region_questions(count as nat));
    commands.push(Command::GetEffectList(Region::Ambient));
    commands.push(Command::GetEffectList(Region::Ours));
    assert(orders_of(commands@) =~= third + seq![
        Order::GetEffectList(Region::Ambient),
        Order::GetEffectList(Region::Ours),
    ]);
    assert(orders_of(commands@) =~= snapshot_orders(count as nat));
    commands
}

/// Whether `replies` are the decoded answers `raw` to `orders`.
pub open spec fn decoded(orders: Seq<Order>, raw: Seq<Seq<u8>>, replies: Seq<Reply>) -> bool {
    &&& raw.len() == orders.len()
    &&& replies.len() == orders.len()
    &&& forall|i: int|
        0 <= i < orders.len() ==> orders[i].reads(#[trigger] raw[i], replies[i])
}

fn byte_in(reply: &Reply) -> (byte: u8)
    ensures
        reply matches Reply::Byte(value) ==> byte == value,
{
    match reply {
        Reply::Byte(value) => *value,
        _ => 0,
    }
}

fn slots_in(reply: &Reply) -> (slots: Vec<EffectSlot>)
    ensures
        reply matches Reply::EffectList(list) ==> slots@ == list@,
{
    match reply {
        Reply::EffectList(list) => copy_slots(list),
        _ => Vec::new(),
    }
}

/// Puts the answers to [`snapshot_orders`] together.
fn assembled(count: u8, replies: &Vec<Reply>, Ghost(raw): Ghost<Seq<Seq<u8>>>) -> (snapshot: Snapshot)
    requires
        decoded(snapshot_orders(count as nat), raw, replies@),
    ensures
        snapshot@ == read_snapshot(count as nat, raw),
{
    let ghost orders = snapshot_orders(count as nat);
    let ghost n = count as nat;
    let per_colour: usize = (count as usize + 8) / 9;
    let per_region: usize = (count as usize + 28) / 29;
    assert(per_colour == packets(n, 9) && per_region == packets(n, 29));
    assert(orders.len() == 7 + per_colour + per_region);
    assert(raw[0] == raw[0] && raw[1] == raw[1] && raw[2] == raw[2] && raw[3] == raw[3] && raw[4] == raw[4]);
    let effect: u8 = byte_in(&replies[0]);
    let brightness: u8 = byte_in(&replies[1]);
    let speed: u8 = byte_in(&replies[2]);
    let (hue, sat): (u8, u8) = match &replies[3] {
        Reply::Colour { hue, sat } => (*hue, *sat),
        _ => (0, 0),
    };
    let per_key_type: u8 = byte_in(&replies[4]);
    let mut colours: Vec<(u8, Hsv)> = Vec::new();
    let ghost want = read_snapshot(n, raw);
    let mut k: usize = 0;
    while k < per_colour
        invariant
            k <= per_colour == packets(n, 9),
            n == count,
            orders == snapshot_orders(n),
            orders.len() == 7 + per_colour + packets(n, 29),
            want == read_snapshot(n, raw),
            decoded(orders, raw, replies@),
            colours@.len() == (if 9 * k <= count { 9 * k } else { count as int }),
            forall|j: int| 0 <= j < colours@.len() ==> colours@[j] == want.colours[j],
        decreases per_colour - k,
    {
        assert(orders[5 + k] == colour_questions(n)[k as int]);
        assert(raw[5 + k] == raw[5 + k]);
        if let Reply::Colours(read) = &replies[5 + k] {
            let mut i: usize = 0;
            let ghost done = colours@.len();
            assert(read@.len() == carried(n, 9, 9 * k as int));
            while i < read.len()
                invariant
                    i <= read@.len() == carried(n, 9, 9 * k as int) <= 9,
                    k < packets(n, 9),
                    n == count,
                    want == read_snapshot(n, raw),
                    read@ == Seq::new(read@.len(), |j: int| colour_at(raw[5 + k], 3 + 3 * j)),
                    colours@.len() == 9 * k + i,
                    forall|j: int| 0 <= j < colours@.len() ==> colours@[j] == want.colours[j],
                decreases read@.len() - i,
            {
                let led: u8 = (9 * k + i) as u8;
                proof {
                    let at = 9 * k + i;
                    assert(at / 9 == k && at % 9 == i);
                    assert(read@[i as int] == colour_at(raw[5 + k], 3 + 3 * i));
                }
                colours.push((led, read[i]));
                i = i + 1;
            }
        } else {
            assert(false);
        }
        k = k + 1;
    }
    assert(colours@ =~= want.colours);
    let mut regions: Vec<u8> = Vec::new();
    k = 0;
    while k < per_region
        invariant
            k <= per_region == packets(n, 29),
            per_colour == packets(n, 9),
            n == count,
            orders == snapshot_orders(n),
            orders.len() == 7 + per_colour + per_region,
            want == read_snapshot(n, raw),
            decoded(orders, raw, replies@),
            regions@.len() == (if 29 * k <= count { 29 * k } else { count as int }),
            forall|j: int| 0 <= j < regions@.len() ==> regions@[j] == want.regions[j],
        decreases per_region - k,
    {
        assert(orders[5 + per_colour + k] == region_questions(n)[k as int]);
        assert(raw[5 + per_colour + k] == raw[5 + per_colour + k]);
        if let Reply::Regions(read) = &replies[5 + per_colour + k] {
            let mut i: usize = 0;
            while i < read.len()
                invariant
                    i <= read@.len() == carried(n, 29, 29 * k as int) <= 29,
                    k < packets(n, 29),
                    per_colour == packets(n, 9),
                    n == count,
                    want == read_snapshot(n, raw),
                    forall|j: int| 0 <= j < read@.len() ==> read@[j] == raw[5 + per_colour + k][3 + j],
                    regions@.len() == 29 * k + i,
                    forall|j: int| 0 <= j < regions@.len() ==> regions@[j] == want.regions[j],
                decreases read@.len() - i,
            {
                proof {
                    let at = 29 * k + i;
                    assert(at / 29 == k && at % 29 == i);
                    assert(read@[i as int] == raw[5 + per_colour + k][3 + i]);
                }
                regions.push(read[i]);
                i = i + 1;
            }
        } else {
            assert(false);
        }
        k = k + 1;
    }
    assert(regions@ =~= want.regions);
    assert(orders[5 + per_colour + per_region] == Order::GetEffectList(Region::Ambient));
    assert(orders[6 + per_colour + per_region] == Order::GetEffectList(Region::Ours));
    assert(raw[5 + per_colour + per_region] == raw[5 + per_colour + per_region]);
    assert(raw[6 + per_colour + per_region] == raw[6 + per_colour + per_region]);
    let ambient = slots_in(&replies[5 + per_colour + per_region]);
    let ours = slots_in(&replies[6 + per_colour + per_region]);
    assert(ambient@ =~= want.ambient);
    assert(ours@ =~= want.ours);
    Snapshot { effect, brightness, speed, hue, sat, per_key_type, colours, regions, ambient, ours }
}

impl<T: Transport> Board<T> {
    /// Reads everything the app is about to change.
    pub fn snapshot(&mut self) -> (r: Result<Snapshot, String>)
        ensures
            final(self).same_board(*old(self)),
            final(self).painted == old(self).painted,
            carried_out(
                old(self).talk(),
                final(self).talk(),
                snapshot_orders(old(self).led_count as nat),
                r,
            ),
            r matches Ok(snapshot) ==> snapshot@ == read_snapshot(
                old(self).led_count as nat,
                answers(heard(old(self).talk(), final(self).talk())),
            ),
    {
        let count: u8 = self.led_count;
        let commands = snapshot_commands(count);
        match self.ask_all(&commands) {
            Err(error) => Err(error),
            Ok(replies) => {
                let ghost raw = answers(heard(old(self).talk(), self.talk()));
                proof {
                    let orders = snapshot_orders(count as nat);
                    assert forall|i: int| 0 <= i < orders.len() implies orders[i].reads(
                        #[trigger] raw[i],
                        replies@[i],
                    ) by {
                        let new = heard(old(self).talk(), self.talk());
                        assert(orders_of(commands@)[i] == commands@[i]@);
                        assert(new[i].answer->Ok_0 == raw[i]);
                    }
                }
                Ok(assembled(count, &replies, Ghost(raw)))
            },
        }
    }
}

/// The questions that tell whether the board is already the app's: the
/// effect, the app's region's list, and the region of the app's LEDs.
pub open spec fn ownership_orders(leds: Seq<u8>) -> Seq<Order> {
    let runs = runs_of(leds, 29);
    seq![Order::GetEffect, Order::GetEffectList(Region::Ours)] + Seq::new(
        runs.len(),
        |k: int| Order::GetRegions { start: runs[k][0], count: runs[k].len() as u8 },
    )
}

/// Whether the answer to question `i` of [`ownership_orders`] is what the app
/// left there.
pub open spec fn as_left(order: Order, reply: Seq<u8>) -> bool {
    match order {
        Order::GetEffect => reply[3] == EFFECT_MIXED,
        Order::GetEffectList(_) => slot_at(reply, 3).effect == EFFECT_PER_KEY,
        Order::GetRegions { count, .. } => forall|j: int|
            0 <= j < count ==> #[trigger] reply[3 + j] == 1,
        _ => true,
    }
}

/// What [`Board::is_ours`] made of the talk: yes when every answer is as the
/// app left it; no at the first that is not.
pub open spec fn judged(
    before: Seq<Exchange>,
    after: Seq<Exchange>,
    orders: Seq<Order>,
    r: Result<bool, String>,
) -> bool {
    let new = heard(before, after);
    match r {
        Ok(true) => {
            &&& said(before, after, orders, true)
            &&& forall|i: int|
                0 <= i < new.len() ==> as_left(orders[i], (#[trigger] new[i]).answer->Ok_0)
        },
        Ok(false) => {
            &&& 0 < new.len() <= orders.len()
            &&& said(before, after, orders.take(new.len() as int), true)
            &&& forall|i: int|
                0 <= i < new.len() - 1 ==> as_left(orders[i], (#[trigger] new[i]).answer->Ok_0)
            &&& !as_left(orders[new.len() - 1], new.last().answer->Ok_0)
        },
        Err(_) => {
            &&& carried_out(before, after, orders, r)
            &&& forall|i: int|
                0 <= i < new.len() - 1 ==> as_left(orders[i], (#[trigger] new[i]).answer->Ok_0)
        },
    }
}

fn left_in(command: &Command, reply: &Reply, Ghost(raw): Ghost<Seq<u8>>) -> (r: bool)
    requires
        command@.reads(raw, *reply),
    ensures
        r == as_left(command@, raw),
{
    match (command, reply) {
        (Command::GetEffect, Reply::Byte(effect)) => *effect == EFFECT_MIXED,
        (Command::GetEffectList(_), Reply::EffectList(slots)) => {
            slots.len() > 0 && slots[0].effect == EFFECT_PER_KEY
        },
        (Command::GetRegions { .. }, Reply::Regions(regions)) => {
            let mut i: usize = 0;
            while i < regions.len()
                invariant
                    i <= regions@.len(),
                    regions@ == Seq::new(regions@.len(), |j: int| raw[3 + j]),
                    command@ matches Order::GetRegions { count, .. } && count == regions@.len(),
                    forall|j: int| 0 <= j < i ==> #[trigger] raw[3 + j] == 1,
                decreases regions@.len() - i,
            {
                if regions[i] != 1 {
                    assert(raw[3 + i] != 1);
                    return false;
                }
                i = i + 1;
            }
            true
        },
        _ => true,
    }
}

fn ownership_commands(leds: &Vec<u8>) -> (commands: Vec<Command>)
    ensures
        orders_of(commands@) == ownership_orders(leds@),
{
    let mut commands: Vec<Command> = Vec::new();
    commands.push(Command::GetEffect);
    commands.push(Command::GetEffectList(Region::Ours));
    let runs = runs(leds, REGIONS_PER_GET);
    let mut k: usize = 0;
    assert(orders_of(commands@) =~= ownership_orders(leds@).take(2));
    while k < runs.len()
        invariant
            k <= runs@.len(),
            views(runs@) == runs_of(leds@, 29),
            forall|i: int| 0 <= i < runs@.len() ==> 0 < (#[trigger] runs@[i])@.len() <= 29,
            orders_of(commands@) =~= ownership_orders(leds@).take(k + 2),
        decreases runs@.len() - k,
    {
        assert(views(runs@)[k as int] == runs@[k as int]@);
        let ghost next = ownership_orders(leds@)[k + 2];
        let ghost sent = commands@;
        commands.push(Command::GetRegions { start: runs[k][0], count: runs[k].len() as u8 });
        assert(commands@.last()@ == next);
        assert(orders_of(commands@) =~= orders_of(sent).push(next));
        k = k + 1;
    }
    assert(ownership_orders(leds@).take(k + 2) =~= ownership_orders(leds@));
    commands
}

/// The LEDs below `count` that are not the app's.
pub open spec fn others(leds: Seq<u8>, count: nat) -> Seq<u8>
    decreases count,
{
    if count == 0 {
        seq![]
    } else {
        let before = others(leds, (count - 1) as nat);
        if leds.contains((count - 1) as u8) {
            before
        } else {
            before.push((count - 1) as u8)
        }
    }
}

/// The packets that store black on `leds`.
pub open spec fn black_orders(leds: Seq<u8>) -> Seq<Order> {
    let runs = runs_of(leds, 9);
    Seq::new(
        runs.len(),
        |k: int|
            Order::SetColours {
                start: runs[k][0],
                colours: Seq::new(runs[k].len(), |i: int| Hsv { h: 0, s: 0, v: 0 }),
            },
    )
}

/// The app's slot: per-key rendering.
pub open spec fn per_key_slot() -> EffectSlot {
    EffectSlot { effect: EFFECT_PER_KEY, hue: 0, sat: 255, speed: 128, time_ms: SLOT_HOLD_MS }
}

/// What the rest of the board was running.
pub open spec fn was_running(remembered: Remembered) -> Seq<EffectSlot> {
    if remembered.effect == EFFECT_MIXED {
        // Their own mixed setup: region 0 keeps its list.
        remembered.ambient
    } else if remembered.effect == EFFECT_OFF {
        seq![EffectSlot::empty()]
    } else {
        seq![
            EffectSlot {
                effect: remembered.effect,
                hue: remembered.hue,
                sat: remembered.sat,
                speed: remembered.speed,
                time_ms: SLOT_HOLD_MS,
            },
        ]
    }
}

/// Whether none of `slots` runs anything.
pub open spec fn dark(slots: Seq<EffectSlot>) -> bool {
    forall|i: int| 0 <= i < slots.len() ==> (#[trigger] slots[i]).effect == EFFECT_OFF
}

/// Each LED's region once the app has taken over.
pub open spec fn shared(leds: Seq<u8>, count: nat) -> Seq<Region> {
    Seq::new(
        count,
        |led: int|
            if leds.contains(led as u8) {
                Region::Ours
            } else {
                Region::Ambient
            },
    )
}

/// The orders of a take-over: black on the rest when nothing was running
/// there, the regions, both lists, and — last, because that is what makes the
/// rest take — the mixed effect.
pub open spec fn take_over_orders(
    leds: Seq<u8>,
    count: nat,
    remembered: Remembered,
) -> Seq<Order> {
    let running = was_running(remembered);
    let blackout = if dark(running) {
        black_orders(others(leds, count))
    } else {
        seq![]
    };
    let ambient = if dark(running) {
        seq![per_key_slot()]
    } else {
        running
    };
    blackout + region_orders(shared(leds, count)) + seq![
        Order::SetEffectList { region: Region::Ambient, slots: full_list(ambient) },
        Order::SetEffectList { region: Region::Ours, slots: full_list(seq![per_key_slot()]) },
        Order::SetPerKeyType(PER_KEY_SOLID),
        Order::SetEffect(EFFECT_MIXED),
    ]
}

fn blackout_commands(leds: &Vec<u8>, count: u8) -> (commands: Vec<Command>)
    ensures
        orders_of(commands@) == black_orders(others(leds@, count as nat)),
{
    let mut rest: Vec<u8> = Vec::new();
    let mut led: u8 = 0;
    while led < count
        invariant
            led <= count,
            rest@ == others(leds@, led as nat),
        decreases count - led,
    {
        if !holds(leds, led) {
            rest.push(led);
        }
        led = led + 1;
    }
    let runs = runs(&rest, COLOURS_PER_PACKET);
    let mut commands: Vec<Command> = Vec::new();
    let mut k: usize = 0;
    assert(orders_of(commands@) =~= black_orders(rest@).take(0));
    while k < runs.len()
        invariant
            k <= runs@.len(),
            views(runs@) == runs_of(rest@, 9),
            forall|i: int| 0 <= i < runs@.len() ==> 0 < (#[trigger] runs@[i])@.len() <= 9,
            orders_of(commands@) =~= black_orders(rest@).take(k as int),
        decreases runs@.len() - k,
    {
        assert(views(runs@)[k as int] == runs@[k as int]@);
        let ghost next = black_orders(rest@)[k as int];
        let ghost sent = commands@;
        let mut colours: Vec<Hsv> = Vec::new();
        let size: usize = runs[k].len();
        let mut i: usize = 0;
        while i < size
            invariant
                i <= size,
                colours@ =~= Seq::new(i as nat, |j: int| Hsv { h: 0, s: 0, v: 0 }),
            decreases size - i,
        {
            colours.push(Hsv { h: 0, s: 0, v: 0 });
            i = i + 1;
        }
        commands.push(Command::SetColours { start: runs[k][0], colours });
        assert(commands@.last()@ == next);
        assert(orders_of(commands@) =~= orders_of(sent).push(next));
        k = k + 1;
    }
    assert(black_orders(rest@).take(k as int) =~= black_orders(rest@));
    commands
}

/// Moves `more` to the end of `commands`.
fn append(commands: &mut Vec<Command>, more: Vec<Command>)
    ensures
        orders_of(final(commands)@) == orders_of(old(commands)@) + orders_of(more@),
{
    let mut more = more;
    let ghost added = more@;
    commands.append(&mut more);
    assert(orders_of(commands@) =~= orders_of(old(commands)@) + orders_of(added));
}

fn is_dark(slots: &Vec<EffectSlot>) -> (r: bool)
    ensures
        r == dark(slots@),
{
    let mut i: usize = 0;
    while i < slots.len()
        invariant
            i <= slots@.len(),
            forall|j: int| 0 <= j < i ==> (#[trigger] slots@[j]).effect == EFFECT_OFF,
        decreases slots@.len() - i,
    {
        if slots[i].effect != EFFECT_OFF {
            return false;
        }
        i = i + 1;
    }
    true
}

pub(crate) fn copy_slots(list: &Vec<EffectSlot>) -> (slots: Vec<EffectSlot>)
    ensures
        slots@ == list@,
{
    let mut slots: Vec<EffectSlot> = Vec::new();
    let mut i: usize = 0;
    while i < list.len()
        invariant
            i <= list@.len(),
            slots@ =~= list@.take(i as int),
        decreases list@.len() - i,
    {
        slots.push(list[i]);
        i = i + 1;
    }
    assert(list@.take(i as int) =~= list@);
    slots
}

/// The orders that take a board over, from what is remembered of it.
pub fn take_over_commands(leds: &Vec<u8>, count: u8, remembered: &Snapshot) -> (commands: Vec<
    Command,
>)
    ensures
        orders_of(commands@) == take_over_orders(leds@, count as nat, remembered@),
{
    let per_key = EffectSlot {
        effect: EFFECT_PER_KEY,
        hue: 0,
        sat: 255,
        speed: 128,
        time_ms: SLOT_HOLD_MS,
    };
    let mut running: Vec<EffectSlot> = Vec::new();
    if remembered.effect == EFFECT_MIXED {
        running = copy_slots(&remembered.ambient);
    } else if remembered.effect == EFFECT_OFF {
        running.push(EffectSlot::none());
    } else {
        running.push(
            EffectSlot {
                effect: remembered.effect,
                hue: remembered.hue,
                sat: remembered.sat,
                speed: remembered.speed,
                time_ms: SLOT_HOLD_MS,
            },
        );
    }
    assert(running@ =~= was_running(remembered@));
    let mut commands: Vec<Command> = Vec::new();
    let mut ours: Vec<EffectSlot> = Vec::new();
    ours.push(per_key);
    assert(ours@ =~= seq![per_key_slot()]);
    let nothing: bool = is_dark(&running);
    let ambient = if nothing { copy_slots(&ours) } else { running };
    if nothing {
        commands = blackout_commands(leds, count);
    }
    let ghost blackout = orders_of(commands@);
    assert(blackout =~= if dark(was_running(remembered@)) {
        black_orders(others(leds@, count as nat))
    } else {
        seq![]
    });
    let mut regions: Vec<Region> = Vec::new();
    let mut led: u8 = 0;
    while led < count
        invariant
            led <= count,
            regions@ =~= shared(leds@, led as nat),
        decreases count - led,
    {
        regions.push(if holds(leds, led) { Region::Ours } else { Region::Ambient });
        led = led + 1;
    }
    append(&mut commands, region_commands(&regions));
    let ghost first = orders_of(commands@);
    commands.push(list_command(Region::Ambient, &ambient));
    commands.push(list_command(Region::Ours, &ours));
    commands.push(Command::SetPerKeyType(PER_KEY_SOLID));
    commands.push(Command::SetEffect(EFFECT_MIXED));
    assert(orders_of(commands@) =~= take_over_orders(leds@, count as nat, remembered@));
    commands
}

/// A remembered region, or the rest's when it is not one of the two.
pub open spec fn region_again(id: u8) -> Region {
    if id == 1 {
        Region::Ours
    } else {
        Region::Ambient
    }
}

/// The orders that put back everything a snapshot holds, the effect last so
/// the board re-renders once, from its restored state.
pub open spec fn restore_orders(remembered: Remembered) -> Seq<Order> {
    colour_orders(remembered.colours) + seq![Order::SetPerKeyType(remembered.per_key_type)]
        + region_orders(
        Seq::new(remembered.regions.len(), |i: int| region_again(remembered.regions[i])),
    ) + seq![
        Order::SetEffectList { region: Region::Ambient, slots: full_list(remembered.ambient) },
        Order::SetEffectList { region: Region::Ours, slots: full_list(remembered.ours) },
        Order::SetSpeed(remembered.speed),
        Order::SetColour { hue: remembered.hue, sat: remembered.sat },
        Order::SetBrightness(remembered.brightness),
        Order::SetEffect(remembered.effect),
    ]
}

pub fn restore_commands(snapshot: &Snapshot) -> (commands: Vec<Command>)
    ensures
        orders_of(commands@) == restore_orders(snapshot@),
{
    let mut commands = colour_commands(&snapshot.colours);
    let ghost first = orders_of(commands@);
    commands.push(Command::SetPerKeyType(snapshot.per_key_type));
    assert(orders_of(commands@) =~= first + seq![Order::SetPerKeyType(snapshot.per_key_type)]);
    let mut regions: Vec<Region> = Vec::new();
    let mut i: usize = 0;
    while i < snapshot.regions.len()
        invariant
            i <= snapshot.regions@.len(),
            regions@ =~= Seq::new(i as nat, |j: int| region_again(snapshot.regions@[j])),
        decreases snapshot.regions@.len() - i,
    {
        regions.push(
            match Region::from_id(snapshot.regions[i]) {
                Some(region) => region,
                None => Region::Ambient,
            },
        );
        i = i + 1;
    }
    assert(regions@ =~= Seq::new(
        snapshot@.regions.len(),
        |i: int| region_again(snapshot@.regions[i]),
    ));
    append(&mut commands, region_commands(&regions));
    commands.push(list_command(Region::Ambient, &snapshot.ambient));
    commands.push(list_command(Region::Ours, &snapshot.ours));
    commands.push(Command::SetSpeed(snapshot.speed));
    commands.push(Command::SetColour { hue: snapshot.hue, sat: snapshot.sat });
    commands.push(Command::SetBrightness(snapshot.brightness));
    commands.push(Command::SetEffect(snapshot.effect));
    assert(orders_of(commands@) =~= restore_orders(snapshot@));
    commands
}

/// The keys whose colour is not what they were last sent, in the order they
/// came: the LED, and its colour.
pub open spec fn changes(
    colours: Seq<(usize, Rgb)>,
    leds: Seq<u8>,
    painted: Seq<Option<Hsv>>,
) -> Seq<(u8, Hsv)>
    decreases colours.len(),
{
    if colours.len() == 0 {
        seq![]
    } else {
        let before = changes(colours.drop_last(), leds, painted);
        let (key, rgb) = colours.last();
        if key < leds.len() && painted[key as int] != Some(wheel(rgb)) {
            before.push((leds[key as int], wheel(rgb)))
        } else {
            before
        }
    }
}

/// `entry` after everything in `sorted` whose LED is not past its own.
pub open spec fn inserted(sorted: Seq<(u8, Hsv)>, entry: (u8, Hsv)) -> Seq<(u8, Hsv)>
    decreases sorted.len(),
{
    if sorted.len() == 0 || sorted.last().0 <= entry.0 {
        sorted.push(entry)
    } else {
        inserted(sorted.drop_last(), entry).push(sorted.last())
    }
}

/// `changed` by LED, what came first staying first.
pub open spec fn by_led(changed: Seq<(u8, Hsv)>) -> Seq<(u8, Hsv)>
    decreases changed.len(),
{
    if changed.len() == 0 {
        seq![]
    } else {
        inserted(by_led(changed.drop_last()), changed.last())
    }
}

/// The first of `leds` that is `led`; their number when none is.
pub open spec fn key_of(leds: Seq<u8>, led: u8) -> int
    decreases leds.len(),
{
    if leds.len() == 0 || leds[0] == led {
        0
    } else {
        1 + key_of(leds.skip(1), led)
    }
}

/// What is remembered of the keys once `changed` has been sent.
pub open spec fn repainted(
    painted: Seq<Option<Hsv>>,
    leds: Seq<u8>,
    changed: Seq<(u8, Hsv)>,
) -> Seq<Option<Hsv>>
    decreases changed.len(),
{
    if changed.len() == 0 {
        painted
    } else {
        let before = repainted(painted, leds, changed.drop_last());
        let (led, hsv) = changed.last();
        let key = key_of(leds, led);
        if key < leds.len() {
            before.update(key, Some(hsv))
        } else {
            before
        }
    }
}

/// The packets one frame costs.
pub open spec fn frame_orders(
    colours: Seq<(usize, Rgb)>,
    leds: Seq<u8>,
    painted: Seq<Option<Hsv>>,
) -> Seq<Order> {
    colour_orders(by_led(changes(colours, leds, painted)))
}

/// What is remembered of the keys once a frame was taken.
pub open spec fn frame_kept(
    colours: Seq<(usize, Rgb)>,
    leds: Seq<u8>,
    painted: Seq<Option<Hsv>>,
) -> Seq<Option<Hsv>> {
    repainted(painted, leds, by_led(changes(colours, leds, painted)))
}

fn insert_by_led(sorted: &mut Vec<(u8, Hsv)>, entry: (u8, Hsv))
    ensures
        final(sorted)@ == inserted(old(sorted)@, entry),
{
    let ghost all = sorted@;
    let mut at: usize = sorted.len();
    assert(all.take(at as int) =~= all);
    while at > 0 && sorted[at - 1].0 > entry.0
        invariant
            at <= sorted@.len(),
            sorted@ == all,
            inserted(all, entry) =~= inserted(all.take(at as int), entry) + all.skip(at as int),
        decreases at,
    {
        proof {
            assert(all.take(at as int).drop_last() =~= all.take(at - 1));
            assert(all.take(at as int).last() == all[at - 1]);
        }
        at = at - 1;
    }
    sorted.insert(at, entry);
    assert(sorted@ =~= all.take(at as int).push(entry) + all.skip(at as int));
}

fn sort_by_led(changed: &Vec<(u8, Hsv)>) -> (sorted: Vec<(u8, Hsv)>)
    ensures
        sorted@ == by_led(changed@),
{
    let mut sorted: Vec<(u8, Hsv)> = Vec::new();
    let mut i: usize = 0;
    while i < changed.len()
        invariant
            i <= changed@.len(),
            sorted@ == by_led(changed@.take(i as int)),
        decreases changed@.len() - i,
    {
        assert(changed@.take(i + 1).drop_last() =~= changed@.take(i as int));
        insert_by_led(&mut sorted, changed[i]);
        i = i + 1;
    }
    assert(changed@.take(i as int) =~= changed@);
    sorted
}

fn find_key(leds: &Vec<u8>, led: u8) -> (key: usize)
    ensures
        key == key_of(leds@, led),
        key <= leds@.len(),
{
    let mut key: usize = 0;
    assert(leds@.skip(0) =~= leds@);
    while key < leds.len() && leds[key] != led
        invariant
            key <= leds@.len(),
            key_of(leds@, led) == key + key_of(leds@.skip(key as int), led),
        decreases leds@.len() - key,
    {
        assert(leds@.skip(key as int).skip(1) =~= leds@.skip(key + 1));
        key = key + 1;
    }
    key
}

impl<T: Transport> Board<T> {
    /// Whether the keyboard is already set up the way [`Self::take_over`]
    /// leaves it — the case after the keyboard re-enumerated, when reading a
    /// "snapshot" would capture the app's own work and later restore that.
    pub fn is_ours(&mut self) -> (r: Result<bool, String>)
        ensures
            final(self).same_board(*old(self)),
            final(self).painted == old(self).painted,
            judged(old(self).talk(), final(self).talk(), ownership_orders(old(self).leds@), r),
    {
        let ghost before = self.talk();
        let commands = ownership_commands(&self.leds);
        let ghost orders = orders_of(commands@);
        let mut i: usize = 0;
        assert(before.take(before.len() as int) =~= before);
        while i < commands.len()
            invariant
                i <= commands@.len(),
                orders == orders_of(commands@),
                orders == ownership_orders(old(self).leds@),
                before == old(self).talk(),
                self.same_board(*old(self)),
                self.painted == old(self).painted,
                before.len() + i == self.talk().len(),
                self.talk().take(before.len() as int) == before,
                forall|j: int|
                    0 <= j < i ==> (#[trigger] heard(before, self.talk())[j]).sent
                        == orders[j].packet() && takes(
                        orders[j],
                        heard(before, self.talk())[j].answer,
                    ) && as_left(orders[j], heard(before, self.talk())[j].answer->Ok_0),
            decreases commands@.len() - i,
        {
            let ghost so_far = self.talk();
            let answer = self.ask(&commands[i]);
            let ghost now = self.talk();
            let ghost new = heard(before, now);
            proof {
                let step = heard(so_far, now);
                assert(now.take(so_far.len() as int) =~= so_far);
                assert(now.take(before.len() as int) =~= so_far.take(before.len() as int));
                assert forall|j: int| 0 <= j < i implies new[j] == heard(before, so_far)[j] by {
                    assert(now[before.len() + j] == so_far[before.len() + j]);
                }
                if step.len() == 1 {
                    assert(step[0] == now.last());
                    assert(new[i as int] == now.last());
                }
            }
            match answer {
                Err(error) => {
                    assert(said(before, now, orders, false));
                    return Err(error);
                },
                Ok(reply) => {
                    let ghost raw = now.last().answer->Ok_0;
                    if !left_in(&commands[i], &reply, Ghost(raw)) {
                        assert(orders.take(new.len() as int)[i as int] == orders[i as int]);
                        assert(said(before, now, orders.take(new.len() as int), true));
                        return Ok(false);
                    }
                },
            }
            i = i + 1;
        }
        Ok(true)
    }

    /// Puts the keyboard in mixed mode with the app's keys as its region and
    /// the rest of the board running what the user had. The effect is
    /// switched last: that is what makes the rest take.
    ///
    /// When the user had nothing running — lighting off, or their own mixed
    /// setup with an empty region 0 — the rest is not given effect "none".
    /// The firmware ends a mixed frame as soon as region 0 reports finished,
    /// and "none" is finished after the board's first slice of LEDs, so the
    /// later LEDs are never repainted — and the Caps Lock indicator, which
    /// the firmware draws over its key and clears only by the key being
    /// repainted, would stay lit once pressed. Instead the rest runs the
    /// per-key effect too, every key stored black: it looks exactly like
    /// off, but every LED repaints each frame and the indicator can clear.
    pub fn take_over(&mut self, remembered: &Snapshot) -> (r: Result<(), String>)
        ensures
            final(self).same_board(*old(self)),
            carried_out(
                old(self).talk(),
                final(self).talk(),
                take_over_orders(old(self).leds@, old(self).led_count as nat, remembered@),
                r,
            ),
            final(self).painted@ == (if r is Ok {
                Seq::new(old(self).painted@.len(), |i: int| None::<Hsv>)
            } else {
                old(self).painted@
            }),
    {
        let commands = take_over_commands(&self.leds, self.led_count, remembered);
        match self.ask_all(&commands) {
            Err(error) => Err(error),
            Ok(_) => {
                self.forget();
                Ok(())
            },
        }
    }

    /// Forgets what every key was last sent.
    fn forget(&mut self)
        ensures
            final(self).same_board(*old(self)),
            final(self).talk() == old(self).talk(),
            final(self).painted@ == Seq::new(old(self).painted@.len(), |i: int| None::<Hsv>),
    {
        let size: usize = self.painted.len();
        let mut painted: Vec<Option<Hsv>> = Vec::new();
        let mut i: usize = 0;
        while i < size
            invariant
                i <= size,
                painted@ =~= Seq::new(i as nat, |j: int| None::<Hsv>),
            decreases size - i,
        {
            painted.push(None);
            i = i + 1;
        }
        self.painted = painted;
    }

    /// One frame, by key position. Sends only the keys whose colour changed,
    /// in as few packets as their LEDs allow, so a still board costs nothing
    /// and a moving light is usually one packet.
    pub fn paint(&mut self, colours: &Vec<(usize, Rgb)>) -> (r: Result<(), String>)
        requires
            old(self).wf(),
        ensures
            final(self).wf(),
            final(self).same_board(*old(self)),
            carried_out(
                old(self).talk(),
                final(self).talk(),
                frame_orders(colours@, old(self).leds@, old(self).painted@),
                r,
            ),
            final(self).painted@ == (if r is Ok {
                frame_kept(colours@, old(self).leds@, old(self).painted@)
            } else {
                old(self).painted@
            }),
    {
        let mut changed: Vec<(u8, Hsv)> = Vec::new();
        let mut i: usize = 0;
        while i < colours.len()
            invariant
                i <= colours@.len(),
                self.wf(),
                changed@ == changes(colours@.take(i as int), self.leds@, self.painted@),
            decreases colours@.len() - i,
        {
            assert(colours@.take(i + 1).drop_last() =~= colours@.take(i as int));
            let (key, rgb): (usize, Rgb) = colours[i];
            if key < self.leds.len() {
                let hsv = Hsv::from(rgb);
                let known: bool = match self.painted[key] {
                    Some(last) => last == hsv,
                    None => false,
                };
                if !known {
                    changed.push((self.leds[key], hsv));
                }
            }
            i = i + 1;
        }
        assert(colours@.take(i as int) =~= colours@);
        let sorted = sort_by_led(&changed);
        let commands = colour_commands(&sorted);
        if let Err(error) = self.ask_all(&commands) {
            return Err(error);
        }
        let ghost painted = self.painted@;
        let mut k: usize = 0;
        while k < sorted.len()
            invariant
                k <= sorted@.len(),
                self.wf(),
                self.same_board(*old(self)),
                painted == old(self).painted@,
                self.painted@ == repainted(painted, self.leds@, sorted@.take(k as int)),
                carried_out(
                    old(self).talk(),
                    self.talk(),
                    colour_orders(sorted@),
                    Ok::<(), String>(()),
                ),
            decreases sorted@.len() - k,
        {
            assert(sorted@.take(k + 1).drop_last() =~= sorted@.take(k as int));
            let (led, hsv): (u8, Hsv) = sorted[k];
            let key: usize = find_key(&self.leds, led);
            if key < self.leds.len() {
                self.painted.set(key, Some(hsv));
            }
            k = k + 1;
        }
        assert(sorted@.take(k as int) =~= sorted@);
        Ok(())
    }

    /// Puts back everything [`Self::snapshot`] read, the effect last so the
    /// board re-renders once, from its restored state.
    pub fn restore(&mut self, snapshot: &Snapshot) -> (r: Result<(), String>)
        ensures
            final(self).same_board(*old(self)),
            carried_out(old(self).talk(), final(self).talk(), restore_orders(snapshot@), r),
            final(self).painted@ == (if r is Ok {
                Seq::new(old(self).painted@.len(), |i: int| None::<Hsv>)
            } else {
                old(self).painted@
            }),
    {
        let commands = restore_commands(snapshot);
        match self.ask_all(&commands) {
            Err(error) => Err(error),
            Ok(_) => {
                self.forget();
                Ok(())
            },
        }
    }
}

/// **A run is neighbours, and as long as can be**: what a run holds counts up
/// from its first LED, a run ends where it is full or the next LED is no
/// neighbour, and the runs one after the other are the LEDs.
pub proof fn runs_are_neighbours_together(leds: Seq<u8>, max: nat)
    requires
        max > 0,
    ensures
        ({
            let runs = runs_of(leds, max);
            &&& runs.flatten() == leds
            &&& forall|k: int, i: int|
                0 <= k < runs.len() && 0 <= i < runs[k].len() ==> #[trigger] runs[k][i]
                    == runs[k][0] + i
            &&& forall|k: int| 0 <= k < runs.len() ==> 0 < (#[trigger] runs[k]).len() <= max
            &&& forall|k: int|
                0 <= k < runs.len() - 1 ==> (#[trigger] runs[k]).len() == max || runs[k].last() + 1
                    != runs[k + 1][0]
        }),
    decreases leds.len(),
{
    let runs = runs_of(leds, max);
    if leds.len() == 0 {
        assert(runs.flatten() =~= leds);
    } else {
        let led = leds.last();
        assert(leds =~= leds.drop_last().push(led));
        runs_are_neighbours_together(leds.drop_last(), max);
        let before = runs_of(leds.drop_last(), max);
        if before.len() > 0 && before.last().len() < max && before.last().last() + 1 == led {
            let head = before.drop_last();
            let run = before.last();
            assert(before =~= head.push(run));
            assert(runs =~= head.push(run.push(led)));
            head.lemma_flatten_push(run);
            head.lemma_flatten_push(run.push(led));
            assert(head.flatten() + run.push(led) =~= (head.flatten() + run).push(led));
            assert(runs.flatten() =~= leds);
            assert forall|k: int, i: int|
                0 <= k < runs.len() && 0 <= i < runs[k].len() implies #[trigger] runs[k][i]
                == runs[k][0] + i by {
                if k < head.len() {
                    assert(before[k][i] == before[k][0] + i);
                } else {
                    assert(before[k][run.len() - 1] == before[k][0] + (run.len() - 1));
                    if i < run.len() {
                        assert(before[k][i] == before[k][0] + i);
                    }
                }
            }
            assert forall|k: int| 0 <= k < runs.len() - 1 implies (#[trigger] runs[k]).len() == max
                || runs[k].last() + 1 != runs[k + 1][0] by {
                assert(before[k].len() == max || before[k].last() + 1 != before[k + 1][0]);
            }
        } else {
            assert(runs =~= before.push(seq![led]));
            before.lemma_flatten_push(seq![led]);
            assert(before.flatten() + seq![led] =~= before.flatten().push(led));
            assert(runs.flatten() =~= leds);
            assert forall|k: int, i: int|
                0 <= k < runs.len() && 0 <= i < runs[k].len() implies #[trigger] runs[k][i]
                == runs[k][0] + i by {
                if k < before.len() {
                    assert(before[k][i] == before[k][0] + i);
                }
            }
            assert forall|k: int| 0 <= k < runs.len() - 1 implies (#[trigger] runs[k]).len() == max
                || runs[k].last() + 1 != runs[k + 1][0] by {
                if k < before.len() - 1 {
                    assert(before[k].len() == max || before[k].last() + 1 != before[k + 1][0]);
                } else {
                    assert(before[k] == before.last());
                }
            }
        }
    }
}

/// **Which keys a board lends**: of a full keyboard the F-row of its first
/// row; of the pad the four first LEDs of its top row and the first of each
/// row below. A board that does not say as many is taken to have them where
/// such a board usually does.
pub proof fn the_keys_of_a_board(
    top: Seq<Option<u8>>,
    below: Seq<Seq<Option<u8>>>,
    heads: Seq<u8>,
)
    requires
        heads.len() == below.len(),
        lit(top).len() >= 4,
        forall|i: int|
            0 <= i < below.len() ==> lit(#[trigger] below[i]).len() > 0 && lit(below[i])[0]
                == heads[i],
    ensures
        Geometry::Ultra.picked(seq![top] + below) == f_row_of(top),
        Geometry::V0Ultra.picked(seq![top] + below) == lit(top).take(4) + heads,
        heads.len() == 5 ==> Geometry::V0Ultra.placed(seq![top] + below) == lit(top).take(4) + heads,
        heads.len() != 5 ==> Geometry::V0Ultra.placed(seq![top] + below) == seq![
            0u8,
            1,
            2,
            3,
            4,
            9,
            14,
            18,
            23,
        ],
        f_row_of(top).len() == 12 ==> Geometry::Ultra.placed(seq![top] + below) == f_row_of(top),
        f_row_of(top).len() != 12 ==> Geometry::Ultra.placed(seq![top] + below) == Seq::new(
            12,
            |i: int| (i + 1) as u8,
        ),
        Geometry::V0Ultra.row_count() == 6 && Geometry::Ultra.row_count() == 1,
{
    let maps = seq![top] + below;
    assert(maps.skip(1) =~= below);
    assert(maps[0] == top);
    every_row_has_its_head(below, heads);
    assert(lit(top).take(4) =~= first_four(top));
    assert(Geometry::V0Ultra.picked(maps).len() == 4 + heads.len());
    assert(default_f_row() =~= Seq::new(12, |i: int| (i + 1) as u8));
}

proof fn every_row_has_its_head(rows: Seq<Seq<Option<u8>>>, heads: Seq<u8>)
    requires
        heads.len() == rows.len(),
        forall|i: int|
            0 <= i < rows.len() ==> lit(#[trigger] rows[i]).len() > 0 && lit(rows[i])[0] == heads[i],
    ensures
        row_heads(rows) == heads,
    decreases rows.len(),
{
    if rows.len() > 0 {
        let (some, most) = (rows.drop_last(), heads.drop_last());
        assert forall|i: int| 0 <= i < some.len() implies lit(#[trigger] some[i]).len() > 0 && lit(
            some[i],
        )[0] == most[i] by {
            assert(some[i] == rows[i]);
        }
        every_row_has_its_head(some, most);
        assert(rows.last() == rows[rows.len() - 1]);
    }
    assert(row_heads(rows) =~= heads);
}

/// **A board is known by its LEDs and its language**: a pad has 26, a full
/// keyboard any number, and both speak the first version.
pub proof fn a_board_is_known_by_its_leds(count: u8, version: u16)
    ensures
        Geometry::V0Ultra.stranger(count) is None <==> count == 26,
        Geometry::Ultra.stranger(count) is None,
        foreign(version) is None <==> version == 1,
{
}

/// **What ran goes on behind**: an effect the keyboard was running goes on in
/// the region that is not ours, with its colour and speed and for as long as
/// it is shown; a mixed setup keeps its list; and where the lighting was off
/// nothing runs.
pub proof fn what_ran_goes_on_behind(remembered: Remembered)
    ensures
        ({
            let running = was_running(remembered);
            &&& remembered.effect == 24 ==> running == remembered.ambient
            &&& remembered.effect == 0 ==> dark(running)
            &&& remembered.effect != 0 && remembered.effect != 24 ==> {
                &&& running.len() == 1
                &&& running[0].effect == remembered.effect
                &&& running[0].hue == remembered.hue
                &&& running[0].sat == remembered.sat
                &&& running[0].speed == remembered.speed
                &&& running[0].time_ms == 5000
                &&& !dark(running)
            }
            &&& per_key_slot().effect == 23 && per_key_slot().time_ms == 5000
        }),
{
    if remembered.effect != 0 && remembered.effect != 24 {
        assert(was_running(remembered)[0].effect != 0);
    }
}

/// **A board's rows are read until one is refused**: the rows answered before
/// it, in their order, each column an LED's number or a gap where it says 255.
pub proof fn rows_are_read_until_one_is_refused(new: Seq<Exchange>, taken: int)
    requires
        0 <= taken <= new.len() <= 256,
        forall|i: int|
            0 <= i < taken ==> takes(Order::RowMap(i as u8), (#[trigger] new[i]).answer),
        taken < new.len() ==> !takes(Order::RowMap(taken as u8), new[taken].answer),
    ensures
        rows_heard(new).len() == taken,
        forall|i: int, col: int|
            0 <= i < taken && 0 <= col < 29 ==> {
                let said = new[i].answer->Ok_0[3 + col];
                &&& #[trigger] rows_heard(new)[i][col] == (if said == 255 {
                    None
                } else {
                    Some(said)
                })
                &&& rows_heard(new)[i].len() == 29
            },
    decreases new.len(),
{
    if new.len() > 0 {
        let before = new.drop_last();
        let last = new.len() - 1;
        let kept = if taken < new.len() {
            taken
        } else {
            last
        };
        assert forall|i: int| 0 <= i < kept implies takes(
            Order::RowMap(i as u8),
            (#[trigger] before[i]).answer,
        ) by {
            assert(before[i] == new[i]);
        }
        rows_are_read_until_one_is_refused(before, kept);
        assert forall|i: int, col: int| 0 <= i < taken && 0 <= col < 29 implies {
            let said = new[i].answer->Ok_0[3 + col];
            &&& #[trigger] rows_heard(new)[i][col] == (if said == 255 {
                None
            } else {
                Some(said)
            })
            &&& rows_heard(new)[i].len() == 29
        } by {
            if i < kept {
                assert(before[i] == new[i]);
                assert(rows_heard(before)[i][col] == rows_heard(new)[i][col]);
            }
        }
    }
}

/// **A board is ours while it is as it was left**: in the mixed effect, with our
/// region lit key by key, and every key asked about in our region. Anything
/// else and it is somebody else's.
pub proof fn a_board_is_ours_while_it_is_as_it_was_left(
    reply: Seq<u8>,
    region: Region,
    start: u8,
    count: u8,
    j: int,
)
    ensures
        as_left(Order::GetEffect, reply) <==> reply[3] == 24,
        as_left(Order::GetEffectList(region), reply) <==> reply[3] == 23,
        0 <= j < count && reply[3 + j] != 1 ==> !as_left(Order::GetRegions { start, count }, reply),
        count == 1 ==> (as_left(Order::GetRegions { start, count }, reply) <==> reply[3] == 1),
{
    if 0 <= j < count && as_left(Order::GetRegions { start, count }, reply) {
        assert(reply[3 + j] == 1);
    }
    if count == 1 && reply[3] == 1 {
        assert forall|i: int| 0 <= i < count implies #[trigger] reply[3 + i] == 1 by {
            assert(i == 0);
        }
    }
    if count == 1 && as_left(Order::GetRegions { start, count }, reply) {
        assert(reply[3 + 0int] == 1);
    }
}

} // verus!
