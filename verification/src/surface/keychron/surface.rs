//! A Keychron Ultra from the moment it is found: whose it is, what it goes
//! back to, and what is said of it.
//!
//! Finding it on the bus and moving reports to it are somebody else's.

use vstd::prelude::*;

use super::hid::{Exchange, Found, Transport};
use super::session::{
    Board, Remembered, Snapshot, V0_ULTRA, carried_out, judged, ownership_orders, read_snapshot,
    answers, heard, snapshot_orders, take_over_orders,
};
use crate::text::{self, decimal, hex_word, list_text};

verus! {

/// How this surface names itself in the window.
pub const SURFACE: &'static str = "Keychron";

impl Snapshot {
    /// The same snapshot once more.
    pub fn copy(&self) -> (r: Snapshot)
        ensures
            r@ == self@,
    {
        let mut colours: Vec<(u8, super::protocol::Hsv)> = Vec::new();
        let mut i: usize = 0;
        while i < self.colours.len()
            invariant
                i <= self.colours@.len(),
                colours@ =~= self.colours@.take(i as int),
            decreases self.colours@.len() - i,
        {
            colours.push(self.colours[i]);
            i = i + 1;
        }
        let mut regions: Vec<u8> = Vec::new();
        let mut i: usize = 0;
        while i < self.regions.len()
            invariant
                i <= self.regions@.len(),
                regions@ =~= self.regions@.take(i as int),
            decreases self.regions@.len() - i,
        {
            regions.push(self.regions[i]);
            i = i + 1;
        }
        assert(colours@ =~= self.colours@);
        assert(regions@ =~= self.regions@);
        Snapshot {
            effect: self.effect,
            brightness: self.brightness,
            speed: self.speed,
            hue: self.hue,
            sat: self.sat,
            per_key_type: self.per_key_type,
            colours,
            regions,
            ambient: super::session::copy_slots(&self.ambient),
            ours: super::session::copy_slots(&self.ours),
        }
    }
}

/// What a remembered snapshot holds.
pub open spec fn known(remembered: Option<&Snapshot>) -> Option<Remembered> {
    match remembered {
        Some(snapshot) => Some(snapshot@),
        None => None,
    }
}

/// What a board goes back to: what is remembered of it, when it turns out to
/// be one the app already set up, and else what it shows now.
pub open spec fn goes_back_to(
    ours: bool,
    remembered: Option<Remembered>,
    read: Remembered,
) -> Remembered {
    if ours && remembered is Some {
        remembered->0
    } else {
        read
    }
}

/// Whether the board was asked whose it is, read if it had to be, and goes back
/// to `kept`.
pub open spec fn was_settled(
    before: Seq<Exchange>,
    asked: Seq<Exchange>,
    read: Seq<Exchange>,
    leds: Seq<u8>,
    count: nat,
    remembered: Option<Remembered>,
    kept: Remembered,
    ours: bool,
) -> bool {
    &&& judged(before, asked, ownership_orders(leds), Ok(ours))
    &&& if ours && remembered is Some {
        read == asked
    } else {
        carried_out(asked, read, snapshot_orders(count), Ok::<(), String>(()))
    }
    &&& kept == goes_back_to(ours, remembered, read_snapshot(count, answers(heard(asked, read))))
}

/// Whether the board was asked whose it is, read if it had to be, and set up.
pub open spec fn was_adopted(
    before: Seq<Exchange>,
    asked: Seq<Exchange>,
    read: Seq<Exchange>,
    after: Seq<Exchange>,
    leds: Seq<u8>,
    count: nat,
    remembered: Option<Remembered>,
    kept: Remembered,
    ours: bool,
) -> bool {
    &&& was_settled(before, asked, read, leds, count, remembered, kept, ours)
    &&& carried_out(read, after, take_over_orders(leds, count, kept), Ok::<(), String>(()))
}

/// Whether the board refused: to say whose it is, to be read, or to be set up.
pub open spec fn was_refused(
    before: Seq<Exchange>,
    asked: Seq<Exchange>,
    read: Seq<Exchange>,
    after: Seq<Exchange>,
    leds: Seq<u8>,
    count: nat,
    remembered: Option<Remembered>,
    kept: Remembered,
    ours: bool,
    error: String,
) -> bool {
    ||| after == asked && judged(before, asked, ownership_orders(leds), Err(error))
    ||| {
        &&& after == read
        &&& judged(before, asked, ownership_orders(leds), Ok(ours))
        &&& !(ours && remembered is Some)
        &&& carried_out(asked, read, snapshot_orders(count), Err::<(), String>(error))
    }
    ||| {
        &&& was_settled(before, asked, read, leds, count, remembered, kept, ours)
        &&& carried_out(read, after, take_over_orders(leds, count, kept), Err::<(), String>(error))
    }
}

/// Whether a board was taken over, and goes back to `kept`.
#[verifier::opaque]
pub open spec fn adopted(
    before: Seq<Exchange>,
    after: Seq<Exchange>,
    leds: Seq<u8>,
    count: nat,
    remembered: Option<Remembered>,
    kept: Remembered,
) -> bool {
    exists|asked: Seq<Exchange>, read: Seq<Exchange>, ours: bool| #[trigger]
        was_adopted(before, asked, read, after, leds, count, remembered, kept, ours)
}

/// Whether a board refused to be taken over, and why.
#[verifier::opaque]
pub open spec fn refused(
    before: Seq<Exchange>,
    after: Seq<Exchange>,
    leds: Seq<u8>,
    count: nat,
    remembered: Option<Remembered>,
    error: String,
) -> bool {
    exists|asked: Seq<Exchange>, read: Seq<Exchange>, kept: Remembered, ours: bool| #[trigger]
        was_refused(before, asked, read, after, leds, count, remembered, kept, ours, error)
}

proof fn an_adoption_ends_well(
    before: Seq<Exchange>,
    asked: Seq<Exchange>,
    read: Seq<Exchange>,
    after: Seq<Exchange>,
    leds: Seq<u8>,
    count: nat,
    remembered: Option<Remembered>,
    kept: Remembered,
    ours: bool,
)
    requires
        was_adopted(before, asked, read, after, leds, count, remembered, kept, ours),
    ensures
        adopted(before, after, leds, count, remembered, kept),
{
    reveal(adopted);
}

proof fn an_adoption_is_refused(
    before: Seq<Exchange>,
    asked: Seq<Exchange>,
    read: Seq<Exchange>,
    after: Seq<Exchange>,
    leds: Seq<u8>,
    count: nat,
    remembered: Option<Remembered>,
    kept: Remembered,
    ours: bool,
    error: String,
)
    requires
        was_refused(before, asked, read, after, leds, count, remembered, kept, ours, error),
    ensures
        refused(before, after, leds, count, remembered, error),
{
    reveal(refused);
}

/// Takes a board over, remembering what was there first — unless it turns out
/// to be one the app already set up, in which case `remembered` is what it
/// goes back to: reading it again would capture the app's own work.
pub fn adopt<T: Transport>(board: &mut Board<T>, remembered: Option<&Snapshot>) -> (r: Result<
    Snapshot,
    String,
>)
    ensures
        final(board).same_board(*old(board)),
        final(board).painted@ == (if r is Ok {
            Seq::new(old(board).painted@.len(), |i: int| None::<super::protocol::Hsv>)
        } else {
            old(board).painted@
        }),
        r matches Ok(snapshot) ==> adopted(
            old(board).talk(),
            final(board).talk(),
            old(board).leds@,
            old(board).led_count as nat,
            known(remembered),
            snapshot@,
        ),
        r matches Err(error) ==> refused(
            old(board).talk(),
            final(board).talk(),
            old(board).leds@,
            old(board).led_count as nat,
            known(remembered),
            error,
        ),
{
    let ghost before = board.talk();
    let ghost leds = board.leds@;
    let ghost count = board.led_count as nat;
    let ghost old_one = known(remembered);
    let verdict = board.is_ours();
    let ghost asked = board.talk();
    let ours: bool = match verdict {
        Ok(ours) => ours,
        Err(error) => {
            proof {
                an_adoption_is_refused(
                    before,
                    asked,
                    asked,
                    asked,
                    leds,
                    count,
                    old_one,
                    old_one->0,
                    false,
                    error,
                );
            }
            return Err(error);
        },
    };
    let mut kept: Option<Snapshot> = None;
    if ours {
        if let Some(snapshot) = remembered {
            kept = Some(snapshot.copy());
        }
    }
    let snapshot: Snapshot = match kept {
        Some(snapshot) => snapshot,
        None => match board.snapshot() {
            Ok(snapshot) => snapshot,
            Err(error) => {
                let ghost read = board.talk();
                proof {
                    an_adoption_is_refused(
                        before,
                        asked,
                        read,
                        read,
                        leds,
                        count,
                        old_one,
                        old_one->0,
                        ours,
                        error,
                    );
                }
                return Err(error);
            },
        },
    };
    let ghost read = board.talk();
    assert(snapshot@ == goes_back_to(
        ours,
        old_one,
        read_snapshot(count, answers(heard(asked, read))),
    ));
    let taken = board.take_over(&snapshot);
    let ghost after = board.talk();
    match taken {
        Ok(_) => {
            proof {
                an_adoption_ends_well(
                    before,
                    asked,
                    read,
                    after,
                    leds,
                    count,
                    old_one,
                    snapshot@,
                    ours,
                );
            }
            Ok(snapshot)
        },
        Err(error) => {
            proof {
                an_adoption_is_refused(
                    before,
                    asked,
                    read,
                    after,
                    leds,
                    count,
                    old_one,
                    snapshot@,
                    ours,
                    error,
                );
            }
            Err(error)
        },
    }
}

/// Whether a board that answered the handshake is the numpad's: it answers
/// this handshake too, and is the other surface's.
pub fn is_numpad(led_count: u8) -> (r: bool)
    ensures
        r == (Some(led_count) == V0_ULTRA.leds_expected()),
{
    match V0_ULTRA.expect_leds() {
        Some(leds) => leds == led_count,
        None => false,
    }
}

/// How the window names a board: its product, and the way it is reached.
pub fn model_of(found: &Found) -> (r: String)
    ensures
        r@ == found.product@ + " over "@ + found.way(),
{
    let mut model = found.product.clone();
    model.push_str(" over ");
    model.push_str(found.link());
    model
}

/// Why no board was taken: one that errored is a board that may be ours and is
/// not answering; none at all — or only somebody else's — is simply absence.
pub fn not_taken(errored: bool) -> (r: &'static str)
    ensures
        r@ == (if errored {
            "not responding — retrying"@
        } else {
            "no Ultra keyboard detected"@
        }),
{
    if errored {
        "not responding — retrying"
    } else {
        "no Ultra keyboard detected"
    }
}

/// The line `doctor` has for an interface on the bus.
pub fn describe(found: &Found) -> (line: String)
    ensures
        line@ == found.product@ + " over "@ + found.way() + " (pid "@ + hex_word(found.product_id)
            + ")"@,
{
    let mut line = model_of(found);
    line.push_str(" (pid ");
    line.push_str(text::hex_of_word(found.product_id).as_str());
    line.push_str(")");
    line
}

/// The line `doctor` has for a board that answered.
pub fn describe_board(firmware: &str, led_count: u8, leds: &Vec<u8>) -> (line: String)
    ensures
        line@ == "  firmware "@ + firmware@ + ", "@ + decimal(led_count as nat)
            + " LEDs, F-row at "@ + list_text(leds@),
{
    let mut line = "  firmware ".to_owned();
    line.push_str(firmware);
    line.push_str(", ");
    line.push_str(text::number(led_count as u64).as_str());
    line.push_str(" LEDs, F-row at ");
    line.push_str(text::list_of(leds).as_str());
    line
}

/// The line `doctor` has for what a board shows.
pub fn describe_state(snapshot: &Snapshot) -> (line: String)
    ensures
        line@ == "  effect "@ + decimal(snapshot.effect as nat)
            + " (0 off, 23 per-key, 24 mixed), brightness "@ + decimal(snapshot.brightness as nat)
            + ", per-key type "@ + decimal(snapshot.per_key_type as nat),
{
    let mut line = "  effect ".to_owned();
    line.push_str(text::number(snapshot.effect as u64).as_str());
    line.push_str(" (0 off, 23 per-key, 24 mixed), brightness ");
    line.push_str(text::number(snapshot.brightness as u64).as_str());
    line.push_str(", per-key type ");
    line.push_str(text::number(snapshot.per_key_type as u64).as_str());
    line
}

/// **A board found as it was left goes back to what was remembered**; any other
/// goes back to how it was found.
pub proof fn a_board_goes_back_to_what_was_there(
    ours: bool,
    remembered: Option<Remembered>,
    read: Remembered,
)
    ensures
        remembered matches Some(kept) ==> goes_back_to(true, remembered, read) == kept,
        goes_back_to(false, remembered, read) == read,
        goes_back_to(ours, None, read) == read,
{
}

} // verus!
