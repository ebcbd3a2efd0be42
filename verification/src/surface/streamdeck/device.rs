//! The seam between the surface and a Stream Deck.
//!
//! [`Deck`] is a trait so the surface's logic — which keys to write, when to
//! flush, what a press is — runs against a recording deck in tests.
//!
//! The deck is taken whole. Unlike a keyboard there is no "our keys and the
//! user's": the Elgato app repaints every key from its own profile and reads
//! every press, so the two cannot share, and the surface only opens the deck
//! while that app is not running.

use vstd::prelude::*;

use super::canvas::{Canvas, Picture};
use crate::table::{before, comes_before, one_comes_first, order_chains};
use crate::text::{self, decimal};

verus! {

/// Elgato's USB vendor id, the one thing every model has in common.
pub const VENDOR_ID: u16 = 0x0FD9;

/// The Elgato app's process name, as the process list spells it.
pub const ELGATO_APP: &'static str = "StreamDeck.exe";

/// Whether a process is the Elgato app, by its name.
pub fn is_elgato_app(process: &str) -> (r: bool)
    ensures
        r == (text::in_small(process@) == text::in_small("StreamDeck.exe"@)),
{
    text::same_letters(process, "StreamDeck.exe")
}

/// A deck on the bus, as much as can be known without opening it.
#[derive(Debug, PartialEq, Eq)]
pub struct Found {
    pub product_id: u16,
    pub serial: String,
    /// The model, as the driver names it.
    pub model: String,
    pub keys: usize,
    pub rows: usize,
    pub cols: usize,
    /// One key's image, in pixels.
    pub size: (usize, usize),
}

impl Found {
    /// One line for the window and `doctor`.
    pub fn describe(&self) -> (line: String)
        ensures
            line@ == self.model@ + " (serial "@ + self.serial@ + "): "@ + decimal(self.keys as nat)
                + " keys, "@ + decimal(self.rows as nat) + "×"@ + decimal(self.cols as nat) + ", "@
                + decimal(self.size.0 as nat) + "×"@ + decimal(self.size.1 as nat) + " px each"@,
    {
        let mut line = self.model.clone();
        line.push_str(" (serial ");
        line.push_str(self.serial.as_str());
        line.push_str("): ");
        line.push_str(text::number(self.keys as u64).as_str());
        line.push_str(" keys, ");
        line.push_str(text::number(self.rows as u64).as_str());
        line.push_str("×");
        line.push_str(text::number(self.cols as u64).as_str());
        line.push_str(", ");
        line.push_str(text::number(self.size.0 as u64).as_str());
        line.push_str("×");
        line.push_str(text::number(self.size.1 as u64).as_str());
        line.push_str(" px each");
        line
    }
}

/// One thing a deck was told, and what it said against it if it refused.
pub ghost enum Told {
    Backlight { percent: u8, refusal: Option<Seq<char>> },
    Paint { key: u8, picture: Picture, refusal: Option<Seq<char>> },
    Flush { refusal: Option<Seq<char>> },
    Reset { refusal: Option<Seq<char>> },
    /// Its buttons were asked for, for so many milliseconds: what a deck that
    /// is there answered, if they changed in time, and what one that is not
    /// said.
    Poll { timeout_ms: u64, answer: Result<Option<Seq<bool>>, Seq<char>> },
}

/// What a deck said against what it was told, if it did not take it.
pub open spec fn refusal(r: Result<(), String>) -> Option<Seq<char>> {
    match r {
        Ok(()) => None,
        Err(reason) => Some(reason@),
    }
}

/// A Stream Deck, from the surface's side.
///
/// Nothing is promised of what a deck answers: `told` is only the record of
/// what it was told, and `size` what it says its keys measure, for the contracts
/// above this one to speak of.
pub trait Deck {
    /// Everything the deck was told, in order.
    open spec fn told(&self) -> Seq<Told> {
        arbitrary()
    }

    /// One key's image, in pixels.
    open spec fn size(&self) -> (usize, usize) {
        arbitrary()
    }

    fn keys(&self) -> usize;

    fn key_size(&self) -> (r: (usize, usize))
        ensures
            r == self.size(),
    ;

    /// The deck's own backlight, 0–100.
    fn set_brightness(&mut self, percent: u8) -> (r: Result<(), String>)
        ensures
            final(self).told() == old(self).told().push(
                Told::Backlight { percent, refusal: refusal(r) },
            ),
    ;

    /// Queues one key's picture; nothing reaches the deck until [`flush`].
    ///
    /// [`flush`]: Self::flush
    fn paint(&mut self, key: u8, canvas: &Canvas) -> (r: Result<(), String>)
        ensures
            final(self).told() == old(self).told().push(
                Told::Paint { key, picture: canvas@, refusal: refusal(r) },
            ),
    ;

    fn flush(&mut self) -> (r: Result<(), String>)
        ensures
            final(self).told() == old(self).told().push(Told::Flush { refusal: refusal(r) }),
    ;

    /// Back to the logo — what a deck shows when nothing is driving it.
    fn reset(&mut self) -> (r: Result<(), String>)
        ensures
            final(self).told() == old(self).told().push(Told::Reset { refusal: refusal(r) }),
    ;

    /// Waits up to `timeout_ms` milliseconds for the buttons to change. `Some`
    /// is every button's state, pressed or not; `None` is the timeout; `Err`
    /// is a deck that is no longer there.
    fn poll(&mut self, timeout_ms: u64) -> (r: Result<Option<Vec<bool>>, String>)
        ensures
            final(self).told() == old(self).told().push(
                Told::Poll { timeout_ms, answer: reading(r) },
            ),
    ;
}

/// What a deck's buttons said, if it is there and they said anything.
pub open spec fn reading(r: Result<Option<Vec<bool>>, String>) -> Result<
    Option<Seq<bool>>,
    Seq<char>,
> {
    match r {
        Ok(Some(buttons)) => Ok(Some(buttons@)),
        Ok(None) => Ok(None),
        Err(reason) => Err(reason@),
    }
}

/// Whether the decks stand in the order of their serial numbers.
pub open spec fn by_serial(found: Seq<Found>) -> bool {
    forall|i: int, j: int|
        0 <= i < j < found.len() ==> !before(
            (#[trigger] found[j]).serial@,
            (#[trigger] found[i]).serial@,
        )
}

pub open spec fn has_serial(serial: Seq<char>) -> spec_fn(Found) -> bool {
    |one: Found| one.serial@ == serial
}

/// The decks with one serial number, in the order they stand in.
pub open spec fn numbered(found: Seq<Found>, serial: Seq<char>) -> Seq<Found> {
    found.filter(has_serial(serial))
}

/// `found` with `one` at `at`.
spec fn with_at(found: Seq<Found>, one: Found, at: int) -> Seq<Found> {
    found.take(at).push(one) + found.skip(at)
}

proof fn nobody_numbered(found: Seq<Found>, serial: Seq<char>)
    requires
        forall|i: int| 0 <= i < found.len() ==> (#[trigger] found[i]).serial@ != serial,
    ensures
        numbered(found, serial) == Seq::<Found>::empty(),
    decreases found.len(),
{
    reveal(Seq::filter);
    if found.len() > 0 {
        let less = found.drop_last();
        assert forall|i: int| 0 <= i < less.len() implies (#[trigger] less[i]).serial@
            != serial by {
            assert(less[i] == found[i]);
        }
        nobody_numbered(less, serial);
        assert(found.last() == found[found.len() - 1]);
    }
}

proof fn numbered_with(found: Seq<Found>, one: Found, at: int, serial: Seq<char>)
    requires
        0 <= at <= found.len(),
        forall|i: int| at <= i < found.len() ==> (#[trigger] found[i]).serial@ != one.serial@,
    ensures
        numbered(with_at(found, one, at), serial) == numbered(found.push(one), serial),
{
    let same = has_serial(serial);
    let head = found.take(at);
    let tail = found.skip(at);
    assert(found =~= head + tail);
    Seq::filter_distributes_over_add(head, tail, same);
    Seq::filter_distributes_over_add(head.push(one), tail, same);
    reveal(Seq::filter);
    assert(head.push(one).drop_last() =~= head);
    assert(found.push(one).drop_last() =~= found);
    if one.serial@ == serial {
        assert forall|i: int| 0 <= i < tail.len() implies (#[trigger] tail[i]).serial@ != serial by {
            assert(tail[i] == found[at + i]);
        }
        nobody_numbered(tail, serial);
        assert(tail.filter(same) =~= seq![]);
        assert(head.push(one).filter(same) =~= head.filter(same).push(one));
        assert(found.push(one).filter(same) =~= found.filter(same).push(one));
    }
}

proof fn numbered_on(done: Seq<Found>, more: Seq<Found>, one: Found, serial: Seq<char>)
    requires
        numbered(done, serial) == numbered(more, serial),
    ensures
        numbered(done.push(one), serial) == numbered(more.push(one), serial),
{
    reveal(Seq::filter);
    assert(done.push(one).drop_last() =~= done);
    assert(more.push(one).drop_last() =~= more);
}

/// The decks in the order of their serial numbers: the driver hands them over
/// from a set, and the same bus should read the same way twice.
pub fn in_order(found: Vec<Found>) -> (decks: Vec<Found>)
    ensures
        by_serial(decks@),
        forall|serial: Seq<char>| numbered(decks@, serial) == #[trigger] numbered(found@, serial),
{
    let ghost all = found@;
    let mut rest = found;
    let mut decks: Vec<Found> = Vec::new();
    let ghost mut done: int = 0;
    assert(all.take(0) =~= seq![]);
    while rest.len() > 0
        invariant
            0 <= done <= all.len(),
            rest@ == all.skip(done),
            by_serial(decks@),
            forall|serial: Seq<char>|
                numbered(decks@, serial) == #[trigger] numbered(all.take(done), serial),
        decreases rest@.len(),
    {
        let one = rest.remove(0);
        let mut at: usize = decks.len();
        while at > 0 && comes_before(one.serial.as_str(), decks[at - 1].serial.as_str())
            invariant
                at <= decks@.len(),
                by_serial(decks@),
                forall|i: int|
                    at <= i < decks@.len() ==> before(one.serial@, (#[trigger] decks@[i]).serial@),
            decreases at,
        {
            at = at - 1;
        }
        let ghost was = decks@;
        let ghost put = one;
        proof {
            assert(put == all[done]);
            assert(rest@ =~= all.skip(done + 1));
            assert(all.take(done + 1) =~= all.take(done).push(put));
            assert forall|i: int| at <= i < was.len() implies (#[trigger] was[i]).serial@
                != put.serial@ by {
                one_comes_first(put.serial@, was[i].serial@);
            }
            assert forall|serial: Seq<char>|
                numbered(with_at(was, put, at as int), serial) == #[trigger] numbered(
                    all.take(done + 1),
                    serial,
                ) by {
                assert(numbered(was, serial) == numbered(all.take(done), serial));
                numbered_with(was, put, at as int, serial);
                numbered_on(was, all.take(done), put, serial);
            }
        }
        decks.insert(at, one);
        assert(decks@ =~= with_at(was, put, at as int));
        assert(by_serial(decks@)) by {
            assert forall|i: int, j: int| 0 <= i < j < decks@.len() implies !before(
                (#[trigger] decks@[j]).serial@,
                (#[trigger] decks@[i]).serial@,
            ) by {
                if j == at {
                    // Whoever stands in front does not come after it.
                    if before(put.serial@, was[i].serial@) {
                        let last = was[at - 1].serial@;
                        if i < at - 1 {
                            assert(!before(was[at - 1].serial@, was[i].serial@));
                            one_comes_first(last, was[i].serial@);
                            if last != was[i].serial@ {
                                order_chains(put.serial@, was[i].serial@, last);
                            }
                        }
                    }
                } else if i == at {
                    one_comes_first(was[j - 1].serial@, put.serial@);
                    one_comes_first(put.serial@, was[j - 1].serial@);
                } else {
                    let a = if i < at {
                        i
                    } else {
                        i - 1
                    };
                    let b = if j < at {
                        j
                    } else {
                        j - 1
                    };
                    assert(decks@[i] == was[a] && decks@[j] == was[b]);
                    assert(!before(was[b].serial@, was[a].serial@));
                }
            }
        }
        proof {
            done = done + 1;
        }
    }
    assert(all.take(done) =~= all);
    decks
}

} // verus!
