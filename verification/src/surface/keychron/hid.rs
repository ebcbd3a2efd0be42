//! Moving reports to and from the keyboard's Launcher interface.
//!
//! The keyboard shows up as several HID interfaces; the one that speaks the
//! protocol is the vendor-defined page `0xFF60`, usage `0x61`, and that pair
//! is how it is found — never by product id, because the 2.4 GHz receiver is
//! a different USB device with its own id and the same interface.

use vstd::prelude::*;

use super::protocol::{Order, Report};
use crate::text;

verus! {

/// How long the keyboard gets to echo a report, in milliseconds. Measured at
/// 0.4 ms on the cable and 1.3 ms through the receiver; anything near this is
/// a keyboard that has gone away.
pub const ECHO_TIMEOUT_MS: i32 = 250;

/// One report out, and its echo, or why there was none.
pub ghost struct Exchange {
    pub sent: Seq<u8>,
    pub answer: Result<Seq<u8>, Seq<char>>,
}

/// One report out, its echo back. Every command the keyboard accepts is
/// answered, so an exchange that returns nothing is a broken link, not a
/// quiet success.
///
/// Nothing is promised of the answers: `talk` is only the record of what was
/// said, report by report, for the contracts above this one to speak of.
pub trait Transport {
    open spec fn talk(&self) -> Seq<Exchange> {
        arbitrary()
    }

    fn exchange(&mut self, report: &Report) -> (r: Result<Report, String>)
        ensures
            final(self).talk() == old(self).talk().push(
                Exchange {
                    sent: report@,
                    answer: match r {
                        Ok(reply) => Ok(reply@),
                        Err(error) => Err(error@),
                    },
                },
            ),
    ;
}

/// A Launcher interface on the bus, before anything has been said to it.
#[derive(Debug, Clone, PartialEq, Eq)]
pub struct Found {
    pub product_id: u16,
    pub product: String,
    /// The OS path to open it by.
    pub path: String,
}

impl Found {
    /// What the way to the board is called.
    pub open spec fn way(&self) -> Seq<char> {
        if text::has(self.product@, "Link"@) {
            "2.4 GHz"@
        } else {
            "USB"@
        }
    }

    /// The cable, or the receiver — Keychron names the receiver "Ultra-Link",
    /// and that is the only way to tell the two paths apart from here.
    pub fn link(&self) -> (name: &'static str)
        ensures
            name@ == self.way(),
    {
        if text::contains(self.product.as_str(), "Link") {
            "2.4 GHz"
        } else {
            "USB"
        }
    }
}

/// Whether `reply` answers `sent`: the command byte echoes, and for the
/// per-key group the sub-command too. Anything else is the keyboard talking
/// on its own — a layer change, say — and not what was asked for.
pub open spec fn echoes(sent: Seq<u8>, reply: Seq<u8>) -> bool {
    reply[0] == sent[0] && (sent[0] != 0xA8 || reply[1] == sent[1])
}

pub fn is_echo(sent: &Report, reply: &Report) -> (r: bool)
    ensures
        r == echoes(sent@, reply@),
{
    reply[0] == sent[0] && (sent[0] != 0xA8 || reply[1] == sent[1])
}

/// A reply that decodes is an echo: waiting for the echo loses no answer.
pub proof fn an_answer_is_an_echo(order: Order, reply: Seq<u8>)
    requires
        order.fault(reply) is None,
    ensures
        echoes(order.packet(), reply),
{
}

/// **An echo carries the name of what it answers**: another message's reply is
/// none, nor is another per-key message's.
pub proof fn an_echo_carries_its_name(sent: Seq<u8>, reply: Seq<u8>)
    ensures
        reply[0] != sent[0] ==> !echoes(sent, reply),
        reply[0] == sent[0] && sent[0] != 0xA8 ==> echoes(sent, reply),
        reply[0] == 0xA8 && sent[0] == 0xA8 ==> (echoes(sent, reply) <==> reply[1] == sent[1]),
{
}

} // verus!
