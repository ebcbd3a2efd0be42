//! The packets: what the keyboard is asked, byte for byte, and what it says
//! back.
//!
//! Keychron's Launcher protocol is VIA's raw-HID framing — 32-byte reports on
//! usage page `0xFF60`, usage `0x61`, report id 0 — with Keychron's own
//! command groups on top.
//!
//! **Nothing here can persist anything.** VIA's `custom_save` (`07 03 09`)
//! and Keychron's per-key save (`A8 02`) write the keyboard's settings to
//! flash, and this module has no way to spell either: every change the app
//! makes lives in the keyboard's RAM, and a power cycle is always a complete
//! undo. [`no_packet_writes_flash`] proves it.

use vstd::prelude::*;

use crate::settings::{KEYS, Rgb};
use crate::text;

verus! {

pub const VENDOR_ID: u16 = 0x3434;
pub const USAGE_PAGE: u16 = 0xFF60;
pub const USAGE: u16 = 0x61;

pub const REPORT_LEN: usize = 32;

pub type Report = [u8; 32];

/// RGB effect numbers the app cares about; 1–22 are the keyboard's own
/// animations, which the app never runs itself.
pub const EFFECT_OFF: u8 = 0;
pub const EFFECT_PER_KEY: u8 = 23;
pub const EFFECT_MIXED: u8 = 24;

/// Per-key rendering types; only solid is ever asked for.
pub const PER_KEY_SOLID: u8 = 0;

/// The firmware's per-packet limits. Refused, not truncated, when exceeded.
pub const COLOURS_PER_PACKET: usize = 9;
pub const REGIONS_PER_SET: usize = 28;
pub const REGIONS_PER_GET: usize = 29;
pub const SLOTS_PER_PACKET: usize = 3;

/// The firmware's protocol version for the `A8` group, as `A8 01` reports it.
pub const PER_KEY_PROTOCOL: u16 = 1;

/// How many matrix columns a row map carries: the packet has room for 29
/// after the header.
pub const ROW_MAP_COLUMNS: usize = 29;

/// A mixed-mode region. The firmware has exactly two, and its bounds check
/// lets a third through into memory it does not own — so this type cannot
/// name one.
#[derive(Debug, Clone, Copy, PartialEq, Eq, Structural)]
pub enum Region {
    /// The rest of the keyboard, running whatever the user chose.
    Ambient,
    /// The keys the app drives, rendered per key from what it sends.
    Ours,
}

impl Region {
    /// Region 0.
    pub const AMBIENT: Self = Region::Ambient;
    /// Region 1.
    pub const OURS: Self = Region::Ours;

    pub open spec fn number(self) -> u8 {
        match self {
            Region::Ambient => 0,
            Region::Ours => 1,
        }
    }

    pub fn id(self) -> (id: u8)
        ensures
            id == self.number(),
    {
        match self {
            Region::Ambient => 0,
            Region::Ours => 1,
        }
    }

    pub fn from_id(id: u8) -> (region: Option<Self>)
        ensures
            id == 0 ==> region == Some(Region::Ambient),
            id == 1 ==> region == Some(Region::Ours),
            id > 1 ==> region is None,
    {
        match id {
            0 => Some(Region::Ambient),
            1 => Some(Region::Ours),
            _ => None,
        }
    }
}

/// A colour as the keyboard stores it: hue around a 0–255 wheel, then
/// saturation and value.
#[derive(Debug, Clone, Copy, PartialEq, Eq, Structural)]
pub struct Hsv {
    pub h: u8,
    pub s: u8,
    pub v: u8,
}

impl Default for Hsv {
    fn default() -> (hsv: Self)
        ensures
            hsv == (Hsv { h: 0, s: 0, v: 0 }),
    {
        Hsv { h: 0, s: 0, v: 0 }
    }
}

/// One entry of a region's effect list: the effect and how it is coloured,
/// paced and, when several rotate, how long it holds.
#[derive(Debug, Clone, Copy, PartialEq, Eq, Structural)]
pub struct EffectSlot {
    pub effect: u8,
    pub hue: u8,
    pub sat: u8,
    pub speed: u8,
    pub time_ms: u32,
}

impl EffectSlot {
    pub open spec fn empty() -> Self {
        EffectSlot { effect: 0, hue: 0, sat: 0, speed: 0, time_ms: 0 }
    }

    /// An empty slot: the firmware skips effect 0.
    pub fn none() -> (slot: Self)
        ensures
            slot == EffectSlot::empty(),
    {
        EffectSlot { effect: 0, hue: 0, sat: 0, speed: 0, time_ms: 0 }
    }
}

impl Default for EffectSlot {
    fn default() -> (slot: Self)
        ensures
            slot == EffectSlot::empty(),
    {
        EffectSlot::none()
    }
}

/// Everything the app ever asks the keyboard. Note what is absent: any
/// command that writes flash.
#[derive(Debug, Clone, PartialEq, Eq)]
pub enum Command {
    GetBrightness,
    GetEffect,
    GetSpeed,
    GetColour,
    SetBrightness(u8),
    SetEffect(u8),
    SetSpeed(u8),
    SetColour { hue: u8, sat: u8 },
    FirmwareVersion,
    ProtocolVersion,
    LedCount,
    /// The LED index under each column of one matrix row.
    RowMap(u8),
    GetPerKeyType,
    SetPerKeyType(u8),
    GetColours { start: u8, count: u8 },
    SetColours { start: u8, colours: Vec<Hsv> },
    GetRegions { start: u8, count: u8 },
    SetRegions { start: u8, regions: Vec<Region> },
    GetEffectList(Region),
    SetEffectList { region: Region, slots: Vec<EffectSlot> },
}

/// A command with its lists as sequences: what [`Command`] says, whatever
/// holds it.
pub ghost enum Order {
    GetBrightness,
    GetEffect,
    GetSpeed,
    GetColour,
    SetBrightness(u8),
    SetEffect(u8),
    SetSpeed(u8),
    SetColour { hue: u8, sat: u8 },
    FirmwareVersion,
    ProtocolVersion,
    LedCount,
    RowMap(u8),
    GetPerKeyType,
    SetPerKeyType(u8),
    GetColours { start: u8, count: u8 },
    SetColours { start: u8, colours: Seq<Hsv> },
    GetRegions { start: u8, count: u8 },
    SetRegions { start: u8, regions: Seq<Region> },
    GetEffectList(Region),
    SetEffectList { region: Region, slots: Seq<EffectSlot> },
}

impl View for Command {
    type V = Order;

    open spec fn view(&self) -> Order {
        match *self {
            Command::GetBrightness => Order::GetBrightness,
            Command::GetEffect => Order::GetEffect,
            Command::GetSpeed => Order::GetSpeed,
            Command::GetColour => Order::GetColour,
            Command::SetBrightness(v) => Order::SetBrightness(v),
            Command::SetEffect(v) => Order::SetEffect(v),
            Command::SetSpeed(v) => Order::SetSpeed(v),
            Command::SetColour { hue, sat } => Order::SetColour { hue, sat },
            Command::FirmwareVersion => Order::FirmwareVersion,
            Command::ProtocolVersion => Order::ProtocolVersion,
            Command::LedCount => Order::LedCount,
            Command::RowMap(row) => Order::RowMap(row),
            Command::GetPerKeyType => Order::GetPerKeyType,
            Command::SetPerKeyType(kind) => Order::SetPerKeyType(kind),
            Command::GetColours { start, count } => Order::GetColours { start, count },
            Command::SetColours { start, colours } => Order::SetColours {
                start,
                colours: colours@,
            },
            Command::GetRegions { start, count } => Order::GetRegions { start, count },
            Command::SetRegions { start, regions } => Order::SetRegions {
                start,
                regions: regions@,
            },
            Command::GetEffectList(region) => Order::GetEffectList(region),
            Command::SetEffectList { region, slots } => Order::SetEffectList {
                region,
                slots: slots@,
            },
        }
    }
}

/// What came back, already checked against what was asked.
#[derive(Debug, Clone, PartialEq, Eq)]
pub enum Reply {
    Byte(u8),
    Colour { hue: u8, sat: u8 },
    Text(String),
    Version(u16),
    /// Per column; `None` where the matrix has no LED.
    RowMap(Vec<Option<u8>>),
    Colours(Vec<Hsv>),
    Regions(Vec<u8>),
    EffectList(Vec<EffectSlot>),
    Done,
}

/// The three bytes of each colour, one after the other.
pub open spec fn colour_bytes(colours: Seq<Hsv>) -> Seq<u8> {
    Seq::new(
        3 * colours.len(),
        |i: int|
            {
                let colour = colours[i / 3];
                if i % 3 == 0 {
                    colour.h
                } else if i % 3 == 1 {
                    colour.s
                } else {
                    colour.v
                }
            },
    )
}

/// A number's four bytes, least significant first.
pub open spec fn little_endian(n: u32, at: int) -> u8 {
    if at == 0 {
        (n % 256) as u8
    } else if at == 1 {
        (n / 0x100 % 256) as u8
    } else if at == 2 {
        (n / 0x1_0000 % 256) as u8
    } else {
        (n / 0x100_0000) as u8
    }
}

/// The eight bytes of each slot, one after the other.
pub open spec fn slot_bytes(slots: Seq<EffectSlot>) -> Seq<u8> {
    Seq::new(8 * slots.len(), |i: int| slot_byte(slots[i / 8], i % 8))
}

pub open spec fn slot_byte(slot: EffectSlot, at: int) -> u8 {
    if at == 0 {
        slot.effect
    } else if at == 1 {
        slot.hue
    } else if at == 2 {
        slot.sat
    } else if at == 3 {
        slot.speed
    } else {
        little_endian(slot.time_ms, at - 4)
    }
}

pub open spec fn region_bytes(regions: Seq<Region>) -> Seq<u8> {
    Seq::new(regions.len(), |i: int| regions[i].number())
}

impl Order {
    /// What of the packet is not padding.
    pub open spec fn body(self) -> Seq<u8> {
        match self {
            Order::GetBrightness => seq![0x08, 0x03, 0x01],
            Order::GetEffect => seq![0x08, 0x03, 0x02],
            Order::GetSpeed => seq![0x08, 0x03, 0x03],
            Order::GetColour => seq![0x08, 0x03, 0x04],
            Order::SetBrightness(v) => seq![0x07, 0x03, 0x01, v],
            Order::SetEffect(v) => seq![0x07, 0x03, 0x02, v],
            Order::SetSpeed(v) => seq![0x07, 0x03, 0x03, v],
            Order::SetColour { hue, sat } => seq![0x07, 0x03, 0x04, hue, sat],
            Order::FirmwareVersion => seq![0xA1],
            Order::ProtocolVersion => seq![0xA8, 0x01],
            Order::LedCount => seq![0xA8, 0x05],
            Order::RowMap(row) => seq![0xA8, 0x06, row, 0xFF, 0xFF, 0xFF],
            Order::GetPerKeyType => seq![0xA8, 0x07],
            Order::SetPerKeyType(kind) => seq![0xA8, 0x08, kind],
            Order::GetColours { start, count } => seq![0xA8, 0x09, start, count],
            Order::SetColours { start, colours } => seq![
                0xA8,
                0x0A,
                start,
                colours.len() as u8,
            ] + colour_bytes(colours),
            Order::GetRegions { start, count } => seq![0xA8, 0x0C, start, count],
            Order::SetRegions { start, regions } => seq![
                0xA8,
                0x0D,
                start,
                regions.len() as u8,
            ] + region_bytes(regions),
            Order::GetEffectList(region) => seq![0xA8, 0x0E, region.number(), 0, 3],
            Order::SetEffectList { region, slots } => seq![
                0xA8,
                0x0F,
                region.number(),
                0,
                slots.len() as u8,
            ] + slot_bytes(slots),
        }
    }

    /// How many entries the command asks for or carries, how many the
    /// firmware takes, and what they are called.
    pub open spec fn load(self) -> Option<(nat, nat, Seq<char>)> {
        match self {
            Order::GetColours { count, .. } => Some((count as nat, 9, "colours"@)),
            Order::SetColours { colours, .. } => Some((colours.len(), 9, "colours"@)),
            Order::GetRegions { count, .. } => Some((count as nat, 29, "regions"@)),
            Order::SetRegions { regions, .. } => Some((regions.len(), 28, "regions"@)),
            Order::SetEffectList { slots, .. } => Some((slots.len(), 3, "effect slots"@)),
            _ => None,
        }
    }

    /// Whether the firmware would take it: within its per-packet limit.
    pub open spec fn fits(self) -> bool {
        self.load() matches Some((count, max, _)) ==> count <= max
    }

    /// What is said of a command that does not fit.
    pub open spec fn excess(self) -> Option<Seq<char>> {
        match self.load() {
            Some((count, max, what)) => if count <= max {
                None
            } else {
                Some(over_limit(count, max, what))
            },
            None => None,
        }
    }

    /// The whole packet: the body, and zeros up to the report's length.
    pub open spec fn packet(self) -> Seq<u8> {
        Seq::new(
            32,
            |i: int|
                if i < self.body().len() {
                    self.body()[i]
                } else {
                    0
                },
        )
    }
}

/// What is said of a packet over its limit.
pub open spec fn over_limit(count: nat, max: nat, what: Seq<char>) -> Seq<char> {
    text::decimal(count) + " "@ + what + " in one packet; the keyboard takes "@ + text::decimal(max)
}

fn limit(count: usize, max: usize, what: &str) -> (r: Result<(), String>)
    ensures
        r is Ok <==> count <= max,
        r matches Err(error) ==> error@ == over_limit(count as nat, max as nat, what@),
{
    if count > max {
        let mut error = text::number(count as u64);
        error.push_str(" ");
        error.push_str(what);
        error.push_str(" in one packet; the keyboard takes ");
        error.push_str(text::number(max as u64).as_str());
        return Err(error);
    }
    Ok(())
}

/// `body` in a report, zeros after it.
fn padded(body: &Vec<u8>) -> (report: Report)
    requires
        body@.len() <= 32,
    ensures
        report@ =~= Seq::new(
            32,
            |i: int|
                if i < body@.len() {
                    body@[i]
                } else {
                    0
                },
        ),
{
    let mut report: Report = [0u8;32];
    let mut i: usize = 0;
    while i < body.len()
        invariant
            i <= body@.len() <= 32,
            report@.len() == 32,
            forall|j: int| 0 <= j < i ==> report@[j] == body@[j],
            forall|j: int| i <= j < 32 ==> report@[j] == 0,
        decreases body@.len() - i,
    {
        report[i] = body[i];
        i = i + 1;
    }
    report
}

/// The header bytes, then the three bytes of each colour.
fn with_colours(start: u8, colours: &Vec<Hsv>) -> (body: Vec<u8>)
    requires
        colours@.len() <= 9,
    ensures
        body@ =~= seq![0xA8, 0x0A, start, colours@.len() as u8] + colour_bytes(colours@),
{
    let mut body: Vec<u8> = vec![0xA8, 0x0A, start, colours.len() as u8];
    let mut i: usize = 0;
    while i < colours.len()
        invariant
            i <= colours@.len() <= 9,
            body@ =~= seq![0xA8, 0x0A, start, colours@.len() as u8] + colour_bytes(
                colours@.take(i as int),
            ),
        decreases colours@.len() - i,
    {
        body.push(colours[i].h);
        body.push(colours[i].s);
        body.push(colours[i].v);
        i = i + 1;
    }
    assert(colours@.take(i as int) =~= colours@);
    body
}

fn with_regions(start: u8, regions: &Vec<Region>) -> (body: Vec<u8>)
    requires
        regions@.len() <= 28,
    ensures
        body@ =~= seq![0xA8, 0x0D, start, regions@.len() as u8] + region_bytes(regions@),
{
    let mut body: Vec<u8> = vec![0xA8, 0x0D, start, regions.len() as u8];
    let mut i: usize = 0;
    while i < regions.len()
        invariant
            i <= regions@.len() <= 28,
            body@ =~= seq![0xA8, 0x0D, start, regions@.len() as u8] + region_bytes(
                regions@.take(i as int),
            ),
        decreases regions@.len() - i,
    {
        body.push(regions[i].id());
        i = i + 1;
    }
    assert(regions@.take(i as int) =~= regions@);
    body
}

fn with_slots(region: Region, slots: &Vec<EffectSlot>) -> (body: Vec<u8>)
    requires
        slots@.len() <= 3,
    ensures
        body@ =~= seq![0xA8, 0x0F, region.number(), 0, slots@.len() as u8] + slot_bytes(slots@),
{
    let mut body: Vec<u8> = vec![0xA8, 0x0F, region.id(), 0, slots.len() as u8];
    let mut i: usize = 0;
    while i < slots.len()
        invariant
            i <= slots@.len() <= 3,
            body@ =~= seq![0xA8, 0x0F, region.number(), 0, slots@.len() as u8] + slot_bytes(
                slots@.take(i as int),
            ),
        decreases slots@.len() - i,
    {
        let slot = slots[i];
        body.push(slot.effect);
        body.push(slot.hue);
        body.push(slot.sat);
        body.push(slot.speed);
        body.push((slot.time_ms % 256) as u8);
        body.push((slot.time_ms / 0x100 % 256) as u8);
        body.push((slot.time_ms / 0x1_0000 % 256) as u8);
        body.push((slot.time_ms / 0x100_0000) as u8);
        i = i + 1;
    }
    assert(slots@.take(i as int) =~= slots@);
    body
}

impl Command {
    /// The 32 bytes to send. `Err` when the firmware would refuse it — over
    /// a per-packet limit — so a refusal is never discovered on the wire.
    pub fn encode(&self) -> (r: Result<Report, String>)
        ensures
            r is Ok <==> self@.fits(),
            r matches Ok(report) ==> report@ == self@.packet(),
            r matches Err(error) ==> Some(error@) == self@.excess(),
    {
        let body: Vec<u8> = match self {
            Command::GetBrightness => vec![0x08, 0x03, 0x01],
            Command::GetEffect => vec![0x08, 0x03, 0x02],
            Command::GetSpeed => vec![0x08, 0x03, 0x03],
            Command::GetColour => vec![0x08, 0x03, 0x04],
            Command::SetBrightness(v) => vec![0x07, 0x03, 0x01, *v],
            Command::SetEffect(v) => vec![0x07, 0x03, 0x02, *v],
            Command::SetSpeed(v) => vec![0x07, 0x03, 0x03, *v],
            Command::SetColour { hue, sat } => vec![0x07, 0x03, 0x04, *hue, *sat],
            Command::FirmwareVersion => vec![0xA1],
            Command::ProtocolVersion => vec![0xA8, 0x01],
            Command::LedCount => vec![0xA8, 0x05],
            // Every column: a 24-bit mask, little-endian, all set.
            Command::RowMap(row) => vec![0xA8, 0x06, *row, 0xFF, 0xFF, 0xFF],
            Command::GetPerKeyType => vec![0xA8, 0x07],
            Command::SetPerKeyType(kind) => vec![0xA8, 0x08, *kind],
            Command::GetColours { start, count } => {
                match limit(*count as usize, COLOURS_PER_PACKET, "colours") {
                    Err(error) => return Err(error),
                    Ok(()) => vec![0xA8, 0x09, *start, *count],
                }
            },
            Command::SetColours { start, colours } => {
                match limit(colours.len(), COLOURS_PER_PACKET, "colours") {
                    Err(error) => return Err(error),
                    Ok(()) => with_colours(*start, colours),
                }
            },
            Command::GetRegions { start, count } => {
                match limit(*count as usize, REGIONS_PER_GET, "regions") {
                    Err(error) => return Err(error),
                    Ok(()) => vec![0xA8, 0x0C, *start, *count],
                }
            },
            Command::SetRegions { start, regions } => {
                match limit(regions.len(), REGIONS_PER_SET, "regions") {
                    Err(error) => return Err(error),
                    Ok(()) => with_regions(*start, regions),
                }
            },
            Command::GetEffectList(region) => vec![0xA8, 0x0E, region.id(), 0, 3],
            Command::SetEffectList { region, slots } => {
                match limit(slots.len(), SLOTS_PER_PACKET, "effect slots") {
                    Err(error) => return Err(error),
                    Ok(()) => with_slots(*region, slots),
                }
            },
        };
        assert(body@ =~= self@.body());
        Ok(padded(&body))
    }
}

pub open spec fn number_at(reply: Seq<u8>, at: int) -> u32 {
    (reply[at] + 0x100 * reply[at + 1] + 0x1_0000 * reply[at + 2] + 0x100_0000 * reply[at
        + 3]) as u32
}

pub open spec fn slot_at(reply: Seq<u8>, at: int) -> EffectSlot {
    EffectSlot {
        effect: reply[at],
        hue: reply[at + 1],
        sat: reply[at + 2],
        speed: reply[at + 3],
        time_ms: number_at(reply, at + 4),
    }
}

pub open spec fn colour_at(reply: Seq<u8>, at: int) -> Hsv {
    Hsv { h: reply[at], s: reply[at + 1], v: reply[at + 2] }
}

impl Order {
    /// Why `reply` is no answer to this command, if it is not: another
    /// command's, another sub-command's, or a refusal. The commands outside
    /// the `A8` group carry no status byte.
    pub open spec fn objection(self, reply: Seq<u8>) -> Option<Seq<char>> {
        let sent = self.packet();
        if reply[0] != sent[0] {
            Some("the keyboard answered "@ + text::hex(reply[0]) + " to "@ + text::hex(sent[0]))
        } else if sent[0] == 0xA8 && reply[1] != sent[1] {
            Some(
                "the keyboard answered A8 "@ + text::hex(reply[1]) + " to A8 "@ + text::hex(
                    sent[1],
                ),
            )
        } else if sent[0] == 0xA8 && reply[2] != 0 {
            Some("the keyboard refused A8 "@ + text::hex(sent[1]))
        } else {
            None
        }
    }

    /// Whether `answer` is what `reply` says to this command.
    pub open spec fn reads(self, reply: Seq<u8>, answer: Reply) -> bool {
        match self {
            Order::GetBrightness | Order::GetEffect | Order::GetSpeed | Order::LedCount
            | Order::GetPerKeyType => answer == Reply::Byte(reply[3]),
            Order::GetColour => answer == (Reply::Colour { hue: reply[3], sat: reply[4] }),
            Order::FirmwareVersion => answer matches Reply::Text(words) && words@ == text::lossy(
                text::up_to_zero(reply.skip(1)),
            ),
            Order::ProtocolVersion => answer == Reply::Version(
                (reply[3] + 0x100 * reply[4]) as u16,
            ),
            Order::RowMap(_) => answer matches Reply::RowMap(map) && map@ == Seq::new(
                29,
                |i: int|
                    if reply[3 + i] != 0xFF {
                        Some(reply[3 + i])
                    } else {
                        None
                    },
            ),
            Order::GetColours { count, .. } => answer matches Reply::Colours(colours) && colours@
                == Seq::new(count as nat, |i: int| colour_at(reply, 3 + 3 * i)),
            Order::GetRegions { count, .. } => answer matches Reply::Regions(regions) && regions@
                == Seq::new(count as nat, |i: int| reply[3 + i]),
            Order::GetEffectList(_) => answer matches Reply::EffectList(slots) && slots@
                == Seq::new(3, |i: int| slot_at(reply, 3 + 8 * i)),
            _ => answer == Reply::Done,
        }
    }

    /// Why this command could not be answered by `reply`, if it could not:
    /// it is over a limit, or the reply is no answer to it.
    pub open spec fn fault(self, reply: Seq<u8>) -> Option<Seq<char>> {
        if !self.fits() {
            self.excess()
        } else {
            self.objection(reply)
        }
    }
}

impl Command {
    fn objection_of(sent: &Report, reply: &Report) -> (r: Option<String>)
        ensures
            forall|command: Order|
                command.packet() == sent@ ==> (match (r, #[trigger] command.objection(reply@)) {
                    (Some(words), Some(expected)) => words@ == expected,
                    (None, None) => true,
                    _ => false,
                }),
    {
        let mut words = String::new();
        if reply[0] != sent[0] {
            words.push_str("the keyboard answered ");
            words.push_str(text::hex_byte(reply[0]).as_str());
            words.push_str(" to ");
            words.push_str(text::hex_byte(sent[0]).as_str());
            assert(words@ =~= "the keyboard answered "@ + text::hex(reply[0]) + " to "@ + text::hex(
                sent[0],
            ));
            return Some(words);
        }
        if sent[0] == 0xA8 {
            if reply[1] != sent[1] {
                words.push_str("the keyboard answered A8 ");
                words.push_str(text::hex_byte(reply[1]).as_str());
                words.push_str(" to A8 ");
                words.push_str(text::hex_byte(sent[1]).as_str());
                assert(words@ =~= "the keyboard answered A8 "@ + text::hex(reply[1]) + " to A8 "@
                    + text::hex(sent[1]));
                return Some(words);
            }
            if reply[2] != 0 {
                words.push_str("the keyboard refused A8 ");
                words.push_str(text::hex_byte(sent[1]).as_str());
                assert(words@ =~= "the keyboard refused A8 "@ + text::hex(sent[1]));
                return Some(words);
            }
        }
        None
    }

    /// Reads the keyboard's answer to this command. Every command is echoed
    /// back with its data filled in; the `A8` group also carries a status
    /// byte, and a refusal there is an error here.
    pub fn decode(&self, reply: &Report) -> (r: Result<Reply, String>)
        ensures
            r is Ok <==> self@.fault(reply@) is None,
            r matches Ok(answer) ==> self@.reads(reply@, answer),
            r matches Err(error) ==> Some(error@) == self@.fault(reply@),
    {
        let sent = match self.encode() {
            Ok(sent) => sent,
            Err(error) => return Err(error),
        };
        if let Some(error) = Self::objection_of(&sent, reply) {
            assert(self@.objection(reply@) is Some);
            return Err(error);
        }
        assert(self@.objection(reply@) is None);
        Ok(
            match self {
                Command::GetBrightness | Command::GetEffect | Command::GetSpeed
                | Command::LedCount | Command::GetPerKeyType => Reply::Byte(reply[3]),
                Command::GetColour => Reply::Colour { hue: reply[3], sat: reply[4] },
                Command::SetBrightness(_) | Command::SetEffect(_) | Command::SetSpeed(_)
                | Command::SetColour { .. } | Command::SetPerKeyType(_) | Command::SetColours {
                    ..
                } | Command::SetRegions { .. } | Command::SetEffectList { .. } => Reply::Done,
                Command::FirmwareVersion => Reply::Text(Self::firmware_text(reply)),
                Command::ProtocolVersion => Reply::Version(
                    reply[3] as u16 + 0x100 * reply[4] as u16,
                ),
                Command::RowMap(_) => Reply::RowMap(Self::row_map_of(reply)),
                Command::GetColours { count, .. } => Reply::Colours(
                    Self::colours_of(reply, *count),
                ),
                Command::GetRegions { count, .. } => Reply::Regions(
                    Self::regions_of(reply, *count),
                ),
                Command::GetEffectList(_) => Reply::EffectList(Self::slots_of(reply)),
            },
        )
    }

    fn firmware_text(reply: &Report) -> (text: String)
        ensures
            text@ == text::lossy(text::up_to_zero(reply@.skip(1))),
    {
        let mut bytes: Vec<u8> = Vec::new();
        let mut i: usize = 1;
        while i < 32 && reply[i] != 0
            invariant
                1 <= i <= 32,
                reply@.len() == 32,
                text::up_to_zero(reply@.skip(1)) =~= bytes@ + text::up_to_zero(reply@.skip(i as int)),
            decreases 32 - i,
        {
            bytes.push(reply[i]);
            assert(reply@.skip(i as int).skip(1) =~= reply@.skip(i + 1));
            i = i + 1;
        }
        assert(text::up_to_zero(reply@.skip(i as int)) =~= seq![]);
        assert(bytes@ =~= text::up_to_zero(reply@.skip(1)));
        text::lossy_text(&bytes)
    }

    fn row_map_of(reply: &Report) -> (map: Vec<Option<u8>>)
        ensures
            map@ =~= Seq::new(
                29,
                |i: int|
                    if reply@[3 + i] != 0xFF {
                        Some(reply@[3 + i])
                    } else {
                        None
                    },
            ),
    {
        let mut map: Vec<Option<u8>> = Vec::new();
        let mut i: usize = 0;
        while i < ROW_MAP_COLUMNS
            invariant
                i <= 29,
                reply@.len() == 32,
                map@ =~= Seq::new(
                    i as nat,
                    |j: int|
                        if reply@[3 + j] != 0xFF {
                            Some(reply@[3 + j])
                        } else {
                            None
                        },
                ),
            decreases 29 - i,
        {
            let led: u8 = reply[3 + i];
            map.push(if led != 0xFF { Some(led) } else { None });
            i = i + 1;
        }
        map
    }

    fn colours_of(reply: &Report, count: u8) -> (colours: Vec<Hsv>)
        requires
            count <= 9,
        ensures
            colours@ =~= Seq::new(count as nat, |i: int| colour_at(reply@, 3 + 3 * i)),
    {
        let mut colours: Vec<Hsv> = Vec::new();
        let mut i: usize = 0;
        while i < count as usize
            invariant
                i <= count <= 9,
                reply@.len() == 32,
                colours@ =~= Seq::new(i as nat, |j: int| colour_at(reply@, 3 + 3 * j)),
            decreases count - i,
        {
            colours.push(Hsv { h: reply[3 + 3 * i], s: reply[4 + 3 * i], v: reply[5 + 3 * i] });
            i = i + 1;
        }
        colours
    }

    fn regions_of(reply: &Report, count: u8) -> (regions: Vec<u8>)
        requires
            count <= 29,
        ensures
            regions@ =~= Seq::new(count as nat, |i: int| reply@[3 + i]),
    {
        let mut regions: Vec<u8> = Vec::new();
        let mut i: usize = 0;
        while i < count as usize
            invariant
                i <= count <= 29,
                reply@.len() == 32,
                regions@ =~= reply@.subrange(3, 3 + i),
            decreases count - i,
        {
            regions.push(reply[3 + i]);
            i = i + 1;
        }
        regions
    }

    fn slots_of(reply: &Report) -> (slots: Vec<EffectSlot>)
        ensures
            slots@ =~= Seq::new(3, |i: int| slot_at(reply@, 3 + 8 * i)),
    {
        let mut slots: Vec<EffectSlot> = Vec::new();
        let mut i: usize = 0;
        while i < SLOTS_PER_PACKET
            invariant
                i <= 3,
                reply@.len() == 32,
                slots@ =~= Seq::new(i as nat, |j: int| slot_at(reply@, 3 + 8 * j)),
            decreases 3 - i,
        {
            let at: usize = 3 + 8 * i;
            let time_ms: u32 = reply[at + 4] as u32 + 0x100 * reply[at + 5] as u32 + 0x1_0000
                * reply[at + 6] as u32 + 0x100_0000 * reply[at + 7] as u32;
            slots.push(
                EffectSlot {
                    effect: reply[at],
                    hue: reply[at + 1],
                    sat: reply[at + 2],
                    speed: reply[at + 3],
                    time_ms,
                },
            );
            i = i + 1;
        }
        slots
    }
}

/// How many of `map`'s columns have an LED, and which, in order.
pub open spec fn lit(map: Seq<Option<u8>>) -> Seq<u8>
    decreases map.len(),
{
    if map.len() == 0 {
        seq![]
    } else {
        let before = lit(map.drop_last());
        match map.last() {
            Some(led) => before.push(led),
            None => before,
        }
    }
}

/// The LEDs of `map` after the first, twelve at most.
pub open spec fn f_row_of(map: Seq<Option<u8>>) -> Seq<u8> {
    let leds = lit(map);
    if leds.len() <= 1 {
        seq![]
    } else if leds.len() <= 13 {
        leds.skip(1)
    } else {
        leds.subrange(1, 13)
    }
}

/// The LEDs of `map`, in column order.
pub(crate) fn lit_leds(map: &Vec<Option<u8>>) -> (leds: Vec<u8>)
    ensures
        leds@ == lit(map@),
{
    let mut leds: Vec<u8> = Vec::new();
    let mut i: usize = 0;
    while i < map.len()
        invariant
            i <= map@.len(),
            leds@ == lit(map@.take(i as int)),
        decreases map@.len() - i,
    {
        assert(map@.take(i + 1).drop_last() =~= map@.take(i as int));
        if let Some(led) = map[i] {
            leds.push(led);
        }
        i = i + 1;
    }
    assert(map@.take(i as int) =~= map@);
    leds
}

/// The F-row from a row map: every LED after the first (Escape) until twelve
/// are found. Columns with no LED are skipped, so a matrix with a gap in the
/// top row — the V3 Ultra has one before Print Screen — still reads straight.
pub fn f_row(map: &Vec<Option<u8>>) -> (leds: Vec<u8>)
    ensures
        leds@ == f_row_of(map@),
        leds@.len() <= KEYS,
{
    let all = lit_leds(map);
    let mut leds: Vec<u8> = Vec::new();
    let mut i: usize = 1;
    while i < all.len() && i <= KEYS
        invariant
            1 <= i <= 13,
            i <= all@.len() || i == 1,
            leds@ =~= if all@.len() == 0 {
                seq![]
            } else {
                all@.subrange(1, i as int)
            },
        decreases 13 - i,
    {
        leds.push(all[i]);
        i = i + 1;
    }
    assert(leds@ =~= f_row_of(map@));
    leds
}

/// The larger of the three channels, and the smaller.
pub open spec fn brightest(rgb: Rgb) -> int {
    let rg = if rgb.r >= rgb.g {
        rgb.r as int
    } else {
        rgb.g as int
    };
    if rg >= rgb.b {
        rg
    } else {
        rgb.b as int
    }
}

pub open spec fn dimmest(rgb: Rgb) -> int {
    let rg = if rgb.r <= rgb.g {
        rgb.r as int
    } else {
        rgb.g as int
    };
    if rg <= rgb.b {
        rg
    } else {
        rgb.b as int
    }
}

/// Where the colour is on the wheel, in sixths of a turn, times the spread
/// between its channels: red at 0, green at 2, blue at 4.
pub open spec fn sextant(rgb: Rgb) -> int {
    let spread = brightest(rgb) - dimmest(rgb);
    if brightest(rgb) == rgb.r {
        if rgb.g >= rgb.b {
            rgb.g - rgb.b
        } else {
            rgb.g - rgb.b + 6 * spread
        }
    } else if brightest(rgb) == rgb.g {
        rgb.b - rgb.r + 2 * spread
    } else {
        rgb.r - rgb.g + 4 * spread
    }
}

/// The hues that sit exactly half-way above a whole step and fall to it: the
/// greens where single precision comes out just under the half. Every other
/// half rises.
pub open spec fn half_falls(step: int) -> bool {
    ||| 64 <= step <= 84
    ||| 86 <= step <= 106 && step % 2 == 0
    ||| 110 <= step <= 126 && step % 4 == 2
}

/// The hue, of 255 to a turn: the nearest whole step.
pub open spec fn hue_of(rgb: Rgb) -> int {
    let spread = brightest(rgb) - dimmest(rgb);
    if spread == 0 {
        0
    } else {
        let twelfths = 510 * sextant(rgb) + 6 * spread;
        let rounded = twelfths / (12 * spread);
        if twelfths % (12 * spread) == 0 && brightest(rgb) != rgb.r && brightest(rgb) == rgb.g
            && half_falls(rounded - 1) {
            rounded - 1
        } else {
            rounded
        }
    }
}

/// The saturation, of 255: the nearest whole step, halves rising.
pub open spec fn sat_of(rgb: Rgb) -> int {
    let spread = brightest(rgb) - dimmest(rgb);
    if brightest(rgb) == 0 {
        0
    } else {
        (510 * spread + brightest(rgb)) / (2 * brightest(rgb))
    }
}

/// The keyboard's colour for `rgb`: full red is hue 0, green 85, blue 170.
pub open spec fn wheel(rgb: Rgb) -> Hsv {
    Hsv { h: hue_of(rgb) as u8, s: sat_of(rgb) as u8, v: brightest(rgb) as u8 }
}

proof fn hue_fits(rgb: Rgb)
    ensures
        0 <= hue_of(rgb) <= 255,
        0 <= sat_of(rgb) <= 255,
        0 <= sextant(rgb) <= 6 * (brightest(rgb) - dimmest(rgb)),
{
    let spread = brightest(rgb) - dimmest(rgb);
    let s = sextant(rgb);
    assert(0 <= s <= 6 * spread);
    if spread > 0 {
        assert((510 * s + 6 * spread) / (12 * spread) <= 255) by (nonlinear_arith)
            requires
                0 <= s <= 6 * spread,
                spread > 0,
        {
            assert(510 * s + 6 * spread <= 510 * (6 * spread) + 6 * spread);
            assert(510 * (6 * spread) + 6 * spread < 256 * (12 * spread));
        };
        assert(0 <= (510 * s + 6 * spread) / (12 * spread)) by (nonlinear_arith)
            requires
                0 <= s,
                spread > 0,
        ;
    }
    if brightest(rgb) > 0 {
        let m = brightest(rgb);
        assert((510 * spread + m) / (2 * m) <= 255) by (nonlinear_arith)
            requires
                0 <= spread <= m,
                m > 0,
        {
            assert(510 * spread + m <= 510 * m + m);
            assert(510 * m + m < 256 * (2 * m));
        };
        assert(0 <= (510 * spread + m) / (2 * m)) by (nonlinear_arith)
            requires
                0 <= spread,
                m > 0,
        ;
    }
}

impl From<Rgb> for Hsv {
    /// The inverse of the firmware's `hsv_to_rgb`, whose sextants are
    /// `h * 6 / 255`: full red is hue 0, green 85, blue 170. Black is value 0,
    /// which the fixed firmware renders as black; on stock firmware, which
    /// ignores value, this is the difference between off and white.
    fn from(rgb: Rgb) -> (hsv: Self) {
        proof {
            hue_fits(rgb);
        }
        let (r, g, b): (i32, i32, i32) = (rgb.r as i32, rgb.g as i32, rgb.b as i32);
        let rg_max: i32 = if r >= g { r } else { g };
        let max: i32 = if rg_max >= b { rg_max } else { b };
        let rg_min: i32 = if r <= g { r } else { g };
        let min: i32 = if rg_min <= b { rg_min } else { b };
        let spread: i32 = max - min;
        let s: i32 = if max == 0 { 0 } else { (510 * spread + max) / (2 * max) };
        let h: i32 = if spread == 0 {
            0
        } else {
            let turned: i32 = if max == r {
                if g >= b { g - b } else { g - b + 6 * spread }
            } else if max == g {
                b - r + 2 * spread
            } else {
                r - g + 4 * spread
            };
            assert(turned == sextant(rgb));
            let twelfths: i32 = 510 * turned + 6 * spread;
            let rounded: i32 = twelfths / (12 * spread);
            let half: bool = twelfths % (12 * spread) == 0;
            let step: i32 = rounded - 1;
            if half && max != r && max == g && ((64 <= step && step <= 84) || (86 <= step && step
                <= 106 && step % 2 == 0) || (110 <= step && step <= 126 && step % 4 == 2)) {
                step
            } else {
                rounded
            }
        };
        assert(h == hue_of(rgb));
        assert(s == sat_of(rgb));
        Hsv { h: h as u8, s: s as u8, v: max as u8 }
    }
}

impl vstd::std_specs::convert::FromSpecImpl<Rgb> for Hsv {
    open spec fn obeys_from_spec() -> bool {
        true
    }

    open spec fn from_spec(rgb: Rgb) -> Self {
        wheel(rgb)
    }
}

/// Nothing the app can say writes flash: no packet is VIA's `custom_save` or
/// Keychron's per-key save.
pub proof fn no_packet_writes_flash(command: Order)
    ensures
        !(command.packet()[0] == 0x07 && command.packet()[1] == 0x03 && command.packet()[2] == 0x09),
        !(command.packet()[0] == 0xA8 && command.packet()[1] == 0x02),
{
}

/// A packet that fits is whole: everything the command says is in it.
pub proof fn a_packet_that_fits_is_whole(command: Order)
    requires
        command.fits(),
    ensures
        command.body().len() <= 32,
        command.packet().take(command.body().len() as int) == command.body(),
{
    assert(command.packet().take(command.body().len() as int) =~= command.body());
}

/// Effect slots are read as they were written: a reply whose data is what a
/// write of three slots carried is read as those slots.
pub proof fn slots_read_as_written(region: Region, slots: Seq<EffectSlot>, reply: Seq<u8>, answer: Reply)
    requires
        slots.len() == 3,
        reply.len() == 32,
        reply.subrange(3, 27) == slot_bytes(slots),
        Order::GetEffectList(region).reads(reply, answer),
    ensures
        answer matches Reply::EffectList(read) && read@ == slots,
{
    let read = answer->EffectList_0@;
    assert forall|i: int| 0 <= i < 3 implies read[i] == slots[i] by {
        let bytes = reply.subrange(3, 27);
        assert forall|j: int| 0 <= j < 8 implies #[trigger] reply[3 + 8 * i + j] == slot_byte(slots[i], j) by {
            assert(bytes[8 * i + j] == reply[3 + 8 * i + j]);
            assert((8 * i + j) / 8 == i && (8 * i + j) % 8 == j);
        }
        assert(reply[3 + 8 * i + 0] == slots[i].effect);
        assert(reply[3 + 8 * i + 1] == slots[i].hue);
        assert(reply[3 + 8 * i + 2] == slots[i].sat);
        assert(reply[3 + 8 * i + 3] == slots[i].speed);
        let n = slots[i].time_ms;
        assert(reply[3 + 8 * i + 4] == n % 256);
        assert(reply[3 + 8 * i + 5] == n / 0x100 % 256);
        assert(reply[3 + 8 * i + 6] == n / 0x1_0000 % 256);
        assert(reply[3 + 8 * i + 7] == n / 0x100_0000);
        assert(n % 256 + 0x100 * (n / 0x100 % 256) + 0x1_0000 * (n / 0x1_0000 % 256) + 0x100_0000 * (n / 0x100_0000) == n);
    }
    assert(read =~= slots);
}

/// Colours are read as they were written.
pub proof fn colours_read_as_written(start: u8, colours: Seq<Hsv>, reply: Seq<u8>, answer: Reply)
    requires
        colours.len() <= 9,
        reply.len() == 32,
        reply.subrange(3, 3 + 3 * colours.len() as int) == colour_bytes(colours),
        (Order::GetColours { start, count: colours.len() as u8 }).reads(reply, answer),
    ensures
        answer matches Reply::Colours(read) && read@ == colours,
{
    let read = answer->Colours_0@;
    let bytes = reply.subrange(3, 3 + 3 * colours.len() as int);
    assert forall|i: int| 0 <= i < colours.len() implies read[i] == colours[i] by {
        assert(bytes[3 * i] == reply[3 + 3 * i]);
        assert(bytes[3 * i + 1] == reply[3 + 3 * i + 1]);
        assert(bytes[3 * i + 2] == reply[3 + 3 * i + 2]);
        assert((3 * i) / 3 == i && (3 * i + 1) / 3 == i && (3 * i + 2) / 3 == i);
    }
    assert(read =~= colours);
}

/// How far down a channel is on the wheel, of 255: `n` is 5 for red, 3 for
/// green and 1 for blue, and a hue is `h * 6 / 255` sixths of a turn.
pub open spec fn fall(h: int, n: int) -> int {
    let k = (255 * n + 6 * h) % 1530;
    let low = if k <= 1020 - k {
        k
    } else {
        1020 - k
    };
    if low < 0 {
        0
    } else if low > 255 {
        255
    } else {
        low
    }
}

/// What the firmware makes of a colour's channel, in parts of 65025: all of the
/// value, less the saturation's share of how far down the channel is.
pub open spec fn shown_level(hsv: Hsv, n: int) -> int {
    hsv.v * (65_025 - hsv.s * fall(hsv.h as int, n))
}

/// Whether `level`, in parts of 65025, is `channel` but for the rounding of a
/// saturation, and of a hue: half a step of each.
pub open spec fn within_rounding(level: int, channel: u8, value: int, spread: int) -> bool {
    &&& 2 * (level - 65_025 * channel) <= 255 * (value + 6 * spread)
    &&& 2 * (65_025 * channel - level) <= 255 * (value + 6 * spread)
}

/// What a hue is rounded from: at most half a step off.
proof fn hue_is_near(rgb: Rgb)
    requires
        brightest(rgb) > dimmest(rgb),
    ensures
        ({
            let spread = brightest(rgb) - dimmest(rgb);
            let x = 6 * (hue_of(rgb) * spread);
            &&& x - 255 * sextant(rgb) <= 3 * spread
            &&& 255 * sextant(rgb) - x <= 3 * spread
            &&& 0 <= hue_of(rgb) <= 255
            &&& 0 <= sextant(rgb) <= 6 * spread
        }),
{
    hue_fits(rgb);
    let spread = brightest(rgb) - dimmest(rgb);
    let t = 510 * sextant(rgb) + 6 * spread;
    let d = 12 * spread;
    vstd::arithmetic::div_mod::lemma_fundamental_div_mod(t, d);
    vstd::arithmetic::div_mod::lemma_mod_bound(t, d);
    let q = t / d;
    assert(d * q == 12 * (q * spread)) by (nonlinear_arith)
        requires
            d == 12 * spread,
    ;
    assert((q - 1) * spread == q * spread - spread) by (nonlinear_arith);
}

/// Where the fall of a channel lies when the hue is near a place on the wheel.
proof fn fall_is_near(h: int, n: int, spread: int, place: int, depth: int)
    requires
        n == 1 || n == 3 || n == 5,
        0 < spread,
        0 <= h <= 255,
        6 * (h * spread) - 255 * place <= 3 * spread,
        255 * place - 6 * (h * spread) <= 3 * spread,
        0 <= place <= 6 * spread,
        // How far down the channel is at the place itself.
        0 <= depth <= spread,
        ({
            let p = if place + n * spread >= 6 * spread {
                place + n * spread - 6 * spread
            } else {
                place + n * spread
            };
            depth == (if p <= spread {
                p
            } else if p <= 3 * spread {
                spread
            } else if p <= 4 * spread {
                4 * spread - p
            } else {
                0
            })
        }),
    ensures
        fall(h, n) * spread - 255 * depth <= 3 * spread,
        255 * depth - fall(h, n) * spread <= 3 * spread,
        0 <= fall(h, n) <= 255,
{
    let hs = h * spread;
    let t = 255 * n + 6 * h;
    let k = t % 1530;
    // The place on this channel's own wheel, a turn taken off where one is over.
    let turns = if t >= 3060 {
        2int
    } else if t >= 1530 {
        1int
    } else {
        0int
    };
    assert(k == t - 1530 * turns);
    let f = fall(h, n);
    let ks = k * spread;
    assert(ks == 255 * (n * spread) + 6 * hs - 1530 * (turns * spread)) by (nonlinear_arith)
        requires
            ks == k * spread,
            k == 255 * n + 6 * h - 1530 * turns,
            hs == h * spread,
    ;
    let fs = f * spread;
    assert(f == k ==> fs == ks);
    assert(f == 1020 - k ==> fs == 1020 * spread - ks) by (nonlinear_arith)
        requires
            fs == f * spread,
            ks == k * spread,
    ;
    assert(f == 0 ==> fs == 0) by (nonlinear_arith)
        requires
            fs == f * spread,
    ;
    assert(f == 255 ==> fs == 255 * spread) by (nonlinear_arith)
        requires
            fs == f * spread,
    ;
    assert((k <= 255 ==> ks <= 255 * spread) && (k >= 255 ==> ks >= 255 * spread) && (k <= 765 ==> ks
        <= 765 * spread) && (k >= 765 ==> ks >= 765 * spread) && (k <= 1020 ==> ks <= 1020 * spread)
        && (k >= 1020 ==> ks >= 1020 * spread) && ks >= 0 && ks <= 1530 * spread)
        by (nonlinear_arith)
        requires
            ks == k * spread,
            0 <= k <= 1530,
            spread > 0,
    ;
    assert(turns == 0 ==> turns * spread == 0);
    assert(turns == 1 ==> turns * spread == spread);
    assert(turns == 2 ==> turns * spread == 2 * spread);
    assert(n == 1 ==> n * spread == spread);
    assert(n == 3 ==> n * spread == 3 * spread);
    assert(n == 5 ==> n * spread == 5 * spread);
}

/// A level is near its channel where the fall and the saturation are near.
proof fn level_is_near(v: int, s: int, f: int, spread: int, depth: int, channel: u8)
    requires
        0 <= v <= 255,
        0 <= f <= 255,
        0 <= depth <= spread <= v,
        channel == v - depth,
        2 * (s * v - 255 * spread) <= v,
        2 * (255 * spread - s * v) <= v,
        f * spread - 255 * depth <= 3 * spread,
        255 * depth - f * spread <= 3 * spread,
    ensures
        within_rounding(v * (65_025 - s * f), channel, v, spread),
{
    let sv = s * v;
    let fs = f * spread;
    let e = sv - 255 * spread;
    assert(v * (65_025 - s * f) == 65_025 * v - sv * f) by (nonlinear_arith)
        requires
            sv == s * v,
    ;
    assert(sv * f == e * f + 255 * fs) by (nonlinear_arith)
        requires
            e == sv - 255 * spread,
            fs == f * spread,
    ;
    assert(2 * (e * f) <= 255 * v && -(2 * (e * f)) <= 255 * v) by (nonlinear_arith)
        requires
            2 * e <= v,
            -(2 * e) <= v,
            0 <= f <= 255,
            0 <= v,
    {
        assert((2 * e) * f <= v * f);
        assert((-(2 * e)) * f <= v * f);
        assert(v * f <= v * 255);
    };
}

/// **The keyboard shows the colour it was sent**: taken back through the
/// firmware's wheel — sextants of `h * 6 / 255`, red at 0, green at 85, blue at
/// 170 — a colour is itself, but for half a step of its hue and of its
/// saturation, for every colour there is. Its value is its largest channel.
pub proof fn the_keyboard_shows_the_colour_it_was_sent(rgb: Rgb)
    ensures
        ({
            let sent = wheel(rgb);
            let most = if rgb.r >= rgb.g && rgb.r >= rgb.b {
                rgb.r
            } else if rgb.g >= rgb.b {
                rgb.g
            } else {
                rgb.b
            };
            let least = if rgb.r <= rgb.g && rgb.r <= rgb.b {
                rgb.r
            } else if rgb.g <= rgb.b {
                rgb.g
            } else {
                rgb.b
            };
            &&& sent.v == most
            &&& within_rounding(shown_level(sent, 5), rgb.r, most as int, most - least)
            &&& within_rounding(shown_level(sent, 3), rgb.g, most as int, most - least)
            &&& within_rounding(shown_level(sent, 1), rgb.b, most as int, most - least)
        }),
{
    let v = brightest(rgb);
    let spread = v - dimmest(rgb);
    let sent = wheel(rgb);
    hue_fits(rgb);
    let s = sat_of(rgb);
    let h = hue_of(rgb);
    if v == 0 {
        assert(sent.v * (65_025 - sent.s * fall(sent.h as int, 5)) == 0) by (nonlinear_arith)
            requires
                sent.v == 0,
        ;
        assert(sent.v * (65_025 - sent.s * fall(sent.h as int, 3)) == 0) by (nonlinear_arith)
            requires
                sent.v == 0,
        ;
        assert(sent.v * (65_025 - sent.s * fall(sent.h as int, 1)) == 0) by (nonlinear_arith)
            requires
                sent.v == 0,
        ;
    } else {
        saturation_is_near(v, spread, s);
        if spread == 0 {
            grey_is_near(v, s, fall(sent.h as int, 5), rgb.r);
            grey_is_near(v, s, fall(sent.h as int, 3), rgb.g);
            grey_is_near(v, s, fall(sent.h as int, 1), rgb.b);
        } else {
            hue_is_near(rgb);
            let place = sextant(rgb);
            fall_is_near(h, 5, spread, place, v - rgb.r);
            fall_is_near(h, 3, spread, place, v - rgb.g);
            fall_is_near(h, 1, spread, place, v - rgb.b);
            level_is_near(v, s, fall(h, 5), spread, v - rgb.r, rgb.r);
            level_is_near(v, s, fall(h, 3), spread, v - rgb.g, rgb.g);
            level_is_near(v, s, fall(h, 1), spread, v - rgb.b, rgb.b);
        }
    }
}

proof fn saturation_is_near(v: int, spread: int, s: int)
    requires
        0 < v,
        0 <= spread <= v,
        s == (510 * spread + v) / (2 * v),
    ensures
        2 * (s * v - 255 * spread) <= v,
        2 * (255 * spread - s * v) <= v,
        spread == 0 ==> s == 0,
{
    let t = 510 * spread + v;
    let d = 2 * v;
    vstd::arithmetic::div_mod::lemma_fundamental_div_mod(t, d);
    vstd::arithmetic::div_mod::lemma_mod_bound(t, d);
    assert(d * s == 2 * (s * v)) by (nonlinear_arith)
        requires
            d == 2 * v,
    ;
    if spread == 0 {
        vstd::arithmetic::div_mod::lemma_fundamental_div_mod_converse(t, d, 0, v);
    }
}

proof fn grey_is_near(v: int, s: int, f: int, channel: u8)
    requires
        s == 0,
        channel == v,
        0 <= v,
    ensures
        within_rounding(v * (65_025 - s * f), channel, v, 0),
{
    assert(s * f == 0) by (nonlinear_arith)
        requires
            s == 0,
    ;
    assert(v * (65_025 - s * f) == 65_025 * v) by (nonlinear_arith)
        requires
            s * f == 0,
    ;
}

/// **A hue leans the way its colour does**: between red and green below 85,
/// between green and blue below 170, between blue and red above; and a colour
/// leans from one towards the next by which of the other two channels is the
/// larger.
pub proof fn a_hue_leans_the_way_its_colour_does(rgb: Rgb)
    requires
        !(rgb.r == rgb.g && rgb.g == rgb.b),
    ensures
        ({
            let h = wheel(rgb).h;
            &&& rgb.b > rgb.r && rgb.b > rgb.g && rgb.g >= rgb.r ==> 127 <= h <= 170
            &&& rgb.b > rgb.r && rgb.b > rgb.g && rgb.r >= rgb.g ==> 170 <= h <= 213
            &&& rgb.g > rgb.r && rgb.g > rgb.b && rgb.r >= rgb.b ==> 42 <= h <= 85
            &&& rgb.g > rgb.r && rgb.g > rgb.b && rgb.b >= rgb.r ==> 85 <= h <= 128
            &&& rgb.r > rgb.g && rgb.r > rgb.b && rgb.g >= rgb.b ==> h <= 43
            &&& rgb.r > rgb.g && rgb.r > rgb.b && rgb.b > rgb.g ==> 212 <= h
        }),
{
    let spread = brightest(rgb) - dimmest(rgb);
    hue_is_near(rgb);
    let h = hue_of(rgb);
    let place = sextant(rgb);
    hue_between(h, spread, place);
}

/// Bounds on a hue from where its colour is.
proof fn hue_between(h: int, spread: int, place: int)
    requires
        spread > 0,
        6 * (h * spread) - 255 * place <= 3 * spread,
        255 * place - 6 * (h * spread) <= 3 * spread,
    ensures
        place <= spread ==> h <= 43,
        spread <= place ==> 42 <= h,
        place <= 2 * spread ==> h <= 85,
        2 * spread <= place ==> 85 <= h,
        place <= 3 * spread ==> h <= 128,
        3 * spread <= place ==> 127 <= h,
        place <= 4 * spread ==> h <= 170,
        4 * spread <= place ==> 170 <= h,
        place <= 5 * spread ==> h <= 213,
        5 * spread <= place ==> 212 <= h,
{
    let hs = h * spread;
    bound(h, hs, spread, 43);
    bound(h, hs, spread, 42);
    bound(h, hs, spread, 85);
    bound(h, hs, spread, 128);
    bound(h, hs, spread, 127);
    bound(h, hs, spread, 170);
    bound(h, hs, spread, 213);
    bound(h, hs, spread, 212);
}

proof fn bound(h: int, hs: int, spread: int, b: int)
    requires
        hs == h * spread,
        spread > 0,
    ensures
        h > b ==> hs >= b * spread + spread,
        h < b ==> hs <= b * spread - spread,
{
    if h > b {
        assert(hs >= b * spread + spread) by (nonlinear_arith)
            requires
                hs == h * spread,
                h >= b + 1,
                spread > 0,
        ;
    }
    if h < b {
        assert(hs <= b * spread - spread) by (nonlinear_arith)
            requires
                hs == h * spread,
                h <= b - 1,
                spread > 0,
        ;
    }
}

/// **What is asked and what is set go by neighbouring names**: a lighting value
/// is set by the message that asks for it, under 7 instead of 8; of the
/// per-key messages a set's number is one more than its question's, and both
/// begin with the same LED.
pub proof fn a_set_is_next_to_its_question(
    n: u8,
    m: u8,
    colours: Seq<Hsv>,
    regions: Seq<Region>,
    region: Region,
    slots: Seq<EffectSlot>,
)
    requires
        colours.len() <= 9,
        regions.len() <= 28,
        slots.len() <= 3,
    ensures
        ({
            let value = |get: Order, set: Order|
                get.packet()[0] == 8 && set.packet()[0] == 7 && get.packet()[1] == 3
                    && set.packet()[1] == 3 && get.packet()[2] == set.packet()[2];
            let per_key = |get: Order, set: Order|
                get.packet()[0] == 0xA8 && set.packet()[0] == 0xA8 && get.packet()[1] + 1
                    == set.packet()[1];
            let brightness = Order::GetBrightness.packet()[2];
            let effect = Order::GetEffect.packet()[2];
            let speed = Order::GetSpeed.packet()[2];
            let colour = Order::GetColour.packet()[2];
            let count = colours.len() as u8;
            let many = regions.len() as u8;
            let lit = Order::SetColours { start: n, colours };
            let split = Order::SetRegions { start: n, regions };
            let list = Order::SetEffectList { region, slots };
            &&& value(Order::GetBrightness, Order::SetBrightness(n))
            &&& value(Order::GetEffect, Order::SetEffect(n))
            &&& value(Order::GetSpeed, Order::SetSpeed(n))
            &&& value(Order::GetColour, Order::SetColour { hue: n, sat: m })
            &&& brightness == 1 && effect == 2 && speed == 3 && colour == 4
            &&& Order::SetBrightness(n).packet()[3] == n
            &&& Order::SetEffect(n).packet()[3] == n
            &&& Order::SetSpeed(n).packet()[3] == n
            &&& (Order::SetColour { hue: n, sat: m }).packet()[3] == n
            &&& (Order::SetColour { hue: n, sat: m }).packet()[4] == m
            &&& per_key(Order::GetPerKeyType, Order::SetPerKeyType(n))
            &&& Order::SetPerKeyType(n).packet()[1] == 8 && Order::SetPerKeyType(n).packet()[2] == n
            &&& per_key(Order::GetColours { start: n, count: m }, lit)
            &&& per_key(Order::GetRegions { start: n, count: m }, split)
            &&& per_key(Order::GetEffectList(region), list)
            &&& lit.packet()[1] == 10 && split.packet()[1] == 13 && list.packet()[1] == 15
            &&& lit.packet()[2] == n && lit.packet()[3] == count
            &&& split.packet()[2] == n && split.packet()[3] == many
            &&& list.packet()[2] == region.number() && list.packet()[3] == 0 && list.packet()[4]
                == slots.len()
            &&& (Order::GetColours { start: n, count: m }).packet()[2] == n
            &&& (Order::GetColours { start: n, count: m }).packet()[3] == m
            &&& (Order::GetRegions { start: n, count: m }).packet()[2] == n
            &&& (Order::GetRegions { start: n, count: m }).packet()[3] == m
            &&& Order::RowMap(n).packet().take(6) == seq![0xA8u8, 6, n, 0xFF, 0xFF, 0xFF]
            &&& Order::LedCount.packet().take(2) == seq![0xA8u8, 5]
            &&& Order::ProtocolVersion.packet().take(2) == seq![0xA8u8, 1]
            &&& Order::FirmwareVersion.packet()[0] == 0xA1
        }),
{
    a_packet_that_fits_is_whole(Order::RowMap(n));
    a_packet_that_fits_is_whole(Order::LedCount);
    a_packet_that_fits_is_whole(Order::ProtocolVersion);
}

/// **A set carries what it is given**: the colours hue first, three bytes
/// each; the regions by their numbers; the slots eight bytes each, the time
/// lowest byte first; and nothing behind them.
pub proof fn a_set_carries_what_it_is_given(
    start: u8,
    colours: Seq<Hsv>,
    regions: Seq<Region>,
    region: Region,
    slots: Seq<EffectSlot>,
    i: int,
)
    requires
        colours.len() <= 9,
        regions.len() <= 28,
        slots.len() <= 3,
        0 <= i,
    ensures
        ({
            let lit = (Order::SetColours { start, colours }).packet();
            let split = (Order::SetRegions { start, regions }).packet();
            let list = (Order::SetEffectList { region, slots }).packet();
            &&& lit.len() == 32 && split.len() == 32 && list.len() == 32
            &&& i < colours.len() ==> lit[4 + 3 * i] == colours[i].h && lit[5 + 3 * i]
                == colours[i].s && lit[6 + 3 * i] == colours[i].v
            &&& i < regions.len() ==> (split[4 + i] == 0 <==> regions[i] == Region::Ambient) && (
            split[4 + i] == 1 <==> regions[i] == Region::Ours)
            &&& i < slots.len() ==> list[5 + 8 * i] == slots[i].effect && list[6 + 8 * i]
                == slots[i].hue && list[7 + 8 * i] == slots[i].sat && list[8 + 8 * i]
                == slots[i].speed && list[9 + 8 * i] + 0x100 * list[10 + 8 * i] + 0x1_0000 * list[11
                + 8 * i] + 0x100_0000 * list[12 + 8 * i] == slots[i].time_ms
            &&& 4 + 3 * colours.len() <= i < 32 ==> lit[i] == 0
            &&& 4 + regions.len() <= i < 32 ==> split[i] == 0
            &&& 5 + 8 * slots.len() <= i < 32 ==> list[i] == 0
        }),
{
    if i < colours.len() {
        assert((3 * i) / 3 == i && (3 * i + 1) / 3 == i && (3 * i + 2) / 3 == i);
        assert((3 * i) % 3 == 0 && (3 * i + 1) % 3 == 1 && (3 * i + 2) % 3 == 2);
        let bytes = colour_bytes(colours);
        let body = (Order::SetColours { start, colours }).body();
        assert(body[4 + 3 * i] == bytes[3 * i]);
        assert(body[5 + 3 * i] == bytes[3 * i + 1]);
        assert(body[6 + 3 * i] == bytes[3 * i + 2]);
    }
    if i < regions.len() {
        let body = (Order::SetRegions { start, regions }).body();
        assert(body[4 + i] == region_bytes(regions)[i]);
    }
    if i < slots.len() {
        let bytes = slot_bytes(slots);
        let body = (Order::SetEffectList { region, slots }).body();
        assert forall|j: int| 0 <= j < 8 implies #[trigger] body[5 + 8 * i + j] == slot_byte(
            slots[i],
            j,
        ) by {
            assert((8 * i + j) / 8 == i && (8 * i + j) % 8 == j);
            assert(body[5 + 8 * i + j] == bytes[8 * i + j]);
        }
        assert(body[5 + 8 * i + 0] == slots[i].effect);
        assert(body[5 + 8 * i + 1] == slots[i].hue);
        assert(body[5 + 8 * i + 2] == slots[i].sat);
        assert(body[5 + 8 * i + 3] == slots[i].speed);
        let n = slots[i].time_ms;
        assert(body[5 + 8 * i + 4] == n % 256);
        assert(body[5 + 8 * i + 5] == n / 0x100 % 256);
        assert(body[5 + 8 * i + 6] == n / 0x1_0000 % 256);
        assert(body[5 + 8 * i + 7] == n / 0x100_0000);
        assert(n % 256 + 0x100 * (n / 0x100 % 256) + 0x1_0000 * (n / 0x1_0000 % 256) + 0x100_0000 * (
        n / 0x100_0000) == n);
    }
}

/// **As much as one packet holds**: an order goes out just when all it carries
/// fits in 32 bytes — its own, or those of its answer.
pub proof fn an_order_fits_its_packet(
    start: u8,
    count: u8,
    colours: Seq<Hsv>,
    regions: Seq<Region>,
    region: Region,
    slots: Seq<EffectSlot>,
)
    ensures
        (Order::SetColours { start, colours }).fits() <==> 4 + 3 * colours.len() <= 32,
        (Order::SetRegions { start, regions }).fits() <==> 4 + regions.len() <= 32,
        (Order::SetEffectList { region, slots }).fits() <==> 5 + 8 * slots.len() <= 32,
        (Order::GetColours { start, count }).fits() <==> 3 + 3 * count <= 32,
        (Order::GetRegions { start, count }).fits() <==> 3 + count <= 32,
        Order::GetEffectList(region).fits(),
{
}

/// **An answer is taken if it echoes the question and does not refuse**: the
/// message's name comes back, and of a per-key message its number and a zero.
pub proof fn an_answer_is_taken_if_it_echoes(order: Order, reply: Seq<u8>)
    ensures
        order.objection(reply) is None <==> reply[0] == order.packet()[0] && (order.packet()[0]
            == 0xA8 ==> reply[1] == order.packet()[1] && reply[2] == 0),
        reply[0] != order.packet()[0] ==> order.objection(reply) == Some(
            "the keyboard answered "@ + text::hex(reply[0]) + " to "@ + text::hex(order.packet()[0]),
        ),
{
}

proof fn lit_of_both(a: Seq<Option<u8>>, b: Seq<Option<u8>>)
    ensures
        lit(a + b) == lit(a) + lit(b),
    decreases b.len(),
{
    if b.len() == 0 {
        assert(a + b =~= a);
        assert(lit(a) + lit(b) =~= lit(a));
    } else {
        assert((a + b).drop_last() =~= a + b.drop_last());
        lit_of_both(a, b.drop_last());
        assert(lit(a + b) =~= lit(a) + lit(b));
    }
}

/// **The LEDs of a row are its columns without the gaps**, in their order: a
/// gap anywhere changes nothing, and a column with an LED adds that one where
/// it stands.
pub proof fn a_row_is_its_columns_without_the_gaps(
    a: Seq<Option<u8>>,
    led: u8,
    b: Seq<Option<u8>>,
)
    ensures
        lit(a + seq![None::<u8>] + b) == lit(a + b),
        lit(a + seq![Some(led)] + b) == lit(a) + seq![led] + lit(b),
        lit(Seq::<Option<u8>>::empty()) == Seq::<u8>::empty(),
{
    let (gap, one) = (seq![None::<u8>], seq![Some(led)]);
    lit_of_both(a, b);
    lit_of_both(a + gap, b);
    lit_of_both(a, gap);
    lit_of_both(a + one, b);
    lit_of_both(a, one);
    let none = Seq::<Option<u8>>::empty();
    assert(gap.drop_last() =~= none);
    assert(one.drop_last() =~= none);
    assert(lit(none) == Seq::<u8>::empty());
    assert(lit(gap) =~= seq![]);
    assert(lit(one) =~= seq![led]);
    assert(lit(a) + lit(gap) =~= lit(a));
}

/// **The F-row is the twelve keys behind Esc**: the first LED of the row is
/// left out, the next twelve follow in order, and what a short row lacks is
/// missing at the end.
pub proof fn the_f_row_is_behind_esc(map: Seq<Option<u8>>, esc: u8, rest: Seq<u8>)
    requires
        lit(map) == seq![esc] + rest,
    ensures
        f_row_of(map) == rest.take(
            if rest.len() <= 12 {
                rest.len() as int
            } else {
                12
            },
        ),
{
    let leds = lit(map);
    assert(leds.len() == 1 + rest.len());
    assert(f_row_of(map) =~= rest.take(
        if rest.len() <= 12 {
            rest.len() as int
        } else {
            12
        },
    ));
}

} // verus!
