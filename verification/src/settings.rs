//! Lane configuration, saved agents, and keeping both on disk.
//!
//! The F-row has twelve keys: three lanes of four. A lane is where a session
//! is shown; each device carries as many lanes as it has keys for — the F-row
//! three, the numpad's M column five, a deck one per row — and the window and
//! mini mode carry every lane. A saved agent is an
//! `(agent, project folder)` the user asked the app to remember, with the lane
//! it would rather come back to.
//!
//! A file that does not parse is **refused and left untouched**. Starting from
//! defaults is recoverable; silently overwriting colours somebody hand-edited
//! is not.

use vstd::arithmetic::power2::pow2;
use vstd::prelude::*;

use crate::agents::{Agent, Called, Name};
use crate::number;
use crate::paths;
use crate::table::{Table, mapped_by_entries};
use crate::text;

pub use crate::settings_file::{parse, to_json};

verus! {

/// Keys on the F-row. Fixed by the keyboard, not a preference.
pub const KEYS: usize = 12;

/// How the F-row is cut: a lane is four keys — the first summons its agent,
/// the other three answer it while it is Waiting — the shape of a deck row
/// without its state key. Not a layout to choose: the lane count is a setting
/// of its own, and a lane past [`KEYBOARD_LANES`] simply has no F-row keys.
pub const KEYS_PER_LANE: usize = 4;

/// How many lanes have keys on the keyboard.
pub const KEYBOARD_LANES: usize = 3;

/// How many lanes the numpad's M column carries: M1–M5. A lane past them is
/// shown in the window and on a deck, never on the numpad.
pub const NUMPAD_LANES: usize = 5;

/// Configuration is always kept for six lanes, so going down to three and
/// back does not lose the names and colours of the other three.
pub const MAX_LANES: usize = 6;

#[derive(Debug, Clone, Copy, PartialEq, Eq, Structural)]
pub struct Rgb {
    pub r: u8,
    pub g: u8,
    pub b: u8,
}

/// A hexadecimal digit, as it is written in small letters.
pub open spec fn small_hex(d: nat) -> char {
    if d < 10 {
        text::digit(d)
    } else {
        (('a' as u32) + d - 10) as char
    }
}

pub open spec fn small_byte(byte: u8) -> Seq<char> {
    seq![small_hex(byte as nat / 16), small_hex(byte as nat % 16)]
}

/// What a hexadecimal digit counts, in either case.
pub open spec fn hex_value(c: char) -> Option<u8> {
    if '0' as u32 <= c as u32 <= '9' as u32 {
        Some((c as u32 - '0' as u32) as u8)
    } else if 'a' as u32 <= c as u32 <= 'f' as u32 {
        Some((c as u32 - 'a' as u32 + 10) as u8)
    } else if 'A' as u32 <= c as u32 <= 'F' as u32 {
        Some((c as u32 - 'A' as u32 + 10) as u8)
    } else {
        None
    }
}

/// What two digits count; a plus sign before one digit is let stand.
pub open spec fn hex_pair(high: char, low: char) -> Option<u8> {
    match (hex_value(high), hex_value(low)) {
        (Some(h), Some(l)) => Some((h * 16 + l) as u8),
        (None, Some(l)) => if high == '+' {
            Some(l)
        } else {
            None
        },
        _ => None,
    }
}

fn hex_value_of(c: char) -> (r: Option<u8>)
    ensures
        r == hex_value(c),
        r matches Some(v) ==> v < 16,
{
    let n: u32 = c as u32;
    if 48 <= n && n <= 57 {
        Some((n - 48) as u8)
    } else if 97 <= n && n <= 102 {
        Some((n - 97 + 10) as u8)
    } else if 65 <= n && n <= 70 {
        Some((n - 65 + 10) as u8)
    } else {
        None
    }
}

fn hex_pair_of(high: char, low: char) -> (r: Option<u8>)
    ensures
        r == hex_pair(high, low),
{
    match (hex_value_of(high), hex_value_of(low)) {
        (Some(h), Some(l)) => Some(h * 16 + l),
        (None, Some(l)) => if high == '+' {
            Some(l)
        } else {
            None
        },
        _ => None,
    }
}

fn small_hex_char(d: u8) -> (c: char)
    requires
        d < 16,
    ensures
        c == small_hex(d as nat),
{
    match d {
        10 => 'a',
        11 => 'b',
        12 => 'c',
        13 => 'd',
        14 => 'e',
        15 => 'f',
        _ => text::digit_char(d as u64),
    }
}

impl Rgb {
    pub fn new(r: u8, g: u8, b: u8) -> (rgb: Self)
        ensures
            rgb == (Rgb { r, g, b }),
    {
        Self { r, g, b }
    }

    pub open spec fn hex(self) -> Seq<char> {
        seq!['#'] + small_byte(self.r) + small_byte(self.g) + small_byte(self.b)
    }

    pub fn to_hex(self) -> (text: String)
        ensures
            text@ == self.hex(),
    {
        let mut out = String::new();
        out.push('#');
        out.push(small_hex_char(self.r / 16));
        out.push(small_hex_char(self.r % 16));
        out.push(small_hex_char(self.g / 16));
        out.push(small_hex_char(self.g % 16));
        out.push(small_hex_char(self.b / 16));
        out.push(small_hex_char(self.b % 16));
        assert(out@ =~= self.hex());
        out
    }

    /// The colour six digits spell, with a hash before them or without.
    pub open spec fn spelt(text: Seq<char>) -> Option<Rgb> {
        let digits = if text.len() > 0 && text[0] == '#' {
            text.skip(1)
        } else {
            text
        };
        if digits.len() != 6 {
            None
        } else {
            match (
                hex_pair(digits[0], digits[1]),
                hex_pair(digits[2], digits[3]),
                hex_pair(digits[4], digits[5]),
            ) {
                (Some(r), Some(g), Some(b)) => Some(Rgb { r, g, b }),
                _ => None,
            }
        }
    }

    pub fn from_hex(text: &str) -> (rgb: Option<Self>)
        ensures
            rgb == Rgb::spelt(text@),
    {
        let all = text::chars(text);
        let skip: usize = if all.len() > 0 && all[0] == '#' { 1 } else { 0 };
        let ghost digits = text@.skip(skip as int);
        assert(text@.skip(0) =~= text@);
        if all.len() - skip != 6 {
            return None;
        }
        assert(forall|i: int| 0 <= i < 6 ==> digits[i] == all@[skip + i]);
        match (
            hex_pair_of(all[skip], all[skip + 1]),
            hex_pair_of(all[skip + 2], all[skip + 3]),
            hex_pair_of(all[skip + 4], all[skip + 5]),
        ) {
            (Some(r), Some(g), Some(b)) => Some(Rgb { r, g, b }),
            _ => None,
        }
    }
}

/// A colour is spelt as it is written.
pub proof fn a_colour_is_read_as_written(rgb: Rgb)
    ensures
        Rgb::spelt(rgb.hex()) == Some(rgb),
{
    let digits = rgb.hex().skip(1);
    assert(digits =~= small_byte(rgb.r) + small_byte(rgb.g) + small_byte(rgb.b));
}

/// Which agent a saved entry accepts.
#[derive(Debug, Clone, Copy, PartialEq, Eq, Structural)]
pub enum AgentFilter {
    Any,
    Claude,
    Codex,
}

impl AgentFilter {
    /// Every filter, in the order they are offered.
    pub fn all() -> (filters: Vec<AgentFilter>)
        ensures
            filters@ == seq![AgentFilter::Any, AgentFilter::Claude, AgentFilter::Codex],
    {
        vec![AgentFilter::Any, AgentFilter::Claude, AgentFilter::Codex]
    }

    pub fn label(self, name: &Name) -> (title: String)
        ensures
            title@ == (match self {
                AgentFilter::Any => "any agent"@,
                AgentFilter::Claude => Agent::Claude.title(name@),
                AgentFilter::Codex => Agent::Codex.title(name@),
            }),
    {
        match self {
            AgentFilter::Any => "any agent".to_owned(),
            AgentFilter::Claude => Agent::Claude.label(name),
            AgentFilter::Codex => Agent::Codex.label(name),
        }
    }

    pub open spec fn word(self, name: Called) -> Seq<char> {
        match self {
            AgentFilter::Any => "any"@,
            AgentFilter::Claude => name.word,
            AgentFilter::Codex => "codex"@,
        }
    }

    pub fn key(self, name: &Name) -> (word: String)
        ensures
            word@ == self.word(name@),
    {
        match self {
            AgentFilter::Any => "any".to_owned(),
            AgentFilter::Claude => name.word.clone(),
            AgentFilter::Codex => "codex".to_owned(),
        }
    }

    pub open spec fn meant(text: Seq<char>, name: Called) -> AgentFilter {
        if text == name.word {
            AgentFilter::Claude
        } else if text == "codex"@ {
            AgentFilter::Codex
        } else {
            AgentFilter::Any
        }
    }

    pub fn parse(text: &str, name: &Name) -> (filter: Self)
        ensures
            filter == AgentFilter::meant(text@, name@),
    {
        if text::same(text, name.word.as_str()) {
            AgentFilter::Claude
        } else if text::same(text, "codex") {
            AgentFilter::Codex
        } else {
            AgentFilter::Any
        }
    }

    pub open spec fn accepts(self, agent: Agent) -> bool {
        match self {
            AgentFilter::Any => true,
            AgentFilter::Claude => agent == Agent::Claude,
            AgentFilter::Codex => agent == Agent::Codex,
        }
    }
}

/// What `str::to_lowercase` makes of a text.
pub uninterp spec fn lowercase(text: Seq<char>) -> Seq<char>;

/// Whether a text is written in ASCII alone.
pub open spec fn plain(text: Seq<char>) -> bool {
    forall|i: int| 0 <= i < text.len() ==> (#[trigger] text[i]) as u32 <= 127
}

/// `str::to_lowercase`: a function of the text alone. In a text that is ASCII
/// alone, the capital letters become small ones and nothing else changes.
#[verifier::external_body]
fn lowered(text: &str) -> (r: String)
    ensures
        r@ == lowercase(text@),
        plain(text@) ==> r@ == text::in_small(text@),
{
    text.to_lowercase()
}

/// `path` without the slashes at its end.
pub open spec fn unslashed(path: Seq<char>) -> Seq<char>
    decreases path.len(),
{
    if path.len() > 0 && path.last() == '/' {
        unslashed(path.drop_last())
    } else {
        path
    }
}

/// A folder with its slashes one way, and none at the end.
pub open spec fn straight(path: Seq<char>) -> Seq<char> {
    unslashed(text::swapped(path, '\\', '/'))
}

/// A folder, however it is written: slashes one way, none at the end, in
/// small letters.
pub open spec fn folder_key(path: Seq<char>) -> Seq<char> {
    lowercase(straight(path))
}

proof fn stays_plain(path: Seq<char>)
    requires
        plain(path),
    ensures
        plain(unslashed(path)),
    decreases path.len(),
{
    if path.len() > 0 && path.last() == '/' {
        stays_plain(path.drop_last());
    }
}

fn normalise(path: &str) -> (r: String)
    ensures
        r@ == folder_key(path@),
        plain(path@) ==> r@ == text::in_small(straight(path@)),
{
    let swapped = text::swap(path, '\\', '/');
    let all = text::chars(swapped.as_str());
    let mut to: usize = all.len();
    assert(all@.take(to as int) =~= all@);
    while to > 0 && all[to - 1] == '/'
        invariant
            to <= all@.len(),
            unslashed(all@) == unslashed(all@.take(to as int)),
        decreases to,
    {
        assert(all@.take(to as int).drop_last() =~= all@.take(to - 1));
        to = to - 1;
    }
    let kept = text::string_of(&all, 0, to);
    assert(kept@ =~= all@.take(to as int));
    proof {
        if plain(path@) {
            stays_plain(all@);
        }
    }
    lowered(kept.as_str())
}

/// Whether two paths name the same project directory.
///
/// Compared as normalised text, not by asking the filesystem: half of these
/// paths are WSL paths that mean nothing to Windows, and a `canonicalize` that
/// fails would silently stop every saved agent from matching.
pub fn same_folder(left: &str, right: &str) -> (r: bool)
    ensures
        r == (folder_key(left@) == folder_key(right@)),
        plain(left@) && plain(right@) ==> r == (text::in_small(straight(left@)) == text::in_small(
            straight(right@),
        )),
{
    text::same(normalise(left).as_str(), normalise(right).as_str())
}

/// "Remember this agent in this project" — and the lane it would rather have.
///
/// The lane is a *preference*, not a record: a session that matches takes it
/// when it is free and lands anywhere else when it is not, and landing
/// elsewhere never rewrites it. Only the user changes it.
#[derive(Debug, Clone, PartialEq, Eq)]
pub struct SavedAgent {
    pub agent: AgentFilter,
    pub folder: String,
    /// Zero-based, like everything in the code; the file and the window count
    /// from one.
    pub lane: usize,
}

/// A [`SavedAgent`], its folder by its characters.
pub ghost struct Save {
    pub agent: AgentFilter,
    pub folder: Seq<char>,
    pub lane: usize,
}

impl View for SavedAgent {
    type V = Save;

    open spec fn view(&self) -> Save {
        Save { agent: self.agent, folder: self.folder@, lane: self.lane }
    }
}

impl Save {
    /// Whether a session of `agent` in `cwd` is this one.
    pub open spec fn is(self, agent: Agent, cwd: Option<Seq<char>>) -> bool {
        self.agent.accepts(agent) && (cwd matches Some(path) && folder_key(self.folder)
            == folder_key(path))
    }

    /// Whether two entries save the same agent in the same folder.
    pub open spec fn same(self, other: Save) -> bool {
        self.agent == other.agent && folder_key(self.folder) == folder_key(other.folder)
    }
}

impl SavedAgent {
    pub fn matches(&self, agent: Agent, cwd: Option<&str>) -> (r: bool)
        ensures
            r == self@.is(
                agent,
                match cwd {
                    Some(path) => Some(path@),
                    None => None,
                },
            ),
            plain(self.folder@) && (cwd matches Some(path) && plain(path@)) ==> r == (
            self.agent.accepts(agent) && text::in_small(straight(self.folder@)) == text::in_small(
                straight(cwd->0@),
            )),
    {
        let agent_ok: bool = match self.agent {
            AgentFilter::Any => true,
            AgentFilter::Claude => agent == Agent::Claude,
            AgentFilter::Codex => agent == Agent::Codex,
        };
        agent_ok && match cwd {
            Some(cwd) => same_folder(self.folder.as_str(), cwd),
            None => false,
        }
    }

    /// The folder's own name — what a card calls the project.
    pub fn project(&self) -> (name: String)
        ensures
            name@ == (match paths::last_part(self.folder@) {
                Some(name) => name,
                None => self.folder@,
            }),
    {
        match paths::file_name(self.folder.as_str()) {
            Some(name) => name,
            None => self.folder.clone(),
        }
    }
}

#[derive(Debug, Clone, PartialEq, Eq)]
pub struct Lane {
    /// Empty means "the project folder's name". Load-bearing: focus finds a
    /// terminal tab by this name.
    pub name: String,
    pub color: Rgb,
}

impl View for Lane {
    type V = (Seq<char>, Rgb);

    open spec fn view(&self) -> (Seq<char>, Rgb) {
        (self.name@, self.color)
    }
}

/// The six default lane colours, chosen to stay apart from each other and from
/// the state colours in [`crate::state`].
pub open spec fn default_color(index: int) -> Rgb {
    if index % 6 == 0 {
        Rgb { r: 80, g: 170, b: 255 }
    } else if index % 6 == 1 {
        Rgb { r: 250, g: 190, b: 60 }
    } else if index % 6 == 2 {
        Rgb { r: 90, g: 210, b: 130 }
    } else if index % 6 == 3 {
        Rgb { r: 225, g: 110, b: 200 }
    } else if index % 6 == 4 {
        Rgb { r: 120, g: 220, b: 225 }
    } else {
        Rgb { r: 245, g: 140, b: 70 }
    }
}

impl Lane {
    pub fn default_at(index: usize) -> (lane: Self)
        ensures
            lane@ == (Seq::<char>::empty(), default_color(index as int)),
    {
        let color = match index % 6 {
            0 => Rgb { r: 80, g: 170, b: 255 },
            1 => Rgb { r: 250, g: 190, b: 60 },
            2 => Rgb { r: 90, g: 210, b: 130 },
            3 => Rgb { r: 225, g: 110, b: 200 },
            4 => Rgb { r: 120, g: 220, b: 225 },
            _ => Rgb { r: 245, g: 140, b: 70 },
        };
        Lane { name: String::new(), color }
    }
}

/// One, as the fractions of a [`Tuning`] are counted: in steps of 2⁻²⁸, which
/// every single-precision number from a sixteenth on is a whole number of.
pub const ONE: u32 = 0x1000_0000;

/// How bright the keyboard is driven, at the least: a twentieth, to single
/// precision. Never zero: a slider at the bottom of its travel would be
/// indistinguishable from the app being broken, and the way to turn the
/// lighting off is to quit.
pub const MIN_BRIGHTNESS: u32 = 13_421_773;

/// How far down a colour-gain channel may go: a quarter.
pub const MIN_COLOR_GAIN: u32 = 0x400_0000;

/// How far up a colour-gain channel may go: two. Above one clips on
/// already-full channels, so the range leaves headroom without pretending it
/// is free.
pub const MAX_COLOR_GAIN: u32 = 0x2000_0000;

/// Four fifths, to single precision.
pub const DEFAULT_BRIGHTNESS: u32 = 214_748_368;

/// A gain for each channel, in steps of 2⁻²⁸.
#[derive(Debug, Clone, Copy, PartialEq, Eq, Structural)]
pub struct Gain {
    pub r: u32,
    pub g: u32,
    pub b: u32,
}

/// What a device is sent beyond the palette: how bright, and a per-channel
/// gain. One per connected device, because a keyboard whose blue runs hot
/// and a deck whose LCD is true are two different corrections.
#[derive(Debug, Clone, Copy, PartialEq, Eq, Structural)]
pub struct Tuning {
    /// In steps of 2⁻²⁸.
    pub brightness: u32,
    /// Per-channel gain multiplied into what the keys are sent — calibration
    /// for LEDs that do not match the screen. Unity is untouched; the window
    /// is never corrected.
    pub color_gain: Gain,
}

impl Tuning {
    pub open spec fn usual() -> Tuning {
        Tuning { brightness: DEFAULT_BRIGHTNESS, color_gain: Gain { r: ONE, g: ONE, b: ONE } }
    }

    /// Whether every fraction is in its range.
    pub open spec fn in_range(self) -> bool {
        &&& MIN_BRIGHTNESS <= self.brightness <= ONE
        &&& MIN_COLOR_GAIN <= self.color_gain.r <= MAX_COLOR_GAIN
        &&& MIN_COLOR_GAIN <= self.color_gain.g <= MAX_COLOR_GAIN
        &&& MIN_COLOR_GAIN <= self.color_gain.b <= MAX_COLOR_GAIN
    }

    /// Whether every fraction is a single-precision number.
    pub open spec fn is_single(self) -> bool {
        &&& single_step(self.brightness)
        &&& single_step(self.color_gain.r)
        &&& single_step(self.color_gain.g)
        &&& single_step(self.color_gain.b)
    }
}

impl Default for Tuning {
    fn default() -> (tuning: Self)
        ensures
            tuning == Tuning::usual(),
    {
        Tuning { brightness: DEFAULT_BRIGHTNESS, color_gain: Gain { r: ONE, g: ONE, b: ONE } }
    }
}

/// The fraction `n * 2⁻²⁸` as the bits of a double.
pub open spec fn fraction_bits(n: u32) -> u64 {
    number::exactly(n as nat, -28)
}

/// Whether `n * 2⁻²⁸` is a single-precision number.
pub open spec fn single_step(n: u32) -> bool {
    number::single(fraction_bits(n)) == fraction_bits(n)
}

/// `n` between `low` and `high`.
pub open spec fn within(n: nat, low: u32, high: u32) -> u32 {
    if n < low {
        low
    } else if n > high {
        high
    } else {
        n as u32
    }
}

/// A double, to single precision and between `low` and `high`, in steps of
/// 2⁻²⁸.
pub open spec fn fraction(bits: u64, low: u32, high: u32) -> u32 {
    let near = number::single(bits);
    let field = number::exponent_field(near);
    if number::is_negative(near) || field < 1018 {
        low
    } else if field > 1024 {
        high
    } else {
        within(number::significand(near) / pow2((1047 - field) as nat), low, high)
    }
}

pub fn fraction_of(bits: u64, low: u32, high: u32) -> (n: u32)
    ensures
        n == fraction(bits, low, high),
{
    let near: u64 = number::single_of(bits);
    let field: u64 = near % 0x8000_0000_0000_0000 / 0x10_0000_0000_0000;
    if near >= 0x8000_0000_0000_0000 || field < 1018 {
        return low;
    }
    if field > 1024 {
        return high;
    }
    let m: u64 = 0x10_0000_0000_0000 + near % 0x10_0000_0000_0000;
    proof {
        vstd::arithmetic::power2::lemma_pow2_pos((1047 - field) as nat);
    }
    let n: u64 = m / number::two_to((1047 - field) as u32);
    if n < low as u64 {
        low
    } else if n > high as u64 {
        high
    } else {
        n as u32
    }
}

/// A fraction that is a single-precision number in range is read as it was
/// written.
pub proof fn a_fraction_is_read_as_written(n: u32, low: u32, high: u32)
    requires
        0x80_0000 <= low <= n <= high <= MAX_COLOR_GAIN,
        single_step(n),
    ensures
        fraction(fraction_bits(n), low, high) == n,
{
    let bits = fraction_bits(n);
    let k = number::room_for(n as nat);
    vstd::arithmetic::power2::lemma2_to64();
    vstd::arithmetic::power2::lemma2_to64_rest();
    // 2²³ <= n <= 2²⁹, so it takes 23 to 29 places to fill 53 bits.
    let p = pow2(k) as int;
    if k < 23 {
        vstd::arithmetic::power2::lemma_pow2_strictly_increases(k, 23);
        assert(n * p < 0x10_0000_0000_0000) by (nonlinear_arith)
            requires
                n <= 0x2000_0000,
                0 <= p,
                2 * p <= 0x80_0000,
        {
            assert(n * p <= 0x2000_0000 * p);
        };
    }
    if k > 29 {
        vstd::arithmetic::power2::lemma_pow2_strictly_increases(29, k);
        assert(n * p >= 0x20_0000_0000_0000) by (nonlinear_arith)
            requires
                n >= 0x80_0000,
                p >= 0x4000_0000,
        {
            assert(n * p >= 0x80_0000 * p);
        };
    }
    number::exactly_says(n as nat, -28, k);
    let field = number::exponent_field(bits);
    assert(field == 1047 - k);
    assert(number::significand(bits) == n * p);
    assert((n * p) / p == n) by (nonlinear_arith)
        requires
            p > 0,
    ;
}

/// Where the mini window was left, and how big: its top-left corner on the
/// screen, its width, and the height of one of its rows — the size is kept
/// by the row so that a row arriving or leaving changes the window by
/// exactly one row. Each is a single-precision number, held as the bits of a
/// double.
#[derive(Debug, Clone, Copy, PartialEq, Eq, Structural)]
pub struct MiniWindow {
    pub x: u64,
    pub y: u64,
    pub width: u64,
    pub row_height: u64,
}

#[derive(Debug, Clone, PartialEq, Eq)]
pub struct Settings {
    pub lane_count: usize,
    /// Always [`MAX_LANES`] long; `lane_count` says how many are live.
    pub lanes: Vec<Lane>,
    /// The roster, in the order the user saved them. Earlier entries win when
    /// two would claim the same lane at once.
    pub saved: Vec<SavedAgent>,
    /// What a device is sent when it has no tuning of its own — and what a
    /// settings file from before per-device tuning meant by its one slider.
    pub tuning: Tuning,
    /// Each connected device's own tuning, by the surface's name.
    pub devices: Table<Tuning>,
    /// Devices the user has unticked, by the surface's name: plugged in,
    /// found, and left alone. Absent means on.
    pub disabled: Table<()>,
    /// Whether the Settings section of the window is unfolded. Remembered so
    /// the window opens the way it was left.
    pub settings_open: bool,
    /// Whether the window is in mini mode — only the lanes, small and on
    /// top. Remembered for the same reason.
    pub mini: bool,
    /// Where the mini window was left and how big, once it has been placed.
    pub mini_window: Option<MiniWindow>,
}

/// [`Settings`], as sequences and maps.
pub ghost struct Setup {
    pub lane_count: usize,
    pub lanes: Seq<(Seq<char>, Rgb)>,
    pub saved: Seq<Save>,
    pub tuning: Tuning,
    pub devices: Map<Seq<char>, Tuning>,
    pub disabled: Map<Seq<char>, ()>,
    pub settings_open: bool,
    pub mini: bool,
    pub mini_window: Option<MiniWindow>,
}

pub open spec fn lane_views(lanes: Seq<Lane>) -> Seq<(Seq<char>, Rgb)> {
    Seq::new(lanes.len(), |i: int| lanes[i]@)
}

pub open spec fn save_views(saved: Seq<SavedAgent>) -> Seq<Save> {
    Seq::new(saved.len(), |i: int| saved[i]@)
}

impl View for Settings {
    type V = Setup;

    open spec fn view(&self) -> Setup {
        Setup {
            lane_count: self.lane_count,
            lanes: lane_views(self.lanes@),
            saved: save_views(self.saved@),
            tuning: self.tuning,
            devices: self.devices@,
            disabled: self.disabled@,
            settings_open: self.settings_open,
            mini: self.mini,
            mini_window: self.mini_window,
        }
    }
}

impl Setup {
    pub open spec fn usual() -> Setup {
        Setup {
            lane_count: KEYBOARD_LANES,
            lanes: Seq::new(6, |i: int| (Seq::<char>::empty(), default_color(i))),
            saved: seq![],
            tuning: Tuning::usual(),
            devices: map![],
            disabled: map![],
            settings_open: false,
            mini: false,
            mini_window: None,
        }
    }

    /// Six lanes, of which three to six are live.
    pub open spec fn wf(self) -> bool {
        self.lanes.len() == MAX_LANES && KEYBOARD_LANES <= self.lane_count <= MAX_LANES
    }

    pub open spec fn counted(self, count: int) -> Setup {
        if KEYBOARD_LANES <= count <= MAX_LANES {
            Setup { lane_count: count as usize, ..self }
        } else {
            self
        }
    }

    /// With `entry` saved, unless an equal one is.
    pub open spec fn remembering(self, entry: Save) -> Setup {
        if knows(self.saved, entry) {
            self
        } else {
            Setup { saved: self.saved.push(entry), ..self }
        }
    }

    /// Whether the user gave this lane a name of its own.
    pub open spec fn is_named(self, index: int) -> bool {
        0 <= index < self.lanes.len() && text::trimmed(self.lanes[index].0).len() > 0
    }

    pub open spec fn called(self, index: int, project: Option<Seq<char>>) -> Seq<char> {
        if self.is_named(index) {
            text::trimmed(self.lanes[index].0)
        } else {
            match project {
                Some(project) => project,
                None => "Lane "@ + text::decimal((index + 1) as nat),
            }
        }
    }

    pub open spec fn tuned(self, surface: Seq<char>) -> Tuning {
        if self.devices.contains_key(surface) {
            self.devices[surface]
        } else {
            self.tuning
        }
    }

    /// Whether a saved agent would rather have this lane.
    pub open spec fn is_preferred(self, lane: usize) -> bool {
        exists|i: int| 0 <= i < self.saved.len() && (#[trigger] self.saved[i]).lane == lane
    }
}

/// Whether the same agent in the same folder is among `saved`.
pub open spec fn knows(saved: Seq<Save>, entry: Save) -> bool {
    exists|i: int| 0 <= i < saved.len() && (#[trigger] saved[i]).same(entry)
}

impl Default for Settings {
    fn default() -> (settings: Self)
        ensures
            settings@ == Setup::usual(),
    {
        let mut lanes: Vec<Lane> = Vec::new();
        let mut i: usize = 0;
        while i < MAX_LANES
            invariant
                i <= 6,
                lane_views(lanes@) =~= Setup::usual().lanes.take(i as int),
            decreases 6 - i,
        {
            let ghost before = lanes@;
            lanes.push(Lane::default_at(i));
            assert(lane_views(lanes@) =~= lane_views(before).push(lanes@.last()@));
            i = i + 1;
        }
        assert(lane_views(lanes@) =~= Setup::usual().lanes);
        let saved: Vec<SavedAgent> = Vec::new();
        assert(save_views(saved@) =~= seq![]);
        Settings {
            lane_count: KEYBOARD_LANES,
            lanes,
            saved,
            tuning: Tuning::default(),
            devices: Table::new(),
            disabled: Table::new(),
            settings_open: false,
            mini: false,
            mini_window: None,
        }
    }
}

impl Settings {
    /// What `surface` is sent: its own tuning, or the shared one until it
    /// has been given one.
    pub fn tuning(&self, surface: &str) -> (tuning: Tuning)
        ensures
            tuning == self@.tuned(surface@),
    {
        match self.devices.get(surface) {
            Some(tuning) => tuning,
            None => self.tuning,
        }
    }

    /// Gives `surface` a tuning of its own. An edit starts from
    /// [`Self::tuning`], which is the shared one the first time.
    pub fn tuning_mut(&mut self, surface: &str, tuning: Tuning)
        ensures
            final(self)@ == (Setup {
                devices: old(self)@.devices.insert(surface@, tuning),
                ..old(self)@
            }),
    {
        self.devices.insert(surface.to_owned(), tuning);
    }

    /// Whether `surface` is to be driven at all. An unticked device stays
    /// plugged in and found; the app just leaves it alone.
    pub fn device_enabled(&self, surface: &str) -> (r: bool)
        ensures
            r == !self@.disabled.contains_key(surface@),
    {
        !self.disabled.contains(surface)
    }

    pub fn set_device_enabled(&mut self, surface: &str, enabled: bool)
        ensures
            final(self)@ == (Setup {
                disabled: if enabled {
                    old(self)@.disabled.remove(surface@)
                } else {
                    old(self)@.disabled.insert(surface@, ())
                },
                ..old(self)@
            }),
    {
        if enabled {
            self.disabled.remove(surface);
        } else {
            self.disabled.insert(surface.to_owned(), ());
        }
    }

    /// Any of three to six; anything else is refused.
    pub fn set_lane_count(&mut self, count: usize)
        ensures
            final(self)@ == old(self)@.counted(count as int),
    {
        if KEYBOARD_LANES <= count && count <= MAX_LANES {
            self.lane_count = count;
        }
    }

    /// Whether the user gave this lane a name of its own.
    pub fn named(&self, index: usize) -> (r: bool)
        ensures
            r == self@.is_named(index as int),
    {
        if index < self.lanes.len() {
            assert(self@.lanes[index as int] == self.lanes@[index as int]@);
            !text::trim(self.lanes[index].name.as_str()).as_str().is_empty()
        } else {
            false
        }
    }

    /// What a lane is called: what the user typed, or the project on it.
    pub fn display_name(&self, index: usize, project: Option<&str>) -> (name: String)
        ensures
            name@ == self@.called(
                index as int,
                match project {
                    Some(project) => Some(project@),
                    None => None,
                },
            ),
    {
        if self.named(index) {
            assert(self@.lanes[index as int] == self.lanes@[index as int]@);
            return text::trim(self.lanes[index].name.as_str());
        }
        match project {
            Some(project) => project.to_owned(),
            None => {
                let mut name = "Lane ".to_owned();
                name.push_str(lane_number(index).as_str());
                name
            },
        }
    }

    /// The first saved entry this session is, if any. A session whose agent
    /// or folder is unknown is nobody's save.
    pub fn saved_matching(&self, agent: Option<Agent>, cwd: Option<&str>) -> (r: Option<usize>)
        ensures
            match r {
                Some(at) => {
                    &&& at < self.saved@.len()
                    &&& agent matches Some(agent) && self@.saved[at as int].is(agent, text::seen(cwd))
                    &&& forall|i: int|
                        0 <= i < at ==> !(#[trigger] self@.saved[i]).is(agent->0, text::seen(cwd))
                },
                None => agent matches Some(agent) ==> forall|i: int|
                    0 <= i < self.saved@.len() ==> !(#[trigger] self@.saved[i]).is(
                        agent,
                        text::seen(cwd),
                    ),
            },
    {
        let who = match agent {
            Some(who) => who,
            None => return None,
        };
        let mut i: usize = 0;
        while i < self.saved.len()
            invariant
                i <= self.saved@.len(),
                agent == Some(who),
                forall|j: int| 0 <= j < i ==> !(#[trigger] self@.saved[j]).is(who, text::seen(cwd)),
            decreases self.saved@.len() - i,
        {
            assert(self@.saved[i as int] == self.saved@[i as int]@);
            if self.saved[i].matches(who, cwd) {
                return Some(i);
            }
            i = i + 1;
        }
        None
    }

    /// Whether any saved agent would rather have this lane.
    pub fn prefers(&self, lane: usize) -> (r: bool)
        ensures
            r == self@.is_preferred(lane),
    {
        let mut i: usize = 0;
        while i < self.saved.len()
            invariant
                i <= self.saved@.len(),
                forall|j: int| 0 <= j < i ==> (#[trigger] self@.saved[j]).lane != lane,
            decreases self.saved@.len() - i,
        {
            assert(self@.saved[i as int] == self.saved@[i as int]@);
            if self.saved[i].lane == lane {
                return true;
            }
            i = i + 1;
        }
        false
    }

    /// The saved agents that would rather have this lane, by roster index.
    pub fn preferring(&self, lane: usize) -> (r: Vec<usize>)
        ensures
            r@ == preferring_at(self@.saved, lane),
    {
        let mut out: Vec<usize> = Vec::new();
        let mut i: usize = 0;
        let ghost all = self@.saved;
        assert(all.take(0) =~= seq![]);
        while i < self.saved.len()
            invariant
                i <= self.saved@.len(),
                all == self@.saved,
                out@ == preferring_at(all.take(i as int), lane),
            decreases self.saved@.len() - i,
        {
            assert(all.take(i + 1).drop_last() =~= all.take(i as int));
            assert(all[i as int] == self.saved@[i as int]@);
            if self.saved[i].lane == lane {
                out.push(i);
            }
            i = i + 1;
        }
        assert(all.take(i as int) =~= all);
        out
    }

    /// Adds an entry unless an equal `(agent, folder)` is already there.
    pub fn remember(&mut self, entry: SavedAgent) -> (r: bool)
        ensures
            r == !knows(old(self)@.saved, entry@),
            final(self)@ == old(self)@.remembering(entry@),
    {
        let mut i: usize = 0;
        while i < self.saved.len()
            invariant
                i <= self.saved@.len(),
                *self == *old(self),
                forall|j: int| 0 <= j < i ==> !(#[trigger] self@.saved[j]).same(entry@),
            decreases self.saved@.len() - i,
        {
            assert(self@.saved[i as int] == self.saved@[i as int]@);
            if self.saved[i].agent == entry.agent && same_folder(
                self.saved[i].folder.as_str(),
                entry.folder.as_str(),
            ) {
                assert(self@.saved[i as int].same(entry@));
                return false;
            }
            i = i + 1;
        }
        let ghost before = self.saved@;
        self.saved.push(entry);
        assert(save_views(self.saved@) =~= save_views(before).push(entry@));
        true
    }
}

/// The places in `saved` whose lane is `lane`.
pub open spec fn preferring_at(saved: Seq<Save>, lane: usize) -> Seq<usize>
    decreases saved.len(),
{
    if saved.len() == 0 {
        seq![]
    } else {
        let before = preferring_at(saved.drop_last(), lane);
        if saved.last().lane == lane {
            before.push((saved.len() - 1) as usize)
        } else {
            before
        }
    }
}

/// A lane's number, counted from one.
pub(crate) fn lane_number(index: usize) -> (r: String)
    ensures
        r@ == text::decimal((index + 1) as nat),
{
    if index as u64 == u64::MAX {
        // One more than the largest number there is a type for.
        let mut r = text::number(1_844_674_407_370_955_161);
        r.push('6');
        proof {
            assert((index + 1) as nat / 10 == 1_844_674_407_370_955_161);
        }
        r
    } else {
        text::number(index as u64 + 1)
    }
}

/// Whether `right` holds everything that `left` does.
fn all_tunings_in(left: &Table<Tuning>, right: &Table<Tuning>) -> (r: bool)
    ensures
        r == left@.submap_of(right@),
{
    let entries = left.pairs();
    proof {
        mapped_by_entries(entries@);
    }
    let mut i: usize = 0;
    while i < entries.len()
        invariant
            i <= entries@.len(),
            forall|j: int|
                0 <= j < entries@.len() ==> left@.contains_key((#[trigger] entries@[j]).0@)
                    && left@[entries@[j].0@] == entries@[j].1,
            forall|j: int|
                0 <= j < i ==> right@.contains_key((#[trigger] entries@[j]).0@)
                    && right@[entries@[j].0@] == entries@[j].1,
        decreases entries@.len() - i,
    {
        let same: bool = match right.get(entries[i].0.as_str()) {
            Some(tuning) => tuning == entries[i].1,
            None => false,
        };
        if !same {
            assert(left@.contains_key(entries@[i as int].0@));
            return false;
        }
        i = i + 1;
    }
    proof {
        assert forall|key: Seq<char>| #[trigger] left@.contains_key(key) implies right@.contains_key(
            key,
        ) && left@[key] == right@[key] by {
            assert(crate::table::mapped(entries@).contains_key(key));
            let j = choose|j: int| 0 <= j < entries@.len() && (#[trigger] entries@[j]).0@ == key;
            assert(right@.contains_key(entries@[j].0@));
        }
    }
    true
}

fn all_names_in(left: &Table<()>, right: &Table<()>) -> (r: bool)
    ensures
        r == left@.submap_of(right@),
{
    let entries = left.pairs();
    proof {
        mapped_by_entries(entries@);
    }
    let mut i: usize = 0;
    while i < entries.len()
        invariant
            i <= entries@.len(),
            forall|j: int|
                0 <= j < entries@.len() ==> left@.contains_key((#[trigger] entries@[j]).0@),
            forall|j: int|
                0 <= j < i ==> right@.contains_key((#[trigger] entries@[j]).0@),
        decreases entries@.len() - i,
    {
        if !right.contains(entries[i].0.as_str()) {
            assert(left@.contains_key(entries@[i as int].0@));
            return false;
        }
        i = i + 1;
    }
    proof {
        assert forall|key: Seq<char>| #[trigger] left@.contains_key(key) implies right@.contains_key(
            key,
        ) && left@[key] == right@[key] by {
            assert(crate::table::mapped(entries@).contains_key(key));
            let j = choose|j: int| 0 <= j < entries@.len() && (#[trigger] entries@[j]).0@ == key;
            assert(right@.contains_key(entries@[j].0@));
        }
    }
    true
}

fn same_lanes(left: &Vec<Lane>, right: &Vec<Lane>) -> (r: bool)
    ensures
        r == (lane_views(left@) == lane_views(right@)),
{
    if left.len() != right.len() {
        assert(lane_views(left@).len() != lane_views(right@).len());
        return false;
    }
    let mut i: usize = 0;
    while i < left.len()
        invariant
            i <= left@.len() == right@.len(),
            forall|j: int| 0 <= j < i ==> (#[trigger] left@[j])@ == right@[j]@,
        decreases left@.len() - i,
    {
        if !(text::same(left[i].name.as_str(), right[i].name.as_str()) && left[i].color
            == right[i].color) {
            assert(lane_views(left@)[i as int] != lane_views(right@)[i as int]);
            return false;
        }
        i = i + 1;
    }
    assert(lane_views(left@) =~= lane_views(right@));
    true
}

fn same_saved(left: &Vec<SavedAgent>, right: &Vec<SavedAgent>) -> (r: bool)
    ensures
        r == (save_views(left@) == save_views(right@)),
{
    if left.len() != right.len() {
        assert(save_views(left@).len() != save_views(right@).len());
        return false;
    }
    let mut i: usize = 0;
    while i < left.len()
        invariant
            i <= left@.len() == right@.len(),
            forall|j: int| 0 <= j < i ==> (#[trigger] left@[j])@ == right@[j]@,
        decreases left@.len() - i,
    {
        if !(left[i].agent == right[i].agent && left[i].lane == right[i].lane && text::same(
            left[i].folder.as_str(),
            right[i].folder.as_str(),
        )) {
            assert(save_views(left@)[i as int] != save_views(right@)[i as int]);
            return false;
        }
        i = i + 1;
    }
    assert(save_views(left@) =~= save_views(right@));
    true
}

impl Settings {
    /// Whether two settings are the same throughout.
    pub fn same(&self, other: &Settings) -> (r: bool)
        ensures
            r == (self@ == other@),
    {
        let devices: bool = all_tunings_in(&self.devices, &other.devices) && all_tunings_in(
            &other.devices,
            &self.devices,
        );
        let disabled: bool = all_names_in(&self.disabled, &other.disabled) && all_names_in(
            &other.disabled,
            &self.disabled,
        );
        proof {
            if devices {
                assert forall|key: Seq<char>| #[trigger]
                    self.devices@.contains_key(key) implies other.devices@.contains_key(key)
                    && self.devices@[key] == other.devices@[key] by {}
                assert forall|key: Seq<char>| #[trigger]
                    other.devices@.contains_key(key) implies self.devices@.contains_key(key) by {}
                assert(self.devices@ =~= other.devices@);
            }
            assert(disabled <==> self.disabled@ =~= other.disabled@);
        }
        let window: bool = match (self.mini_window, other.mini_window) {
            (Some(left), Some(right)) => left == right,
            (None, None) => true,
            _ => false,
        };
        self.lane_count == other.lane_count && same_lanes(&self.lanes, &other.lanes) && same_saved(
            &self.saved,
            &other.saved,
        ) && self.tuning == other.tuning && devices && disabled && self.settings_open
            == other.settings_open && self.mini == other.mini && window
    }

    /// The same settings once more.
    pub fn copy(&self) -> (r: Settings)
        ensures
            r@ == self@,
    {
        let mut lanes: Vec<Lane> = Vec::new();
        let mut i: usize = 0;
        while i < self.lanes.len()
            invariant
                i <= self.lanes@.len(),
                lane_views(lanes@) =~= self@.lanes.take(i as int),
            decreases self.lanes@.len() - i,
        {
            let ghost before = lanes@;
            lanes.push(Lane { name: self.lanes[i].name.clone(), color: self.lanes[i].color });
            assert(lane_views(lanes@) =~= lane_views(before).push(self.lanes@[i as int]@));
            i = i + 1;
        }
        assert(lane_views(lanes@) =~= self@.lanes);
        let mut saved: Vec<SavedAgent> = Vec::new();
        let mut i: usize = 0;
        while i < self.saved.len()
            invariant
                i <= self.saved@.len(),
                save_views(saved@) =~= self@.saved.take(i as int),
            decreases self.saved@.len() - i,
        {
            let ghost before = saved@;
            saved.push(
                SavedAgent {
                    agent: self.saved[i].agent,
                    folder: self.saved[i].folder.clone(),
                    lane: self.saved[i].lane,
                },
            );
            assert(save_views(saved@) =~= save_views(before).push(self.saved@[i as int]@));
            i = i + 1;
        }
        assert(save_views(saved@) =~= self@.saved);
        Settings {
            lane_count: self.lane_count,
            lanes,
            saved,
            tuning: self.tuning,
            devices: self.devices.clone(),
            disabled: self.disabled.clone(),
            settings_open: self.settings_open,
            mini: self.mini,
            mini_window: self.mini_window,
        }
    }
}

/// **Fewer lanes lose nothing**: the names and colours of the lanes that go
/// are kept, and going back up is as if they had never gone.
pub proof fn fewer_lanes_lose_nothing(setup: Setup, down: int, up: int)
    requires
        KEYBOARD_LANES <= up <= MAX_LANES,
    ensures
        setup.counted(down).lanes == setup.lanes,
        setup.counted(down).saved == setup.saved,
        setup.counted(down).counted(up) == setup.counted(up),
        setup.wf() ==> setup.counted(down).wf() && setup.counted(down).counted(
            setup.lane_count as int,
        ) == setup,
{
}

/// **A colour is spelt as six small hexadecimal digits behind a mark**, two to
/// a channel, red first, the larger digit of a channel first.
pub proof fn a_colour_is_spelt_red_first(rgb: Rgb)
    ensures
        ({
            let text = rgb.hex();
            let worth = |c: char|
                if c <= '9' {
                    c as int - 48
                } else {
                    c as int - 87
                };
            &&& text.len() == 7 && text[0] == '#'
            &&& 16 * worth(text[1]) + worth(text[2]) == rgb.r
            &&& 16 * worth(text[3]) + worth(text[4]) == rgb.g
            &&& 16 * worth(text[5]) + worth(text[6]) == rgb.b
            &&& forall|i: int|
                1 <= i < 7 ==> '0' <= #[trigger] text[i] <= '9' || 'a' <= text[i] <= 'f'
        }),
{
    let text = rgb.hex();
    assert(text[1] == small_hex(rgb.r as nat / 16) && text[2] == small_hex(rgb.r as nat % 16));
    assert(text[3] == small_hex(rgb.g as nat / 16) && text[4] == small_hex(rgb.g as nat % 16));
    assert(text[5] == small_hex(rgb.b as nat / 16) && text[6] == small_hex(rgb.b as nat % 16));
}

/// **A colour is read with or without its mark, in letters of either size**,
/// and what is not six digits is no colour.
pub proof fn a_colour_is_read_either_way(rgb: Rgb, text: Seq<char>)
    ensures
        Rgb::spelt(rgb.hex().skip(1)) == Some(rgb),
        (forall|i: int| 0 <= i < 7 && text.len() == 7 ==> text::small(#[trigger] text[i]) == rgb.hex()[i])
            && text.len() == 7 ==> Rgb::spelt(text) == Some(rgb),
        text.len() != 6 && text.len() != 7 ==> Rgb::spelt(text) is None,
        text.len() == 7 && text[0] != '#' ==> Rgb::spelt(text) is None,
{
    a_colour_is_read_as_written(rgb);
    a_colour_is_spelt_red_first(rgb);
    let bare = rgb.hex().skip(1);
    assert(bare[0] == rgb.hex()[1]);
    assert(bare.len() == 6);
    assert(rgb.hex()[1] != '#');
    if text.len() == 7 && (forall|i: int|
        0 <= i < 7 && text.len() == 7 ==> text::small(#[trigger] text[i]) == rgb.hex()[i]) {
        let digits = text.skip(1);
        assert(text::small(text[0]) == '#');
        assert(text[0] == '#');
        assert forall|i: int| 0 <= i < 6 implies hex_value(#[trigger] digits[i]) == hex_value(bare[i]) by {
            assert(digits[i] == text[i + 1]);
            assert(text::small(text[i + 1]) == rgb.hex()[i + 1]);
            assert(bare[i] == rgb.hex()[i + 1]);
            assert('0' <= rgb.hex()[i + 1] <= '9' || 'a' <= rgb.hex()[i + 1] <= 'f');
        }
        assert forall|i: int| 0 <= i < 6 implies hex_value(#[trigger] bare[i]) is Some by {
            assert('0' <= rgb.hex()[i + 1] <= '9' || 'a' <= rgb.hex()[i + 1] <= 'f');
        }
        assert(hex_pair(digits[0], digits[1]) == hex_pair(bare[0], bare[1]));
        assert(hex_pair(digits[2], digits[3]) == hex_pair(bare[2], bare[3]));
        assert(hex_pair(digits[4], digits[5]) == hex_pair(bare[4], bare[5]));
    }
}

/// **A folder is the same however it is written**: with slashes of either kind,
/// with or without any at its end.
pub proof fn a_folder_is_the_same_however_it_is_written(path: Seq<char>)
    ensures
        folder_key(path.push('/')) == folder_key(path),
        folder_key(path.push('\\')) == folder_key(path),
        folder_key(text::swapped(path, '\\', '/')) == folder_key(path),
        straight(path).len() <= path.len(),
        !straight(path).contains('\\'),
        straight(path).len() > 0 ==> straight(path).last() != '/',
{
    let slashed = text::swapped(path, '\\', '/');
    assert(text::swapped(path.push('/'), '\\', '/') =~= slashed.push('/'));
    assert(text::swapped(path.push('\\'), '\\', '/') =~= slashed.push('/'));
    assert(slashed.push('/').drop_last() =~= slashed);
    assert(text::swapped(slashed, '\\', '/') =~= slashed);
    unslashed_facts(slashed);
    assert forall|i: int| 0 <= i < straight(path).len() implies straight(path)[i] != '\\' by {
        assert(straight(path)[i] == slashed[i]);
    }
}

proof fn unslashed_facts(path: Seq<char>)
    ensures
        unslashed(path).len() <= path.len(),
        unslashed(path) == path.take(unslashed(path).len() as int),
        unslashed(path).len() > 0 ==> unslashed(path).last() != '/',
        forall|i: int| unslashed(path).len() <= i < path.len() ==> #[trigger] path[i] == '/',
    decreases path.len(),
{
    if path.len() > 0 && path.last() == '/' {
        unslashed_facts(path.drop_last());
        let n = unslashed(path).len() as int;
        assert(path.take(n) =~= path.drop_last().take(n));
        assert forall|i: int| n <= i < path.len() implies #[trigger] path[i] == '/' by {
            if i < path.len() - 1 {
                assert(path.drop_last()[i] == '/');
            }
        }
    } else {
        assert(path.take(path.len() as int) =~= path);
    }
}

/// **A saved agent is its folder's, and its own agent's**: it is met by a
/// session in that folder, of that agent or of any where it is saved for any,
/// and by none of which nobody knows where it is.
pub proof fn a_saved_agent_is_its_folders(saved: Save, agent: Agent, cwd: Option<Seq<char>>)
    ensures
        cwd is None ==> !saved.is(agent, cwd),
        cwd is Some && folder_key(cwd->0) != folder_key(saved.folder) ==> !saved.is(agent, cwd),
        cwd == Some(saved.folder) ==> (saved.is(agent, cwd) <==> saved.agent == AgentFilter::Any || (
        saved.agent == AgentFilter::Claude && agent == Agent::Claude) || (saved.agent
            == AgentFilter::Codex && agent == Agent::Codex)),
{
}

/// **A lane is called by its name, else by its project, else by its number.**
pub proof fn a_lane_is_called_by_its_name(setup: Setup, index: int, project: Option<Seq<char>>)
    requires
        0 <= index < setup.lanes.len(),
    ensures
        ({
            let name = text::trimmed(setup.lanes[index].0);
            let called = setup.called(index, project);
            &&& name.len() > 0 ==> called == name
            &&& name.len() == 0 && project is Some ==> called == project->0
            &&& name.len() == 0 && project is None ==> called == "Lane "@ + text::decimal(
                (index + 1) as nat,
            )
        }),
{
}

/// **The lanes' own colours tell them apart**: the six are six, and the seventh
/// is the first again.
pub proof fn the_lanes_colours_tell_them_apart(a: int, b: int)
    requires
        0 <= a,
        0 <= b,
    ensures
        default_color(a) == default_color(b) <==> a % 6 == b % 6,
{
}

/// **A device is tuned as it says, else as all are**, and tuning one changes no
/// other.
pub proof fn a_device_is_tuned_alone(setup: Setup, surface: Seq<char>, other: Seq<char>, tuning: Tuning)
    ensures
        ({
            let after = Setup { devices: setup.devices.insert(surface, tuning), ..setup };
            &&& after.tuned(surface) == tuning
            &&& other != surface ==> after.tuned(other) == setup.tuned(other)
            &&& !setup.devices.contains_key(surface) ==> setup.tuned(surface) == setup.tuning
        }),
{
}

/// **An agent is saved once**: one whose agent and folder are already saved
/// changes nothing, and any other goes to the end.
pub proof fn an_agent_is_saved_once(setup: Setup, entry: Save)
    ensures
        ({
            let after = setup.remembering(entry);
            let known = exists|i: int|
                0 <= i < setup.saved.len() && (#[trigger] setup.saved[i]).agent == entry.agent
                    && folder_key(setup.saved[i].folder) == folder_key(entry.folder);
            &&& known ==> after == setup
            &&& !known ==> after == (Setup { saved: setup.saved.push(entry), ..setup })
            &&& after.remembering(entry) == after
        }),
{
    let after = setup.remembering(entry);
    if knows(setup.saved, entry) {
        let i = choose|i: int| 0 <= i < setup.saved.len() && (#[trigger] setup.saved[i]).same(entry);
        assert(setup.saved[i].agent == entry.agent);
    } else {
        assert(after.saved[setup.saved.len() as int].same(entry));
        if exists|i: int|
            0 <= i < setup.saved.len() && (#[trigger] setup.saved[i]).agent == entry.agent && folder_key(
                setup.saved[i].folder,
            ) == folder_key(entry.folder) {
            let i = choose|i: int|
                0 <= i < setup.saved.len() && (#[trigger] setup.saved[i]).agent == entry.agent
                    && folder_key(setup.saved[i].folder) == folder_key(entry.folder);
            assert(setup.saved[i].same(entry));
        }
    }
}

/// **Those that prefer a lane are all that are saved for it**, each once, in
/// the order they were saved.
pub proof fn those_that_prefer_a_lane_are_saved_for_it(saved: Seq<Save>, lane: usize, i: int)
    requires
        saved.len() <= usize::MAX,
    ensures
        ({
            let places = preferring_at(saved, lane);
            &&& 0 <= i < saved.len() ==> (places.contains(i as usize) <==> saved[i].lane == lane)
            &&& forall|k: int| 0 <= k < places.len() ==> (#[trigger] places[k]) < saved.len()
            &&& forall|k: int, l: int|
                0 <= k < l < places.len() ==> (#[trigger] places[k]) < (#[trigger] places[l])
        }),
    decreases saved.len(),
{
    if saved.len() > 0 {
        let fewer = saved.drop_last();
        those_that_prefer_a_lane_are_saved_for_it(fewer, lane, i);
        let before = preferring_at(fewer, lane);
        let places = preferring_at(saved, lane);
        if places.len() > before.len() {
            assert(places[before.len() as int] == (saved.len() - 1) as usize);
        }
        if 0 <= i < fewer.len() {
            if before.contains(i as usize) {
                let k = choose|k: int| 0 <= k < before.len() && before[k] == i as usize;
                assert(places[k] == i as usize);
            }
            if places.contains(i as usize) {
                let k = choose|k: int| 0 <= k < places.len() && places[k] == i as usize;
                assert(before[k] == i as usize);
            }
        }
    }
}

/// **A fraction is kept within its bounds.**
pub proof fn a_fraction_is_kept_within_its_bounds(bits: u64, low: u32, high: u32)
    requires
        low <= high,
    ensures
        low <= fraction(bits, low, high) <= high,
{
}

/// The lane count is the one asked for, from three lanes to six, and what is
/// out of those bounds is not taken.
pub proof fn a_lane_count_is_taken_within_bounds(setup: Setup, count: int)
    ensures
        3 <= count <= 6 ==> setup.counted(count).lane_count == count,
        !(3 <= count <= 6) ==> setup.counted(count) == setup,
{
}

/// An agent's word means that agent, and any other word means any.
pub proof fn a_word_means_its_agent(name: Called, text: Seq<char>)
    requires
        name.stands_apart(),
    ensures
        AgentFilter::meant(AgentFilter::Any.word(name), name) == AgentFilter::Any,
        AgentFilter::meant(AgentFilter::Claude.word(name), name) == AgentFilter::Claude,
        AgentFilter::meant(AgentFilter::Codex.word(name), name) == AgentFilter::Codex,
        text != name.word && text != "codex"@ ==> AgentFilter::meant(text, name) == AgentFilter::Any,
{
    reveal_strlit("any");
    reveal_strlit("codex");
    assert("any"@.len() != "codex"@.len());
}

} // verus!
