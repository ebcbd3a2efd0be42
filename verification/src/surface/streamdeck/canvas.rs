//! What one Stream Deck key looks like: one colour, with a label over it.
//!
//! Pure pixels and no device. The deck reads like the keyboard — a row is a
//! lane, as many keys wide as the deck has columns, like the F-row — so a key
//! is one colour from the palette, as an LED would be. What an LED cannot do
//! is the label: the lane's name on the first key, its state and how long on
//! the last — in Waiting, how long over its state — and in Waiting an up, a
//! down and an Enter on the three between.
//! The words are ink, not light, and the triangles are drawn, not typeset.
//!
//! A font says how wide its letters are ([`Letters`]) and, of a line that has
//! been set, which pixels its letters cover ([`Dot`]); everything between the
//! two is here. A key without a font is its colour alone, never a panic.

use vstd::arithmetic::power2::pow2;
use vstd::prelude::*;

use super::layout::{
    Alphabet, Letters, Run, STEP, Stroke, block, even, lines_size, name_set, shared, stack_size,
    stacked, strokes, words_of,
};
use super::layout;
use super::light::{self, wants_black};
use crate::settings::Rgb;
use crate::single::{
    self, channel, difference, floated, near, nearest_whole, of_bits, of_channel, one, product,
    quotient, ratio, sum,
};
use crate::surface::palette::{self, black, glow, rounded};
use crate::text::{self, decimal};

verus! {

/// The face on the keys, as the Windows font folder names it.
pub const FONT: &'static str = "segoeuib.ttf";

/// The stand-in, by egui's name for it: the window's own face.
pub const FALLBACK_FONT: &'static str = "Ubuntu-Light";

/// All of a pixel covered: one, as the bits of a single-precision number.
pub const COVERED: u32 = 0x3f80_0000;

/// The largest a key's picture may be, each way: up to here a line of any
/// length is measured, at any size it can be set at, without overflow.
pub const LARGEST: usize = 0x7fff_ffff;

/// Packed RGB, row-major, top-left first — what the deck's encoder takes.
#[derive(Debug, Clone, PartialEq, Eq)]
pub struct Canvas {
    pub width: usize,
    pub height: usize,
    pub rgb: Vec<u8>,
}

/// A [`Canvas`], pixel by pixel.
pub ghost struct Picture {
    pub width: int,
    pub height: int,
    pub pixels: Seq<Rgb>,
}

impl View for Canvas {
    type V = Picture;

    open spec fn view(&self) -> Picture {
        Picture {
            width: self.width as int,
            height: self.height as int,
            pixels: Seq::new(
                self.rgb@.len() / 3,
                |i: int| Rgb { r: self.rgb@[3 * i], g: self.rgb@[3 * i + 1], b: self.rgb@[3 * i + 2] },
            ),
        }
    }
}

/// A picture of one colour.
pub open spec fn plain(width: int, height: int, colour: Rgb) -> Picture {
    Picture { width, height, pixels: Seq::new((width * height) as nat, |i: int| colour) }
}

/// How much of a pixel is covered: no less than nothing, no more than all of
/// it.
pub open spec fn covering(coverage: u32) -> nat {
    if coverage >= 0x8000_0000 {
        0
    } else if coverage > COVERED {
        one()
    } else {
        of_bits(coverage)
    }
}

/// A channel with `over` laid on it.
pub open spec fn mixed(under: u8, over: u8, coverage: u32) -> u8 {
    let c = covering(coverage);
    channel(
        sum(product(of_channel(under), difference(one(), c)), product(of_channel(over), c)),
    )
}

pub open spec fn laid(under: Rgb, ink: Rgb, coverage: u32) -> Rgb {
    Rgb {
        r: mixed(under.r, ink.r, coverage),
        g: mixed(under.g, ink.g, coverage),
        b: mixed(under.b, ink.b, coverage),
    }
}

impl Picture {
    /// With `ink` laid over one pixel; off the picture is ignored.
    pub open spec fn dotted(self, x: int, y: int, ink: Rgb, coverage: u32) -> Picture {
        if 0 <= x < self.width && 0 <= y < self.height {
            let at = y * self.width + x;
            Picture { pixels: self.pixels.update(at, laid(self.pixels[at], ink, coverage)), ..self }
        } else {
            self
        }
    }
}

proof fn all_is_covered()
    ensures
        of_bits(COVERED) == one(),
        of_bits(0) == 0,
        near(one(), 1) == one(),
{
    vstd::arithmetic::power2::lemma2_to64();
    vstd::arithmetic::power2::lemma2_to64_rest();
    vstd::arithmetic::power2::lemma_pow2_adds(23, 126);
    single::channel_back(1);
    assert(1 * one() == one());
}

proof fn mix_at_ends(under: u8, over: u8, coverage: u32)
    ensures
        COVERED <= coverage < 0x8000_0000 ==> mixed(under, over, coverage) == over,
        coverage == 0 ==> mixed(under, over, coverage) == under,
        covering(coverage) <= one(),
{
    let (u, o) = (of_channel(under), of_channel(over));
    all_is_covered();
    single::channel_back(under);
    single::channel_back(over);
    single::product_one(u);
    single::product_one(o);
    single::near_itself(0, 0);
    assert(0 * pow2(0) == 0);
    if coverage <= COVERED {
        single::bits_ordered(coverage, COVERED);
    }
    single::sum_at_least(u, 0);
}

fn mix(under: u8, over: u8, coverage: u32) -> (r: u8)
    ensures
        r == mixed(under, over, coverage),
{
    let bits: u32 = if coverage >= 0x8000_0000 {
        0
    } else if coverage > COVERED {
        COVERED
    } else {
        coverage
    };
    let c = single::from_bits(bits);
    proof {
        mix_at_ends(under, over, coverage);
        all_is_covered();
    }
    let left = single::whole(1).minus(c);
    assert(1 * one() == one());
    single::whole(under as u64).times(left).plus(single::whole(over as u64).times(c)).channel()
}

impl Canvas {
    /// Whether the canvas holds three channels for each of its pixels.
    pub open spec fn wf(self) -> bool {
        self.rgb@.len() == 3 * (self.width * self.height)
    }

    fn filled(width: usize, height: usize, colour: Rgb) -> (canvas: Self)
        requires
            3 * (width * height) <= usize::MAX,
        ensures
            canvas@ == plain(width as int, height as int, colour),
            canvas.wf(),
    {
        assert(0 <= width * height) by (nonlinear_arith)
            requires
                0 <= width,
                0 <= height,
        ;
        let count: usize = width * height;
        let mut rgb: Vec<u8> = Vec::new();
        let mut i: usize = 0;
        while i < count
            invariant
                i <= count,
                rgb@.len() == 3 * i,
                forall|j: int|
                    0 <= j < 3 * i ==> #[trigger] rgb@[j] == (if j % 3 == 0 {
                        colour.r
                    } else if j % 3 == 1 {
                        colour.g
                    } else {
                        colour.b
                    }),
            decreases count - i,
        {
            rgb.push(colour.r);
            rgb.push(colour.g);
            rgb.push(colour.b);
            i = i + 1;
        }
        let canvas = Canvas { width, height, rgb };
        proof {
            assert(rgb@.len() / 3 == count);
            assert forall|k: int| 0 <= k < count implies #[trigger] canvas@.pixels[k] == colour by {
                assert((3 * k) % 3 == 0 && (3 * k + 1) % 3 == 1 && (3 * k + 2) % 3 == 2);
            }
            assert(canvas@.pixels =~= plain(width as int, height as int, colour).pixels);
        }
        canvas
    }

    /// The three channels that start where pixel `(x, y)` would; nothing past
    /// the end.
    pub fn pixel(&self, x: usize, y: usize) -> (px: [u8; 3])
        ensures
            ({
                let at = 3 * (y * self.width + x);
                px@ == (if at + 3 <= self.rgb@.len() {
                    self.rgb@.subrange(at, at + 3)
                } else {
                    seq![0u8, 0u8, 0u8]
                })
            }),
    {
        assert(0 <= y * self.width <= 0xffff_ffff_ffff_ffff * 0xffff_ffff_ffff_ffff)
            by (nonlinear_arith)
            requires
                0 <= y <= 0xffff_ffff_ffff_ffff,
                0 <= self.width <= 0xffff_ffff_ffff_ffff,
        ;
        let row: u128 = y as u128 * self.width as u128;
        let size: u128 = self.rgb.len() as u128;
        if row <= size && x as u128 <= size && 3 * (row + x as u128) + 3 <= size {
            let at: usize = (3 * (row + x as u128)) as usize;
            let px = [self.rgb[at], self.rgb[at + 1], self.rgb[at + 2]];
            assert(px@ =~= self.rgb@.subrange(at as int, at + 3));
            px
        } else {
            let px: [u8; 3] = [0, 0, 0];
            assert(px@ =~= seq![0u8, 0u8, 0u8]);
            px
        }
    }

    /// Lays `ink` over the pixel at `coverage`, nothing leaving it and
    /// [`COVERED`] replacing it. Off the canvas is ignored, not an error.
    fn blend(&mut self, x: usize, y: usize, ink: Rgb, coverage: u32)
        requires
            old(self).wf(),
        ensures
            final(self).wf(),
            final(self).width == old(self).width,
            final(self).height == old(self).height,
            final(self)@ == old(self)@.dotted(x as int, y as int, ink, coverage),
    {
        if x >= self.width || y >= self.height {
            return;
        }
        let ghost was = self@;
        let ghost bytes = self.rgb@;
        let size: usize = self.rgb.len();
        proof {
            let w = self.width as int;
            let h = self.height as int;
            assert(0 <= y * w + x < w * h) by (nonlinear_arith)
                requires
                    0 <= x < w,
                    0 <= y < h,
            ;
            assert(size == 3 * (w * h));
            assert(0 <= y * w) by (nonlinear_arith)
                requires
                    0 <= y,
                    0 <= w,
            ;
        }
        let index: usize = y * self.width + x;
        let at: usize = 3 * index;
        let r: u8 = mix(self.rgb[at], ink.r, coverage);
        let g: u8 = mix(self.rgb[at + 1], ink.g, coverage);
        let b: u8 = mix(self.rgb[at + 2], ink.b, coverage);
        self.rgb.set(at, r);
        self.rgb.set(at + 1, g);
        self.rgb.set(at + 2, b);
        proof {
            let goal = was.dotted(x as int, y as int, ink, coverage);
            assert(self@.pixels =~= goal.pixels) by {
                assert forall|i: int| 0 <= i < self@.pixels.len() implies #[trigger] self@.pixels[i]
                    == goal.pixels[i] by {
                    if i != index {
                        assert(self.rgb@[3 * i] == bytes[3 * i]);
                        assert(self.rgb@[3 * i + 1] == bytes[3 * i + 1]);
                        assert(self.rgb@[3 * i + 2] == bytes[3 * i + 2]);
                    }
                }
            }
        }
    }
}

/// A key with nothing on it.
pub fn blank(size: (usize, usize)) -> (canvas: Canvas)
    requires
        3 * (size.0 * size.1) <= usize::MAX,
    ensures
        canvas@ == plain(size.0 as int, size.1 as int, black()),
        canvas.wf(),
{
    Canvas::filled(size.0, size.1, palette::off())
}

/// What a key says, if anything.
#[derive(Debug, Clone, PartialEq, Eq)]
pub enum Label {
    Blank,
    /// The lane's name, on its first key.
    Name(String),
    /// The state word over how long, on its last key. An empty `elapsed`
    /// draws nothing on its line — a preview has no clock.
    Status { state: &'static str, elapsed: String },
    /// A Waiting lane's last key: how long, as the headline, under the word
    /// as its caption. Once the colour and the answer keys have said the
    /// word, the number is the news.
    Wait { state: &'static str, held: String },
    Up,
    Down,
    Enter,
    /// A number the lane can show — context used, a limit used — as its
    /// short name over the value, or over a dash while it is unknown.
    Gauge { name: &'static str, value: Option<u8> },
}

/// A [`Label`], its words by their characters.
pub ghost enum Saying {
    Blank,
    Name(Seq<char>),
    Status { state: Seq<char>, elapsed: Seq<char> },
    Wait { state: Seq<char>, held: Seq<char> },
    Up,
    Down,
    Enter,
    Gauge { name: Seq<char>, value: Option<u8> },
}

impl View for Label {
    type V = Saying;

    open spec fn view(&self) -> Saying {
        match self {
            Label::Blank => Saying::Blank,
            Label::Name(name) => Saying::Name(name@),
            Label::Status { state, elapsed } => Saying::Status { state: state@, elapsed: elapsed@ },
            Label::Wait { state, held } => Saying::Wait { state: state@, held: held@ },
            Label::Up => Saying::Up,
            Label::Down => Saying::Down,
            Label::Enter => Saying::Enter,
            Label::Gauge { name, value } => Saying::Gauge { name: name@, value: *value },
        }
    }
}

/// How the label is drawn: quietly on a key that is meant to be dark, and
/// otherwise in the ink that reads on the key — decided for the lane, not
/// the instant. A lane's keys only ever run between its glow and its full
/// colour, so the ink is chosen at both ends: if the same ink reads on
/// both, that is the ink, steady; if the full colour wants black where the
/// glow wants white, the ink fades between the two along the same ramp the
/// key is on. No shadow, and never a flip.
#[derive(Debug, Clone, Copy, PartialEq, Eq, Structural)]
pub enum Ink {
    /// Grey — for a key that is dark on purpose: an empty or idle lane.
    Quiet,
    /// On a lit key: how far from white (0) towards black (255).
    Lit(u8),
}

/// How bright a colour looks, 0 black to 255 white: the usual weights on
/// the channels as the key is sent them — the ramp the palette dims along,
/// so the ink and the key move together.
pub open spec fn looks(colour: Rgb) -> nat {
    channel(
        sum(
            sum(
                product(ratio(2126, 10_000), of_channel(colour.r)),
                product(ratio(7152, 10_000), of_channel(colour.g)),
            ),
            product(ratio(722, 10_000), of_channel(colour.b)),
        ),
    ) as nat
}

fn brightness(colour: Rgb) -> (r: u64)
    ensures
        r == looks(colour),
        r <= 255,
{
    let red = single::ratio_of(2126, 10_000).times(single::whole(colour.r as u64));
    let green = single::ratio_of(7152, 10_000).times(single::whole(colour.g as u64));
    let blue = single::ratio_of(722, 10_000).times(single::whole(colour.b as u64));
    red.plus(green).plus(blue).channel() as u64
}

/// The ink for a key showing `colour` on a lane whose colour is `lane`.
pub open spec fn ink_on(colour: Rgb, lane: Rgb) -> Ink {
    let low = glow(lane);
    let (at_low, at_full) = (wants_black(low), wants_black(lane));
    if at_low == at_full {
        Ink::Lit(
            if at_low {
                255u8
            } else {
                0u8
            },
        )
    } else {
        // Where the key is between the glow and the full colour, by
        // brightness — the ramp the palette dims along.
        let (from, to) = (looks(low) as int, looks(lane) as int);
        let way = if to <= from || looks(colour) < from {
            0
        } else if looks(colour) > to {
            to - from
        } else {
            looks(colour) - from
        };
        let whole = if to <= from {
            1
        } else {
            to - from
        };
        Ink::Lit(
            rounded(
                (255 * (if at_full {
                    way
                } else {
                    whole - way
                })) as nat,
                whole as nat,
            ) as u8,
        )
    }
}

impl Ink {
    /// White, for a dark key.
    pub fn bright() -> (ink: Ink)
        ensures
            ink == Ink::Lit(0),
    {
        Ink::Lit(0)
    }

    /// Black, for a light key.
    pub fn dark() -> (ink: Ink)
        ensures
            ink == Ink::Lit(255),
    {
        Ink::Lit(255)
    }

    /// The ink for a key showing `colour` on a lane whose colour is `lane`.
    pub fn on(colour: Rgb, lane: Rgb) -> (ink: Ink)
        ensures
            ink == ink_on(colour, lane),
    {
        let low = palette::base(lane);
        let at_low: u8 = light::reads_on(low);
        let at_full: u8 = light::reads_on(lane);
        if at_low == at_full {
            return Ink::Lit(at_low);
        }
        let from: u64 = brightness(low);
        let to: u64 = brightness(lane);
        let here: u64 = brightness(colour);
        let way: u64 = if to <= from || here < from {
            0
        } else if here > to {
            to - from
        } else {
            here - from
        };
        let whole: u64 = if to <= from { 1 } else { to - from };
        let part: u64 = if at_full == 255 { way } else { whole - way };
        proof {
            more_of_the_ink(part as nat, part as nat, whole as nat);
            assert(2 * whole > 0);
            assert(255u8 as nat * part as nat == 255 * part);
        }
        Ink::Lit(((2 * (255 * part) + whole) / (2 * whole)) as u8)
    }
}

/// What ink is mixed from: grey when quiet, and otherwise that much darker
/// than white.
pub open spec fn shade(ink: Ink) -> Rgb {
    match ink {
        Ink::Quiet => Rgb { r: 120, g: 120, b: 120 },
        Ink::Lit(darkness) => Rgb {
            r: (255 - darkness) as u8,
            g: (255 - darkness) as u8,
            b: (255 - darkness) as u8,
        },
    }
}

/// The colour an ink is drawn in. Grey on a dark key: a label, not a light —
/// neither a lane's colour nor red, and dim enough not to take the eye.
pub fn paint_of(ink: Ink) -> (rgb: Rgb)
    ensures
        rgb == shade(ink),
{
    match ink {
        Ink::Quiet => Rgb { r: 120, g: 120, b: 120 },
        Ink::Lit(darkness) => {
            let channel: u8 = 255 - darkness;
            Rgb { r: channel, g: channel, b: channel }
        },
    }
}

/// How much of a key a triangle takes: a fifth, and no less than three
/// pixels — about the height of the text's capitals, so an arrow and a word
/// sit as one size.
pub open spec fn arrow_size(side: int) -> int {
    let fifth = nearest_whole(product(floated(side as nat), ratio(1, 5)));
    if fifth > 3 {
        fifth as int
    } else {
        3
    }
}

fn fifth_of(side: usize) -> (r: usize)
    requires
        3 <= side <= LARGEST,
    ensures
        r == arrow_size(side as int),
        3 <= r <= side,
{
    proof {
        single::a_share_of(side as nat, 1, 5);
    }
    let fifth: u64 = single::whole(side as u64).times(single::ratio_of(1, 5)).nearest_whole();
    if fifth > 3 {
        fifth as usize
    } else {
        3
    }
}

/// Where a triangle sits: `(x0, y0, width, height)` of its box, centred.
pub fn triangle_box(size: (usize, usize)) -> (r: (usize, usize, usize, usize))
    requires
        3 <= size.0 <= LARGEST,
        3 <= size.1 <= LARGEST,
    ensures
        r.2 == arrow_size(size.0 as int),
        r.3 == arrow_size(size.1 as int),
        r.0 == (size.0 - r.2) / 2,
        r.1 == (size.1 - r.3) / 2,
        3 <= r.2 <= size.0,
        3 <= r.3 <= size.1,
{
    let width: usize = fifth_of(size.0);
    let height: usize = fifth_of(size.1);
    ((size.0 - width) / 2, (size.1 - height) / 2, width, height)
}

/// How far a triangle's base reaches to either side of its middle.
pub open spec fn half_base(width: int) -> nat {
    quotient(difference(floated(width as nat), one()), 2 * one())
}

/// How much of its base a row of a triangle is wide: nothing at the apex, all
/// of it at the base.
pub open spec fn slope(height: int, row: int, up: bool) -> nat {
    let t = quotient(floated(row as nat), floated((height - 1) as nat));
    if up {
        t
    } else {
        difference(one(), t)
    }
}

/// How many pixels a triangle reaches to either side of its middle in `row`.
pub open spec fn reach(width: int, height: int, row: int, up: bool) -> nat {
    nearest_whole(product(half_base(width), slope(height, row, up)))
}

/// The middle of a triangle that starts at column `x0`.
pub open spec fn middle(x0: int, width: int) -> nat {
    sum(floated(x0 as nat), half_base(width))
}

/// The first column of a row that reaches `half` pixels from the middle.
pub open spec fn first_column(middle: nat, half: nat) -> nat {
    if floated(half) <= middle {
        nearest_whole(difference(middle, floated(half)))
    } else {
        0
    }
}

/// The last one.
pub open spec fn last_column(middle: nat, half: nat) -> nat {
    nearest_whole(sum(middle, floated(half)))
}

/// Whether a triangle covers a pixel.
pub open spec fn in_arrow(width: int, height: int, up: bool, x: int, y: int) -> bool {
    let (w, h) = (arrow_size(width), arrow_size(height));
    let (x0, y0) = ((width - w) / 2, (height - h) / 2);
    let row = y - y0;
    let half = reach(w, h, row, up);
    &&& 0 <= row < h
    &&& first_column(middle(x0, w), half) <= x <= last_column(middle(x0, w), half)
}

proof fn reach_fits(width: int, height: int, row: int, up: bool)
    requires
        3 <= width <= LARGEST,
        3 <= height <= LARGEST,
        0 <= row < height,
    ensures
        one() <= floated(width as nat),
        0 < floated((height - 1) as nat),
        quotient(floated(row as nat), floated((height - 1) as nat)) <= one(),
        reach(width, height, row, up) <= 0x8000_0000,
{
    let u = one();
    vstd::arithmetic::power2::lemma_pow2_pos(149);
    all_is_covered();
    single::floats_ordered(1, width as nat);
    single::floats_ordered(1, (height - 1) as nat);
    assert(1 * u == u);
    let (r, h) = (floated(row as nat), floated((height - 1) as nat));
    single::floats_ordered(row as nat, (height - 1) as nat);
    assert((r * u) * 1 <= u * h) by (nonlinear_arith)
        requires
            r <= h,
            u > 0,
    ;
    single::near_ordered(r * u, h, u, 1);
    let t = quotient(r, h);
    single::near_ordered((u - t) as nat, 1, u, 1);
    let w = floated(width as nat);
    single::near_again(width as nat * u, 1);
    single::near_ordered((w - u) as nat, 1, w, 1);
    let left = difference(w, u);
    assert((left * u) * 1 <= w * (2 * u)) by (nonlinear_arith)
        requires
            left <= w,
            u > 0,
    ;
    single::near_ordered(left * u, 2 * u, w, 1);
    let base = half_base(width);
    single::near_again(left * u, 2 * u);
    single::product_one(base);
    let steep = slope(height, row, up);
    single::product_ordered(base, steep, base, u);
    let most = 0x8000_0000nat * u;
    single::floats_ordered(width as nat, 0x8000_0000);
    single::whole_powers(31);
    vstd::arithmetic::power2::lemma2_to64();
    single::channel_ordered(product(base, steep), most);
}

impl Picture {
    /// With a filled triangle pointing up or down in the middle.
    pub open spec fn arrowed(self, up: bool, ink: Rgb) -> Picture {
        Picture {
            pixels: Seq::new(
                self.pixels.len(),
                |i: int|
                    if in_arrow(self.width, self.height, up, i % self.width, i / self.width) {
                        ink
                    } else {
                        self.pixels[i]
                    },
            ),
            ..self
        }
    }
}

proof fn place(width: int, x: int, y: int)
    requires
        0 <= x < width,
    ensures
        (y * width + x) % width == x,
        (y * width + x) / width == y,
{
    vstd::arithmetic::div_mod::lemma_fundamental_div_mod_converse(y * width + x, width, y, x);
}

/// The pixels of a triangle that come before column `x` of row `y`.
spec fn begun(was: Picture, up: bool, ink: Rgb, x: int, y: int) -> Picture {
    Picture {
        pixels: Seq::new(
            was.pixels.len(),
            |i: int|
                if in_arrow(was.width, was.height, up, i % was.width, i / was.width) && (i / was.width
                    < y || (i / was.width == y && i % was.width < x)) {
                    ink
                } else {
                    was.pixels[i]
                },
        ),
        ..was
    }
}

proof fn where_it_is(width: int, height: int, i: int)
    requires
        0 < width,
        0 <= i < width * height,
    ensures
        0 <= i % width < width,
        0 <= i / width < height,
        i == (i / width) * width + i % width,
{
    vstd::arithmetic::div_mod::lemma_fundamental_div_mod(i, width);
    vstd::arithmetic::div_mod::lemma_mod_bound(i, width);
    let y = i / width;
    let x = i % width;
    assert(y < height) by (nonlinear_arith)
        requires
            i == width * y + x,
            0 <= x,
            i < width * height,
            0 < width,
    ;
    assert(y >= 0) by (nonlinear_arith)
        requires
            i == width * y + x,
            x < width,
            0 <= i,
            0 < width,
    ;
    assert(width * y == y * width) by (nonlinear_arith);
}

/// A filled triangle pointing up or down, in the middle of the key. Shapes
/// rather than glyphs: the font need not carry an arrow, and a triangle
/// reads at any size.
fn draw_triangle(canvas: &mut Canvas, up: bool, ink: Rgb)
    requires
        old(canvas).wf(),
        3 <= old(canvas).width <= LARGEST,
        3 <= old(canvas).height <= LARGEST,
    ensures
        final(canvas).wf(),
        final(canvas).width == old(canvas).width,
        final(canvas).height == old(canvas).height,
        final(canvas)@ == old(canvas)@.arrowed(up, ink),
{
    let (x0, y0, width, height) = triangle_box((canvas.width, canvas.height));
    let wide: usize = canvas.width;
    let ghost was = canvas@;
    let ghost w = canvas.width as int;
    let ghost h = canvas.height as int;
    proof {
        reach_fits(width as int, height as int, 0, up);
        vstd::arithmetic::power2::lemma_pow2_pos(149);
        assert(1 * one() == one() && 2 * one() > 0);
    }
    let base = single::whole(width as u64).minus(single::whole(1)).over(single::whole(2));
    let centre = single::whole(x0 as u64).plus(base);
    assert(1 * one() == one());
    let mut row: usize = 0;
    proof {
        assert(was.pixels.len() == w * h);
        assert forall|i: int| 0 <= i < was.pixels.len() implies #[trigger] was.pixels[i] == begun(
            was,
            up,
            ink,
            0,
            y0 as int,
        ).pixels[i] by {
            where_it_is(w, h, i);
        }
        assert(canvas@.pixels =~= begun(was, up, ink, 0, y0 as int).pixels);
    }
    while row < height
        invariant
            row <= height,
            3 <= wide <= LARGEST,
            canvas.wf(),
            canvas.width == wide == w,
            canvas.height == h,
            3 <= h <= LARGEST,
            was.width == w,
            was.height == h,
            was.pixels.len() == w * h,
            width == arrow_size(w),
            height == arrow_size(h),
            x0 == (w - width) / 2,
            y0 == (h - height) / 2,
            3 <= width <= w,
            3 <= height <= h,
            base.wf(),
            base.e <= 10_000,
            base@ == half_base(width as int),
            centre.wf(),
            centre.e <= 100_000,
            centre@ == middle(x0 as int, width as int),
            canvas@ == begun(was, up, ink, 0, y0 + row),
        decreases height - row,
    {
        let ghost y = y0 + row;
        proof {
            reach_fits(width as int, height as int, row as int, up);
        }
        let t = single::whole(row as u64).over(single::whole(height as u64 - 1));
        assert(1 * one() == one());
        let t = if up { t } else { single::whole(1).minus(t) };
        let half: u64 = base.times(t).nearest_whole();
        let out = single::whole(half);
        let from: u64 = if centre.below(out) { 0 } else { centre.minus(out).nearest_whole() };
        let to: u64 = centre.plus(out).nearest_whole();
        let ghost first = first_column(centre@, half as nat);
        let ghost last = last_column(centre@, half as nat);
        let start: usize = if from < wide as u64 { from as usize } else { wide };
        let mut x: usize = start;
        proof {
            assert(y < h);
            assert forall|i: int| 0 <= i < was.pixels.len() implies #[trigger] begun(
                was,
                up,
                ink,
                0,
                y,
            ).pixels[i] == begun(was, up, ink, x as int, y).pixels[i] by {
                where_it_is(w, h, i);
            }
            assert(begun(was, up, ink, 0, y).pixels =~= begun(was, up, ink, x as int, y).pixels);
        }
        while x as u64 <= to && x < wide
            invariant
                row < height,
                3 <= wide <= LARGEST,
                canvas.wf(),
                canvas.width == wide == w,
                canvas.height == h,
                was.width == w,
                was.height == h,
                was.pixels.len() == w * h,
                width == arrow_size(w),
                height == arrow_size(h),
                x0 == (w - width) / 2,
                y0 == (h - height) / 2,
                3 <= width <= w,
                3 <= height <= h,
                half == reach(width as int, height as int, row as int, up),
                centre@ == middle(x0 as int, width as int),
                first == first_column(centre@, half as nat),
                last == last_column(centre@, half as nat),
                to == (if last <= u64::MAX {
                    last
                } else {
                    u64::MAX as nat
                }),
                y == y0 + row,
                y < h,
                first <= x || x == wide,
                canvas@ == begun(was, up, ink, x as int, y),
            decreases wide - x,
        {
            let ghost before = canvas@;
            proof {
                place(w, x as int, y);
                assert(0 <= y * w + x < w * h) by (nonlinear_arith)
                    requires
                        0 <= x < w,
                        0 <= y < h,
                ;
                assert(in_arrow(w, h, up, x as int, y));
            }
            canvas.blend(x, y0 + row, ink, COVERED);
            proof {
                let next = begun(was, up, ink, x + 1, y);
                let at = y * w + x;
                let under = before.pixels[at];
                mix_at_ends(under.r, ink.r, COVERED);
                mix_at_ends(under.g, ink.g, COVERED);
                mix_at_ends(under.b, ink.b, COVERED);
                assert(canvas@.pixels =~= next.pixels) by {
                    assert forall|i: int| 0 <= i < was.pixels.len() implies #[trigger] canvas@.pixels[i]
                        == next.pixels[i] by {
                        where_it_is(w, h, i);
                    }
                }
            }
            x = x + 1;
        }
        proof {
            let next = begun(was, up, ink, 0, y + 1);
            assert(canvas@.pixels =~= next.pixels) by {
                assert forall|i: int| 0 <= i < was.pixels.len() implies #[trigger] canvas@.pixels[i]
                    == next.pixels[i] by {
                    where_it_is(w, h, i);
                }
            }
        }
        row = row + 1;
    }
    proof {
        let goal = was.arrowed(up, ink);
        assert(canvas@.pixels =~= goal.pixels) by {
            assert forall|i: int| 0 <= i < was.pixels.len() implies #[trigger] canvas@.pixels[i]
                == goal.pixels[i] by {
                where_it_is(w, h, i);
            }
        }
    }
}

/// The rows the words go in: all but eight hundredths at either end.
pub open spec fn band_of(height: int) -> (usize, usize) {
    (
        nearest_whole(product(floated(height as nat), ratio(8, 100))) as usize,
        nearest_whole(product(floated(height as nat), ratio(92, 100))) as usize,
    )
}

fn band_on(height: usize) -> (band: (usize, usize))
    requires
        height <= LARGEST,
    ensures
        band == band_of(height as int),
        band.0 <= band.1 <= height,
        8 * (band.0 + band.1) <= 9 * height + 8,
{
    proof {
        single::a_share_of(height as nat, 8, 100);
        single::a_share_of(height as nat, 92, 100);
        vstd::arithmetic::power2::lemma_pow2_pos(149);
        assert((8 * one()) * 100 <= (92 * one()) * 100);
        single::near_ordered(8 * one(), 100, 92 * one(), 100);
        let h = floated(height as nat);
        single::product_ordered(h, ratio(8, 100), h, ratio(92, 100));
        single::channel_ordered(product(h, ratio(8, 100)), product(h, ratio(92, 100)));
    }
    let high = single::whole(height as u64);
    let from: u64 = high.times(single::ratio_of(8, 100)).nearest_whole();
    let to: u64 = high.times(single::ratio_of(92, 100)).nearest_whole();
    (from as usize, to as usize)
}

/// What a gauge's value reads as.
pub open spec fn gauge_text(value: Option<u8>) -> Seq<char> {
    match value {
        Some(value) => decimal(value as nat) + "%"@,
        None => "—"@,
    }
}

/// The lines a label is fixed to, when it has any: a state word over a time,
/// the one word of an answer, a number under its name.
pub open spec fn fixed_lines(saying: Saying) -> Option<Seq<Seq<char>>> {
    match saying {
        Saying::Status { state, elapsed } => Some(
            if text::trimmed(elapsed).len() > 0 {
                seq![state, elapsed]
            } else {
                seq![state]
            },
        ),
        Saying::Enter => Some(seq!["Enter"@]),
        Saying::Gauge { name, value } => Some(seq![name, gauge_text(value)]),
        _ => None,
    }
}

/// What is typeset on a key `width` by `height`: words as large as the key
/// allows, from twenty pixels down on a key of 72 and in proportion on a
/// larger one. A Waiting lane's count is a headline, from twenty-six down, and
/// its state a caption of six tenths.
pub open spec fn typeset(alphabet: Alphabet, width: int, height: int, saying: Saying) -> Seq<Stroke> {
    let band = band_of(height);
    let room = layout::room_of(width);
    let tall = STEP * (band.1 - band.0);
    match saying {
        Saying::Name(name) => {
            let words = words_of(name);
            if words.len() == 0 {
                seq![]
            } else {
                let px = 20_000 * height;
                let (size, lines) = name_set(
                    alphabet,
                    words,
                    room,
                    tall,
                    px,
                    layout::floor_of(px),
                );
                block(alphabet, width, even(lines), band, size, lines.len() as int)
            }
        },
        Saying::Wait { state, held } => {
            let lines = seq![(state, 6int), (held, 10int)];
            let size = stack_size(alphabet, lines, room, tall, 26_000 * height);
            block(alphabet, width, lines, band, size, 2)
        },
        _ => match fixed_lines(saying) {
            Some(lines) => {
                let size = lines_size(alphabet, lines, room, tall, 20_000 * height);
                block(alphabet, width, even(lines), band, size, lines.len() as int)
            },
            None => seq![],
        },
    }
}

/// Lines at their shares, set where they go.
fn set(letters: &Letters, width: usize, height: usize, lines: &Vec<(String, i128)>, size: i128) -> (runs:
    Vec<Run>)
    requires
        width <= LARGEST,
        height <= LARGEST,
        lines@.len() <= 3,
        0 <= size,
        size <= 26_000 * height || size == 504_000,
        forall|i: int| 0 <= i < lines@.len() ==> 0 <= (#[trigger] lines@[i]).1 <= 10,
    ensures
        strokes(runs@) == block(
            letters@,
            width as int,
            shared(lines@),
            band_of(height as int),
            size as int,
            lines@.len() as int,
        ),
{
    let band = band_on(height);
    proof {
        let all = shared(lines@);
        assert forall|i: int| 0 <= i < all.len() implies 0 <= (#[trigger] all[i]).1 <= 10 by {
            assert(0 <= lines@[i].1 <= 10);
        }
        layout::stacked_at_most(all, size as int, lines@.len() as int);
        let n = lines@.len() as int;
        assert(size * n <= size * 3) by (nonlinear_arith)
            requires
                0 <= size,
                n <= 3,
        ;
        let tall = stacked(all, size as int, n);
        assert(layout::top_of(band, tall) <= 144_000 * band.0 + 72_000 * (band.1 - band.0));
    }
    layout::set_block(letters, width, lines, band, size)
}

/// Lines of one size, as the sharing of it.
fn whole(lines: Vec<String>) -> (r: Vec<(String, i128)>)
    ensures
        shared(r@) == even(text::views(lines@)),
        r@.len() == lines@.len(),
        forall|i: int| 0 <= i < r@.len() ==> (#[trigger] r@[i]).1 == 10,
{
    let mut out: Vec<(String, i128)> = Vec::new();
    let ghost all = lines@;
    for said in iter: lines
        invariant
            iter.seq() == lines@,
            out@.len() == iter.index(),
            forall|i: int|
                0 <= i < out@.len() ==> (#[trigger] out@[i]).1 == 10 && out@[i].0@ == lines@[i]@,
    {
        out.push((said, 10));
    }
    assert(shared(out@) =~= even(text::views(lines@)));
    out
}

/// Fixed lines — a state word over a time — as large as the key allows, the
/// same rule the name is set by, so the two read as one size.
fn set_lines(letters: &Letters, size: (usize, usize), lines: Vec<String>) -> (runs: Vec<Run>)
    requires
        size.0 <= LARGEST,
        size.1 <= LARGEST,
        lines@.len() <= 3,
    ensures
        ({
            let all = text::views(lines@);
            let band = band_of(size.1 as int);
            strokes(runs@) == block(
                letters@,
                size.0 as int,
                even(all),
                band,
                lines_size(
                    letters@,
                    all,
                    layout::room_of(size.0 as int),
                    STEP * (band.1 - band.0),
                    20_000 * size.1 as int,
                ),
                all.len() as int,
            )
        }),
{
    let band = band_on(size.1);
    let room: i128 = layout::room_on(size.0);
    let tall: i128 = STEP * (band.1 as i128 - band.0 as i128);
    let px: i128 = 20_000 * size.1 as i128;
    let at: i128 = layout::fit_lines(letters, &lines, room, tall, px);
    let lines = whole(lines);
    set(letters, size.0, size.1, &lines, at)
}

/// What is typeset on a key of `size` for `label`: the lines, their sizes and
/// where they go. Nothing for a label that has no words.
pub fn runs(size: (usize, usize), label: &Label, letters: &Letters) -> (runs: Vec<Run>)
    requires
        size.0 <= LARGEST,
        size.1 <= LARGEST,
    ensures
        strokes(runs@) == typeset(letters@, size.0 as int, size.1 as int, label@),
{
    let ghost wide = size.0 as int;
    let ghost high = size.1 as int;
    match label {
        Label::Name(name) => {
            let band = band_on(size.1);
            let room: i128 = layout::room_on(size.0);
            let tall: i128 = STEP * (band.1 as i128 - band.0 as i128);
            let px: i128 = 20_000 * size.1 as i128;
            match layout::name_layout(letters, name.as_str(), room, tall, px) {
                Some((at, lines)) => {
                    let lines = whole(lines);
                    set(letters, size.0, size.1, &lines, at)
                },
                None => {
                    let none: Vec<Run> = Vec::new();
                    assert(strokes(none@) =~= seq![]);
                    none
                },
            }
        },
        Label::Status { state, elapsed } => {
            let mut lines: Vec<String> = Vec::new();
            lines.push((*state).to_owned());
            if !text::trim(elapsed.as_str()).as_str().is_empty() {
                lines.push(elapsed.clone());
            }
            assert(text::views(lines@) =~= fixed_lines(label@)->0);
            set_lines(letters, size, lines)
        },
        Label::Wait { state, held } => {
            let band = band_on(size.1);
            let room: i128 = layout::room_on(size.0);
            let tall: i128 = STEP * (band.1 as i128 - band.0 as i128);
            let px: i128 = 26_000 * size.1 as i128;
            let mut lines: Vec<(String, i128)> = Vec::new();
            lines.push(((*state).to_owned(), 6));
            lines.push((held.clone(), 10));
            assert(shared(lines@) =~= seq![(state@, 6int), (held@, 10int)]);
            let at: i128 = layout::fit_stack(letters, &lines, room, tall, px);
            set(letters, size.0, size.1, &lines, at)
        },
        Label::Enter => {
            let mut lines: Vec<String> = Vec::new();
            lines.push("Enter".to_owned());
            assert(text::views(lines@) =~= fixed_lines(label@)->0);
            set_lines(letters, size, lines)
        },
        Label::Gauge { name, value } => {
            let shown: String = match value {
                Some(value) => {
                    let mut shown = text::number(*value as u64);
                    shown.push_str("%");
                    shown
                },
                None => "—".to_owned(),
            };
            let mut lines: Vec<String> = Vec::new();
            lines.push((*name).to_owned());
            lines.push(shown);
            assert(text::views(lines@) =~= fixed_lines(label@)->0);
            set_lines(letters, size, lines)
        },
        Label::Blank | Label::Up | Label::Down => {
            let none: Vec<Run> = Vec::new();
            assert(strokes(none@) =~= seq![]);
            none
        },
    }
}

/// How much of one pixel a line's letters cover, as the bits of a
/// single-precision number, [`COVERED`] being all of it. A letter may reach off
/// the canvas.
#[derive(Debug, Clone, Copy, PartialEq, Eq, Structural)]
pub struct Dot {
    pub x: i32,
    pub y: i32,
    pub coverage: u32,
}

impl Picture {
    /// With the first `upto` dots in `ink`, those that are in `band`.
    pub open spec fn spotted(
        self,
        band: (usize, usize),
        dots: Seq<Dot>,
        ink: Rgb,
        upto: int,
    ) -> Picture
        decreases upto,
    {
        if upto <= 0 {
            self
        } else {
            let before = self.spotted(band, dots, ink, upto - 1);
            let dot = dots[upto - 1];
            if band.0 <= dot.y < band.1 {
                before.dotted(dot.x as int, dot.y as int, ink, dot.coverage)
            } else {
                before
            }
        }
    }

    /// With the first `upto` lines in `ink`, each from its own dots.
    pub open spec fn inked(
        self,
        runs: Seq<Stroke>,
        dots: Seq<Seq<Dot>>,
        ink: Rgb,
        upto: int,
    ) -> Picture
        decreases upto,
    {
        if upto <= 0 {
            self
        } else {
            let before = self.inked(runs, dots, ink, upto - 1);
            before.spotted(
                runs[upto - 1].band,
                dots[upto - 1],
                ink,
                dots[upto - 1].len() as int,
            )
        }
    }
}

pub open spec fn dots_of(dots: Seq<Vec<Dot>>) -> Seq<Seq<Dot>> {
    Seq::new(dots.len(), |i: int| dots[i]@)
}

/// How many of the lines have their dots.
pub open spec fn drawn(runs: int, dots: int) -> int {
    if runs < dots {
        runs
    } else {
        dots
    }
}

/// One key: `colour` edge to edge, the label over it.
pub open spec fn key_picture(
    size: (usize, usize),
    colour: Rgb,
    saying: Saying,
    ink: Ink,
    runs: Seq<Stroke>,
    dots: Seq<Seq<Dot>>,
) -> Picture {
    let bare = plain(size.0 as int, size.1 as int, colour);
    match saying {
        Saying::Blank => bare,
        Saying::Up => bare.arrowed(true, shade(ink)),
        Saying::Down => bare.arrowed(false, shade(ink)),
        _ => bare.inked(runs, dots, shade(ink), drawn(runs.len() as int, dots.len() as int)),
    }
}

/// Whether a picture of this size can be held, and an arrow drawn on it.
pub open spec fn can_hold(size: (usize, usize), saying: Saying) -> bool {
    &&& 3 * (size.0 * size.1) <= usize::MAX
    &&& saying is Up || saying is Down ==> 3 <= size.0 <= LARGEST && 3 <= size.1 <= LARGEST
}

/// One key: `colour` edge to edge, the label over it — `runs` as [`runs`] set
/// them, and for each the `dots` its letters cover. Deterministic — the same
/// inputs are the same bytes, which is what lets a surface skip a key whose
/// inputs have not changed.
pub fn render_key(
    size: (usize, usize),
    colour: Rgb,
    label: &Label,
    ink: Ink,
    runs: &Vec<Run>,
    dots: &Vec<Vec<Dot>>,
) -> (canvas: Canvas)
    requires
        can_hold(size, label@),
    ensures
        canvas@ == key_picture(size, colour, label@, ink, strokes(runs@), dots_of(dots@)),
        canvas.wf(),
{
    let mut canvas = Canvas::filled(size.0, size.1, colour);
    let paint = paint_of(ink);
    match label {
        Label::Blank => {},
        Label::Up => draw_triangle(&mut canvas, true, paint),
        Label::Down => draw_triangle(&mut canvas, false, paint),
        _ => {
            let ghost bare = canvas@;
            let ghost lines = strokes(runs@);
            let ghost all = dots_of(dots@);
            let mut i: usize = 0;
            while i < runs.len() && i < dots.len()
                invariant
                    i <= runs@.len(),
                    i <= dots@.len(),
                    canvas.wf(),
                    lines == strokes(runs@),
                    all == dots_of(dots@),
                    canvas@ == bare.inked(lines, all, paint, i as int),
                decreases runs@.len() - i,
            {
                let ghost before = canvas@;
                let band = runs[i].band;
                assert(lines[i as int] == runs@[i as int]@);
                assert(all[i as int] == dots@[i as int]@);
                let spots = &dots[i];
                let mut k: usize = 0;
                while k < spots.len()
                    invariant
                        k <= spots@.len(),
                        canvas.wf(),
                        canvas@ == before.spotted(band, spots@, paint, k as int),
                    decreases spots@.len() - k,
                {
                    let dot = spots[k];
                    if dot.x >= 0 && dot.y >= 0 {
                        let x: usize = dot.x as usize;
                        let y: usize = dot.y as usize;
                        if band.0 <= y && y < band.1 {
                            canvas.blend(x, y, paint, dot.coverage);
                        }
                    }
                    k = k + 1;
                }
                i = i + 1;
            }
        },
    }
    canvas
}

/// What one key's words are drawn with: what the face says of their letters,
/// and for each line the pixels it covers. With no face there are none.
#[derive(Debug, Clone)]
pub struct Pen {
    pub letters: Letters,
    pub dots: Vec<Vec<Dot>>,
}

/// One key: `colour` edge to edge, and the label typeset over it.
pub open spec fn face_picture(
    size: (usize, usize),
    colour: Rgb,
    saying: Saying,
    ink: Ink,
    pen: Pen,
) -> Picture {
    key_picture(
        size,
        colour,
        saying,
        ink,
        typeset(pen.letters@, size.0 as int, size.1 as int, saying),
        dots_of(pen.dots@),
    )
}

/// Whether a key of this size can be drawn with `saying` on it.
pub open spec fn can_draw(size: (usize, usize), saying: Saying) -> bool {
    &&& can_hold(size, saying)
    &&& size.0 <= LARGEST
    &&& size.1 <= LARGEST
}

/// Whether a key of this size can be drawn, whatever it says.
pub fn is_drawable(size: (usize, usize)) -> (r: bool)
    ensures
        r == forall|saying: Saying| #[trigger] can_draw(size, saying),
{
    if size.0 < 3 || size.1 < 3 || size.0 > LARGEST || size.1 > LARGEST {
        assert(!can_draw(size, Saying::Up));
        return false;
    }
    let r: bool = match size.0.checked_mul(size.1) {
        Some(pixels) => pixels <= usize::MAX / 3,
        None => false,
    };
    assert(r == (3 * (size.0 * size.1) <= usize::MAX));
    assert(can_draw(size, Saying::Up) == r);
    r
}

/// One key with its words typeset: [`runs`], then [`render_key`].
pub fn draw_key(size: (usize, usize), colour: Rgb, label: &Label, ink: Ink, pen: &Pen) -> (canvas:
    Canvas)
    requires
        can_draw(size, label@),
    ensures
        canvas@ == face_picture(size, colour, label@, ink, *pen),
        canvas.wf(),
{
    let lines = runs(size, label, &pen.letters);
    render_key(size, colour, label, ink, &lines, &pen.dots)
}

/// **Nothing is drawn outside its rows**: wherever the letters reach, a row
/// that belongs to no line keeps its colour.
pub proof fn ink_stays_in_its_rows(
    bare: Picture,
    runs: Seq<Stroke>,
    dots: Seq<Seq<Dot>>,
    ink: Rgb,
    upto: int,
    x: int,
    y: int,
)
    requires
        bare.pixels.len() == bare.width * bare.height,
        0 <= x < bare.width,
        0 <= y < bare.height,
        forall|k: int| 0 <= k < upto ==> !((#[trigger] runs[k]).band.0 <= y < runs[k].band.1),
    ensures
        ({
            let now = bare.inked(runs, dots, ink, upto);
            &&& now.width == bare.width && now.height == bare.height
            &&& now.pixels.len() == bare.pixels.len()
            &&& now.pixels[y * bare.width + x] == bare.pixels[y * bare.width + x]
        }),
    decreases upto,
{
    if upto > 0 {
        ink_stays_in_its_rows(bare, runs, dots, ink, upto - 1, x, y);
        let before = bare.inked(runs, dots, ink, upto - 1);
        let run = runs[upto - 1];
        spots_stay_in_their_rows(
            before,
            run.band,
            dots[upto - 1],
            ink,
            dots[upto - 1].len() as int,
            x,
            y,
        );
    }
}

proof fn spots_stay_in_their_rows(
    was: Picture,
    band: (usize, usize),
    dots: Seq<Dot>,
    ink: Rgb,
    upto: int,
    x: int,
    y: int,
)
    requires
        was.pixels.len() == was.width * was.height,
        0 <= x < was.width,
        0 <= y < was.height,
        !(band.0 <= y < band.1),
    ensures
        ({
            let now = was.spotted(band, dots, ink, upto);
            &&& now.width == was.width && now.height == was.height
            &&& now.pixels.len() == was.pixels.len()
            &&& now.pixels[y * was.width + x] == was.pixels[y * was.width + x]
        }),
    decreases upto,
{
    if upto > 0 {
        spots_stay_in_their_rows(was, band, dots, ink, upto - 1, x, y);
        let before = was.spotted(band, dots, ink, upto - 1);
        let dot = dots[upto - 1];
        if band.0 <= dot.y < band.1 && 0 <= dot.x < was.width && dot.y < was.height {
            place(was.width, x, y);
            place(was.width, dot.x as int, dot.y as int);
            let there = dot.y * was.width + dot.x;
            let here = y * was.width + x;
            assert(there != here);
            assert(0 <= here < was.width * was.height) by (nonlinear_arith)
                requires
                    here == y * was.width + x,
                    0 <= x < was.width,
                    0 <= y < was.height,
            ;
            assert(0 <= there < was.width * was.height) by (nonlinear_arith)
                requires
                    there == dot.y * was.width + dot.x,
                    0 <= dot.x < was.width,
                    0 <= dot.y < was.height,
            ;
        }
    }
}

proof fn blocks_keep_to_their_rows(
    alphabet: Alphabet,
    width: int,
    lines: Seq<(Seq<char>, int)>,
    band: (usize, usize),
    size: int,
    upto: int,
)
    requires
        upto <= lines.len(),
        0 <= size,
        forall|i: int| 0 <= i < lines.len() ==> 0 <= (#[trigger] lines[i]).1 <= 10,
    ensures
        forall|k: int|
            0 <= k < block(alphabet, width, lines, band, size, upto).len() ==> (
            #[trigger] block(alphabet, width, lines, band, size, upto)[k]).band.1 <= band.1,
    decreases upto,
{
    if upto > 0 {
        blocks_keep_to_their_rows(alphabet, width, lines, band, size, upto - 1);
        let before = block(alphabet, width, lines, band, size, upto - 1);
        let now = block(alphabet, width, lines, band, size, upto);
        let top = layout::top_of(band, stacked(lines, size, lines.len() as int));
        let from = top + 2 * stacked(lines, size, upto - 1);
        let to = top + 2 * stacked(lines, size, upto);
        let share = lines[upto - 1].1;
        assert(0 <= size * share) by (nonlinear_arith)
            requires
                0 <= size,
                0 <= share,
        ;
        stacks_are_positive(lines, size, upto - 1);
        assert(layout::row_at(to) >= 0);
        assert(layout::rows_between(band, from, to).1 <= band.1);
        assert forall|k: int| 0 <= k < now.len() implies (#[trigger] now[k]).band.1 <= band.1 by {
            if k < before.len() {
                assert(now[k] == before[k]);
            }
        }
    }
}

proof fn stacks_are_positive(lines: Seq<(Seq<char>, int)>, size: int, upto: int)
    requires
        upto <= lines.len(),
        0 <= size,
        forall|i: int| 0 <= i < lines.len() ==> 0 <= (#[trigger] lines[i]).1 <= 10,
    ensures
        0 <= stacked(lines, size, upto),
    decreases upto,
{
    if upto > 0 {
        stacks_are_positive(lines, size, upto - 1);
        let share = lines[upto - 1].1;
        assert(0 <= size * share) by (nonlinear_arith)
            requires
                0 <= size,
                0 <= share,
        ;
    }
}

proof fn sizes_are_positive(size: int, floor: int, suits: spec_fn(int) -> bool)
    requires
        0 <= floor,
    ensures
        layout::largest(size, floor, suits) >= 0,
    decreases size - floor + STEP,
{
    if size > floor && !suits(size) {
        sizes_are_positive(size - STEP, floor, suits);
    }
}

proof fn names_are_positive(
    alphabet: Alphabet,
    words: Seq<Seq<char>>,
    room: int,
    height: int,
    size: int,
    floor: int,
)
    requires
        0 <= floor,
    ensures
        name_set(alphabet, words, room, height, size, floor).0 >= 0,
    decreases size - floor + STEP,
{
    if size >= floor && layout::name_lines(alphabet, words, room, height, size) is None {
        names_are_positive(alphabet, words, room, height, size - STEP, floor);
    }
}

/// **The words keep off the bottom edge**: no line reaches past the rows the
/// words go in.
pub proof fn words_keep_to_their_rows(
    alphabet: Alphabet,
    width: int,
    height: int,
    saying: Saying,
    k: int,
)
    requires
        0 <= height,
        0 <= k < typeset(alphabet, width, height, saying).len(),
    ensures
        typeset(alphabet, width, height, saying)[k].band.1 <= band_of(height).1,
{
    let band = band_of(height);
    let room = layout::room_of(width);
    let tall = STEP * (band.1 - band.0);
    match saying {
        Saying::Name(name) => {
            let words = words_of(name);
            let px = 20_000 * height;
            names_are_positive(alphabet, words, room, tall, px, layout::floor_of(px));
            let (size, lines) = name_set(alphabet, words, room, tall, px, layout::floor_of(px));
            blocks_keep_to_their_rows(
                alphabet,
                width,
                even(lines),
                band,
                size,
                lines.len() as int,
            );
        },
        Saying::Wait { state, held } => {
            let lines = seq![(state, 6int), (held, 10int)];
            let px = 26_000 * height;
            sizes_are_positive(
                px,
                layout::floor_of(px),
                |size: int| layout::stack_suits(alphabet, lines, room, tall, size),
            );
            let size = stack_size(alphabet, lines, room, tall, px);
            blocks_keep_to_their_rows(alphabet, width, lines, band, size, 2);
        },
        _ => {
            let lines = fixed_lines(saying)->0;
            let px = 20_000 * height;
            sizes_are_positive(
                px,
                layout::floor_of(px),
                |size: int| layout::lines_suit(alphabet, lines, room, tall, size),
            );
            let size = lines_size(alphabet, lines, room, tall, px);
            blocks_keep_to_their_rows(
                alphabet,
                width,
                even(lines),
                band,
                size,
                lines.len() as int,
            );
        },
    }
}

/// **The ink is chosen at both ends and never flips**: where one ink reads on
/// both, every key has it; and otherwise it goes from the one that reads on the
/// glow to the one that reads on the full colour, and never back as the key
/// gets brighter.
pub proof fn the_ink_never_flips(dim: Rgb, bright: Rgb, lane: Rgb)
    requires
        looks(dim) <= looks(bright),
    ensures
        ({
            let (low, full) = (wants_black(glow(lane)), wants_black(lane));
            let end = |black: bool|
                if black {
                    Ink::Lit(255)
                } else {
                    Ink::Lit(0)
                };
            &&& low == full ==> ink_on(dim, lane) == end(low)
            &&& looks(glow(lane)) < looks(lane) ==> {
                &&& ink_on(glow(lane), lane) == end(low)
                &&& ink_on(lane, lane) == end(full)
            }
            &&& !low && full ==> ink_on(dim, lane)->Lit_0 <= ink_on(bright, lane)->Lit_0
            &&& low && !full ==> ink_on(dim, lane)->Lit_0 >= ink_on(bright, lane)->Lit_0
        }),
{
    let (from, to) = (looks(glow(lane)) as int, looks(lane) as int);
    let whole: nat = if to <= from {
        1
    } else {
        (to - from) as nat
    };
    a_part_of_the_ink(0, whole);
    a_part_of_the_ink(whole, whole);
    let here = |colour: Rgb|
        if to <= from || looks(colour) < from {
            0nat
        } else if looks(colour) > to {
            whole
        } else {
            (looks(colour) - from) as nat
        };
    more_of_the_ink(here(dim), here(bright), whole);
    more_of_the_ink((whole - here(bright)) as nat, (whole - here(dim)) as nat, whole);
}

proof fn a_part_of_the_ink(part: nat, whole: nat)
    requires
        part == 0 || part == whole,
        0 < whole,
    ensures
        part == 0 ==> rounded(255 * part, whole) == 0,
        part == whole ==> rounded(255 * part, whole) == 255,
{
    if part == 0 {
        assert((2 * 0 + whole) / (2 * whole) == 0) by (nonlinear_arith)
            requires
                0 < whole,
        ;
    } else {
        assert((2 * (255 * whole) + whole) / (2 * whole) == 255) by (nonlinear_arith)
            requires
                0 < whole,
        ;
    }
}

proof fn more_of_the_ink(less: nat, more: nat, whole: nat)
    requires
        less <= more <= whole,
        0 < whole,
    ensures
        rounded(255 * less, whole) <= rounded(255 * more, whole) <= 255,
{
    a_part_of_the_ink(whole, whole);
    assert((2 * (255 * less) + whole) / (2 * whole) <= (2 * (255 * more) + whole) / (2 * whole))
        by (nonlinear_arith)
        requires
            less <= more,
            0 < whole,
    ;
    assert((2 * (255 * more) + whole) / (2 * whole) <= (2 * (255 * whole) + whole) / (2 * whole))
        by (nonlinear_arith)
        requires
            more <= whole,
            0 < whole,
    ;
}

/// **Ink covers as much as it is told**: none of it leaves what is under, all
/// of it is the ink, and each channel is mixed with its own.
pub proof fn ink_covers_as_much_as_it_is_told(under: Rgb, ink: Rgb, other: Rgb, coverage: u32)
    ensures
        coverage == 0 || coverage >= 0x8000_0000 ==> laid(under, ink, coverage) == under,
        0x3f80_0000 <= coverage < 0x8000_0000 ==> laid(under, ink, coverage) == ink,
        under.r == other.r && ink.r == other.r ==> laid(under, ink, coverage).r == laid(
            other,
            other,
            coverage,
        ).r,
        under.g == other.g && ink.g == other.g ==> laid(under, ink, coverage).g == laid(
            other,
            other,
            coverage,
        ).g,
        under.b == other.b && ink.b == other.b ==> laid(under, ink, coverage).b == laid(
            other,
            other,
            coverage,
        ).b,
{
    let c = covering(coverage);
    single::near_itself(1, 149);
    single::near_itself(0, 149);
    assert(1 * one() == one() && 0 * one() == 0);
    if coverage == 0x3f80_0000 {
        assert(of_bits(0x3f80_0000) == one()) by {
            vstd::arithmetic::power2::lemma_pow2_adds(23, 126);
            vstd::arithmetic::power2::lemma2_to64();
        }
    }
    if coverage == 0 || coverage >= 0x8000_0000 || coverage >= 0x3f80_0000 {
        covers(under.r, ink.r);
        covers(under.g, ink.g);
        covers(under.b, ink.b);
    }
}

proof fn covers(under: u8, over: u8)
    ensures
        channel(sum(product(of_channel(under), one()), product(of_channel(over), 0))) == under,
        channel(sum(product(of_channel(under), 0), product(of_channel(over), one()))) == over,
{
    single::channel_back(under);
    single::channel_back(over);
    single::product_one(of_channel(under));
    single::product_one(of_channel(over));
}

/// **An arrow is a point at one end and its base at the other**: pointing up,
/// the first of its rows is the tip and the last the base; pointing down, the
/// other way round; and one that points up is never narrower further down.
pub proof fn an_arrow_ends_in_a_point(width: int, height: int, row: int, lower: int)
    requires
        1 <= width < 0x100_0000,
        2 <= height < 0x100_0000,
        0 <= row <= lower < height,
    ensures
        reach(width, height, 0, true) == 0,
        reach(width, height, height - 1, true) == nearest_whole(half_base(width)),
        reach(width, height, 0, false) == nearest_whole(half_base(width)),
        reach(width, height, height - 1, false) == 0,
        reach(width, height, row, true) <= reach(width, height, lower, true),
        reach(width, height, row, false) >= reach(width, height, lower, false),
{
    let u = one();
    let half = half_base(width);
    let last = floated((height - 1) as nat);
    vstd::arithmetic::power2::lemma_pow2_pos(149);
    single::floats_ordered(0, 0);
    single::floats_ordered((height - 1) as nat, (height - 1) as nat);
    single::floats_ordered(row as nat, lower as nat);
    single::floats_ordered(lower as nat, lower as nat);
    single::near_itself(1, 149);
    single::near_itself(0, 149);
    assert(1 * u == u && 0 * u == 0);
    assert(last > 0) by (nonlinear_arith)
        requires
            last == (height - 1) as nat * u,
            height >= 2,
            u > 0,
    ;
    single::near_again(difference(floated(width as nat), u) * u, 2 * u);
    assert(near(half, 1) == half);
    single::product_one(half);
    // The two ends.
    assert(quotient(0, last) == 0) by {
        single::near_same(0, 1, last);
        assert(0 * last == 0 && last * 0 == 0 && last * 1 == last);
    }
    assert(quotient(last, last) == u) by {
        single::near_same(u, 1, last);
        assert(last * u == u * last) by (nonlinear_arith);
        assert(last * 1 == last);
    }
    assert(nearest_whole(0) == 0) by (nonlinear_arith)
        requires
            nearest_whole(0) == (2 * 0 + u) / (2 * u),
            u > 0,
    ;
    // And between them.
    let (a, b) = (floated(row as nat), floated(lower as nat));
    assert((a * u) * last <= (b * u) * last) by (nonlinear_arith)
        requires
            a <= b,
    ;
    single::near_ordered(a * u, last, b * u, last);
    let (s, t) = (slope(height, row, true), slope(height, lower, true));
    single::product_ordered(half, s, half, t);
    single::channel_ordered(product(half, s), product(half, t));
    let (rest, less) = ((u - s) as nat, (u - t) as nat);
    assert(t <= u) by {
        single::floats_ordered(lower as nat, (height - 1) as nat);
        assert((b * u) * 1 <= u * last) by (nonlinear_arith)
            requires
                b <= last,
        ;
        single::near_ordered(b * u, last, u, 1);
    }
    single::near_ordered(less, 1, rest, 1);
    single::product_ordered(
        half,
        slope(height, lower, false),
        half,
        slope(height, row, false),
    );
    single::channel_ordered(
        product(half, slope(height, lower, false)),
        product(half, slope(height, row, false)),
    );
}

/// **What a key says in words, line by line**, and in what ink: bright is
/// white, dark is black, quiet is grey.
pub proof fn a_key_says_its_lines(state: Seq<char>, elapsed: Seq<char>, name: Seq<char>, value: u8)
    ensures
        fixed_lines(Saying::Status { state, elapsed }) == Some(
            if text::trimmed(elapsed).len() == 0 {
                seq![state]
            } else {
                seq![state, elapsed]
            },
        ),
        fixed_lines(Saying::Gauge { name, value: Some(value) }) == Some(
            seq![name, decimal(value as nat) + "%"@],
        ),
        fixed_lines(Saying::Gauge { name, value: None }) == Some(seq![name, "—"@]),
        fixed_lines(Saying::Enter) == Some(seq!["Enter"@]),
        shade(Ink::Lit(0)) == (Rgb { r: 255, g: 255, b: 255 }),
        shade(Ink::Lit(255)) == (Rgb { r: 0, g: 0, b: 0 }),
        shade(Ink::Quiet).r == shade(Ink::Quiet).g && shade(Ink::Quiet).g == shade(Ink::Quiet).b,
{
}

/// **A key is its colour but for what it says**: a blank one is all of one
/// colour, and the two arrows ink just the pixels inside them.
pub proof fn a_key_is_its_colour_but_for_what_it_says(
    size: (usize, usize),
    colour: Rgb,
    ink: Ink,
    runs: Seq<Stroke>,
    dots: Seq<Seq<Dot>>,
    x: int,
    y: int,
)
    requires
        0 <= x < size.0,
        0 <= y < size.1,
    ensures
        ({
            let at = y * size.0 + x;
            let blank = key_picture(size, colour, Saying::Blank, ink, runs, dots);
            let up = key_picture(size, colour, Saying::Up, ink, runs, dots);
            let down = key_picture(size, colour, Saying::Down, ink, runs, dots);
            &&& 0 <= at < blank.pixels.len()
            &&& blank.pixels.len() == size.0 * size.1
            &&& blank.pixels[at] == colour
            &&& up.pixels[at] == (if in_arrow(size.0 as int, size.1 as int, true, x, y) {
                shade(ink)
            } else {
                colour
            })
            &&& down.pixels[at] == (if in_arrow(size.0 as int, size.1 as int, false, x, y) {
                shade(ink)
            } else {
                colour
            })
        }),
{
    let wide = size.0 as int;
    let at = y * wide + x;
    vstd::arithmetic::div_mod::lemma_fundamental_div_mod_converse(at, wide, y, x);
    assert(0 <= at < wide * size.1) by (nonlinear_arith)
        requires
            at == y * wide + x,
            0 <= x < wide,
            0 <= y < size.1,
    ;
}

/// **A dot inks its own pixel and no other**; one outside the picture inks
/// nothing.
pub proof fn a_dot_inks_its_own_pixel(
    picture: Picture,
    x: int,
    y: int,
    ink: Rgb,
    coverage: u32,
    i: int,
    j: int,
)
    requires
        picture.pixels.len() == picture.width * picture.height,
        0 <= i < picture.width,
        0 <= j < picture.height,
    ensures
        ({
            let after = picture.dotted(x, y, ink, coverage);
            let at = j * picture.width + i;
            &&& after.width == picture.width && after.height == picture.height
            &&& after.pixels.len() == picture.pixels.len()
            &&& 0 <= at < picture.pixels.len()
            &&& after.pixels[at] == (if i == x && j == y {
                laid(picture.pixels[at], ink, coverage)
            } else {
                picture.pixels[at]
            })
        }),
{
    let wide = picture.width;
    let at = j * wide + i;
    assert(0 <= at < wide * picture.height) by (nonlinear_arith)
        requires
            at == j * wide + i,
            0 <= i < wide,
            0 <= j < picture.height,
    ;
    if 0 <= x < wide && 0 <= y < picture.height {
        assert(0 <= y * wide + x < wide * picture.height) by (nonlinear_arith)
            requires
                0 <= x < wide,
                0 <= y < picture.height,
        ;
    }
    if 0 <= x < wide && 0 <= y < picture.height && y * wide + x == at {
        vstd::arithmetic::div_mod::lemma_fundamental_div_mod_converse(at, wide, j, i);
        vstd::arithmetic::div_mod::lemma_fundamental_div_mod_converse(at, wide, y, x);
    }
}

} // verus!
