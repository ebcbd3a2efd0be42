//! The application icon: a cluster of four F-row keys, drawn in code.
//!
//! Drawn rather than shipped as an image so there is no decoder in the
//! dependency tree, no file to lose, and exactly one definition of what the
//! icon looks like. Change it here and every copy follows.

use vstd::prelude::*;

verus! {

/// The largest icon: past it, a pixel's place does not fit.
pub const LARGEST: u32 = 23_170;

/// The four keycaps, in the default lane colours — the icon is a lane.
pub open spec fn key_color(index: int) -> (u8, u8, u8) {
    if index == 0 {
        (80, 170, 255)
    } else if index == 1 {
        (250, 190, 60)
    } else if index == 2 {
        (90, 210, 130)
    } else {
        (225, 110, 200)
    }
}

/// The four keycaps' colours, left to right.
pub fn key_colors() -> (colors: [(u8, u8, u8); 4])
    ensures
        forall|i: int| 0 <= i < 4 ==> #[trigger] colors@[i] == key_color(i),
{
    let colors: [(u8, u8, u8); 4] = [
        (80, 170, 255),
        (250, 190, 60),
        (90, 210, 130),
        (225, 110, 200),
    ];
    colors
}

pub open spec fn larger(a: int, b: int) -> int {
    if a < b {
        b
    } else {
        a
    }
}

/// A rectangle with rounded corners; all four edges are inside.
pub struct Slab {
    pub x0: i32,
    pub y0: i32,
    pub x1: i32,
    pub y1: i32,
    pub radius: i32,
}

impl Slab {
    /// Whether (x, y) lies inside: it is between the edges, and at a corner
    /// not farther from the corner's centre than the radius.
    pub open spec fn has(self, x: int, y: int) -> bool {
        let dx = larger(larger(self.x0 + self.radius - x, x - (self.x1 - self.radius)), 0);
        let dy = larger(larger(self.y0 + self.radius - y, y - (self.y1 - self.radius)), 0);
        &&& self.x0 <= x <= self.x1
        &&& self.y0 <= y <= self.y1
        &&& dx * dx + dy * dy <= self.radius * self.radius + self.radius
    }

    /// Whether it is small enough to measure in.
    pub open spec fn is_small(self) -> bool {
        &&& -30_000 <= self.x0 <= 30_000
        &&& -30_000 <= self.y0 <= 30_000
        &&& -30_000 <= self.x1 <= 30_000
        &&& -30_000 <= self.y1 <= 30_000
        &&& 0 <= self.radius <= 30_000
    }
}

fn most(a: i32, b: i32) -> (r: i32)
    ensures
        r == larger(a as int, b as int),
{
    if a < b {
        b
    } else {
        a
    }
}

/// Whether (x, y) lies inside the rectangle with its corners rounded.
fn inside(slab: &Slab, x: i32, y: i32) -> (r: bool)
    requires
        slab.is_small(),
    ensures
        r == slab.has(x as int, y as int),
{
    if x < slab.x0 || x > slab.x1 || y < slab.y0 || y > slab.y1 {
        return false;
    }
    let dx: i32 = most(most(slab.x0 + slab.radius - x, x - (slab.x1 - slab.radius)), 0);
    let dy: i32 = most(most(slab.y0 + slab.radius - y, y - (slab.y1 - slab.radius)), 0);
    let radius: i64 = slab.radius as i64;
    assert(0 <= dx * dx <= 90_000 * 90_000) by (nonlinear_arith)
        requires
            0 <= dx <= 90_000,
    ;
    assert(0 <= dy * dy <= 90_000 * 90_000) by (nonlinear_arith)
        requires
            0 <= dy <= 90_000,
    ;
    assert(0 <= radius * radius <= 30_000 * 30_000) by (nonlinear_arith)
        requires
            0 <= radius <= 30_000,
    ;
    dx as i64 * dx as i64 + dy as i64 * dy as i64 <= radius * radius + radius
}

/// The deck the keys sit on: a dark rounded band, so the keys read on light and
/// dark taskbars alike.
pub open spec fn deck(s: int) -> Slab {
    Slab {
        x0: 0,
        y0: (s * 3 / 16) as i32,
        x1: (s - 1) as i32,
        y1: (s - s * 3 / 16 - 1) as i32,
        radius: larger(s / 6, 1) as i32,
    }
}

/// The space around the keycaps.
pub open spec fn gap(s: int) -> int {
    larger(s / 16, 1)
}

/// How wide a keycap is: none, on an icon too small for four.
pub open spec fn key_width(s: int) -> int {
    if s < gap(s) * 5 {
        0
    } else {
        (s - gap(s) * 5) / 4
    }
}

/// One of four keycaps in a row — an F-row cluster, which is also one lane.
pub open spec fn key(s: int, index: int) -> Slab {
    let left = (s - (key_width(s) * 4 + gap(s) * 5)) / 2;
    let x0 = larger(left, 0) + gap(s) + index * (key_width(s) + gap(s));
    Slab {
        x0: x0 as i32,
        y0: (s * 3 / 16 + gap(s)) as i32,
        x1: (x0 + key_width(s) - 1) as i32,
        y1: (s - s * 3 / 16 - 1 - gap(s)) as i32,
        radius: larger(s / 12, 1) as i32,
    }
}

/// The colour of the pixel at (x, y), with its opacity: the last of the keys
/// it is in, or the deck, or nothing.
pub open spec fn pixel(s: int, x: int, y: int) -> (u8, u8, u8, u8) {
    if key(s, 3).has(x, y) {
        opaque(key_color(3))
    } else if key(s, 2).has(x, y) {
        opaque(key_color(2))
    } else if key(s, 1).has(x, y) {
        opaque(key_color(1))
    } else if key(s, 0).has(x, y) {
        opaque(key_color(0))
    } else if deck(s).has(x, y) {
        (24, 26, 32, 255)
    } else {
        (0, 0, 0, 0)
    }
}

pub open spec fn opaque(color: (u8, u8, u8)) -> (u8, u8, u8, u8) {
    (color.0, color.1, color.2, 255)
}

/// One of the four bytes of a pixel.
pub open spec fn byte(pixel: (u8, u8, u8, u8), which: int) -> u8 {
    if which == 0 {
        pixel.0
    } else if which == 1 {
        pixel.1
    } else if which == 2 {
        pixel.2
    } else {
        pixel.3
    }
}

/// The pixels of the icon, row by row from the top, four bytes each.
pub open spec fn drawn(s: int) -> Seq<u8> {
    Seq::new(
        (s * s * 4) as nat,
        |i: int| byte(pixel(s, (i / 4) % s, (i / 4) / s), i % 4),
    )
}

fn deck_of(s: i32) -> (r: Slab)
    requires
        0 <= s <= LARGEST,
    ensures
        r == deck(s as int),
        r.is_small(),
{
    let top: i32 = s * 3 / 16;
    Slab { x0: 0, y0: top, x1: s - 1, y1: s - top - 1, radius: most(s / 6, 1) }
}

fn key_of(s: i32, index: i32) -> (r: Slab)
    requires
        0 <= s <= LARGEST,
        0 <= index < 4,
    ensures
        r == key(s as int, index as int),
        r.is_small(),
{
    let top: i32 = s * 3 / 16;
    let between: i32 = most(s / 16, 1);
    let width: i32 = if s < between * 5 { 0 } else { (s - between * 5) / 4 };
    let spare: i32 = s - (width * 4 + between * 5);
    let left: i32 = if spare < 0 { 0 } else { spare / 2 };
    assert(0 <= index * (width + between) <= 3 * (width + between)) by (nonlinear_arith)
        requires
            0 <= index <= 3,
            0 <= width + between,
    ;
    let x0: i32 = left + between + index * (width + between);
    Slab {
        x0,
        y0: top + between,
        x1: x0 + width - 1,
        y1: s - top - 1 - between,
        radius: most(s / 12, 1),
    }
}

struct Shape {
    deck: Slab,
    first: Slab,
    second: Slab,
    third: Slab,
    fourth: Slab,
}

impl Shape {
    spec fn of(self, s: int) -> bool {
        &&& self.deck == deck(s) && self.deck.is_small()
        &&& self.first == key(s, 0) && self.first.is_small()
        &&& self.second == key(s, 1) && self.second.is_small()
        &&& self.third == key(s, 2) && self.third.is_small()
        &&& self.fourth == key(s, 3) && self.fourth.is_small()
    }
}

fn pixel_of(shape: &Shape, x: i32, y: i32, s: Ghost<int>) -> (r: (u8, u8, u8, u8))
    requires
        shape.of(s@),
    ensures
        r == pixel(s@, x as int, y as int),
{
    if inside(&shape.fourth, x, y) {
        (225, 110, 200, 255)
    } else if inside(&shape.third, x, y) {
        (90, 210, 130, 255)
    } else if inside(&shape.second, x, y) {
        (250, 190, 60, 255)
    } else if inside(&shape.first, x, y) {
        (80, 170, 255, 255)
    } else if inside(&shape.deck, x, y) {
        (24, 26, 32, 255)
    } else {
        (0, 0, 0, 0)
    }
}

/// Where a byte is: in which of the bytes of which pixel.
proof fn located(s: int, x: int, y: int, which: int)
    requires
        0 <= x < s,
        0 <= y < s,
        0 <= which < 4,
    ensures
        ({
            let i = 4 * (y * s + x) + which;
            &&& i % 4 == which
            &&& (i / 4) % s == x
            &&& (i / 4) / s == y
            &&& 0 <= i < s * s * 4
        }),
{
    let at = y * s + x;
    let i = 4 * at + which;
    assert(i / 4 == at && i % 4 == which);
    vstd::arithmetic::div_mod::lemma_fundamental_div_mod_converse(at, s, y, x);
    assert(0 <= y * s + x < s * s) by (nonlinear_arith)
        requires
            0 <= x < s,
            0 <= y < s,
    ;
}

/// RGBA pixels for the icon at `size` × `size`, transparent outside the deck.
pub fn rgba(size: u32) -> (pixels: Vec<u8>)
    requires
        size <= LARGEST,
    ensures
        pixels@ == drawn(size as int),
{
    let s: i32 = size as i32;
    let shape = Shape {
        deck: deck_of(s),
        first: key_of(s, 0),
        second: key_of(s, 1),
        third: key_of(s, 2),
        fourth: key_of(s, 3),
    };
    let ghost all = drawn(s as int);
    let mut pixels: Vec<u8> = Vec::new();
    let mut y: i32 = 0;
    while y < s
        invariant
            0 <= y <= s <= LARGEST,
            shape.of(s as int),
            all == drawn(s as int),
            pixels@.len() == 4 * (y * s),
            forall|i: int| 0 <= i < pixels@.len() ==> #[trigger] pixels@[i] == all[i],
        decreases s - y,
    {
        let mut x: i32 = 0;
        assert(y * s + 0 == y * s);
        while x < s
            invariant
                0 <= x <= s,
                0 <= y < s <= LARGEST,
                shape.of(s as int),
                all == drawn(s as int),
                pixels@.len() == 4 * (y * s + x),
                forall|i: int| 0 <= i < pixels@.len() ==> #[trigger] pixels@[i] == all[i],
            decreases s - x,
        {
            let (r, g, b, a) = pixel_of(&shape, x, y, Ghost(s as int));
            let ghost before = pixels@;
            let ghost at = 4 * (y * s + x);
            proof {
                located(s as int, x as int, y as int, 0);
                located(s as int, x as int, y as int, 1);
                located(s as int, x as int, y as int, 2);
                located(s as int, x as int, y as int, 3);
            }
            pixels.push(r);
            pixels.push(g);
            pixels.push(b);
            pixels.push(a);
            proof {
                assert(all[at] == r && all[at + 1] == g && all[at + 2] == b && all[at + 3] == a);
                assert forall|i: int| 0 <= i < pixels@.len() implies #[trigger] pixels@[i]
                    == all[i] by {
                    if i < at {
                        assert(pixels@[i] == before[i]);
                    }
                }
            }
            x = x + 1;
        }
        assert(y * s + s == (y + 1) * s) by (nonlinear_arith);
        y = y + 1;
    }
    assert(pixels@ =~= all);
    pixels
}

/// **The keys keep apart**: no pixel is in two of them.
pub proof fn keys_keep_apart(size: u32, one: int, other: int, x: int, y: int)
    requires
        size <= LARGEST,
        0 <= one < other < 4,
    ensures
        !(key(size as int, one).has(x, y) && key(size as int, other).has(x, y)),
{
    let s = size as int;
    let width = key_width(s);
    let between = gap(s);
    assert(one * (width + between) + (width + between) <= other * (width + between))
        by (nonlinear_arith)
        requires
            one < other,
            width + between >= 0,
    ;
    assert(0 <= one * (width + between) && other * (width + between) <= 3 * (width + between))
        by (nonlinear_arith)
        requires
            0 <= one,
            other <= 3,
            width + between >= 0,
    ;
}

/// **The corners are transparent**, so the icon is not a solid tile on the
/// taskbar.
pub proof fn the_corners_are_transparent(size: u32)
    requires
        6 <= size <= LARGEST,
    ensures
        pixel(size as int, 0, 0) == (0u8, 0u8, 0u8, 0u8),
        pixel(size as int, size - 1, 0) == (0u8, 0u8, 0u8, 0u8),
        pixel(size as int, 0, size - 1) == (0u8, 0u8, 0u8, 0u8),
        pixel(size as int, size - 1, size - 1) == (0u8, 0u8, 0u8, 0u8),
{
}

/// Two bytes, the low one first.
pub open spec fn two(n: int) -> Seq<u8> {
    seq![(n % 256) as u8, (n / 256 % 256) as u8]
}

/// Four bytes, the low one first.
pub open spec fn four(n: int) -> Seq<u8> {
    seq![
        (n % 256) as u8,
        (n / 256 % 256) as u8,
        (n / 65_536 % 256) as u8,
        (n / 16_777_216 % 256) as u8,
    ]
}

/// The pixels the way a bitmap holds them: rows from the bottom, and in each
/// pixel blue first.
pub open spec fn bottom_up(s: int) -> Seq<u8> {
    Seq::new(
        (s * s * 4) as nat,
        |i: int|
            {
                let which = i % 4;
                byte(
                    pixel(s, (i / 4) % s, s - 1 - (i / 4) / s),
                    if which < 3 {
                        2 - which
                    } else {
                        3
                    },
                )
            },
    )
}

/// How many bytes the mask of one image takes: a bit to a pixel, rows padded
/// to four bytes.
pub open spec fn mask_len(s: int) -> int {
    (s + 31) / 32 * 4 * s
}

/// One image of an `.ico`: a header with the doubled height the format
/// demands, the pixels, and a mask that masks nothing — the opacity is in the
/// pixels.
pub open spec fn image(s: int) -> Seq<u8> {
    four(40) + four(s) + four(s * 2) + two(1) + two(32) + zeros(24) + bottom_up(s) + zeros(
        mask_len(s),
    )
}

pub open spec fn zeros(n: int) -> Seq<u8> {
    Seq::new(n as nat, |i: int| 0u8)
}

/// How long the images of the first `upto` sizes are together.
pub open spec fn images_len(sizes: Seq<u32>, upto: int) -> int
    decreases upto,
{
    if upto <= 0 {
        0
    } else {
        images_len(sizes, upto - 1) + image(sizes[upto - 1] as int).len()
    }
}

/// The directory's line for one size.
pub open spec fn directory_line(s: int, offset: int) -> Seq<u8> {
    let dimension = if s >= 256 {
        0
    } else {
        s
    };
    seq![dimension as u8, dimension as u8, 0, 0] + two(1) + two(32) + four(image(s).len() as int)
        + four(offset)
}

/// The directory's lines for the first `upto` sizes.
pub open spec fn directory(sizes: Seq<u32>, upto: int) -> Seq<u8>
    decreases upto,
{
    if upto <= 0 {
        seq![]
    } else {
        directory(sizes, upto - 1) + directory_line(
            sizes[upto - 1] as int,
            6 + 16 * sizes.len() + images_len(sizes, upto - 1),
        )
    }
}

/// The images of the first `upto` sizes.
pub open spec fn images(sizes: Seq<u32>, upto: int) -> Seq<u8>
    decreases upto,
{
    if upto <= 0 {
        seq![]
    } else {
        images(sizes, upto - 1) + image(sizes[upto - 1] as int)
    }
}

/// A whole `.ico`.
pub open spec fn ico_bytes(sizes: Seq<u32>) -> Seq<u8> {
    two(0) + two(1) + two(sizes.len() as int) + directory(sizes, sizes.len() as int) + images(
        sizes,
        sizes.len() as int,
    )
}

fn push_two(out: &mut Vec<u8>, n: u16)
    ensures
        final(out)@ == old(out)@ + two(n as int),
{
    out.push((n % 256) as u8);
    out.push((n / 256) as u8);
    assert(out@ =~= old(out)@ + two(n as int));
}

fn push_four(out: &mut Vec<u8>, n: u32)
    ensures
        final(out)@ == old(out)@ + four(n as int),
{
    out.push((n % 256) as u8);
    out.push((n / 256 % 256) as u8);
    out.push((n / 65_536 % 256) as u8);
    out.push((n / 16_777_216) as u8);
    assert(out@ =~= old(out)@ + four(n as int));
}

fn push_zeros(out: &mut Vec<u8>, n: usize)
    ensures
        final(out)@ == old(out)@ + zeros(n as int),
{
    let ghost before = out@;
    let mut i: usize = 0;
    assert(before + zeros(0) =~= before);
    while i < n
        invariant
            i <= n,
            out@ == before + zeros(i as int),
        decreases n - i,
    {
        out.push(0);
        i = i + 1;
        assert(out@ =~= before + zeros(i as int));
    }
}

/// The same place counted from the bottom.
proof fn located_from_below(s: int, x: int, row: int, which: int)
    requires
        0 <= x < s,
        0 <= row < s,
        0 <= which < 4,
    ensures
        bottom_up(s)[4 * (row * s + x) + which] == byte(
            pixel(s, x, s - 1 - row),
            if which < 3 {
                2 - which
            } else {
                3
            },
        ),
        drawn(s)[4 * ((s - 1 - row) * s + x) + which] == byte(pixel(s, x, s - 1 - row), which),
{
    located(s, x, row, which);
    located(s, x, s - 1 - row, which);
}

/// One pixel after another, each read from where it is drawn.
fn push_flipped(out: &mut Vec<u8>, pixels: &Vec<u8>, s: usize, row: usize, x: usize)
    requires
        s <= LARGEST,
        row < s,
        x < s,
        pixels@ == drawn(s as int),
        old(out)@ == bottom_up(s as int).take(4 * (row * s + x)),
    ensures
        final(out)@ == bottom_up(s as int).take(4 * (row * s + x) + 4),
{
    let y: usize = s - 1 - row;
    let ghost all = bottom_up(s as int);
    let ghost here = 4 * (row * s + x);
    proof {
        located(s as int, x as int, y as int, 3);
        located(s as int, x as int, row as int, 3);
        located_from_below(s as int, x as int, row as int, 0);
        located_from_below(s as int, x as int, row as int, 1);
        located_from_below(s as int, x as int, row as int, 2);
        located_from_below(s as int, x as int, row as int, 3);
        assert(0 <= y * s <= s * s <= 23_170 * 23_170) by (nonlinear_arith)
            requires
                0 <= y < s <= 23_170,
        ;
        assert(0 <= row * s) by (nonlinear_arith);
    }
    let at: usize = (y * s + x) * 4;
    out.push(pixels[at + 2]);
    out.push(pixels[at + 1]);
    out.push(pixels[at]);
    out.push(pixels[at + 3]);
    assert(out@ =~= all.take(here).push(all[here]).push(all[here + 1]).push(all[here + 2]).push(
        all[here + 3],
    ));
    assert(out@ =~= all.take(here + 4));
}

fn flipped(size: u32) -> (out: Vec<u8>)
    requires
        size <= LARGEST,
    ensures
        out@ == bottom_up(size as int),
{
    let pixels = rgba(size);
    let s: usize = size as usize;
    let ghost all = bottom_up(s as int);
    let mut out: Vec<u8> = Vec::new();
    let mut row: usize = 0;
    assert(out@ =~= all.take(0));
    while row < s
        invariant
            row <= s <= LARGEST,
            pixels@ == drawn(s as int),
            all == bottom_up(s as int),
            out@ == all.take(4 * (row * s)),
        decreases s - row,
    {
        let mut x: usize = 0;
        assert(row * s + 0 == row * s);
        while x < s
            invariant
                x <= s <= LARGEST,
                row < s,
                pixels@ == drawn(s as int),
                all == bottom_up(s as int),
                out@ == all.take(4 * (row * s + x)),
            decreases s - x,
        {
            push_flipped(&mut out, &pixels, s, row, x);
            x = x + 1;
        }
        assert(row * s + s == (row + 1) * s) by (nonlinear_arith);
        row = row + 1;
    }
    assert(4 * (s * s) == s * s * 4) by (nonlinear_arith);
    assert(all.take(4 * (s * s)) =~= all);
    out
}

fn image_of(size: u32) -> (out: Vec<u8>)
    requires
        size <= LARGEST,
    ensures
        out@ == image(size as int),
{
    let s: usize = size as usize;
    let mut out: Vec<u8> = Vec::new();
    push_four(&mut out, 40);
    push_four(&mut out, size);
    push_four(&mut out, size * 2);
    push_two(&mut out, 1);
    push_two(&mut out, 32);
    push_zeros(&mut out, 24);
    assert(out@ =~= four(40) + four(s as int) + four(s * 2) + two(1) + two(32) + zeros(24));
    let mut pixels = flipped(size);
    out.append(&mut pixels);
    assert(0 <= (s + 31) / 32 * 4 * s <= 3_000 * 23_170) by (nonlinear_arith)
        requires
            0 <= s <= 23_170,
    ;
    assert(0 <= (s + 31) / 32 * 4 <= 3_000) by (nonlinear_arith)
        requires
            0 <= s <= 23_170,
    ;
    push_zeros(&mut out, (s + 31) / 32 * 4 * s);
    out
}

/// How long one image is.
proof fn image_length(s: int)
    requires
        0 <= s <= LARGEST,
    ensures
        image(s).len() == 40 + s * s * 4 + mask_len(s),
        0 <= s * s * 4 <= 2_147_395_600,
        0 <= mask_len(s) <= 69_510_000,
{
    assert(0 <= s * s * 4 <= 2_147_395_600) by (nonlinear_arith)
        requires
            0 <= s <= 23_170,
    ;
    assert(0 <= (s + 31) / 32 * 4 * s <= 3_000 * 23_170) by (nonlinear_arith)
        requires
            0 <= s <= 23_170,
    ;
}

proof fn lengths_grow(sizes: Seq<u32>, upto: int, all: int)
    requires
        0 <= upto <= all <= sizes.len(),
    ensures
        0 <= images_len(sizes, upto) <= images_len(sizes, all),
    decreases all,
{
    if upto < all {
        lengths_grow(sizes, upto, all - 1);
    } else if upto > 0 {
        lengths_grow(sizes, upto - 1, all - 1);
    }
}

/// A multi-size `.ico`, with the icon at each of `sizes`.
pub fn ico(sizes: &Vec<u32>) -> (file: Vec<u8>)
    requires
        sizes@.len() <= 0xffff,
        forall|i: int| 0 <= i < sizes@.len() ==> #[trigger] sizes@[i] <= LARGEST,
        6 + 16 * sizes@.len() + images_len(sizes@, sizes@.len() as int) <= u32::MAX,
    ensures
        file@ == ico_bytes(sizes@),
{
    let count: usize = sizes.len();
    let mut file: Vec<u8> = Vec::new();
    push_two(&mut file, 0);
    push_two(&mut file, 1);
    push_two(&mut file, count as u16);
    let ghost head = two(0) + two(1) + two(count as int);
    assert(file@ =~= head);
    let mut body: Vec<u8> = Vec::new();
    let mut i: usize = 0;
    assert(head + directory(sizes@, 0) =~= head);
    while i < count
        invariant
            i <= count,
            count == sizes@.len(),
            count <= 0xffff,
            forall|j: int| 0 <= j < sizes@.len() ==> #[trigger] sizes@[j] <= LARGEST,
            6 + 16 * sizes@.len() + images_len(sizes@, sizes@.len() as int) <= u32::MAX,
            head == two(0) + two(1) + two(count as int),
            file@ == head + directory(sizes@, i as int),
            body@ == images(sizes@, i as int),
            body@.len() == images_len(sizes@, i as int),
        decreases count - i,
    {
        let size: u32 = sizes[i];
        proof {
            lengths_grow(sizes@, i as int, count as int);
            lengths_grow(sizes@, i + 1, count as int);
            image_length(size as int);
        }
        let one = image_of(size);
        let dimension: u8 = if size >= 256 { 0 } else { size as u8 };
        let offset: u32 = 6 + 16 * count as u32 + body.len() as u32;
        let ghost before = file@;
        let ghost line = directory_line(size as int, offset as int);
        file.push(dimension);
        file.push(dimension);
        file.push(0);
        file.push(0);
        push_two(&mut file, 1);
        push_two(&mut file, 32);
        push_four(&mut file, one.len() as u32);
        push_four(&mut file, offset);
        proof {
            assert(file@ =~= before + line);
            assert(before + line =~= head + (directory(sizes@, i as int) + line));
        }
        let mut rest = one;
        let ghost held = body@;
        body.append(&mut rest);
        assert(body@ =~= held + image(size as int));
        i = i + 1;
    }
    file.append(&mut body);
    file
}

/// **Four keys of one width, evenly along the deck**: a gap between each and
/// the next, a gap or more at both ends and within a dot of the same.
pub proof fn the_keys_are_evenly_spaced(size: u32, index: int)
    requires
        8 <= size <= LARGEST,
        0 <= index < 3,
    ensures
        ({
            let s = size as int;
            let (one, next) = (key(s, index), key(s, index + 1));
            let (first, last) = (key(s, 0), key(s, 3));
            let left = first.x0 as int;
            let right = s - 1 - last.x1;
            &&& one.x1 - one.x0 == next.x1 - next.x0
            &&& next.x0 - one.x1 - 1 == gap(s)
            &&& one.y0 == next.y0 && one.y1 == next.y1
            &&& left >= gap(s) && right >= gap(s) && left <= right <= left + 1
            &&& one.y0 - deck(s).y0 == gap(s) && deck(s).y1 - one.y1 == gap(s)
            &&& deck(s).x0 == 0 && deck(s).x1 == s - 1
            &&& deck(s).y0 == s - 1 - deck(s).y1
        }),
{
    let s = size as int;
    let (w, g) = (key_width(s), gap(s));
    assert((index + 1) * (w + g) == index * (w + g) + w + g) by (nonlinear_arith);
    assert(0 <= index * (w + g) <= 2 * (w + g)) by (nonlinear_arith)
        requires
            0 <= index <= 2,
            w + g >= 0,
    ;
    assert(0 * (w + g) == 0);
}

/// **A key has its own colour, and the deck shows between them.**
pub proof fn a_key_has_its_own_colour(size: u32, index: int, x: int, y: int)
    requires
        size <= LARGEST,
        0 <= index < 4,
    ensures
        ({
            let s = size as int;
            let seen = pixel(s, x, y);
            &&& key(s, index).has(x, y) ==> (seen.0, seen.1, seen.2) == key_color(index) && seen.3
                == 255
            &&& (forall|i: int| 0 <= i < 4 ==> !(#[trigger] key(s, i)).has(x, y)) ==> seen == (
            if deck(s).has(x, y) {
                (24u8, 26u8, 32u8, 255u8)
            } else {
                (0u8, 0u8, 0u8, 0u8)
            })
        }),
{
    let s = size as int;
    if key(s, index).has(x, y) {
        if index < 3 {
            keys_keep_apart(size, index, 3, x, y);
        }
        if index < 2 {
            keys_keep_apart(size, index, 2, x, y);
        }
        if index < 1 {
            keys_keep_apart(size, index, 1, x, y);
        }
    }
}

/// **The file holds the same picture, bottom row first and blue first**: dot
/// for dot what is drawn, upside down, with red and blue exchanged.
pub proof fn the_file_holds_the_same_picture(s: int, x: int, y: int)
    requires
        0 <= x < s,
        0 <= y < s,
    ensures
        ({
            let shown = 4 * (y * s + x);
            let filed = 4 * ((s - 1 - y) * s + x);
            &&& 0 <= shown && shown + 3 < drawn(s).len()
            &&& 0 <= filed && filed + 3 < bottom_up(s).len()
            &&& bottom_up(s)[filed] == drawn(s)[shown + 2]
            &&& bottom_up(s)[filed + 1] == drawn(s)[shown + 1]
            &&& bottom_up(s)[filed + 2] == drawn(s)[shown]
            &&& bottom_up(s)[filed + 3] == drawn(s)[shown + 3]
        }),
{
    let low = s - 1 - y;
    let (a, b) = (y * s + x, low * s + x);
    vstd::arithmetic::div_mod::lemma_fundamental_div_mod_converse(a, s, y, x);
    vstd::arithmetic::div_mod::lemma_fundamental_div_mod_converse(b, s, low, x);
    assert(0 <= a < s * s && 0 <= b < s * s) by (nonlinear_arith)
        requires
            a == y * s + x,
            b == low * s + x,
            0 <= x < s,
            0 <= y < s,
            low == s - 1 - y,
    ;
    assert(s * s * 4 == 4 * (s * s));
    assert forall|k: int| 0 <= k < 4 implies (4 * a + k) / 4 == a && (4 * a + k) % 4 == k && (4 * b
        + k) / 4 == b && #[trigger] ((4 * b + k) % 4) == k by {
    }
    assert((4 * a + 0) / 4 == a && (4 * b + 0) % 4 == 0);
    assert((4 * a + 1) / 4 == a && (4 * b + 1) % 4 == 1);
    assert((4 * a + 2) / 4 == a && (4 * b + 2) % 4 == 2);
    assert((4 * a + 3) / 4 == a && (4 * b + 3) % 4 == 3);
}

proof fn a_directory_is_its_lines(sizes: Seq<u32>, upto: int, i: int)
    requires
        0 <= i < upto <= sizes.len(),
    ensures
        directory(sizes, upto).len() == 16 * upto,
        directory(sizes, upto).subrange(16 * i, 16 * i + 16) == directory_line(
            sizes[i] as int,
            6 + 16 * sizes.len() + images_len(sizes, i),
        ),
    decreases upto,
{
    let before = directory(sizes, upto - 1);
    let line = directory_line(
        sizes[upto - 1] as int,
        6 + 16 * sizes.len() + images_len(sizes, upto - 1),
    );
    assert(line.len() == 16);
    if upto > 1 {
        a_directory_is_its_lines(
            sizes,
            upto - 1,
            if i < upto - 1 {
                i
            } else {
                0
            },
        );
    }
    let all = directory(sizes, upto);
    if i == upto - 1 {
        assert(all.subrange(16 * i, 16 * i + 16) =~= line);
    } else {
        assert(all.subrange(16 * i, 16 * i + 16) =~= before.subrange(16 * i, 16 * i + 16));
    }
}

proof fn the_images_follow(sizes: Seq<u32>, upto: int, i: int)
    requires
        0 <= i < upto <= sizes.len(),
    ensures
        ({
            let from = images_len(sizes, i);
            let to = from + image(sizes[i] as int).len();
            &&& images(sizes, upto).len() == images_len(sizes, upto)
            &&& 0 <= from <= to <= images(sizes, upto).len()
            &&& images(sizes, upto).subrange(from, to) == image(sizes[i] as int)
        }),
    decreases upto,
{
    let before = images(sizes, upto - 1);
    if upto > 1 {
        the_images_follow(
            sizes,
            upto - 1,
            if i < upto - 1 {
                i
            } else {
                0
            },
        );
    } else {
        assert(before.len() == 0);
    }
    let from = images_len(sizes, i);
    let to = from + image(sizes[i] as int).len();
    let all = images(sizes, upto);
    if i == upto - 1 {
        assert(all.subrange(from, to) =~= image(sizes[i] as int));
    } else {
        assert(all.subrange(from, to) =~= before.subrange(from, to));
    }
}

proof fn one_behind_the_other(
    head: Seq<u8>,
    lines: Seq<u8>,
    pictures: Seq<u8>,
    i: int,
    from: int,
    to: int,
)
    requires
        head.len() == 6,
        0 <= 16 * i <= lines.len() - 16,
        0 <= from <= to <= pictures.len(),
    ensures
        ({
            let file = head + lines + pictures;
            let place = 6 + lines.len() + from;
            &&& file.subrange(0, 6) == head
            &&& file.subrange(6 + 16 * i, 22 + 16 * i) == lines.subrange(16 * i, 16 * i + 16)
            &&& file.subrange(place, place + (to - from)) == pictures.subrange(from, to)
            &&& file.len() >= place + (to - from)
        }),
{
    let file = head + lines + pictures;
    let place = 6 + lines.len() + from;
    assert(file.subrange(0, 6) =~= head);
    assert(file.subrange(6 + 16 * i, 22 + 16 * i) =~= lines.subrange(16 * i, 16 * i + 16));
    assert(file.subrange(place, place + (to - from)) =~= pictures.subrange(from, to));
}

proof fn what_a_line_gives(s: int, offset: int)
    ensures
        ({
            let line = directory_line(s, offset);
            let dimension = if s >= 256 {
                0
            } else {
                s
            };
            &&& line.len() == 16
            &&& line.subrange(8, 12) == four(image(s).len() as int)
            &&& line.subrange(12, 16) == four(offset)
            &&& line[0] == dimension as u8 && line[1] == dimension as u8
        }),
{
    let line = directory_line(s, offset);
    let length = four(image(s).len() as int);
    assert(line.subrange(8, 12) =~= length);
    assert(line.subrange(12, 16) =~= four(offset));
}

proof fn a_head_is_six_bytes(n: int)
    ensures
        (two(0) + two(1) + two(n)).len() == 6,
{
}

/// **Every line of the directory leads to its picture**: the line gives a
/// length and a place, and in that place stands the picture of the line's
/// size.
#[verifier::spinoff_prover]
#[verifier::rlimit(60)]
pub proof fn every_line_leads_to_its_picture(sizes: Seq<u32>, i: int)
    requires
        0 <= i < sizes.len() <= 0xffff,
    ensures
        ({
            let file = ico_bytes(sizes);
            let size = sizes[i] as int;
            let line = file.subrange(6 + 16 * i, 22 + 16 * i);
            let place = 6 + 16 * sizes.len() + images_len(sizes, i);
            let length = image(size).len() as int;
            &&& file.len() >= place + length
            &&& file.subrange(place, place + length) == image(size)
            &&& line.subrange(8, 12) == four(length)
            &&& line.subrange(12, 16) == four(place)
            &&& size < 256 ==> line[0] == size && line[1] == size
            &&& size >= 256 ==> line[0] == 0 && line[1] == 0
        }),
{
    let all = sizes.len() as int;
    let from = images_len(sizes, i);
    let size = sizes[i] as int;
    let head = two(0) + two(1) + two(all);
    let lines = directory(sizes, all);
    let pictures = images(sizes, all);
    a_directory_is_its_lines(sizes, all, i);
    the_images_follow(sizes, all, i);
    a_head_is_six_bytes(all);
    one_behind_the_other(head, lines, pictures, i, from, from + image(size).len());
    what_a_line_gives(size, 6 + 16 * sizes.len() + from);
    assert(ico_bytes(sizes) == head + lines + pictures);
}

/// **The file says first what it is and how many pictures it holds.**
pub proof fn the_file_says_how_many_it_holds(sizes: Seq<u32>)
    requires
        sizes.len() <= 0xffff,
    ensures
        ({
            let file = ico_bytes(sizes);
            &&& file.len() >= 6
            &&& file[0] == 0 && file[1] == 0 && file[2] == 1 && file[3] == 0
            &&& file[4] + 256 * file[5] == sizes.len()
        }),
{
    let all = sizes.len() as int;
    let head = two(0) + two(1) + two(all);
    let rest = directory(sizes, all) + images(sizes, all);
    assert(ico_bytes(sizes) =~= head + rest);
    assert(head[0] == 0 && head[1] == 0 && head[2] == 1 && head[3] == 0);
    assert(head[4] == all % 256 && head[5] == all / 256 % 256);
}

} // verus!
