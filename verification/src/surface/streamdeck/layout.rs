//! How words are set on a key: how large, on how many lines, and where.
//!
//! Sizes and places are counted in parts of a pixel, [`STEP`] to the pixel,
//! which every size here is a whole number of; widths come from the face's
//! own units. So every comparison — does it fit? — is exact.

use vstd::prelude::*;

use crate::text;

verus! {

/// Parts of a pixel.
pub const STEP: i128 = 72_000;

/// The smallest any text is set: seven pixels.
pub const SMALLEST: i128 = 504_000;

/// The most lines a name is spread over.
pub const NAME_LINES: usize = 3;

/// What a face says of its letters, in its own units: how high a line is, how
/// much of that is above the baseline, how far each letter moves the pen, and
/// how much closer or further two letters stand.
#[derive(Debug, Clone)]
pub struct Letters {
    pub height: u16,
    pub ascent: i16,
    pub advances: Vec<(char, u16)>,
    pub kerns: Vec<(char, char, i16)>,
}

/// A [`Letters`], as sequences.
pub ghost struct Alphabet {
    pub height: int,
    pub ascent: int,
    pub advances: Seq<(char, u16)>,
    pub kerns: Seq<(char, char, i16)>,
}

impl View for Letters {
    type V = Alphabet;

    open spec fn view(&self) -> Alphabet {
        Alphabet {
            height: self.height as int,
            ascent: self.ascent as int,
            advances: self.advances@,
            kerns: self.kerns@,
        }
    }
}

/// How far the letter moves the pen: the last word on it, or not at all.
pub open spec fn advance(advances: Seq<(char, u16)>, letter: char) -> int
    decreases advances.len(),
{
    if advances.len() == 0 {
        0
    } else if advances.last().0 == letter {
        advances.last().1 as int
    } else {
        advance(advances.drop_last(), letter)
    }
}

/// How much closer or further two letters stand.
pub open spec fn kern(kerns: Seq<(char, char, i16)>, left: char, right: char) -> int
    decreases kerns.len(),
{
    if kerns.len() == 0 {
        0
    } else if kerns.last().0 == left && kerns.last().1 == right {
        kerns.last().2 as int
    } else {
        kern(kerns.drop_last(), left, right)
    }
}

impl Alphabet {
    /// How wide `words` are, advances and kerning included.
    pub open spec fn span(self, words: Seq<char>) -> int
        decreases words.len(),
    {
        if words.len() == 0 {
            0
        } else {
            let before = words.drop_last();
            let kerned = if before.len() > 0 {
                kern(self.kerns, before.last(), words.last())
            } else {
                0
            };
            self.span(before) + kerned + advance(self.advances, words.last())
        }
    }

    /// Whether `words` set at `size` are no wider than `room`.
    pub open spec fn fits(self, words: Seq<char>, size: int, room: int) -> bool {
        size * self.span(words) <= room * self.height
    }
}

impl Letters {
    fn advance(&self, letter: char) -> (r: u16)
        ensures
            r == advance(self.advances@, letter),
    {
        let mut i: usize = self.advances.len();
        assert(self.advances@.take(i as int) =~= self.advances@);
        while i > 0
            invariant
                i <= self.advances@.len(),
                advance(self.advances@, letter) == advance(
                    self.advances@.take(i as int),
                    letter,
                ),
            decreases i,
        {
            assert(self.advances@.take(i as int).drop_last() =~= self.advances@.take(i - 1));
            let (known, units) = self.advances[i - 1];
            if known == letter {
                return units;
            }
            i = i - 1;
        }
        0
    }

    fn kern(&self, left: char, right: char) -> (r: i16)
        ensures
            r == kern(self.kerns@, left, right),
    {
        let mut i: usize = self.kerns.len();
        assert(self.kerns@.take(i as int) =~= self.kerns@);
        while i > 0
            invariant
                i <= self.kerns@.len(),
                kern(self.kerns@, left, right) == kern(self.kerns@.take(i as int), left, right),
            decreases i,
        {
            assert(self.kerns@.take(i as int).drop_last() =~= self.kerns@.take(i - 1));
            let (first, second, units) = self.kerns[i - 1];
            if first == left && second == right {
                return units;
            }
            i = i - 1;
        }
        0
    }

    /// How wide `words` are in the face's units.
    pub fn measure(&self, words: &Vec<char>) -> (span: i128)
        ensures
            span == self@.span(words@),
            -0x8000 * words@.len() <= span <= 0x18000 * words@.len(),
    {
        let mut span: i128 = 0;
        let mut i: usize = 0;
        while i < words.len()
            invariant
                i <= words@.len(),
                span == self@.span(words@.take(i as int)),
                -0x8000 * i <= span <= 0x18000 * i,
                i <= 0xffff_ffff_ffff_ffff,
            decreases words@.len() - i,
        {
            assert(words@.take(i + 1).drop_last() =~= words@.take(i as int));
            if i > 0 {
                span = span + self.kern(words[i - 1], words[i]) as i128;
            }
            span = span + self.advance(words[i]) as i128;
            i = i + 1;
        }
        assert(words@.take(i as int) =~= words@);
        span
    }

    /// Whether `words` set at `size` are no wider than `room`.
    pub fn fit(&self, words: &Vec<char>, size: i128, room: i128) -> (r: bool)
        requires
            0 <= size <= 0x4000_0000_0000,
            -0x4000_0000_0000 <= room <= 0x1_0000_0000_0000,
        ensures
            r == self@.fits(words@, size as int, room as int),
    {
        let span: i128 = self.measure(words);
        let count: usize = words.len();
        assert(count <= 0xffff_ffff_ffff_ffff);
        let high: i128 = self.height as i128;
        assert(-0x8000_0000_0000_0000_0000 <= span <= 0x18000_0000_0000_0000_0000);
        assert(-0x4000_0000_0000_0000_0000_0000_0000_0000 <= size * span
            <= 0x6000_0000_0000_0000_0000_0000_0000_0000) by (nonlinear_arith)
            requires
                0 <= size <= 0x4000_0000_0000,
                -0x8000_0000_0000_0000_0000 <= span <= 0x18000_0000_0000_0000_0000,
        ;
        assert(-0x4000_0000_0000 * 0x10000 <= room * high <= 0x1_0000_0000_0000 * 0x10000)
            by (nonlinear_arith)
            requires
                -0x4000_0000_0000 <= room <= 0x1_0000_0000_0000,
                0 <= high <= 0xffff,
        ;
        size * span <= room * high
    }
}

/// Whether a character parts two words of a name.
pub open spec fn parts(c: char) -> bool {
    text::is_white(c) || c == '.' || c == '-'
}

/// The words that are done, and the one that is not.
pub open spec fn split_words(name: Seq<char>) -> (Seq<Seq<char>>, Seq<char>)
    decreases name.len(),
{
    if name.len() == 0 {
        (seq![], seq![])
    } else {
        let (done, open) = split_words(name.drop_last());
        if parts(name.last()) {
            (
                if open.len() > 0 {
                    done.push(open)
                } else {
                    done
                },
                seq![],
            )
        } else {
            (done, open.push(name.last()))
        }
    }
}

pub open spec fn words_of(name: Seq<char>) -> Seq<Seq<char>> {
    let (done, open) = split_words(name);
    if open.len() > 0 {
        done.push(open)
    } else {
        done
    }
}

/// The words of a name, for the deck's eyes only: a project is called
/// `agent-frow` or `ai.agent.keeb`, and on a key an inch wide those are
/// better read as words, one per line, than as one long word cut short.
/// Dots and dashes break like spaces; nothing else is touched.
pub fn name_words(name: &str) -> (words: Vec<String>)
    ensures
        text::views(words@) == words_of(name@),
{
    let all = text::chars(name);
    let mut done: Vec<String> = Vec::new();
    let mut open: Vec<char> = Vec::new();
    let mut i: usize = 0;
    assert(text::views(done@) =~= seq![]);
    while i < all.len()
        invariant
            i <= all@.len(),
            all@ == name@,
            (text::views(done@), open@) == split_words(name@.take(i as int)),
        decreases all@.len() - i,
    {
        let ghost before = done@;
        assert(name@.take(i + 1).drop_last() =~= name@.take(i as int));
        let c: char = all[i];
        if parting(c) {
            if open.len() > 0 {
                let word = text::string_of(&open, 0, open.len());
                assert(word@ =~= open@);
                done.push(word);
                assert(text::views(done@) =~= text::views(before).push(word@));
            }
            open = Vec::new();
            assert(open@ =~= seq![]);
        } else {
            open.push(c);
        }
        i = i + 1;
    }
    assert(name@.take(i as int) =~= name@);
    if open.len() > 0 {
        let ghost before = done@;
        let word = text::string_of(&open, 0, open.len());
        assert(word@ =~= open@);
        done.push(word);
        assert(text::views(done@) =~= text::views(before).push(word@));
    }
    done
}

fn parting(c: char) -> (r: bool)
    ensures
        r == parts(c),
{
    text::white(c) || c == '.' || c == '-'
}

/// The first `upto` words, wrapped greedily into lines that fit `room` at
/// `size`; nothing when a single word does not.
pub open spec fn wrapped(
    alphabet: Alphabet,
    words: Seq<Seq<char>>,
    room: int,
    size: int,
    upto: int,
) -> Option<Seq<Seq<char>>>
    decreases upto,
{
    if upto <= 0 {
        Some(seq![])
    } else {
        match wrapped(alphabet, words, room, size, upto - 1) {
            None => None,
            Some(lines) => {
                let word = words[upto - 1];
                if lines.len() > 0 && alphabet.fits(lines.last() + " "@ + word, size, room) {
                    Some(lines.drop_last().push(lines.last() + " "@ + word))
                } else if !alphabet.fits(word, size, room) {
                    None
                } else {
                    Some(lines.push(word))
                }
            },
        }
    }
}

proof fn none_stays_none(
    alphabet: Alphabet,
    words: Seq<Seq<char>>,
    room: int,
    size: int,
    upto: int,
    whole: int,
)
    requires
        upto <= whole,
        wrapped(alphabet, words, room, size, upto) is None,
    ensures
        wrapped(alphabet, words, room, size, whole) is None,
    decreases whole - upto,
{
    if upto < whole {
        none_stays_none(alphabet, words, room, size, upto, whole - 1);
    }
}

/// `words` wrapped greedily into lines that fit `room` at `size`, or `None`
/// when a single word does not.
fn wrap(letters: &Letters, words: &Vec<String>, room: i128, size: i128) -> (r: Option<Vec<String>>)
    requires
        0 <= size <= 0x4000_0000_0000,
        -0x4000_0000_0000 <= room <= 0x1_0000_0000_0000,
    ensures
        match wrapped(letters@, text::views(words@), room as int, size as int, words@.len() as int) {
            Some(lines) => r is Some && text::views(r->0@) == lines,
            None => r is None,
        },
{
    let ghost all = text::views(words@);
    let mut lines: Vec<String> = Vec::new();
    let mut i: usize = 0;
    assert(text::views(lines@) =~= seq![]);
    while i < words.len()
        invariant
            i <= words@.len(),
            all == text::views(words@),
            0 <= size <= 0x4000_0000_0000,
            -0x4000_0000_0000 <= room <= 0x1_0000_0000_0000,
            wrapped(letters@, all, room as int, size as int, i as int) == Some(
                text::views(lines@),
            ),
        decreases words@.len() - i,
    {
        let ghost so_far = lines@;
        let word = words[i].as_str();
        assert(all[i as int] == word@);
        let count: usize = lines.len();
        let mut joined = false;
        if count > 0 {
            let mut longer = lines[count - 1].clone();
            longer.push_str(" ");
            longer.push_str(word);
            assert(text::views(so_far).last() == so_far[count - 1]@);
            if letters.fit(&text::chars(longer.as_str()), size, room) {
                let _ = lines.pop();
                lines.push(longer);
                joined = true;
                assert(text::views(lines@) =~= text::views(so_far).drop_last().push(longer@));
            }
        }
        if !joined {
            if !letters.fit(&text::chars(word), size, room) {
                proof {
                    none_stays_none(
                        letters@,
                        all,
                        room as int,
                        size as int,
                        i + 1,
                        words@.len() as int,
                    );
                }
                return None;
            }
            lines.push(words[i].clone());
            assert(text::views(lines@) =~= text::views(so_far).push(word@));
        }
        i = i + 1;
    }
    Some(lines)
}

/// The floor of a size: nine twentieths of it, and no less than the smallest.
pub open spec fn floor_of(px: int) -> int {
    if px * 9 / 20 > SMALLEST {
        px * 9 / 20
    } else {
        SMALLEST as int
    }
}

/// The largest size, from `size` down a pixel at a time and above `floor`,
/// that `suits`; the floor when none does.
pub open spec fn largest(size: int, floor: int, suits: spec_fn(int) -> bool) -> int
    decreases size - floor + STEP,
{
    if size <= floor {
        floor
    } else if suits(size) {
        size
    } else {
        largest(size - STEP, floor, suits)
    }
}

/// Whether every one of `lines` fits `room` wide and all of them fit `height`
/// tall at `size`: a line is as high as its size.
pub open spec fn lines_suit(
    alphabet: Alphabet,
    lines: Seq<Seq<char>>,
    room: int,
    height: int,
    size: int,
) -> bool {
    (forall|i: int| 0 <= i < lines.len() ==> alphabet.fits(#[trigger] lines[i], size, room))
        && size * lines.len() <= height
}

/// The size `lines` are set at.
pub open spec fn lines_size(
    alphabet: Alphabet,
    lines: Seq<Seq<char>>,
    room: int,
    height: int,
    px: int,
) -> int {
    largest(px, floor_of(px), |size: int| lines_suit(alphabet, lines, room, height, size))
}

fn suit_lines(letters: &Letters, lines: &Vec<String>, room: i128, height: i128, size: i128) -> (r:
    bool)
    requires
        0 <= size <= 0x4000_0000_0000,
        -0x4000_0000_0000 <= room <= 0x1_0000_0000_0000,
    ensures
        r == lines_suit(
            letters@,
            text::views(lines@),
            room as int,
            height as int,
            size as int,
        ),
{
    let ghost all = text::views(lines@);
    let count: i128 = lines.len() as i128;
    assert(0 <= size * count <= 0x4000_0000_0000 * 0x1_0000_0000_0000_0000) by (nonlinear_arith)
        requires
            0 <= size <= 0x4000_0000_0000,
            0 <= count <= 0x1_0000_0000_0000_0000,
    ;
    if size * count > height {
        return false;
    }
    let mut i: usize = 0;
    while i < lines.len()
        invariant
            i <= lines@.len(),
            all == text::views(lines@),
            0 <= size <= 0x4000_0000_0000,
            -0x4000_0000_0000 <= room <= 0x1_0000_0000_0000,
            forall|j: int|
                0 <= j < i ==> letters@.fits(#[trigger] all[j], size as int, room as int),
        decreases lines@.len() - i,
    {
        assert(all[i as int] == lines@[i as int]@);
        if !letters.fit(&text::chars(lines[i].as_str()), size, room) {
            return false;
        }
        i = i + 1;
    }
    true
}

fn floor_below(px: i128) -> (floor: i128)
    requires
        0 <= px <= 0x4000_0000_0000,
    ensures
        floor == floor_of(px as int),
        0 <= floor <= 0x4000_0000_0000,
{
    let share: i128 = px * 9 / 20;
    if share > SMALLEST {
        share
    } else {
        SMALLEST
    }
}

/// The largest size, from `px` down to a floor, at which every one of
/// `lines` fits `room` wide and all of them fit `height` tall. At the floor,
/// whatever still does not fit is cut when drawn, as a single line is.
pub(crate) fn fit_lines(letters: &Letters, lines: &Vec<String>, room: i128, height: i128, px: i128) -> (size:
    i128)
    requires
        0 <= px <= 0x4000_0000_0000,
        -0x4000_0000_0000 <= room <= 0x1_0000_0000_0000,
    ensures
        size == lines_size(
            letters@,
            text::views(lines@),
            room as int,
            height as int,
            px as int,
        ),
        0 <= size <= 0x4000_0000_0000,
        size <= px || size == 504_000,
{
    let floor: i128 = floor_below(px);
    let ghost suits = |size: int|
        lines_suit(letters@, text::views(lines@), room as int, height as int, size);
    let mut size: i128 = px;
    while size > floor
        invariant
            floor == floor_of(px as int),
            0 <= floor <= 0x4000_0000_0000,
            size <= px <= 0x4000_0000_0000,
            -72_000 <= size,
            -0x4000_0000_0000 <= room <= 0x1_0000_0000_0000,
            suits == (|size: int|
                lines_suit(letters@, text::views(lines@), room as int, height as int, size)),
            largest(px as int, floor as int, suits) == largest(size as int, floor as int, suits),
        decreases size - floor + 72_000,
    {
        if suit_lines(letters, lines, room, height, size) {
            return size;
        }
        size = size - STEP;
    }
    floor
}

/// Whether a name's words, wrapped at `size`, are few enough lines and fit
/// `height` tall; the lines, if so.
pub open spec fn name_lines(
    alphabet: Alphabet,
    words: Seq<Seq<char>>,
    room: int,
    height: int,
    size: int,
) -> Option<Seq<Seq<char>>> {
    match wrapped(alphabet, words, room, size, words.len() as int) {
        Some(lines) => if lines.len() <= NAME_LINES && size * lines.len() <= height {
            Some(lines)
        } else {
            None
        },
        None => None,
    }
}

/// The largest size at and above `floor`, from `size` down, at which the
/// words fit, and the lines they make; one line at the floor when none does.
pub open spec fn name_set(
    alphabet: Alphabet,
    words: Seq<Seq<char>>,
    room: int,
    height: int,
    size: int,
    floor: int,
) -> (int, Seq<Seq<char>>)
    decreases size - floor + STEP,
{
    if size < floor {
        (floor, seq![text::joined_by(words, " "@)])
    } else {
        match name_lines(alphabet, words, room, height, size) {
            Some(lines) => (size, lines),
            None => name_set(alphabet, words, room, height, size - STEP, floor),
        }
    }
}

/// The largest size at which `name` fits `room` wide and `height` tall on at
/// most [`NAME_LINES`] lines, and the lines it makes: fewer, larger lines
/// win, and a word that fits no line at the floor is cut like a single
/// line would be. `None` when there are no words.
pub fn name_layout(letters: &Letters, name: &str, room: i128, height: i128, px: i128) -> (r: Option<
    (i128, Vec<String>),
>)
    requires
        0 <= px <= 0x4000_0000_0000,
        -0x4000_0000_0000 <= room <= 0x1_0000_0000_0000,
    ensures
        match r {
            Some((size, lines)) => words_of(name@).len() > 0 && (size as int, text::views(lines@))
                == name_set(
                letters@,
                words_of(name@),
                room as int,
                height as int,
                px as int,
                floor_of(px as int),
            ) && 0 <= size && (size <= px || size == 504_000) && 1 <= lines@.len() <= 3,
            None => words_of(name@).len() == 0,
        },
{
    let words = name_words(name);
    let ghost all = words_of(name@);
    assert(text::views(words@).len() == words@.len());
    if words.len() == 0 {
        return None;
    }
    let floor: i128 = floor_below(px);
    let mut size: i128 = px;
    while size >= floor
        invariant
            0 <= floor <= 0x4000_0000_0000,
            floor == floor_of(px as int),
            size <= px <= 0x4000_0000_0000,
            -72_000 <= size,
            -0x4000_0000_0000 <= room <= 0x1_0000_0000_0000,
            all == words_of(name@),
            text::views(words@) == all,
            words@.len() > 0,
            name_set(letters@, all, room as int, height as int, px as int, floor as int)
                == name_set(letters@, all, room as int, height as int, size as int, floor as int),
        decreases size - floor + 72_000,
    {
        if let Some(lines) = wrap(letters, &words, room, size) {
            let count: usize = lines.len();
            assert(text::views(lines@).len() == count);
            if count <= NAME_LINES {
                assert(0 <= size * count <= 0x4000_0000_0000 * 3) by (nonlinear_arith)
                    requires
                        0 <= size <= 0x4000_0000_0000,
                        0 <= count <= 3,
                ;
                if size * count as i128 <= height {
                    return Some((size, lines));
                }
            }
        }
        size = size - STEP;
    }
    // Nothing fits whole: one line at the floor, cut, as any long word is.
    let mut lines: Vec<String> = Vec::new();
    lines.push(text::join(&words, " "));
    assert(text::views(lines@) =~= seq![text::joined_by(all, " "@)]);
    Some((floor, lines))
}

/// A line, ready to be drawn: its letters, their size, and where they start —
/// `left` and `baseline` are in parts of a pixel, `under` to the pixel — and
/// the rows nothing is drawn outside of.
#[derive(Debug)]
pub struct Run {
    pub text: String,
    /// In parts of a pixel, [`STEP`] to the pixel.
    pub size: i128,
    pub left: i128,
    pub baseline: i128,
    pub under: i128,
    pub band: (usize, usize),
}

/// A [`Run`], its letters as a sequence.
pub ghost struct Stroke {
    pub text: Seq<char>,
    pub size: int,
    pub left: int,
    pub baseline: int,
    pub under: int,
    pub band: (usize, usize),
}

impl View for Run {
    type V = Stroke;

    open spec fn view(&self) -> Stroke {
        Stroke {
            text: self.text@,
            size: self.size as int,
            left: self.left as int,
            baseline: self.baseline as int,
            under: self.under as int,
            band: self.band,
        }
    }
}

pub open spec fn strokes(runs: Seq<Run>) -> Seq<Stroke> {
    Seq::new(runs.len(), |i: int| runs[i]@)
}

/// How wide the text may be on a key `width` wide: all but a margin on either
/// side of six hundredths, and no less than two pixels.
pub open spec fn room_of(width: int) -> int {
    STEP * width - 2 * (if 4320 * width > 2 * STEP {
        4320 * width
    } else {
        2 * STEP
    })
}

pub(crate) fn room_on(width: usize) -> (room: i128)
    requires
        width <= 0x7fff_ffff,
    ensures
        room == room_of(width as int),
        -0x4000_0000_0000 <= room <= 0x1_0000_0000_0000,
{
    let wide: i128 = width as i128;
    let share: i128 = 4320 * wide;
    let margin: i128 = if share > 2 * STEP { share } else { 2 * STEP };
    STEP * wide - 2 * margin
}

/// The size a line is set at: `size`, or as many pixels less as it takes to
/// fit, down to `floor`.
pub open spec fn line_size(
    alphabet: Alphabet,
    words: Seq<char>,
    room: int,
    floor: int,
    size: int,
) -> int
    decreases size - floor,
{
    if !alphabet.fits(words, size, room) && size - STEP >= floor {
        line_size(alphabet, words, room, floor, size - STEP)
    } else {
        size
    }
}

/// As much of a line as fits, and never less than a letter.
pub open spec fn cut(alphabet: Alphabet, words: Seq<char>, room: int, size: int) -> Seq<char>
    decreases words.len(),
{
    if !alphabet.fits(words, size, room) && words.len() > 1 {
        cut(alphabet, words.drop_last(), room, size)
    } else {
        words
    }
}

/// The least a line is shrunk to: six tenths, and no less than the smallest.
pub open spec fn line_floor(px: int) -> int {
    if px * 6 / 10 > SMALLEST {
        px * 6 / 10
    } else {
        SMALLEST as int
    }
}

/// One line, centred in the rows `band`, at `px` or as much smaller as it
/// takes to fit — down to a floor, past which the end is cut rather than
/// spilled.
pub open spec fn line(
    alphabet: Alphabet,
    width: int,
    said: Seq<char>,
    band: (usize, usize),
    px: int,
) -> Option<Stroke> {
    let words = text::trimmed(said);
    if words.len() == 0 || band.1 <= band.0 {
        None
    } else {
        let room = room_of(width);
        let size = line_size(alphabet, words, room, line_floor(px), px);
        let shown = cut(alphabet, words, room, size);
        let high = alphabet.height;
        Some(
            Stroke {
                text: shown,
                size,
                left: STEP * high * width - size * alphabet.span(shown),
                baseline: STEP * high * (band.0 + band.1) - size * high + 2 * (size
                    * alphabet.ascent),
                under: 2 * STEP * high,
                band,
            },
        )
    }
}

fn set_line(letters: &Letters, width: usize, said: &str, band: (usize, usize), px: i128) -> (r: Option<
    Run,
>)
    requires
        width <= 0x7fff_ffff,
        band.0 <= 0xffff_ffff,
        band.1 <= 0xffff_ffff,
        0 <= px <= 0x4000_0000_0000,
    ensures
        match line(letters@, width as int, said@, band, px as int) {
            Some(stroke) => r is Some && r->0@ == stroke,
            None => r is None,
        },
{
    let words = text::trim(said);
    if words.as_str().is_empty() || band.1 <= band.0 {
        return None;
    }
    let room: i128 = room_on(width);
    let share: i128 = px * 6 / 10;
    let floor: i128 = if share > SMALLEST { share } else { SMALLEST };
    let mut shown = text::chars(words.as_str());
    let ghost all = shown@;
    let mut size: i128 = px;
    while !letters.fit(&shown, size, room) && size - STEP >= floor
        invariant
            0 <= size <= px <= 0x4000_0000_0000,
            504_000 <= floor <= 0x4000_0000_0000,
            -0x4000_0000_0000 <= room <= 0x1_0000_0000_0000,
            shown@ == all,
            line_size(letters@, all, room as int, floor as int, px as int) == line_size(
                letters@,
                all,
                room as int,
                floor as int,
                size as int,
            ),
        decreases size,
    {
        size = size - STEP;
    }
    while !letters.fit(&shown, size, room) && shown.len() > 1
        invariant
            0 <= size <= 0x4000_0000_0000,
            -0x4000_0000_0000 <= room <= 0x1_0000_0000_0000,
            shown@.len() >= 1,
            cut(letters@, all, room as int, size as int) == cut(
                letters@,
                shown@,
                room as int,
                size as int,
            ),
        decreases shown@.len(),
    {
        let ghost before = shown@;
        let _ = shown.pop();
        assert(shown@ =~= before.drop_last());
    }
    let span: i128 = letters.measure(&shown);
    let count: usize = shown.len();
    assert(count <= 0xffff_ffff_ffff_ffff);
    let high: i128 = letters.height as i128;
    let wide: i128 = width as i128;
    let rise: i128 = letters.ascent as i128;
    let rows: i128 = band.0 as i128 + band.1 as i128;
    assert(-0x4000_0000_0000_0000_0000_0000_0000_0000 <= size * span
        <= 0x6000_0000_0000_0000_0000_0000_0000_0000) by (nonlinear_arith)
        requires
            0 <= size <= 0x4000_0000_0000,
            -0x8000_0000_0000_0000_0000 <= span <= 0x18000_0000_0000_0000_0000,
    ;
    assert(0 <= 72_000 * high <= 72_000 * 0xffff);
    assert(0 <= 72_000 * high * wide <= 72_000 * 0xffff * 0x7fff_ffff) by (nonlinear_arith)
        requires
            0 <= high <= 0xffff,
            0 <= wide <= 0x7fff_ffff,
    ;
    assert(0 <= 72_000 * high * rows <= 72_000 * 0xffff * 0x1_ffff_fffe) by (nonlinear_arith)
        requires
            0 <= high <= 0xffff,
            0 <= rows <= 0x1_ffff_fffe,
    ;
    assert(0 <= size * high <= 0x4000_0000_0000 * 0xffff) by (nonlinear_arith)
        requires
            0 <= size <= 0x4000_0000_0000,
            0 <= high <= 0xffff,
    ;
    assert(-0x4000_0000_0000 * 0x8000 <= size * rise <= 0x4000_0000_0000 * 0x8000) by (nonlinear_arith)
        requires
            0 <= size <= 0x4000_0000_0000,
            -0x8000 <= rise <= 0x8000,
    ;
    let shown_text = text::string_of(&shown, 0, shown.len());
    assert(shown_text@ =~= shown@);
    Some(
        Run {
            text: shown_text,
            size,
            left: STEP * high * wide - size * span,
            baseline: STEP * high * rows - size * high + 2 * (size * rise),
            under: 144_000 * high,
            band,
        },
    )
}

/// The row nearest a place counted in half parts of a pixel.
pub open spec fn row_at(twice: int) -> int {
    (twice + STEP) / (2 * STEP)
}

/// Twice where a block `high` tall starts, centred in `band`.
pub open spec fn top_of(band: (usize, usize), high: int) -> int {
    let room = STEP * (band.1 - band.0);
    2 * STEP * band.0 + (if room > high {
        room - high
    } else {
        0
    })
}

/// The rows between two places, no further than the end of `band`.
pub open spec fn rows_between(band: (usize, usize), from: int, to: int) -> (usize, usize) {
    let end = row_at(to);
    (
        row_at(from) as usize,
        if end > band.1 {
            band.1
        } else {
            end as usize
        },
    )
}

/// How tall the first `upto` lines are, each at its own tenths of `size`.
pub open spec fn stacked(lines: Seq<(Seq<char>, int)>, size: int, upto: int) -> int
    decreases upto,
{
    if upto <= 0 {
        0
    } else {
        stacked(lines, size, upto - 1) + size * lines[upto - 1].1 / 10
    }
}

/// Lines at their own shares of one size, one under the other, the block
/// centred in `band`. Each line is drawn in its own rows, so it is centred in
/// its own height rather than the block's.
pub open spec fn block(
    alphabet: Alphabet,
    width: int,
    lines: Seq<(Seq<char>, int)>,
    band: (usize, usize),
    size: int,
    upto: int,
) -> Seq<Stroke>
    decreases upto,
{
    if upto <= 0 {
        seq![]
    } else {
        let before = block(alphabet, width, lines, band, size, upto - 1);
        let top = top_of(band, stacked(lines, size, lines.len() as int));
        let from = top + 2 * stacked(lines, size, upto - 1);
        let to = top + 2 * stacked(lines, size, upto);
        let (said, share) = lines[upto - 1];
        match line(alphabet, width, said, rows_between(band, from, to), size * share / 10) {
            Some(stroke) => before.push(stroke),
            None => before,
        }
    }
}

/// Lines of one size.
pub open spec fn even(lines: Seq<Seq<char>>) -> Seq<(Seq<char>, int)> {
    Seq::new(lines.len(), |i: int| (lines[i], 10int))
}

pub open spec fn shared(lines: Seq<(String, i128)>) -> Seq<(Seq<char>, int)> {
    Seq::new(lines.len(), |i: int| (lines[i].0@, lines[i].1 as int))
}

proof fn stacked_bound(lines: Seq<(Seq<char>, int)>, size: int, upto: int)
    requires
        0 <= upto <= lines.len(),
        0 <= size <= 0x4000_0000_0000,
        forall|i: int| 0 <= i < lines.len() ==> 0 <= (#[trigger] lines[i]).1 <= 10,
    ensures
        0 <= stacked(lines, size, upto) <= 0x4000_0000_0000 * upto,
        upto > 0 ==> 0 <= size * lines[upto - 1].1 / 10 <= 0x4000_0000_0000,
    decreases upto,
{
    if upto > 0 {
        stacked_bound(lines, size, upto - 1);
        let share = lines[upto - 1].1;
        assert(0 <= size * share <= size * 10) by (nonlinear_arith)
            requires
                0 <= size,
                0 <= share <= 10,
        ;
    }
}

fn row_near(twice: i128) -> (row: usize)
    requires
        0 <= twice <= 0x2_0000_0000_0000,
    ensures
        row == row_at(twice as int),
        row <= 0xffff_ffff,
{
    ((twice + STEP) / (2 * STEP)) as usize
}

pub proof fn stacked_at_most(lines: Seq<(Seq<char>, int)>, size: int, upto: int)
    requires
        0 <= upto <= lines.len(),
        0 <= size <= 0x4000_0000_0000,
        forall|i: int| 0 <= i < lines.len() ==> 0 <= (#[trigger] lines[i]).1 <= 10,
    ensures
        0 <= stacked(lines, size, upto) <= size * upto,
    decreases upto,
{
    if upto > 0 {
        stacked_at_most(lines, size, upto - 1);
        let share = lines[upto - 1].1;
        assert(0 <= size * share <= size * 10) by (nonlinear_arith)
            requires
                0 <= size,
                0 <= share <= 10,
        ;
        assert(size * (upto - 1) + size == size * upto) by (nonlinear_arith);
    }
}

/// [`block`] of a few lines.
pub(crate) fn set_block(
    letters: &Letters,
    width: usize,
    lines: &Vec<(String, i128)>,
    band: (usize, usize),
    size: i128,
) -> (runs: Vec<Run>)
    requires
        width <= 0x7fff_ffff,
        band.0 <= band.1 <= 0x7fff_ffff,
        lines@.len() <= 3,
        0 <= size <= 0x4000_0000_0000,
        forall|i: int| 0 <= i < lines@.len() ==> 0 <= (#[trigger] lines@[i]).1 <= 10,
        top_of(band, stacked(shared(lines@), size as int, lines@.len() as int)) + 2 * stacked(
            shared(lines@),
            size as int,
            lines@.len() as int,
        ) <= 0x2_0000_0000_0000,
    ensures
        strokes(runs@) == block(
            letters@,
            width as int,
            shared(lines@),
            band,
            size as int,
            lines@.len() as int,
        ),
{
    let ghost all = shared(lines@);
    let ghost count = lines@.len() as int;
    let mut high: i128 = 0;
    let mut i: usize = 0;
    while i < lines.len()
        invariant
            i <= lines@.len() <= 3,
            all == shared(lines@),
            0 <= size <= 0x4000_0000_0000,
            forall|j: int| 0 <= j < lines@.len() ==> 0 <= (#[trigger] lines@[j]).1 <= 10,
            high == stacked(all, size as int, i as int),
            0 <= high <= 0x4000_0000_0000 * i,
        decreases lines@.len() - i,
    {
        let share: i128 = lines[i].1;
        proof {
            assert(all[i as int] == (lines@[i as int].0@, share as int));
            stacked_bound(all, size as int, i + 1);
            assert(0 <= size * share <= 0x4000_0000_0000 * 10) by (nonlinear_arith)
                requires
                    0 <= size <= 0x4000_0000_0000,
                    0 <= share <= 10,
            ;
        }
        high = high + size * share / 10;
        i = i + 1;
    }
    let room: i128 = STEP * (band.1 as i128 - band.0 as i128);
    let spare: i128 = if room > high { room - high } else { 0 };
    let top: i128 = 2 * STEP * band.0 as i128 + spare;
    assert(top == top_of(band, high as int));
    let mut runs: Vec<Run> = Vec::new();
    let mut from: i128 = top;
    let mut i: usize = 0;
    assert(strokes(runs@) =~= seq![]);
    while i < lines.len()
        invariant
            i <= lines@.len() <= 3,
            count == lines@.len(),
            all == shared(lines@),
            width <= 0x7fff_ffff,
            band.0 <= band.1 <= 0x7fff_ffff,
            0 <= size <= 0x4000_0000_0000,
            forall|j: int| 0 <= j < lines@.len() ==> 0 <= (#[trigger] lines@[j]).1 <= 10,
            top == top_of(band, stacked(all, size as int, count)),
            0 <= top,
            top + 2 * stacked(all, size as int, count) <= 0x2_0000_0000_0000,
            from == top + 2 * stacked(all, size as int, i as int),
            strokes(runs@) == block(letters@, width as int, all, band, size as int, i as int),
        decreases lines@.len() - i,
    {
        let share: i128 = lines[i].1;
        proof {
            assert(all[i as int] == (lines@[i as int].0@, share as int));
            stacked_bound(all, size as int, i as int);
            stacked_bound(all, size as int, i + 1);
            stacks_grow(all, size as int, i + 1, count);
            assert(0 <= size * share <= 0x4000_0000_0000 * 10) by (nonlinear_arith)
                requires
                    0 <= size <= 0x4000_0000_0000,
                    0 <= share <= 10,
            ;
        }
        let px: i128 = size * share / 10;
        let to: i128 = from + 2 * px;
        let end: usize = row_near(to);
        let rows: (usize, usize) = (row_near(from), if end > band.1 { band.1 } else { end });
        let ghost before = runs@;
        if let Some(run) = set_line(letters, width, lines[i].0.as_str(), rows, px) {
            runs.push(run);
            assert(strokes(runs@) =~= strokes(before).push(run@));
        }
        from = to;
        i = i + 1;
    }
    runs
}

proof fn stacks_grow(lines: Seq<(Seq<char>, int)>, size: int, less: int, more: int)
    requires
        0 <= less <= more <= lines.len(),
        0 <= size <= 0x4000_0000_0000,
        forall|i: int| 0 <= i < lines.len() ==> 0 <= (#[trigger] lines[i]).1 <= 10,
    ensures
        stacked(lines, size, less) <= stacked(lines, size, more),
    decreases more,
{
    if less < more {
        stacks_grow(lines, size, less, more - 1);
        stacked_bound(lines, size, more);
    }
}

/// Whether every line of a stack — each set at its share of `size` — fits
/// `room` wide, and all of them together fit `height` tall.
pub open spec fn stack_suits(
    alphabet: Alphabet,
    lines: Seq<(Seq<char>, int)>,
    room: int,
    height: int,
    size: int,
) -> bool {
    (forall|i: int|
        0 <= i < lines.len() ==> alphabet.fits(
            (#[trigger] lines[i]).0,
            size * lines[i].1 / 10,
            room,
        )) && stacked(lines, size, lines.len() as int) <= height
}

/// The size a stack is set at.
pub open spec fn stack_size(
    alphabet: Alphabet,
    lines: Seq<(Seq<char>, int)>,
    room: int,
    height: int,
    px: int,
) -> int {
    largest(px, floor_of(px), |size: int| stack_suits(alphabet, lines, room, height, size))
}

fn suit_stack(
    letters: &Letters,
    lines: &Vec<(String, i128)>,
    room: i128,
    height: i128,
    size: i128,
) -> (r: bool)
    requires
        0 <= size <= 0x4000_0000_0000,
        -0x4000_0000_0000 <= room <= 0x1_0000_0000_0000,
        lines@.len() <= 3,
        forall|i: int| 0 <= i < lines@.len() ==> 0 <= (#[trigger] lines@[i]).1 <= 10,
    ensures
        r == stack_suits(letters@, shared(lines@), room as int, height as int, size as int),
{
    let ghost all = shared(lines@);
    let mut high: i128 = 0;
    let mut wide = false;
    let mut i: usize = 0;
    while i < lines.len()
        invariant
            i <= lines@.len() <= 3,
            all == shared(lines@),
            0 <= size <= 0x4000_0000_0000,
            -0x4000_0000_0000 <= room <= 0x1_0000_0000_0000,
            forall|j: int| 0 <= j < lines@.len() ==> 0 <= (#[trigger] lines@[j]).1 <= 10,
            high == stacked(all, size as int, i as int),
            0 <= high <= 0x4000_0000_0000 * i,
            wide == exists|j: int|
                0 <= j < i && !letters@.fits(
                    (#[trigger] all[j]).0,
                    size * all[j].1 / 10,
                    room as int,
                ),
        decreases lines@.len() - i,
    {
        let share: i128 = lines[i].1;
        proof {
            assert(all[i as int] == (lines@[i as int].0@, share as int));
            stacked_bound(all, size as int, i + 1);
            assert(0 <= size * share <= 0x4000_0000_0000 * 10) by (nonlinear_arith)
                requires
                    0 <= size <= 0x4000_0000_0000,
                    0 <= share <= 10,
            ;
        }
        let px: i128 = size * share / 10;
        if !letters.fit(&text::chars(lines[i].0.as_str()), px, room) {
            wide = true;
        }
        high = high + px;
        i = i + 1;
    }
    !wide && high <= height
}

/// The largest size, from `px` down to a floor, at which every line of a
/// stack fits `room` wide, and all of them together fit `height` tall. At the
/// floor, whatever still does not fit is cut when drawn, as a single line is.
pub(crate) fn fit_stack(
    letters: &Letters,
    lines: &Vec<(String, i128)>,
    room: i128,
    height: i128,
    px: i128,
) -> (size: i128)
    requires
        0 <= px <= 0x4000_0000_0000,
        -0x4000_0000_0000 <= room <= 0x1_0000_0000_0000,
        lines@.len() <= 3,
        forall|i: int| 0 <= i < lines@.len() ==> 0 <= (#[trigger] lines@[i]).1 <= 10,
    ensures
        size == stack_size(letters@, shared(lines@), room as int, height as int, px as int),
        size <= px || size == 504_000,
        0 <= size,
{
    let floor: i128 = floor_below(px);
    let ghost suits = |size: int|
        stack_suits(letters@, shared(lines@), room as int, height as int, size);
    let mut size: i128 = px;
    while size > floor
        invariant
            floor == floor_of(px as int),
            0 <= floor <= 0x4000_0000_0000,
            size <= px <= 0x4000_0000_0000,
            -72_000 <= size,
            -0x4000_0000_0000 <= room <= 0x1_0000_0000_0000,
            lines@.len() <= 3,
            forall|i: int| 0 <= i < lines@.len() ==> 0 <= (#[trigger] lines@[i]).1 <= 10,
            suits == (|size: int|
                stack_suits(letters@, shared(lines@), room as int, height as int, size)),
            largest(px as int, floor as int, suits) == largest(size as int, floor as int, suits),
        decreases size - floor + 72_000,
    {
        if suit_stack(letters, lines, room, height, size) {
            return size;
        }
        size = size - STEP;
    }
    floor
}

proof fn split_again(a: Seq<char>, sep: char, b: Seq<char>)
    requires
        parts(sep),
    ensures
        split_words(a.push(sep) + b) == (words_of(a) + split_words(b).0, split_words(b).1),
    decreases b.len(),
{
    let whole = a.push(sep) + b;
    if b.len() == 0 {
        assert(whole =~= a.push(sep));
        assert(a.push(sep).drop_last() =~= a);
        assert(words_of(a) + split_words(b).0 =~= words_of(a));
    } else {
        assert(whole.drop_last() =~= a.push(sep) + b.drop_last());
        assert(whole.last() == b.last());
        split_again(a, sep, b.drop_last());
        let (done, open) = split_words(b.drop_last());
        assert((words_of(a) + done).push(open) =~= words_of(a) + done.push(open));
    }
}

proof fn one_word(word: Seq<char>)
    requires
        forall|i: int| 0 <= i < word.len() ==> !parts(#[trigger] word[i]),
    ensures
        split_words(word).0 == Seq::<Seq<char>>::empty(),
        split_words(word).1 == word,
    decreases word.len(),
{
    if word.len() > 0 {
        one_word(word.drop_last());
        assert(word.last() == word[word.len() - 1]);
        assert(word =~= word.drop_last().push(word.last()));
    } else {
        assert(word =~= seq![]);
    }
}

/// **A name comes apart at its spaces, dots and hyphens, and nowhere else**:
/// what stands on either side of one comes apart on its own, a stretch without
/// one is a word, and nothing is none.
pub proof fn a_name_comes_apart_at_its_separators(
    a: Seq<char>,
    sep: char,
    b: Seq<char>,
    word: Seq<char>,
)
    requires
        text::is_white(sep) || sep == '.' || sep == '-',
        word.len() > 0,
        forall|i: int|
            0 <= i < word.len() ==> !text::is_white(#[trigger] word[i]) && word[i] != '.' && word[i]
                != '-',
    ensures
        words_of(a.push(sep) + b) == words_of(a) + words_of(b),
        words_of(word) == seq![word],
        words_of(Seq::<char>::empty()) == Seq::<Seq<char>>::empty(),
{
    split_again(a, sep, b);
    let (done, open) = split_words(b);
    assert((words_of(a) + done).push(open) =~= words_of(a) + done.push(open));
    assert forall|i: int| 0 <= i < word.len() implies !parts(#[trigger] word[i]) by {
        assert(!text::is_white(word[i]) && word[i] != '.' && word[i] != '-');
    }
    one_word(word);
    assert(words_of(word) =~= seq![word]);
}

proof fn joining_one_more(words: Seq<Seq<char>>, one: Seq<char>)
    ensures
        text::joined_by(words.push(one), " "@) == (if words.len() == 0 {
            one
        } else {
            text::joined_by(words, " "@) + " "@ + one
        }),
{
    assert(words.push(one).drop_last() =~= words);
    reveal_with_fuel(text::joined_by, 2);
}

/// **Wrapping breaks lines between words**: the lines read one after the other
/// are the words, every line fits its room, and it fails only where some word
/// alone does not.
pub proof fn wrapping_breaks_between_words(
    alphabet: Alphabet,
    words: Seq<Seq<char>>,
    room: int,
    size: int,
    upto: int,
)
    requires
        0 <= upto <= words.len(),
    ensures
        match wrapped(alphabet, words, room, size, upto) {
            Some(lines) => {
                &&& text::joined_by(lines, " "@) == text::joined_by(words.take(upto), " "@)
                &&& forall|i: int|
                    0 <= i < lines.len() ==> size * alphabet.span(#[trigger] lines[i]) <= room
                        * alphabet.height
                &&& lines.len() <= upto
                &&& lines.len() == 0 <==> upto == 0
            },
            None => exists|i: int|
                0 <= i < upto && size * alphabet.span(#[trigger] words[i]) > room
                    * alphabet.height,
        },
    decreases upto,
{
    if upto > 0 {
        wrapping_breaks_between_words(alphabet, words, room, size, upto - 1);
        let word = words[upto - 1];
        assert(words.take(upto) =~= words.take(upto - 1).push(word));
        joining_one_more(words.take(upto - 1), word);
        match wrapped(alphabet, words, room, size, upto - 1) {
            Some(lines) => {
                if lines.len() > 0 && alphabet.fits(lines.last() + " "@ + word, size, room) {
                    let (head, last) = (lines.drop_last(), lines.last());
                    assert(lines =~= head.push(last));
                    joining_one_more(head, last);
                    joining_one_more(head, last + " "@ + word);
                    let all = head.push(last + " "@ + word);
                    assert(text::joined_by(all, " "@) =~= text::joined_by(lines, " "@) + " "@ + word);
                    assert forall|i: int| 0 <= i < all.len() implies size * alphabet.span(
                        #[trigger] all[i],
                    ) <= room * alphabet.height by {
                        if i < head.len() {
                            assert(all[i] == lines[i]);
                        }
                    }
                } else if alphabet.fits(word, size, room) {
                    joining_one_more(lines, word);
                    let all = lines.push(word);
                    assert forall|i: int| 0 <= i < all.len() implies size * alphabet.span(
                        #[trigger] all[i],
                    ) <= room * alphabet.height by {
                        if i < lines.len() {
                            assert(all[i] == lines[i]);
                        }
                    }
                } else {
                    assert(size * alphabet.span(words[upto - 1]) > room * alphabet.height);
                }
            },
            None => {},
        }
    } else {
        assert(words.take(0) =~= seq![]);
    }
}

/// **The largest size that suits is taken**, going down by one step from the
/// size asked for and never under the floor.
pub proof fn the_largest_that_suits_is_taken(
    px: int,
    floor: int,
    suits: spec_fn(int) -> bool,
    steps: int,
)
    requires
        steps >= 0,
    ensures
        ({
            let size = largest(px, floor, suits);
            let bigger = px - 72_000 * steps;
            &&& floor <= size
            &&& size <= px || size == floor
            &&& size > floor ==> suits(size)
            &&& bigger > size ==> !suits(bigger)
            &&& px > floor && suits(px) ==> size == px
        }),
    decreases px - floor + STEP,
{
    if px > floor && !suits(px) {
        if steps > 0 {
            the_largest_that_suits_is_taken(px - STEP, floor, suits, steps - 1);
        } else {
            the_largest_that_suits_is_taken(px - STEP, floor, suits, 0);
        }
    }
}

/// **A name is set as large as it fits**: in no more than three lines that
/// stand in the height, of all its words; at any larger size it would not have
/// fitted. Where it fits at none it is one line, as small as a name may be.
pub proof fn a_name_is_set_as_large_as_it_fits(
    alphabet: Alphabet,
    words: Seq<Seq<char>>,
    room: int,
    height: int,
    px: int,
    floor: int,
    steps: int,
)
    requires
        steps >= 0,
    ensures
        ({
            let (size, lines) = name_set(alphabet, words, room, height, px, floor);
            let bigger = px - 72_000 * steps;
            &&& text::joined_by(lines, " "@) == text::joined_by(words, " "@)
            &&& lines.len() <= 3
            &&& size >= floor
            &&& bigger > size ==> name_lines(alphabet, words, room, height, bigger) is None
            &&& size > floor ==> size * lines.len() <= height && forall|i: int|
                0 <= i < lines.len() ==> size * alphabet.span(#[trigger] lines[i]) <= room
                    * alphabet.height
        }),
    decreases px - floor + STEP,
{
    if px < floor {
        let one = text::joined_by(words, " "@);
        joining_one_more(seq![], one);
        assert(seq![one] =~= Seq::<Seq<char>>::empty().push(one));
    } else {
        wrapping_breaks_between_words(alphabet, words, room, px, words.len() as int);
        assert(words.take(words.len() as int) =~= words);
        if name_lines(alphabet, words, room, height, px) is None {
            if steps > 0 {
                a_name_is_set_as_large_as_it_fits(
                    alphabet,
                    words,
                    room,
                    height,
                    px - STEP,
                    floor,
                    steps - 1,
                );
            } else {
                a_name_is_set_as_large_as_it_fits(
                    alphabet,
                    words,
                    room,
                    height,
                    px - STEP,
                    floor,
                    0,
                );
            }
        }
    }
}

/// **A line is cut as little as it takes**: what is shown is how the line
/// begins, it fits or is a single letter, and with one letter more it would
/// not fit.
pub proof fn a_line_is_cut_as_little_as_it_takes(
    alphabet: Alphabet,
    words: Seq<char>,
    room: int,
    size: int,
)
    ensures
        ({
            let shown = cut(alphabet, words, room, size);
            &&& shown.len() <= words.len()
            &&& shown == words.take(shown.len() as int)
            &&& words.len() > 0 ==> shown.len() > 0
            &&& size * alphabet.span(shown) <= room * alphabet.height || shown.len() <= 1
            &&& shown.len() < words.len() ==> size * alphabet.span(
                words.take(shown.len() as int + 1),
            ) > room * alphabet.height
        }),
    decreases words.len(),
{
    assert(words.take(words.len() as int) =~= words);
    if !alphabet.fits(words, size, room) && words.len() > 1 {
        let fewer = words.drop_last();
        a_line_is_cut_as_little_as_it_takes(alphabet, fewer, room, size);
        let shown = cut(alphabet, fewer, room, size);
        assert(fewer.take(shown.len() as int) =~= words.take(shown.len() as int));
        if shown.len() < fewer.len() {
            assert(fewer.take(shown.len() as int + 1) =~= words.take(shown.len() as int + 1));
        } else {
            assert(words.take(shown.len() as int + 1) =~= words);
        }
    }
}

/// **A line stands in the middle of its band**: as far from the left edge as
/// from the right, and as far under the top of its band as over the bottom.
/// A blank line, and one without a band, is not drawn.
pub proof fn a_line_stands_in_the_middle(
    alphabet: Alphabet,
    width: int,
    said: Seq<char>,
    band: (usize, usize),
    px: int,
)
    ensures
        match line(alphabet, width, said, band, px) {
            Some(stroke) => {
                let dots = 72_000 * 2 * alphabet.height;
                let wide = 2 * (stroke.size * alphabet.span(stroke.text));
                let top = stroke.baseline - 2 * (stroke.size * alphabet.ascent);
                let bottom = top + 2 * (stroke.size * alphabet.height);
                &&& stroke.under == dots
                &&& stroke.left + (stroke.left + wide) == dots * width
                &&& top + bottom == dots * (band.0 + band.1)
                &&& stroke.band == band
                &&& text::trimmed(said).len() > 0 && band.0 < band.1
                &&& stroke.text == text::trimmed(said).take(stroke.text.len() as int)
                &&& stroke.text.len() > 0
            },
            None => text::trimmed(said).len() == 0 || band.1 <= band.0,
        },
{
    let words = text::trimmed(said);
    if words.len() > 0 && band.0 < band.1 {
        let room = room_of(width);
        let size = line_size(alphabet, words, room, line_floor(px), px);
        let shown = cut(alphabet, words, room, size);
        a_line_is_cut_as_little_as_it_takes(alphabet, words, room, size);
        let high = alphabet.height;
        let sum = band.0 + band.1;
        assert(2 * (STEP * high * width) == (72_000 * 2 * high) * width) by (nonlinear_arith)
            requires
                STEP == 72_000,
        ;
        assert(2 * (STEP * high * sum) == (72_000 * 2 * high) * sum) by (nonlinear_arith)
            requires
                STEP == 72_000,
        ;
    }
}

/// **The letters of a line follow one another**: two stretches together are as
/// wide as both and the space the pair between them is drawn closer or wider.
pub proof fn letters_follow_one_another(alphabet: Alphabet, a: Seq<char>, b: Seq<char>)
    requires
        a.len() > 0,
        b.len() > 0,
    ensures
        alphabet.span(a + b) == alphabet.span(a) + kern(alphabet.kerns, a.last(), b[0])
            + alphabet.span(b),
        b.len() == 1 ==> alphabet.span(b) == advance(alphabet.advances, b[0]),
    decreases b.len(),
{
    let both = a + b;
    assert(both.drop_last() =~= a + b.drop_last());
    assert(both.last() == b.last());
    if b.len() == 1 {
        assert(a + b.drop_last() =~= a);
        assert(b.drop_last() =~= seq![]);
        assert(alphabet.span(b.drop_last()) == 0);
    } else {
        letters_follow_one_another(alphabet, a, b.drop_last());
        assert((a + b.drop_last()).last() == b.drop_last().last());
    }
}

/// **Room is left at both sides**: six hundredths of the width each, two dots
/// at least; a name is never set under nine twentieths of the size it is asked
/// in nor a line under six tenths, and neither under seven dots.
pub proof fn room_is_left_at_both_sides(width: int, px: int)
    requires
        0 <= width,
        0 <= px,
    ensures
        100 * room_of(width) <= 88 * (72_000 * width),
        room_of(width) <= 72_000 * (width - 4),
        100 * room_of(width) == 88 * (72_000 * width) || room_of(width) == 72_000 * (width - 4),
        floor_of(px) >= 504_000 && 20 * floor_of(px) > 9 * px - 20,
        floor_of(px) == 504_000 || 20 * floor_of(px) <= 9 * px,
        line_floor(px) >= 504_000 && 10 * line_floor(px) > 6 * px - 10,
        line_floor(px) == 504_000 || 10 * line_floor(px) <= 6 * px,
{
}

/// **A block stands in the middle of its band**: as much is left over above it
/// as below where it is not as high as the band, and else it begins at the top.
pub proof fn a_block_stands_in_the_middle(band: (usize, usize), high: int)
    ensures
        ({
            let (from, to) = (144_000 * band.0, 144_000 * band.1);
            let top = top_of(band, high);
            &&& 72_000 * (band.1 - band.0) > high ==> top - from == to - (top + 2 * high)
            &&& 72_000 * (band.1 - band.0) <= high ==> top == from
        }),
{
}

/// **A line is set smaller only as long as it has to be**: it fits at the size
/// it gets, or a step smaller would be under the floor; and a step larger it
/// did not fit.
pub proof fn a_line_is_set_as_large_as_it_fits(
    alphabet: Alphabet,
    words: Seq<char>,
    room: int,
    floor: int,
    px: int,
    steps: int,
)
    requires
        steps >= 0,
    ensures
        ({
            let size = line_size(alphabet, words, room, floor, px);
            let bigger = px - 72_000 * steps;
            &&& size <= px
            &&& alphabet.fits(words, size, room) || size - 72_000 < floor
            &&& bigger > size ==> !alphabet.fits(words, bigger, room)
        }),
    decreases px - floor,
{
    if !alphabet.fits(words, px, room) && px - STEP >= floor {
        a_line_is_set_as_large_as_it_fits(
            alphabet,
            words,
            room,
            floor,
            px - STEP,
            if steps > 0 {
                steps - 1
            } else {
                0
            },
        );
    }
}

} // verus!
