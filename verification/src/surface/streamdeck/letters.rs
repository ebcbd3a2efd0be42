//! Which letters a key's words are made of, so that a face is asked for those
//! and no others.

use vstd::prelude::*;

use super::canvas::{Label, Saying, band_of, fixed_lines, gauge_text, typeset};
use super::layout::{
    Alphabet, STEP, advance, block, cut, even, floor_of, kern, largest, line, line_floor,
    line_size, lines_size, lines_suit, name_lines, name_set, room_of, rows_between, split_words,
    stack_size, stack_suits, stacked, top_of, words_of, wrapped,
};
use crate::text::{self, joined_by, trimmed, trimmed_end, trimmed_start};

verus! {

/// Everything a label may write: its own characters, and the space between two
/// of a name's words.
pub open spec fn written(saying: Saying) -> Seq<char> {
    match saying {
        Saying::Blank | Saying::Up | Saying::Down => seq![],
        Saying::Name(name) => name + " "@,
        Saying::Status { state, elapsed } => state + elapsed,
        Saying::Wait { state, held } => state + held,
        Saying::Enter => "Enter"@,
        Saying::Gauge { name, value } => name + gauge_text(value),
    }
}

/// Whether `text` is made of `letters` alone.
pub open spec fn made_of(text: Seq<char>, letters: Seq<char>) -> bool {
    forall|i: int| 0 <= i < text.len() ==> letters.contains(#[trigger] text[i])
}

/// Adds the letters of `text` that are not there yet.
fn collect(letters: &mut Vec<char>, text: &str)
    requires
        old(letters)@.no_duplicates(),
    ensures
        final(letters)@.no_duplicates(),
        forall|c: char| #[trigger]
            final(letters)@.contains(c) <==> old(letters)@.contains(c) || text@.contains(c),
{
    let all = text::chars(text);
    let mut i: usize = 0;
    while i < all.len()
        invariant
            i <= all@.len(),
            all@ == text@,
            letters@.no_duplicates(),
            forall|c: char| #[trigger]
                letters@.contains(c) <==> old(letters)@.contains(c) || text@.take(
                    i as int,
                ).contains(c),
        decreases all@.len() - i,
    {
        let letter: char = all[i];
        let ghost before = letters@;
        let mut known = false;
        let mut j: usize = 0;
        while j < letters.len() && !known
            invariant
                j <= letters@.len(),
                known == letters@.take(j as int).contains(letter),
            decreases letters@.len() - j,
        {
            known = letters[j] == letter;
            proof {
                let (fewer, more) = (letters@.take(j as int), letters@.take(j + 1));
                assert(more =~= fewer.push(letters@[j as int]));
                assert(more[j as int] == letters@[j as int]);
                if more.contains(letter) {
                    let k = choose|k: int| 0 <= k < more.len() && more[k] == letter;
                    if k < j {
                        assert(fewer[k] == letter);
                    }
                }
            }
            j = j + 1;
        }
        proof {
            if letters@.contains(letter) && !known {
                let k = choose|k: int| 0 <= k < letters@.len() && letters@[k] == letter;
                assert(letters@.take(j as int)[k] == letter);
            }
            if known {
                let k = choose|k: int|
                    0 <= k < letters@.take(j as int).len() && letters@.take(j as int)[k] == letter;
                assert(letters@[k] == letter);
            }
        }
        if !known {
            letters.push(letter);
        }
        proof {
            let (fewer, more) = (text@.take(i as int), text@.take(i + 1));
            assert(more =~= fewer.push(letter));
            assert forall|c: char| #[trigger] letters@.contains(c) <==> old(letters)@.contains(c)
                || more.contains(c) by {
                one_more(fewer, letter, c);
                if !known {
                    one_more(before, letter, c);
                }
            }
        }
        i = i + 1;
    }
    assert(text@.take(i as int) =~= text@);
}

proof fn one_more(all: Seq<char>, one: char, c: char)
    ensures
        all.push(one).contains(c) <==> all.contains(c) || c == one,
{
    let more = all.push(one);
    assert(more[all.len() as int] == one);
    if all.contains(c) {
        let i = choose|i: int| 0 <= i < all.len() && all[i] == c;
        assert(more[i] == c);
    }
    if more.contains(c) {
        let i = choose|i: int| 0 <= i < more.len() && more[i] == c;
        if i < all.len() {
            assert(all[i] == c);
        }
    }
}

proof fn either(left: Seq<char>, right: Seq<char>, c: char)
    ensures
        (left + right).contains(c) <==> left.contains(c) || right.contains(c),
{
    let both = left + right;
    if left.contains(c) {
        let i = choose|i: int| 0 <= i < left.len() && left[i] == c;
        assert(both[i] == c);
    }
    if right.contains(c) {
        let i = choose|i: int| 0 <= i < right.len() && right[i] == c;
        assert(both[left.len() + i] == c);
    }
    if both.contains(c) {
        let i = choose|i: int| 0 <= i < both.len() && both[i] == c;
        if i < left.len() {
            assert(left[i] == c);
        } else {
            assert(right[i - left.len()] == c);
        }
    }
}

/// Every letter a label may write, once each.
pub fn letters_in(label: &Label) -> (letters: Vec<char>)
    ensures
        letters@.no_duplicates(),
        forall|c: char| #[trigger] letters@.contains(c) <==> written(label@).contains(c),
{
    let mut letters: Vec<char> = Vec::new();
    match label {
        Label::Blank | Label::Up | Label::Down => {},
        Label::Name(name) => {
            collect(&mut letters, name.as_str());
            collect(&mut letters, " ");
            proof {
                written_twice(letters@, name@, " "@);
            }
        },
        Label::Status { state, elapsed } => {
            collect(&mut letters, state);
            collect(&mut letters, elapsed.as_str());
            proof {
                written_twice(letters@, state@, elapsed@);
            }
        },
        Label::Wait { state, held } => {
            collect(&mut letters, state);
            collect(&mut letters, held.as_str());
            proof {
                written_twice(letters@, state@, held@);
            }
        },
        Label::Enter => collect(&mut letters, "Enter"),
        Label::Gauge { name, value } => {
            collect(&mut letters, name);
            let shown: String = match value {
                Some(value) => {
                    let mut shown = text::number(*value as u64);
                    shown.push_str("%");
                    shown
                },
                None => "—".to_owned(),
            };
            assert(shown@ =~= gauge_text(*value));
            collect(&mut letters, shown.as_str());
            proof {
                written_twice(letters@, name@, shown@);
            }
        },
    }
    letters
}

proof fn written_twice(letters: Seq<char>, left: Seq<char>, right: Seq<char>)
    requires
        forall|c: char| #[trigger] letters.contains(c) <==> left.contains(c) || right.contains(c),
    ensures
        forall|c: char| #[trigger] letters.contains(c) <==> (left + right).contains(c),
{
    assert forall|c: char| #[trigger] letters.contains(c) <==> (left + right).contains(c) by {
        either(left, right, c);
    }
}

proof fn a_part_is_made_of(part: Seq<char>, whole: Seq<char>, letters: Seq<char>, from: int)
    requires
        made_of(whole, letters),
        0 <= from,
        from + part.len() <= whole.len(),
        part == whole.subrange(from, from + part.len()),
    ensures
        made_of(part, letters),
{
    assert forall|i: int| 0 <= i < part.len() implies letters.contains(#[trigger] part[i]) by {
        assert(part[i] == whole[from + i]);
    }
}

proof fn both_made_of(left: Seq<char>, right: Seq<char>, letters: Seq<char>)
    requires
        made_of(left, letters),
        made_of(right, letters),
    ensures
        made_of(left + right, letters),
{
    let both = left + right;
    assert forall|i: int| 0 <= i < both.len() implies letters.contains(#[trigger] both[i]) by {
        if i < left.len() {
            assert(both[i] == left[i]);
        } else {
            assert(both[i] == right[i - left.len()]);
        }
    }
}

proof fn trimming_adds_nothing(said: Seq<char>, letters: Seq<char>)
    requires
        made_of(said, letters),
    ensures
        made_of(trimmed(said), letters),
{
    starts_with_its_own(said, letters);
    ends_with_its_own(trimmed_start(said), letters);
}

proof fn starts_with_its_own(said: Seq<char>, letters: Seq<char>)
    requires
        made_of(said, letters),
    ensures
        made_of(trimmed_start(said), letters),
    decreases said.len(),
{
    if said.len() > 0 && text::is_white(said[0]) {
        assert(said.skip(1) =~= said.subrange(1, said.len() as int));
        a_part_is_made_of(said.skip(1), said, letters, 1);
        starts_with_its_own(said.skip(1), letters);
    }
}

proof fn ends_with_its_own(said: Seq<char>, letters: Seq<char>)
    requires
        made_of(said, letters),
    ensures
        made_of(trimmed_end(said), letters),
    decreases said.len(),
{
    if said.len() > 0 && text::is_white(said.last()) {
        assert(said.drop_last() =~= said.subrange(0, said.len() - 1));
        a_part_is_made_of(said.drop_last(), said, letters, 0);
        ends_with_its_own(said.drop_last(), letters);
    }
}

proof fn cutting_adds_nothing(
    alphabet: Alphabet,
    said: Seq<char>,
    room: int,
    size: int,
    letters: Seq<char>,
)
    requires
        made_of(said, letters),
    ensures
        made_of(cut(alphabet, said, room, size), letters),
    decreases said.len(),
{
    if !alphabet.fits(said, size, room) && said.len() > 1 {
        assert(said.drop_last() =~= said.subrange(0, said.len() - 1));
        a_part_is_made_of(said.drop_last(), said, letters, 0);
        cutting_adds_nothing(alphabet, said.drop_last(), room, size, letters);
    }
}

/// Whether every line is made of `letters` alone.
spec fn all_made_of(lines: Seq<Seq<char>>, letters: Seq<char>) -> bool {
    forall|i: int| 0 <= i < lines.len() ==> made_of(#[trigger] lines[i], letters)
}

proof fn words_are_the_names(name: Seq<char>, letters: Seq<char>)
    requires
        made_of(name, letters),
    ensures
        all_made_of(split_words(name).0, letters),
        made_of(split_words(name).1, letters),
        all_made_of(words_of(name), letters),
    decreases name.len(),
{
    if name.len() > 0 {
        assert(name.drop_last() =~= name.subrange(0, name.len() - 1));
        a_part_is_made_of(name.drop_last(), name, letters, 0);
        words_are_the_names(name.drop_last(), letters);
        assert(letters.contains(name[name.len() - 1]));
    }
}

proof fn a_space_between(left: Seq<char>, right: Seq<char>, letters: Seq<char>)
    requires
        made_of(left, letters),
        made_of(right, letters),
        made_of(" "@, letters),
    ensures
        made_of(left + " "@ + right, letters),
{
    both_made_of(left, " "@, letters);
    both_made_of(left + " "@, right, letters);
}

proof fn wrapping_adds_only_spaces(
    alphabet: Alphabet,
    words: Seq<Seq<char>>,
    room: int,
    size: int,
    upto: int,
    letters: Seq<char>,
)
    requires
        all_made_of(words, letters),
        made_of(" "@, letters),
        upto <= words.len(),
    ensures
        wrapped(alphabet, words, room, size, upto) matches Some(lines) ==> all_made_of(
            lines,
            letters,
        ),
    decreases upto,
{
    if upto > 0 {
        wrapping_adds_only_spaces(alphabet, words, room, size, upto - 1, letters);
        if let Some(lines) = wrapped(alphabet, words, room, size, upto - 1) {
            let word = words[upto - 1];
            if lines.len() > 0 {
                a_space_between(lines[lines.len() - 1], word, letters);
            }
        }
    }
}

proof fn joining_adds_only_spaces(words: Seq<Seq<char>>, letters: Seq<char>)
    requires
        all_made_of(words, letters),
        made_of(" "@, letters),
    ensures
        made_of(joined_by(words, " "@), letters),
    decreases words.len(),
{
    if words.len() > 1 {
        let fewer = words.drop_last();
        assert forall|i: int| 0 <= i < fewer.len() implies made_of(#[trigger] fewer[i], letters) by {
            assert(fewer[i] == words[i]);
        }
        joining_adds_only_spaces(fewer, letters);
        assert(made_of(words[words.len() - 1], letters));
        a_space_between(joined_by(fewer, " "@), words.last(), letters);
    } else if words.len() == 1 {
        assert(made_of(words[0], letters));
    }
}

proof fn a_name_is_set_in_its_own(
    alphabet: Alphabet,
    words: Seq<Seq<char>>,
    room: int,
    height: int,
    size: int,
    floor: int,
    letters: Seq<char>,
)
    requires
        all_made_of(words, letters),
        made_of(" "@, letters),
    ensures
        all_made_of(name_set(alphabet, words, room, height, size, floor).1, letters),
    decreases size - floor + STEP,
{
    if size < floor {
        joining_adds_only_spaces(words, letters);
    } else {
        wrapping_adds_only_spaces(alphabet, words, room, size, words.len() as int, letters);
        if name_lines(alphabet, words, room, height, size) is None {
            a_name_is_set_in_its_own(
                alphabet,
                words,
                room,
                height,
                size - STEP,
                floor,
                letters,
            );
        }
    }
}

proof fn a_line_is_its_words(
    alphabet: Alphabet,
    width: int,
    said: Seq<char>,
    band: (usize, usize),
    px: int,
    letters: Seq<char>,
)
    requires
        made_of(said, letters),
    ensures
        line(alphabet, width, said, band, px) matches Some(stroke) ==> made_of(
            stroke.text,
            letters,
        ),
{
    let words = trimmed(said);
    let room = room_of(width);
    let size = line_size(alphabet, words, room, line_floor(px), px);
    trimming_adds_nothing(said, letters);
    cutting_adds_nothing(alphabet, words, room, size, letters);
}

proof fn a_block_is_its_lines(
    alphabet: Alphabet,
    width: int,
    lines: Seq<(Seq<char>, int)>,
    band: (usize, usize),
    size: int,
    upto: int,
    letters: Seq<char>,
)
    requires
        upto <= lines.len(),
        forall|i: int| 0 <= i < lines.len() ==> made_of((#[trigger] lines[i]).0, letters),
    ensures
        forall|k: int|
            0 <= k < block(alphabet, width, lines, band, size, upto).len() ==> made_of(
                (#[trigger] block(alphabet, width, lines, band, size, upto)[k]).text,
                letters,
            ),
    decreases upto,
{
    if upto > 0 {
        a_block_is_its_lines(alphabet, width, lines, band, size, upto - 1, letters);
        let before = block(alphabet, width, lines, band, size, upto - 1);
        let now = block(alphabet, width, lines, band, size, upto);
        let top = top_of(band, stacked(lines, size, lines.len() as int));
        let rows = rows_between(
            band,
            top + 2 * stacked(lines, size, upto - 1),
            top + 2 * stacked(lines, size, upto),
        );
        let (said, share) = lines[upto - 1];
        assert(made_of(lines[upto - 1].0, letters));
        a_line_is_its_words(alphabet, width, said, rows, size * share / 10, letters);
        assert forall|k: int| 0 <= k < now.len() implies made_of((#[trigger] now[k]).text, letters) by {
            if k < before.len() {
                assert(now[k] == before[k]);
            }
        }
    }
}

proof fn its_own(saying: Saying, part: Seq<char>)
    requires
        forall|c: char| #[trigger] part.contains(c) ==> written(saying).contains(c),
    ensures
        made_of(part, written(saying)),
{
    assert forall|i: int| 0 <= i < part.len() implies written(saying).contains(
        #[trigger] part[i],
    ) by {
        assert(part.contains(part[i]));
    }
}

proof fn two_parts(saying: Saying, left: Seq<char>, right: Seq<char>)
    requires
        written(saying) == left + right,
    ensures
        made_of(left, written(saying)),
        made_of(right, written(saying)),
{
    assert forall|c: char| #[trigger] left.contains(c) implies written(saying).contains(c) by {
        either(left, right, c);
    }
    assert forall|c: char| #[trigger] right.contains(c) implies written(saying).contains(c) by {
        either(left, right, c);
    }
    its_own(saying, left);
    its_own(saying, right);
}

/// Whether whatever is set for `saying` is made of `letters` alone.
spec fn set_in(alphabet: Alphabet, width: int, height: int, saying: Saying, letters: Seq<char>) -> bool {
    forall|k: int|
        0 <= k < typeset(alphabet, width, height, saying).len() ==> made_of(
            (#[trigger] typeset(alphabet, width, height, saying)[k]).text,
            letters,
        )
}

proof fn evenly_made_of(lines: Seq<Seq<char>>, letters: Seq<char>)
    requires
        all_made_of(lines, letters),
    ensures
        even(lines).len() == lines.len(),
        forall|i: int| 0 <= i < lines.len() ==> made_of((#[trigger] even(lines)[i]).0, letters),
{
    assert forall|i: int| 0 <= i < lines.len() implies made_of(
        (#[trigger] even(lines)[i]).0,
        letters,
    ) by {
        assert(even(lines)[i].0 == lines[i]);
    }
}

proof fn a_name_is_set(
    alphabet: Alphabet,
    width: int,
    height: int,
    name: Seq<char>,
    letters: Seq<char>,
)
    requires
        made_of(name, letters),
        made_of(" "@, letters),
    ensures
        set_in(alphabet, width, height, Saying::Name(name), letters),
{
    let band = band_of(height);
    let room = room_of(width);
    let tall = STEP * (band.1 - band.0);
    let px = 20_000 * height;
    let floor = floor_of(px);
    let words = words_of(name);
    words_are_the_names(name, letters);
    a_name_is_set_in_its_own(alphabet, words, room, tall, px, floor, letters);
    let (size, lines) = name_set(alphabet, words, room, tall, px, floor);
    evenly_made_of(lines, letters);
    a_block_is_its_lines(alphabet, width, even(lines), band, size, lines.len() as int, letters);
}

proof fn a_wait_is_set(
    alphabet: Alphabet,
    width: int,
    height: int,
    state: Seq<char>,
    held: Seq<char>,
    letters: Seq<char>,
)
    requires
        made_of(state, letters),
        made_of(held, letters),
    ensures
        set_in(alphabet, width, height, Saying::Wait { state, held }, letters),
{
    let band = band_of(height);
    let room = room_of(width);
    let tall = STEP * (band.1 - band.0);
    let lines = seq![(state, 6int), (held, 10int)];
    let size = stack_size(alphabet, lines, room, tall, 26_000 * height);
    a_block_is_its_lines(alphabet, width, lines, band, size, 2, letters);
}

proof fn fixed_lines_are_set(
    alphabet: Alphabet,
    width: int,
    height: int,
    saying: Saying,
    lines: Seq<Seq<char>>,
    letters: Seq<char>,
)
    requires
        saying !is Name,
        saying !is Wait,
        fixed_lines(saying) == Some(lines),
        all_made_of(lines, letters),
    ensures
        set_in(alphabet, width, height, saying, letters),
{
    let band = band_of(height);
    let room = room_of(width);
    let tall = STEP * (band.1 - band.0);
    let size = lines_size(alphabet, lines, room, tall, 20_000 * height);
    evenly_made_of(lines, letters);
    a_block_is_its_lines(alphabet, width, even(lines), band, size, lines.len() as int, letters);
}

/// The lines a label is fixed to are its own.
proof fn fixed_lines_are_its_own(saying: Saying)
    ensures
        fixed_lines(saying) matches Some(lines) ==> all_made_of(lines, written(saying)),
{
    match saying {
        Saying::Status { state, elapsed } => two_parts(saying, state, elapsed),
        Saying::Gauge { name, value } => two_parts(saying, name, gauge_text(value)),
        _ => its_own(saying, written(saying)),
    }
}

/// **Every letter that is set is one that was asked for**: whatever the face,
/// and however large the key, a label's lines hold no letter that
/// [`letters_in`] does not name.
pub proof fn every_letter_set_is_asked_for(
    alphabet: Alphabet,
    width: int,
    height: int,
    saying: Saying,
    k: int,
)
    requires
        0 <= k < typeset(alphabet, width, height, saying).len(),
    ensures
        made_of(typeset(alphabet, width, height, saying)[k].text, written(saying)),
{
    let letters = written(saying);
    match saying {
        Saying::Name(name) => {
            two_parts(saying, name, " "@);
            a_name_is_set(alphabet, width, height, name, letters);
        },
        Saying::Wait { state, held } => {
            two_parts(saying, state, held);
            a_wait_is_set(alphabet, width, height, state, held, letters);
        },
        _ => {
            fixed_lines_are_its_own(saying);
            if let Some(lines) = fixed_lines(saying) {
                fixed_lines_are_set(alphabet, width, height, saying, lines, letters);
            }
        },
    }
    assert(set_in(alphabet, width, height, saying, letters));
}

/// Whether two faces say the same of `letters`.
pub open spec fn alike(left: Alphabet, right: Alphabet, letters: Seq<char>) -> bool {
    &&& left.height == right.height
    &&& left.ascent == right.ascent
    &&& forall|c: char|
        letters.contains(c) ==> #[trigger] advance(left.advances, c) == advance(
            right.advances,
            c,
        )
    &&& forall|c: char, d: char|
        letters.contains(c) && letters.contains(d) ==> #[trigger] kern(left.kerns, c, d) == kern(
            right.kerns,
            c,
            d,
        )
}

proof fn as_wide(left: Alphabet, right: Alphabet, letters: Seq<char>, words: Seq<char>)
    requires
        alike(left, right, letters),
        made_of(words, letters),
    ensures
        left.span(words) == right.span(words),
        forall|size: int, room: int|
            #[trigger] left.fits(words, size, room) == right.fits(words, size, room),
    decreases words.len(),
{
    if words.len() > 0 {
        let before = words.drop_last();
        assert(before =~= words.subrange(0, words.len() - 1));
        a_part_is_made_of(before, words, letters, 0);
        as_wide(left, right, letters, before);
        assert(letters.contains(words[words.len() - 1]));
        if before.len() > 0 {
            assert(letters.contains(before[before.len() - 1]));
        }
    }
}

proof fn as_large(
    left: Alphabet,
    right: Alphabet,
    letters: Seq<char>,
    words: Seq<char>,
    room: int,
    floor: int,
    size: int,
)
    requires
        alike(left, right, letters),
        made_of(words, letters),
    ensures
        line_size(left, words, room, floor, size) == line_size(right, words, room, floor, size),
    decreases size - floor,
{
    as_wide(left, right, letters, words);
    assert(left.fits(words, size, room) == right.fits(words, size, room));
    if !left.fits(words, size, room) && size - STEP >= floor {
        as_large(left, right, letters, words, room, floor, size - STEP);
    }
}

proof fn as_long(
    left: Alphabet,
    right: Alphabet,
    letters: Seq<char>,
    words: Seq<char>,
    room: int,
    size: int,
)
    requires
        alike(left, right, letters),
        made_of(words, letters),
    ensures
        cut(left, words, room, size) == cut(right, words, room, size),
    decreases words.len(),
{
    as_wide(left, right, letters, words);
    assert(left.fits(words, size, room) == right.fits(words, size, room));
    if !left.fits(words, size, room) && words.len() > 1 {
        assert(words.drop_last() =~= words.subrange(0, words.len() - 1));
        a_part_is_made_of(words.drop_last(), words, letters, 0);
        as_long(left, right, letters, words.drop_last(), room, size);
    }
}

proof fn one_line(
    left: Alphabet,
    right: Alphabet,
    letters: Seq<char>,
    width: int,
    said: Seq<char>,
    band: (usize, usize),
    px: int,
)
    requires
        alike(left, right, letters),
        made_of(said, letters),
    ensures
        line(left, width, said, band, px) == line(right, width, said, band, px),
{
    let words = trimmed(said);
    let room = room_of(width);
    trimming_adds_nothing(said, letters);
    as_large(left, right, letters, words, room, line_floor(px), px);
    let size = line_size(left, words, room, line_floor(px), px);
    as_long(left, right, letters, words, room, size);
    cutting_adds_nothing(left, words, room, size, letters);
    as_wide(left, right, letters, cut(left, words, room, size));
}

proof fn one_block(
    left: Alphabet,
    right: Alphabet,
    letters: Seq<char>,
    width: int,
    lines: Seq<(Seq<char>, int)>,
    band: (usize, usize),
    size: int,
    upto: int,
)
    requires
        alike(left, right, letters),
        upto <= lines.len(),
        forall|i: int| 0 <= i < lines.len() ==> made_of((#[trigger] lines[i]).0, letters),
    ensures
        block(left, width, lines, band, size, upto) == block(
            right,
            width,
            lines,
            band,
            size,
            upto,
        ),
    decreases upto,
{
    if upto > 0 {
        one_block(left, right, letters, width, lines, band, size, upto - 1);
        let top = top_of(band, stacked(lines, size, lines.len() as int));
        let rows = rows_between(
            band,
            top + 2 * stacked(lines, size, upto - 1),
            top + 2 * stacked(lines, size, upto),
        );
        let (said, share) = lines[upto - 1];
        assert(made_of(lines[upto - 1].0, letters));
        one_line(left, right, letters, width, said, rows, size * share / 10);
    }
}

proof fn one_size(size: int, floor: int, left: spec_fn(int) -> bool, right: spec_fn(int) -> bool)
    requires
        forall|at: int| #[trigger] left(at) == right(at),
    ensures
        largest(size, floor, left) == largest(size, floor, right),
    decreases size - floor + STEP,
{
    if size > floor {
        assert(left(size) == right(size));
        if !left(size) {
            one_size(size - STEP, floor, left, right);
        }
    }
}

proof fn one_size_of_lines(
    left: Alphabet,
    right: Alphabet,
    letters: Seq<char>,
    lines: Seq<Seq<char>>,
    room: int,
    height: int,
    px: int,
)
    requires
        alike(left, right, letters),
        all_made_of(lines, letters),
    ensures
        lines_size(left, lines, room, height, px) == lines_size(right, lines, room, height, px),
{
    let f = |size: int| lines_suit(left, lines, room, height, size);
    let g = |size: int| lines_suit(right, lines, room, height, size);
    assert forall|size: int| #[trigger] f(size) == g(size) by {
        assert forall|i: int| 0 <= i < lines.len() implies left.fits(
            #[trigger] lines[i],
            size,
            room,
        ) == right.fits(lines[i], size, room) by {
            as_wide(left, right, letters, lines[i]);
        }
    }
    one_size(px, floor_of(px), f, g);
}

proof fn one_size_of_stack(
    left: Alphabet,
    right: Alphabet,
    letters: Seq<char>,
    lines: Seq<(Seq<char>, int)>,
    room: int,
    height: int,
    px: int,
)
    requires
        alike(left, right, letters),
        forall|i: int| 0 <= i < lines.len() ==> made_of((#[trigger] lines[i]).0, letters),
    ensures
        stack_size(left, lines, room, height, px) == stack_size(right, lines, room, height, px),
{
    let f = |size: int| stack_suits(left, lines, room, height, size);
    let g = |size: int| stack_suits(right, lines, room, height, size);
    assert forall|size: int| #[trigger] f(size) == g(size) by {
        assert forall|i: int| 0 <= i < lines.len() implies left.fits(
            (#[trigger] lines[i]).0,
            size * lines[i].1 / 10,
            room,
        ) == right.fits(lines[i].0, size * lines[i].1 / 10, room) by {
            as_wide(left, right, letters, lines[i].0);
        }
    }
    one_size(px, floor_of(px), f, g);
}

proof fn one_wrapping(
    left: Alphabet,
    right: Alphabet,
    letters: Seq<char>,
    words: Seq<Seq<char>>,
    room: int,
    size: int,
    upto: int,
)
    requires
        alike(left, right, letters),
        all_made_of(words, letters),
        made_of(" "@, letters),
        upto <= words.len(),
    ensures
        wrapped(left, words, room, size, upto) == wrapped(right, words, room, size, upto),
    decreases upto,
{
    if upto > 0 {
        one_wrapping(left, right, letters, words, room, size, upto - 1);
        wrapping_adds_only_spaces(left, words, room, size, upto - 1, letters);
        if let Some(lines) = wrapped(left, words, room, size, upto - 1) {
            let word = words[upto - 1];
            as_wide(left, right, letters, word);
            assert(left.fits(word, size, room) == right.fits(word, size, room));
            if lines.len() > 0 {
                let longer = lines.last() + " "@ + word;
                a_space_between(lines[lines.len() - 1], word, letters);
                as_wide(left, right, letters, longer);
                assert(left.fits(longer, size, room) == right.fits(longer, size, room));
            }
        }
    }
}

proof fn one_name(
    left: Alphabet,
    right: Alphabet,
    letters: Seq<char>,
    words: Seq<Seq<char>>,
    room: int,
    height: int,
    size: int,
    floor: int,
)
    requires
        alike(left, right, letters),
        all_made_of(words, letters),
        made_of(" "@, letters),
    ensures
        name_set(left, words, room, height, size, floor) == name_set(
            right,
            words,
            room,
            height,
            size,
            floor,
        ),
    decreases size - floor + STEP,
{
    if size >= floor {
        one_wrapping(left, right, letters, words, room, size, words.len() as int);
        if name_lines(left, words, room, height, size) is None {
            one_name(left, right, letters, words, room, height, size - STEP, floor);
        }
    }
}

proof fn one_name_set(
    left: Alphabet,
    right: Alphabet,
    width: int,
    height: int,
    name: Seq<char>,
    letters: Seq<char>,
)
    requires
        alike(left, right, letters),
        made_of(name, letters),
        made_of(" "@, letters),
    ensures
        typeset(left, width, height, Saying::Name(name)) == typeset(
            right,
            width,
            height,
            Saying::Name(name),
        ),
{
    let band = band_of(height);
    let room = room_of(width);
    let tall = STEP * (band.1 - band.0);
    let px = 20_000 * height;
    let floor = floor_of(px);
    let words = words_of(name);
    words_are_the_names(name, letters);
    one_name(left, right, letters, words, room, tall, px, floor);
    a_name_is_set_in_its_own(left, words, room, tall, px, floor, letters);
    let (size, lines) = name_set(left, words, room, tall, px, floor);
    evenly_made_of(lines, letters);
    one_block(left, right, letters, width, even(lines), band, size, lines.len() as int);
}

proof fn one_wait_set(
    left: Alphabet,
    right: Alphabet,
    width: int,
    height: int,
    state: Seq<char>,
    held: Seq<char>,
    letters: Seq<char>,
)
    requires
        alike(left, right, letters),
        made_of(state, letters),
        made_of(held, letters),
    ensures
        typeset(left, width, height, Saying::Wait { state, held }) == typeset(
            right,
            width,
            height,
            Saying::Wait { state, held },
        ),
{
    let band = band_of(height);
    let room = room_of(width);
    let tall = STEP * (band.1 - band.0);
    let lines = seq![(state, 6int), (held, 10int)];
    one_size_of_stack(left, right, letters, lines, room, tall, 26_000 * height);
    let size = stack_size(left, lines, room, tall, 26_000 * height);
    one_block(left, right, letters, width, lines, band, size, 2);
}

proof fn one_set_of_lines(
    left: Alphabet,
    right: Alphabet,
    width: int,
    height: int,
    saying: Saying,
    lines: Seq<Seq<char>>,
    letters: Seq<char>,
)
    requires
        alike(left, right, letters),
        saying !is Name,
        saying !is Wait,
        fixed_lines(saying) == Some(lines),
        all_made_of(lines, letters),
    ensures
        typeset(left, width, height, saying) == typeset(right, width, height, saying),
{
    let band = band_of(height);
    let room = room_of(width);
    let tall = STEP * (band.1 - band.0);
    one_size_of_lines(left, right, letters, lines, room, tall, 20_000 * height);
    let size = lines_size(left, lines, room, tall, 20_000 * height);
    evenly_made_of(lines, letters);
    one_block(left, right, letters, width, even(lines), band, size, lines.len() as int);
}

/// **The letters of a label are all that has to be known of a face**: two that
/// say the same of them set its words the same.
pub proof fn its_letters_are_enough(
    left: Alphabet,
    right: Alphabet,
    width: int,
    height: int,
    saying: Saying,
)
    requires
        alike(left, right, written(saying)),
    ensures
        typeset(left, width, height, saying) == typeset(right, width, height, saying),
{
    let letters = written(saying);
    match saying {
        Saying::Name(name) => {
            two_parts(saying, name, " "@);
            one_name_set(left, right, width, height, name, letters);
        },
        Saying::Wait { state, held } => {
            two_parts(saying, state, held);
            one_wait_set(left, right, width, height, state, held, letters);
        },
        _ => {
            fixed_lines_are_its_own(saying);
            if let Some(lines) = fixed_lines(saying) {
                one_set_of_lines(left, right, width, height, saying, lines, letters);
            }
        },
    }
}

} // verus!
