//! Strings as sequences of characters: the few operations the rest of the
//! library builds on, each stated over `Seq<char>`.

use vstd::prelude::*;

verus! {

/// `String::push` appends one character.
pub assume_specification[ String::push ](s: &mut String, c: char)
    ensures
        final(s)@ == old(s)@.push(c),
;

/// `String::push_str` appends a string.
pub assume_specification[ String::push_str ](s: &mut String, t: &str)
    ensures
        final(s)@ == old(s)@ + t@,
;

/// Whether two strings hold the same characters.
pub fn same(left: &str, right: &str) -> (r: bool)
    ensures
        r == (left@ == right@),
{
    left.to_owned() == right.to_owned()
}

/// The Unicode `White_Space` property.
pub open spec fn is_white(c: char) -> bool {
    ||| 0x09 <= c as u32 <= 0x0d
    ||| c as u32 == 0x20
    ||| c as u32 == 0x85
    ||| c as u32 == 0xa0
    ||| c as u32 == 0x1680
    ||| 0x2000 <= c as u32 <= 0x200a
    ||| c as u32 == 0x2028
    ||| c as u32 == 0x2029
    ||| c as u32 == 0x202f
    ||| c as u32 == 0x205f
    ||| c as u32 == 0x3000
}

pub fn white(c: char) -> (r: bool)
    ensures
        r == is_white(c),
{
    let n: u32 = c as u32;
    (0x09 <= n && n <= 0x0d) || n == 0x20 || n == 0x85 || n == 0xa0 || n == 0x1680 || (0x2000 <= n
        && n <= 0x200a) || n == 0x2028 || n == 0x2029 || n == 0x202f || n == 0x205f || n == 0x3000
}

/// The characters of `text`, as a vector.
pub fn chars(text: &str) -> (r: Vec<char>)
    ensures
        r@ == text@,
{
    let mut out: Vec<char> = Vec::new();
    for c in iter: text.chars()
        invariant
            iter.seq() == text@,
            out@ == text@.take(iter.index() as int),
    {
        out.push(c);
    }
    assert(text@.take(text@.len() as int) =~= text@);
    out
}

/// The string made of `chars[from..to]`.
pub fn string_of(chars: &Vec<char>, from: usize, to: usize) -> (r: String)
    requires
        from <= to <= chars@.len(),
    ensures
        r@ == chars@.subrange(from as int, to as int),
{
    let mut out = String::new();
    let mut i: usize = from;
    while i < to
        invariant
            from <= i <= to <= chars@.len(),
            out@ == chars@.subrange(from as int, i as int),
        decreases to - i,
    {
        out.push(chars[i]);
        assert(chars@.subrange(from as int, i + 1) =~= chars@.subrange(from as int, i as int).push(chars@[i as int]));
        i = i + 1;
    }
    out
}

/// How a number is written in decimal.
pub open spec fn decimal(n: nat) -> Seq<char>
    decreases n,
{
    if n < 10 {
        seq![digit(n)]
    } else {
        decimal(n / 10).push(digit(n % 10))
    }
}

pub open spec fn digit(d: nat) -> char {
    (('0' as u32) + d) as char
}

pub(crate) fn digit_char(d: u64) -> (c: char)
    requires
        d < 10,
    ensures
        c == digit(d as nat),
{
    match d {
        0 => '0',
        1 => '1',
        2 => '2',
        3 => '3',
        4 => '4',
        5 => '5',
        6 => '6',
        7 => '7',
        8 => '8',
        _ => '9',
    }
}

pub fn number(n: u64) -> (r: String)
    ensures
        r@ == decimal(n as nat),
    decreases n,
{
    if n < 10 {
        let mut out = String::new();
        out.push(digit_char(n));
        assert(out@ =~= seq![digit(n as nat)]);
        out
    } else {
        let mut out = number(n / 10);
        out.push(digit_char(n % 10));
        out
    }
}

/// A hexadecimal digit, as it is written in capitals.
pub open spec fn hex_digit(d: nat) -> char {
    if d < 10 {
        digit(d)
    } else {
        (('A' as u32) + d - 10) as char
    }
}

/// A byte as two hexadecimal digits in capitals.
pub open spec fn hex(byte: u8) -> Seq<char> {
    seq![hex_digit(byte as nat / 16), hex_digit(byte as nat % 16)]
}

fn hex_char(d: u8) -> (c: char)
    requires
        d < 16,
    ensures
        c == hex_digit(d as nat),
{
    match d {
        10 => 'A',
        11 => 'B',
        12 => 'C',
        13 => 'D',
        14 => 'E',
        15 => 'F',
        _ => digit_char(d as u64),
    }
}

pub fn hex_byte(byte: u8) -> (r: String)
    ensures
        r@ == hex(byte),
{
    let mut out = String::new();
    out.push(hex_char(byte / 16));
    out.push(hex_char(byte % 16));
    assert(out@ =~= hex(byte));
    out
}

/// Whether `part` stands somewhere in `whole`.
pub open spec fn has(whole: Seq<char>, part: Seq<char>) -> bool {
    exists|at: int|
        0 <= at <= whole.len() - part.len() && #[trigger] whole.subrange(at, at + part.len())
            == part
}

/// Whether `part` stands at `at` in `whole`.
pub fn stands_at(whole: &Vec<char>, part: &Vec<char>, at: usize) -> (r: bool)
    requires
        at + part@.len() <= whole@.len(),
    ensures
        r == (whole@.subrange(at as int, at + part@.len()) == part@),
{
    let size: usize = whole.len();
    let mut i: usize = 0;
    while i < part.len()
        invariant
            i <= part@.len(),
            at + part@.len() <= whole@.len() == size,
            whole@.subrange(at as int, at + i) =~= part@.take(i as int),
        decreases part@.len() - i,
    {
        if whole[at + i] != part[i] {
            assert(whole@.subrange(at as int, at + part@.len())[i as int] != part@[i as int]);
            return false;
        }
        i = i + 1;
    }
    assert(part@.take(i as int) =~= part@);
    true
}

pub fn contains(whole: &str, part: &str) -> (r: bool)
    ensures
        r == has(whole@, part@),
{
    let all = chars(whole);
    let piece = chars(part);
    if piece.len() > all.len() {
        return false;
    }
    let last: usize = all.len() - piece.len();
    let mut at: usize = 0;
    loop
        invariant
            at <= last == all@.len() - piece@.len(),
            all@ == whole@,
            piece@ == part@,
            forall|k: int|
                0 <= k < at ==> #[trigger] all@.subrange(k, k + piece@.len()) != piece@,
        decreases last + 1 - at,
    {
        if stands_at(&all, &piece, at) {
            assert(whole@.subrange(at as int, at + part@.len()) == part@);
            return true;
        }
        if at == last {
            return false;
        }
        at = at + 1;
    }
}

/// `text` without the white space at its start.
pub open spec fn trimmed_start(text: Seq<char>) -> Seq<char>
    decreases text.len(),
{
    if text.len() > 0 && is_white(text[0]) {
        trimmed_start(text.skip(1))
    } else {
        text
    }
}

/// `text` without the white space at its end.
pub open spec fn trimmed_end(text: Seq<char>) -> Seq<char>
    decreases text.len(),
{
    if text.len() > 0 && is_white(text.last()) {
        trimmed_end(text.drop_last())
    } else {
        text
    }
}

/// `text` without the white space around it.
pub open spec fn trimmed(text: Seq<char>) -> Seq<char> {
    trimmed_end(trimmed_start(text))
}

pub fn trim(text: &str) -> (r: String)
    ensures
        r@ == trimmed(text@),
{
    let all = chars(text);
    let mut from: usize = 0;
    assert(text@.skip(0) =~= text@);
    while from < all.len() && white(all[from])
        invariant
            from <= all@.len(),
            all@ == text@,
            trimmed_start(text@) == trimmed_start(text@.skip(from as int)),
        decreases all@.len() - from,
    {
        assert(text@.skip(from as int).skip(1) =~= text@.skip(from + 1));
        from = from + 1;
    }
    let mut to: usize = all.len();
    let ghost rest = text@.skip(from as int);
    assert(rest =~= all@.subrange(from as int, to as int));
    while to > from && white(all[to - 1])
        invariant
            from <= to <= all@.len(),
            trimmed_end(rest) == trimmed_end(all@.subrange(from as int, to as int)),
        decreases to,
    {
        assert(all@.subrange(from as int, to as int).drop_last() =~= all@.subrange(from as int, to - 1));
        to = to - 1;
    }
    string_of(&all, from, to)
}

/// What `text` is after trimming, when anything is left.
pub open spec fn word(text: Option<Seq<char>>) -> Option<Seq<char>> {
    match text {
        Some(found) => if trimmed(found).len() == 0 {
            None
        } else {
            Some(trimmed(found))
        },
        None => None,
    }
}

pub fn word_of(text: Option<&str>) -> (r: Option<String>)
    ensures
        shown(r) == word(match text {
            Some(found) => Some(found@),
            None => None,
        }),
{
    match text {
        Some(found) => {
            let word = trim(found);
            if word.as_str().is_empty() {
                None
            } else {
                Some(word)
            }
        },
        None => None,
    }
}

/// Words that may be missing, by their characters.
pub open spec fn seen(text: Option<&str>) -> Option<Seq<char>> {
    match text {
        Some(text) => Some(text@),
        None => None,
    }
}

/// An optional string, by its characters.
pub open spec fn shown(text: Option<String>) -> Option<Seq<char>> {
    match text {
        Some(text) => Some(text@),
        None => None,
    }
}

pub fn copy_of(text: &Option<String>) -> (r: Option<String>)
    ensures
        shown(r) == shown(*text),
{
    match text {
        Some(text) => Some(text.clone()),
        None => None,
    }
}

/// Whether `text` begins with `head`.
pub open spec fn begins(text: Seq<char>, head: Seq<char>) -> bool {
    text.len() >= head.len() && text.take(head.len() as int) == head
}

pub fn starts_with(text: &str, head: &str) -> (r: bool)
    ensures
        r == begins(text@, head@),
{
    let all = chars(text);
    let start = chars(head);
    if start.len() > all.len() {
        return false;
    }
    let r = stands_at(&all, &start, 0);
    assert(all@.subrange(0, start@.len() as int) =~= text@.take(head@.len() as int));
    r
}

/// `text` with every `from` a `to`.
pub open spec fn swapped(text: Seq<char>, from: char, to: char) -> Seq<char> {
    Seq::new(
        text.len(),
        |i: int|
            if text[i] == from {
                to
            } else {
                text[i]
            },
    )
}

pub fn swap(text: &str, from: char, to: char) -> (r: String)
    ensures
        r@ == swapped(text@, from, to),
{
    let all = chars(text);
    let mut out = String::new();
    let mut i: usize = 0;
    assert(out@ =~= swapped(text@.take(0), from, to));
    while i < all.len()
        invariant
            i <= all@.len(),
            all@ == text@,
            out@ =~= swapped(text@.take(i as int), from, to),
        decreases all@.len() - i,
    {
        out.push(if all[i] == from { to } else { all[i] });
        i = i + 1;
    }
    assert(text@.take(i as int) =~= text@);
    out
}

/// A line without the carriage return that was part of its ending.
pub open spec fn unreturned(line: Seq<char>) -> Seq<char> {
    if line.len() > 0 && line.last() == '\r' {
        line.drop_last()
    } else {
        line
    }
}

/// The lines that are ended, and what follows the last line feed.
pub open spec fn split_lines(text: Seq<char>) -> (Seq<Seq<char>>, Seq<char>)
    decreases text.len(),
{
    if text.len() == 0 {
        (seq![], seq![])
    } else {
        let (ended, open) = split_lines(text.drop_last());
        if text.last() == '\n' {
            (ended.push(unreturned(open)), seq![])
        } else {
            (ended, open.push(text.last()))
        }
    }
}

/// The lines of a text: each ends with a line feed, or with a carriage return
/// and a line feed; the last may do without.
pub open spec fn lines_of(text: Seq<char>) -> Seq<Seq<char>> {
    let (ended, open) = split_lines(text);
    if open.len() == 0 {
        ended
    } else {
        ended.push(open)
    }
}

pub open spec fn views(lines: Seq<String>) -> Seq<Seq<char>> {
    Seq::new(lines.len(), |i: int| lines[i]@)
}

pub fn lines(text: &str) -> (r: Vec<String>)
    ensures
        views(r@) == lines_of(text@),
{
    let all = chars(text);
    let mut ended: Vec<String> = Vec::new();
    let mut open: Vec<char> = Vec::new();
    let mut i: usize = 0;
    assert(views(ended@) =~= seq![]);
    while i < all.len()
        invariant
            i <= all@.len(),
            all@ == text@,
            (views(ended@), open@) == split_lines(text@.take(i as int)),
        decreases all@.len() - i,
    {
        let ghost before = ended@;
        assert(text@.take(i + 1).drop_last() =~= text@.take(i as int));
        if all[i] == '\n' {
            let size: usize = open.len();
            let keep: usize = if size > 0 && open[size - 1] == '\r' { size - 1 } else { size };
            let line = string_of(&open, 0, keep);
            assert(line@ =~= unreturned(open@));
            ended.push(line);
            assert(views(ended@) =~= views(before).push(line@));
            open = Vec::new();
            assert(open@ =~= seq![]);
        } else {
            open.push(all[i]);
        }
        i = i + 1;
    }
    assert(text@.take(i as int) =~= text@);
    if open.len() > 0 {
        let ghost before = ended@;
        let last = string_of(&open, 0, open.len());
        assert(last@ =~= open@);
        ended.push(last);
        assert(views(ended@) =~= views(before).push(last@));
    }
    ended
}

/// What stands before the first `mark`; all of `text` when there is none.
pub open spec fn before_first(text: Seq<char>, mark: char) -> Seq<char>
    decreases text.len(),
{
    if text.len() == 0 || text[0] == mark {
        seq![]
    } else {
        seq![text[0]] + before_first(text.skip(1), mark)
    }
}

/// What stands after the last `mark`; all of `text` when there is none.
pub open spec fn after_last(text: Seq<char>, mark: char) -> Seq<char>
    decreases text.len(),
{
    if text.len() == 0 || text.last() == mark {
        seq![]
    } else {
        after_last(text.drop_last(), mark).push(text.last())
    }
}

pub fn head(text: &str, mark: char) -> (r: String)
    ensures
        r@ == before_first(text@, mark),
{
    let all = chars(text);
    let mut i: usize = 0;
    assert(text@.skip(0) =~= text@);
    assert(seq![] + before_first(text@, mark) =~= before_first(text@, mark));
    while i < all.len() && all[i] != mark
        invariant
            i <= all@.len(),
            all@ == text@,
            before_first(text@, mark) =~= text@.take(i as int) + before_first(
                text@.skip(i as int),
                mark,
            ),
        decreases all@.len() - i,
    {
        assert(text@.skip(i as int).skip(1) =~= text@.skip(i + 1));
        i = i + 1;
    }
    assert(before_first(text@.skip(i as int), mark) =~= seq![]);
    let r = string_of(&all, 0, i);
    assert(r@ =~= text@.take(i as int));
    r
}

pub fn tail(text: &str, mark: char) -> (r: String)
    ensures
        r@ == after_last(text@, mark),
{
    let all = chars(text);
    let mut i: usize = all.len();
    assert(text@.take(i as int) =~= text@);
    assert(after_last(text@, mark) + seq![] =~= after_last(text@, mark));
    while i > 0 && all[i - 1] != mark
        invariant
            i <= all@.len(),
            all@ == text@,
            after_last(text@, mark) =~= after_last(text@.take(i as int), mark) + text@.skip(i as int),
        decreases i,
    {
        assert(text@.take(i as int).drop_last() =~= text@.take(i - 1));
        i = i - 1;
    }
    assert(after_last(text@.take(i as int), mark) =~= seq![]);
    let r = string_of(&all, i, all.len());
    assert(r@ =~= text@.skip(i as int));
    r
}

/// Two parts with a mark between them, and none in them, come apart there.
pub proof fn parts_of(first: Seq<char>, mark: char, second: Seq<char>)
    requires
        forall|i: int| 0 <= i < first.len() ==> first[i] != mark,
        forall|i: int| 0 <= i < second.len() ==> second[i] != mark,
    ensures
        before_first(first + seq![mark] + second, mark) == first,
        after_last(first + seq![mark] + second, mark) == second,
{
    before_in(first, mark, second);
    after_in(first, mark, second);
}

pub proof fn before_in(first: Seq<char>, mark: char, second: Seq<char>)
    requires
        forall|i: int| 0 <= i < first.len() ==> first[i] != mark,
    ensures
        before_first(first + seq![mark] + second, mark) == first,
    decreases first.len(),
{
    let whole = first + seq![mark] + second;
    if first.len() > 0 {
        before_in(first.skip(1), mark, second);
        assert(whole.skip(1) =~= first.skip(1) + seq![mark] + second);
        assert(seq![first[0]] + first.skip(1) =~= first);
    } else {
        assert(first =~= seq![]);
    }
}

proof fn after_in(first: Seq<char>, mark: char, second: Seq<char>)
    requires
        forall|i: int| 0 <= i < second.len() ==> second[i] != mark,
    ensures
        after_last(first + seq![mark] + second, mark) == second,
    decreases second.len(),
{
    let whole = first + seq![mark] + second;
    if second.len() > 0 {
        after_in(first, mark, second.drop_last());
        assert(whole.drop_last() =~= first + seq![mark] + second.drop_last());
        assert(second.drop_last().push(second.last()) =~= second);
    } else {
        assert(second =~= seq![]);
        assert(whole.last() == mark);
    }
}

/// `parts` with `between` between each two.
pub open spec fn joined_by(parts: Seq<Seq<char>>, between: Seq<char>) -> Seq<char>
    decreases parts.len(),
{
    if parts.len() == 0 {
        seq![]
    } else if parts.len() == 1 {
        parts[0]
    } else {
        joined_by(parts.drop_last(), between) + between + parts.last()
    }
}

pub fn join(parts: &Vec<String>, between: &str) -> (r: String)
    ensures
        r@ == joined_by(views(parts@), between@),
{
    let ghost all = views(parts@);
    if parts.len() == 0 {
        let none = String::new();
        assert(none@ =~= seq![]);
        return none;
    }
    let mut out = parts[0].clone();
    let mut i: usize = 1;
    assert(all.take(1) =~= seq![all[0]]);
    while i < parts.len()
        invariant
            1 <= i <= parts@.len(),
            all == views(parts@),
            out@ == joined_by(all.take(i as int), between@),
        decreases parts@.len() - i,
    {
        assert(all.take(i + 1).drop_last() =~= all.take(i as int));
        assert(all.take(i + 1).last() == parts@[i as int]@);
        out.push_str(between);
        out.push_str(parts[i].as_str());
        i = i + 1;
    }
    assert(all.take(i as int) =~= all);
    out
}

/// A letter, small if it is one of the twenty-six capitals.
pub open spec fn small(c: char) -> char {
    if 'A' as u32 <= c as u32 <= 'Z' as u32 {
        (c as u32 + 32) as char
    } else {
        c
    }
}

pub open spec fn in_small(text: Seq<char>) -> Seq<char> {
    Seq::new(text.len(), |i: int| small(text[i]))
}

/// Small letters are counted from here; the code is that of a letter.
pub fn small_char(c: char) -> (r: char)
    ensures
        r == small(c),
{
    match c {
        'A' => 'a',
        'B' => 'b',
        'C' => 'c',
        'D' => 'd',
        'E' => 'e',
        'F' => 'f',
        'G' => 'g',
        'H' => 'h',
        'I' => 'i',
        'J' => 'j',
        'K' => 'k',
        'L' => 'l',
        'M' => 'm',
        'N' => 'n',
        'O' => 'o',
        'P' => 'p',
        'Q' => 'q',
        'R' => 'r',
        'S' => 's',
        'T' => 't',
        'U' => 'u',
        'V' => 'v',
        'W' => 'w',
        'X' => 'x',
        'Y' => 'y',
        'Z' => 'z',
        _ => c,
    }
}

/// `text` with its ASCII capitals small.
pub fn lower(text: &str) -> (r: String)
    ensures
        r@ == in_small(text@),
{
    let all = chars(text);
    let mut out = String::new();
    let mut i: usize = 0;
    assert(out@ =~= in_small(text@.take(0)));
    while i < all.len()
        invariant
            i <= all@.len(),
            all@ == text@,
            out@ =~= in_small(text@.take(i as int)),
        decreases all@.len() - i,
    {
        out.push(small_char(all[i]));
        i = i + 1;
    }
    assert(text@.take(i as int) =~= text@);
    out
}

/// Whether two strings differ in nothing but the size of ASCII letters.
pub fn same_letters(left: &str, right: &str) -> (r: bool)
    ensures
        r == (in_small(left@) == in_small(right@)),
{
    same(lower(left).as_str(), lower(right).as_str())
}

/// Whether `name` is one of `list`.
pub fn is_among(list: &Vec<String>, name: &str) -> (r: bool)
    ensures
        r == views(list@).contains(name@),
{
    let ghost all = views(list@);
    let mut i: usize = 0;
    while i < list.len()
        invariant
            i <= list@.len(),
            all == views(list@),
            forall|j: int| 0 <= j < i ==> all[j] != name@,
        decreases list@.len() - i,
    {
        assert(all[i as int] == list@[i as int]@);
        if same(list[i].as_str(), name) {
            assert(all.contains(name@));
            return true;
        }
        i = i + 1;
    }
    false
}

pub fn copy_list(list: &Vec<String>) -> (r: Vec<String>)
    ensures
        views(r@) == views(list@),
{
    let mut out: Vec<String> = Vec::new();
    let mut i: usize = 0;
    while i < list.len()
        invariant
            i <= list@.len(),
            views(out@) =~= views(list@).take(i as int),
        decreases list@.len() - i,
    {
        let ghost before = out@;
        out.push(list[i].clone());
        assert(views(out@) =~= views(before).push(list@[i as int]@));
        i = i + 1;
    }
    assert(views(list@).take(i as int) =~= views(list@));
    out
}

/// Whether `text` ends with `tail`.
pub open spec fn ends(text: Seq<char>, tail: Seq<char>) -> bool {
    text.len() >= tail.len() && text.skip(text.len() - tail.len()) == tail
}

pub fn ends_with(text: &str, tail: &str) -> (r: bool)
    ensures
        r == ends(text@, tail@),
{
    let all = chars(text);
    let end = chars(tail);
    if end.len() > all.len() {
        return false;
    }
    let from: usize = all.len() - end.len();
    let r = stands_at(&all, &end, from);
    assert(all@.subrange(from as int, from + end@.len()) =~= text@.skip(from as int));
    r
}

/// A number of sixteen bits as four hexadecimal digits in capitals.
pub open spec fn hex_word(n: u16) -> Seq<char> {
    hex((n / 256) as u8) + hex((n % 256) as u8)
}

pub fn hex_of_word(n: u16) -> (r: String)
    ensures
        r@ == hex_word(n),
{
    let mut out = hex_byte((n / 256) as u8);
    out.push_str(hex_byte((n % 256) as u8).as_str());
    out
}

/// How a list of bytes is written: in brackets, with commas between.
pub open spec fn list_text(bytes: Seq<u8>) -> Seq<char> {
    "["@ + joined_by(Seq::new(bytes.len(), |i: int| decimal(bytes[i] as nat)), ", "@) + "]"@
}

pub fn list_of(bytes: &Vec<u8>) -> (r: String)
    ensures
        r@ == list_text(bytes@),
{
    let mut parts: Vec<String> = Vec::new();
    let mut i: usize = 0;
    while i < bytes.len()
        invariant
            i <= bytes@.len(),
            views(parts@) =~= Seq::new(i as nat, |j: int| decimal(bytes@[j] as nat)),
        decreases bytes@.len() - i,
    {
        let ghost before = parts@;
        let part = number(bytes[i] as u64);
        parts.push(part);
        assert(views(parts@) =~= views(before).push(part@));
        i = i + 1;
    }
    assert(views(parts@) =~= Seq::new(bytes@.len(), |j: int| decimal(bytes@[j] as nat)));
    let mut out = "[".to_owned();
    out.push_str(join(&parts, ", ").as_str());
    out.push_str("]");
    out
}

pub proof fn a_head_is_no_longer(text: Seq<char>, mark: char)
    ensures
        before_first(text, mark).len() <= text.len(),
    decreases text.len(),
{
    if text.len() > 0 && text[0] != mark {
        a_head_is_no_longer(text.skip(1), mark);
    }
}

/// What `String::from_utf8_lossy` makes of `bytes`.
pub uninterp spec fn lossy(bytes: Seq<u8>) -> Seq<char>;

/// `String::from_utf8_lossy`, as an owned string. The text is a function of
/// the bytes; ASCII bytes come back as the characters they are.
#[verifier::external_body]
pub(crate) fn lossy_text(bytes: &Vec<u8>) -> (text: String)
    ensures
        text@ == lossy(bytes@),
        (forall|i: int| 0 <= i < bytes@.len() ==> bytes@[i] < 128) ==> text@ == Seq::new(
            bytes@.len(),
            |i: int| bytes@[i] as char,
        ),
{
    String::from_utf8_lossy(bytes).into_owned()
}

/// The bytes of a string field: up to the first zero, or all of them.
pub open spec fn up_to_zero(bytes: Seq<u8>) -> Seq<u8>
    decreases bytes.len(),
{
    if bytes.len() == 0 || bytes[0] == 0 {
        seq![]
    } else {
        seq![bytes[0]] + up_to_zero(bytes.skip(1))
    }
}

/// **A number reads back**: its digits, each worth ten of the next, are the
/// number; they are digits, and there is no needless nought before them.
pub proof fn a_number_reads_back(n: nat)
    ensures
        worth(decimal(n)) == n,
        decimal(n).len() > 0,
        forall|i: int| 0 <= i < decimal(n).len() ==> '0' <= #[trigger] decimal(n)[i] <= '9',
        n > 0 ==> decimal(n)[0] != '0',
    decreases n,
{
    if n >= 10 {
        a_number_reads_back(n / 10);
        let all = decimal(n);
        assert(all.drop_last() =~= decimal(n / 10));
        assert(all[0] == decimal(n / 10)[0]);
        assert forall|i: int| 0 <= i < all.len() implies '0' <= #[trigger] all[i] <= '9' by {
            if i < decimal(n / 10).len() {
                assert(all[i] == decimal(n / 10)[i]);
            }
        }
    } else {
        assert(decimal(n).drop_last() =~= seq![]);
        assert(worth(seq![]) == 0);
    }
}

/// What digits are worth.
pub open spec fn worth(digits: Seq<char>) -> nat
    decreases digits.len(),
{
    if digits.len() == 0 {
        0
    } else {
        worth(digits.drop_last()) * 10 + (digits.last() as u32 - 48) as nat
    }
}

/// **Trimming takes the white space off either end, and nothing else**: what is
/// left is in the text, begins and ends with something, and around it there was
/// only white space.
pub proof fn trimming_takes_only_white_space(text: Seq<char>) -> (at: int)
    ensures
        ({
            let left = trimmed(text);
            &&& 0 <= at && at + left.len() <= text.len()
            &&& left == text.subrange(at, at + left.len())
            &&& forall|i: int| 0 <= i < at ==> is_white(#[trigger] text[i])
            &&& forall|i: int| at + left.len() <= i < text.len() ==> is_white(#[trigger] text[i])
            &&& left.len() > 0 ==> !is_white(left[0]) && !is_white(left.last())
        }),
{
    let start = trimmed_start(text);
    let at = start_of(text);
    let n = end_of(start);
    let left = trimmed(text);
    assert(left =~= text.subrange(at, at + left.len()));
    assert forall|i: int| at + left.len() <= i < text.len() implies is_white(#[trigger] text[i]) by {
        assert(start[i - at] == text[i]);
    }
    if left.len() > 0 {
        assert(left[0] == start[0]);
    }
    at
}

proof fn start_of(text: Seq<char>) -> (at: int)
    ensures
        0 <= at <= text.len(),
        trimmed_start(text) == text.skip(at),
        forall|i: int| 0 <= i < at ==> is_white(#[trigger] text[i]),
        at < text.len() ==> !is_white(text[at]),
    decreases text.len(),
{
    if text.len() > 0 && is_white(text[0]) {
        let rest = text.skip(1);
        let at = start_of(rest);
        assert(rest.skip(at) =~= text.skip(at + 1));
        assert forall|i: int| 0 <= i < at + 1 implies is_white(#[trigger] text[i]) by {
            if i > 0 {
                assert(rest[i - 1] == text[i]);
            }
        }
        if at < rest.len() {
            assert(rest[at] == text[at + 1]);
        }
        at + 1
    } else {
        assert(text.skip(0) =~= text);
        0
    }
}

proof fn end_of(text: Seq<char>) -> (n: int)
    ensures
        0 <= n <= text.len(),
        trimmed_end(text) == text.take(n),
        forall|i: int| n <= i < text.len() ==> is_white(#[trigger] text[i]),
        n > 0 ==> !is_white(text[n - 1]),
    decreases text.len(),
{
    if text.len() > 0 && is_white(text.last()) {
        let rest = text.drop_last();
        let n = end_of(rest);
        assert(rest.take(n) =~= text.take(n));
        assert forall|i: int| n <= i < text.len() implies is_white(#[trigger] text[i]) by {
            if i < rest.len() {
                assert(rest[i] == text[i]);
            }
        }
        n
    } else {
        assert(text.take(text.len() as int) =~= text);
        text.len() as int
    }
}

/// What begins and ends with something is not trimmed.
pub proof fn what_is_trim_stays(text: Seq<char>)
    requires
        text.len() > 0 ==> !is_white(text[0]) && !is_white(text.last()),
    ensures
        trimmed(text) == text,
        trimmed_end(text) == text,
{
}

/// **Joining is its parts with what is between them**: its length is theirs, it
/// begins with the first, and one part alone is itself.
pub proof fn joining_keeps_the_parts(parts: Seq<Seq<char>>, part: Seq<char>, between: Seq<char>)
    ensures
        joined_by(Seq::<Seq<char>>::empty(), between).len() == 0,
        joined_by(seq![part], between) == part,
        parts.len() > 0 ==> joined_by(parts.push(part), between) == joined_by(parts, between) + between
            + part,
{
    assert(parts.push(part).drop_last() =~= parts);
}

/// **Small letters**: a capital is the small letter of its own, and everything
/// else is as it is.
pub proof fn small_letters_are_their_own(c: char)
    ensures
        'A' <= c <= 'Z' ==> small(c) as u32 == c as u32 + 32,
        !('A' <= c <= 'Z') ==> small(c) == c,
        small(small(c)) == small(c),
{
}

/// **Lines come apart at their ends**: what stands before a line's end is the
/// first of the lines, without what ends it, and the rest are the lines of what
/// follows.
pub proof fn lines_come_apart_at_their_ends(first: Seq<char>, rest: Seq<char>)
    requires
        forall|i: int| 0 <= i < first.len() ==> #[trigger] first[i] != '\n',
        first.len() > 0 ==> first.last() != '\r',
    ensures
        lines_of(first + seq!['\n'] + rest) == seq![first] + lines_of(rest),
        lines_of(first + seq!['\r', '\n'] + rest) == seq![first] + lines_of(rest),
        lines_of(first) == (if first.len() == 0 {
            seq![]
        } else {
            seq![first]
        }),
{
    let plain = first + seq!['\n'];
    let carried = first + seq!['\r', '\n'];
    one_line(first);
    one_line(first.push('\r'));
    assert(plain.drop_last() =~= first);
    assert(carried.drop_last() =~= first.push('\r'));
    assert(first.push('\r').drop_last() =~= first);
    lines_after(plain, rest);
    lines_after(carried, rest);
    let (ended, open) = split_lines(rest);
    assert(seq![first] + ended.push(open) =~= (seq![first] + ended).push(open));
    assert(Seq::<Seq<char>>::empty().push(first) =~= seq![first]);
}

proof fn one_line(text: Seq<char>)
    requires
        forall|i: int| 0 <= i < text.len() ==> #[trigger] text[i] != '\n',
    ensures
        split_lines(text) == (Seq::<Seq<char>>::empty(), text),
    decreases text.len(),
{
    if text.len() > 0 {
        one_line(text.drop_last());
        assert(text.drop_last().push(text.last()) =~= text);
    } else {
        assert(text =~= seq![]);
    }
}

proof fn lines_after(ended: Seq<char>, rest: Seq<char>)
    requires
        split_lines(ended).1.len() == 0,
    ensures
        split_lines(ended + rest).0 == split_lines(ended).0 + split_lines(rest).0,
        split_lines(ended + rest).1 == split_lines(rest).1,
    decreases rest.len(),
{
    if rest.len() > 0 {
        lines_after(ended, rest.drop_last());
        assert((ended + rest).drop_last() =~= ended + rest.drop_last());
        let (a, b) = split_lines(ended + rest.drop_last());
        let (c, d) = split_lines(rest.drop_last());
        assert forall|line: Seq<char>| #[trigger] a.push(line) == split_lines(ended).0 + c.push(line) by {
            assert(a.push(line) =~= split_lines(ended).0 + c.push(line));
        }
    } else {
        assert(ended + rest =~= ended);
        assert(split_lines(ended).0 + seq![] =~= split_lines(ended).0);
        assert(split_lines(ended).1 =~= seq![]);
    }
}

/// What a hexadecimal digit is worth.
pub open spec fn hex_worth(c: char) -> int {
    if '0' <= c <= '9' {
        c as u32 - 48
    } else if 'A' <= c <= 'F' {
        c as u32 - 55
    } else {
        -1
    }
}

/// **A byte in hexadecimal reads back**: two digits, the sixteens first, in
/// capitals; a word is its high byte and its low one.
pub proof fn a_hexadecimal_reads_back(byte: u8, n: u16)
    ensures
        hex(byte).len() == 2,
        0 <= hex_worth(hex(byte)[0]) < 16,
        0 <= hex_worth(hex(byte)[1]) < 16,
        16 * hex_worth(hex(byte)[0]) + hex_worth(hex(byte)[1]) == byte,
        hex_word(n).len() == 4,
        4096 * hex_worth(hex_word(n)[0]) + 256 * hex_worth(hex_word(n)[1]) + 16 * hex_worth(
            hex_word(n)[2],
        ) + hex_worth(hex_word(n)[3]) == n,
{
    a_digit_is_worth_itself(byte as nat / 16);
    a_digit_is_worth_itself(byte as nat % 16);
    let (high, low) = ((n / 256) as u8, (n % 256) as u8);
    a_digit_is_worth_itself(high as nat / 16);
    a_digit_is_worth_itself(high as nat % 16);
    a_digit_is_worth_itself(low as nat / 16);
    a_digit_is_worth_itself(low as nat % 16);
    assert(hex_word(n)[0] == hex(high)[0] && hex_word(n)[1] == hex(high)[1]);
    assert(hex_word(n)[2] == hex(low)[0] && hex_word(n)[3] == hex(low)[1]);
}

proof fn a_digit_is_worth_itself(d: nat)
    requires
        d < 16,
    ensures
        hex_worth(hex_digit(d)) == d,
{
}

/// **A string of bytes ends at its first zero**: what comes before it is kept
/// whole, and without one all of it.
pub proof fn bytes_end_at_their_first_zero(bytes: Seq<u8>, at: int)
    requires
        0 <= at <= bytes.len(),
        forall|i: int| 0 <= i < at ==> (#[trigger] bytes[i]) != 0,
        at < bytes.len() ==> bytes[at] == 0,
    ensures
        up_to_zero(bytes) == bytes.take(at),
    decreases at,
{
    if at > 0 {
        let rest = bytes.skip(1);
        assert(bytes[0] != 0);
        assert forall|i: int| 0 <= i < at - 1 implies (#[trigger] rest[i]) != 0 by {
            assert(bytes[i + 1] != 0);
        }
        bytes_end_at_their_first_zero(rest, at - 1);
        assert(up_to_zero(bytes) =~= bytes.take(at));
    } else {
        assert(up_to_zero(bytes) =~= bytes.take(0));
    }
}

} // verus!
