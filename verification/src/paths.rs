//! Where this application keeps its own files.
//!
//! One directory, so there is one place to look and one place to clear.

use vstd::prelude::*;

use crate::text;

verus! {

/// Whether `c` separates the parts of a path: either slash does, and only the
/// backward one in a path that is to be taken as it stands.
pub open spec fn is_separator(c: char, verbatim: bool) -> bool {
    c == '\\' || (c == '/' && !verbatim)
}

fn separates(c: char, verbatim: bool) -> (r: bool)
    ensures
        r == is_separator(c, verbatim),
{
    c == '\\' || (c == '/' && !verbatim)
}

/// Whether a path begins with a drive, such as `C:`.
pub open spec fn has_drive(path: Seq<char>) -> bool {
    path.len() >= 2 && ('a' <= path[0] <= 'z' || 'A' <= path[0] <= 'Z') && path[1] == ':'
}

fn drive_at(all: &Vec<char>, at: usize) -> (r: bool)
    requires
        at <= all@.len(),
    ensures
        r == has_drive(all@.skip(at as int)),
{
    all.len() - at >= 2 && (('a' <= all[at] && all[at] <= 'z') || ('A' <= all[at] && all[at] <= 'Z'))
        && all[at + 1] == ':'
}

/// `base` with `name` under it. A drive alone is where it stands, so nothing
/// comes between the two.
pub open spec fn joined(base: Seq<char>, name: Seq<char>, separator: char) -> Seq<char> {
    if base.len() == 0 || base.last() == '/' || base.last() == separator || (separator == '\\'
        && base.len() == 2 && has_drive(base)) {
        base + name
    } else {
        base.push(separator) + name
    }
}

/// `base` with `name` under it, for a `name` that is a plain file name.
pub fn join(base: &str, name: &str, separator: char) -> (path: String)
    ensures
        path@ == joined(base@, name@, separator),
{
    let all = text::chars(base);
    let mut path = base.to_owned();
    let size: usize = all.len();
    assert(all@.skip(0) =~= all@);
    if size > 0 && all[size - 1] != '/' && all[size - 1] != separator && !(separator == '\\' && size
        == 2 && drive_at(&all, 0)) {
        path.push(separator);
    }
    path.push_str(name);
    path
}

/// How far the first part of a path reaches.
pub open spec fn first_part(path: Seq<char>, verbatim: bool) -> nat
    decreases path.len(),
{
    if path.len() == 0 || is_separator(path[0], verbatim) {
        0
    } else {
        1 + first_part(path.skip(1), verbatim)
    }
}

fn part_end(all: &Vec<char>, from: usize, verbatim: bool) -> (to: usize)
    requires
        from <= all@.len(),
    ensures
        from <= to <= all@.len(),
        to == from + first_part(all@.skip(from as int), verbatim),
{
    let mut to: usize = from;
    while to < all.len() && !separates(all[to], verbatim)
        invariant
            from <= to <= all@.len(),
            from + first_part(all@.skip(from as int), verbatim) == to + first_part(
                all@.skip(to as int),
                verbatim,
            ),
        decreases all@.len() - to,
    {
        assert(all@.skip(to as int).skip(1) =~= all@.skip(to + 1));
        to = to + 1;
    }
    to
}

/// A path that is to be taken as it stands: `\\?\`.
pub open spec fn is_verbatim(path: Seq<char>) -> bool {
    path.len() >= 4 && path[0] == '\\' && path[1] == '\\' && path[2] == '?' && path[3] == '\\'
}

/// A device: `\\.\`.
pub open spec fn is_device(path: Seq<char>) -> bool {
    &&& path.len() >= 4
    &&& is_separator(path[0], false)
    &&& is_separator(path[1], false)
    &&& path[2] == '.'
    &&& is_separator(path[3], false)
}

/// How far a server and its share reach, as far as either is there.
pub open spec fn share_len(path: Seq<char>, verbatim: bool) -> nat {
    let server = first_part(path, verbatim);
    let share = first_part(path.skip(server as int + 1), verbatim);
    if server + 1 < path.len() && share > 0 {
        server + 1 + share
    } else {
        server
    }
}

/// How many characters of a path only say which volume it is on: a drive, a
/// server with its share, a device, or what follows `\\?\`.
pub open spec fn prefix_len(path: Seq<char>) -> nat {
    if is_verbatim(path) {
        let rest = path.skip(4);
        if rest.len() >= 4 && rest[0] == 'U' && rest[1] == 'N' && rest[2] == 'C' && is_separator(
            rest[3],
            false,
        ) {
            8 + share_len(path.skip(8), true)
        } else if has_drive(rest) && (rest.len() == 2 || is_separator(rest[2], false)) {
            6
        } else {
            4 + first_part(rest, true)
        }
    } else if is_device(path) {
        4 + first_part(path.skip(4), false)
    } else if path.len() >= 2 && is_separator(path[0], false) && is_separator(path[1], false) {
        let server = first_part(path.skip(2), false);
        if server > 0 && share_len(path.skip(2), false) > server {
            2 + share_len(path.skip(2), false)
        } else {
            0
        }
    } else if has_drive(path) {
        2
    } else {
        0
    }
}

fn share_end(all: &Vec<char>, from: usize, verbatim: bool) -> (to: usize)
    requires
        from <= all@.len(),
    ensures
        from <= to <= all@.len(),
        to == from + share_len(all@.skip(from as int), verbatim),
{
    let server: usize = part_end(all, from, verbatim);
    if server < all.len() {
        let ghost rest = all@.skip(from as int);
        assert(rest.skip(server - from + 1) =~= all@.skip(server + 1));
        let share: usize = part_end(all, server + 1, verbatim);
        if share > server + 1 {
            return share;
        }
    }
    server
}

fn prefix_end(all: &Vec<char>) -> (to: usize)
    ensures
        to <= all@.len(),
        to == prefix_len(all@),
{
    let size: usize = all.len();
    if size >= 4 && all[0] == '\\' && all[1] == '\\' && all[2] == '?' && all[3] == '\\' {
        assert(is_verbatim(all@));
        if size >= 8 && all[4] == 'U' && all[5] == 'N' && all[6] == 'C' && separates(all[7], false) {
            share_end(all, 8, true)
        } else if drive_at(all, 4) && (size == 6 || separates(all[6], false)) {
            6
        } else {
            part_end(all, 4, true)
        }
    } else if size >= 4 && separates(all[0], false) && separates(all[1], false) && all[2] == '.'
        && separates(all[3], false) {
        part_end(all, 4, false)
    } else if size >= 2 && separates(all[0], false) && separates(all[1], false) {
        let server: usize = part_end(all, 2, false);
        let share: usize = share_end(all, 2, false);
        if server > 2 && share > server {
            share
        } else {
            0
        }
    } else {
        assert(all@.skip(0) =~= all@);
        if drive_at(all, 0) {
            2
        } else {
            0
        }
    }
}

/// `path` without the separators at its end, and without the parts there that
/// only say "here", unless it is to be taken as it stands.
pub open spec fn bare(path: Seq<char>, verbatim: bool) -> Seq<char>
    decreases path.len(),
{
    if path.len() > 0 && is_separator(path.last(), verbatim) {
        bare(path.drop_last(), verbatim)
    } else if !verbatim && path.len() > 1 && path.last() == '.' && is_separator(
        path[path.len() - 2],
        verbatim,
    ) {
        bare(path.drop_last(), verbatim)
    } else {
        path
    }
}

/// What stands after the last separator.
pub open spec fn after_separator(path: Seq<char>, verbatim: bool) -> Seq<char>
    decreases path.len(),
{
    if path.len() == 0 || is_separator(path.last(), verbatim) {
        seq![]
    } else {
        after_separator(path.drop_last(), verbatim).push(path.last())
    }
}

/// The name a path ends in: none for a root or a bare volume, and none for one
/// that ends by staying or stepping up.
pub open spec fn last_part(path: Seq<char>) -> Option<Seq<char>> {
    let verbatim = is_verbatim(path);
    let kept = bare(path.skip(prefix_len(path) as int), verbatim);
    let name = after_separator(kept, verbatim);
    if name.len() == 0 || name == seq!['.', '.'] || (name == seq!['.'] && (verbatim || kept.len()
        == 1)) {
        None
    } else {
        Some(name)
    }
}

fn bare_end(all: &Vec<char>, start: usize, verbatim: bool) -> (to: usize)
    requires
        start <= all@.len(),
    ensures
        start <= to <= all@.len(),
        bare(all@.skip(start as int), verbatim) == all@.subrange(start as int, to as int),
{
    let mut to: usize = all.len();
    assert(all@.subrange(start as int, to as int) =~= all@.skip(start as int));
    while to > start && (separates(all[to - 1], verbatim) || (!verbatim && to - start > 1 && all[to - 1]
        == '.' && separates(all[to - 2], verbatim)))
        invariant
            start <= to <= all@.len(),
            bare(all@.skip(start as int), verbatim) == bare(
                all@.subrange(start as int, to as int),
                verbatim,
            ),
        decreases to,
    {
        assert(all@.subrange(start as int, to as int).drop_last() =~= all@.subrange(
            start as int,
            to - 1,
        ));
        to = to - 1;
    }
    to
}

fn name_start(all: &Vec<char>, start: usize, to: usize, verbatim: bool) -> (from: usize)
    requires
        start <= to <= all@.len(),
    ensures
        start <= from <= to,
        after_separator(all@.subrange(start as int, to as int), verbatim) == all@.subrange(
            from as int,
            to as int,
        ),
{
    let ghost kept = all@.subrange(start as int, to as int);
    let mut from: usize = to;
    assert(kept.take(to - start) =~= kept);
    assert(after_separator(kept, verbatim) + seq![] =~= after_separator(kept, verbatim));
    while from > start && !separates(all[from - 1], verbatim)
        invariant
            start <= from <= to <= all@.len(),
            kept == all@.subrange(start as int, to as int),
            after_separator(kept, verbatim) =~= after_separator(kept.take(from - start), verbatim)
                + kept.skip(from - start),
        decreases from,
    {
        assert(kept.take(from - start).drop_last() =~= kept.take(from - start - 1));
        from = from - 1;
    }
    assert(after_separator(kept.take(from - start), verbatim) =~= seq![]);
    assert(kept.skip(from - start) =~= all@.subrange(from as int, to as int));
    from
}

/// The name a path ends in, whichever way its separators lean: a WSL path is
/// read as well as a Windows one.
pub fn file_name(path: &str) -> (r: Option<String>)
    ensures
        text::shown(r) == last_part(path@),
{
    let all = text::chars(path);
    let start: usize = prefix_end(&all);
    let verbatim: bool = all.len() >= 4 && all[0] == '\\' && all[1] == '\\' && all[2] == '?'
        && all[3] == '\\';
    let to: usize = bare_end(&all, start, verbatim);
    let from: usize = name_start(&all, start, to, verbatim);
    let name = text::string_of(&all, from, to);
    let size: usize = to - from;
    if size == 0 {
        return None;
    }
    if size == 1 && all[from] == '.' && (verbatim || to - start == 1) {
        assert(name@ =~= seq!['.']);
        return None;
    }
    if size == 2 && all[from] == '.' && all[from + 1] == '.' {
        assert(name@ =~= seq!['.', '.']);
        return None;
    }
    proof {
        let up = seq!['.', '.'];
        let here = seq!['.'];
        assert(name@.len() == size);
        assert(up.len() == 2 && up[0] == '.' && up[1] == '.');
        assert(here.len() == 1 && here[0] == '.');
        if name@ == up {
            assert(name@[0] == all@[from as int] && name@[1] == all@[from + 1]);
        }
        if name@ == here {
            assert(name@[0] == all@[from as int]);
        }
    }
    Some(name)
}

/// A value that is there and says something.
pub open spec fn filled(text: Option<Seq<char>>) -> Option<Seq<char>> {
    match text {
        Some(text) => if text.len() == 0 {
            None
        } else {
            Some(text)
        },
        None => None,
    }
}

fn filled_of(text: Option<&str>) -> (r: Option<String>)
    ensures
        text::shown(r) == filled(text::seen(text)),
{
    match text {
        Some(text) => if text.is_empty() {
            None
        } else {
            Some(text.to_owned())
        },
        None => None,
    }
}

/// The home directory, by the two variables that may name it: the first that
/// is set, as long as it is not empty.
pub open spec fn home_of(first: Option<Seq<char>>, second: Option<Seq<char>>) -> Option<
    Seq<char>,
> {
    filled(
        if first is Some {
            first
        } else {
            second
        },
    )
}

pub fn home(first: Option<&str>, second: Option<&str>) -> (r: Option<String>)
    ensures
        text::shown(r) == home_of(text::seen(first), text::seen(second)),
{
    match first {
        Some(_) => filled_of(first),
        None => filled_of(second),
    }
}

/// A file or directory under another, where there is one.
pub open spec fn under(
    base: Option<Seq<char>>,
    name: Seq<char>,
    separator: char,
) -> Option<Seq<char>> {
    match base {
        Some(base) => Some(joined(base, name, separator)),
        None => None,
    }
}

fn under_of(base: Option<&str>, name: &str, separator: char) -> (r: Option<String>)
    ensures
        text::shown(r) == under(text::seen(base), name@, separator),
{
    match base {
        Some(base) => Some(join(base, name, separator)),
        None => None,
    }
}

/// Our directory in a home directory.
pub fn root(home: Option<&str>, separator: char) -> (r: Option<String>)
    ensures
        text::shown(r) == under(text::seen(home), ".agent-frow"@, separator),
{
    under_of(home, ".agent-frow", separator)
}

/// Where the token is: where it is said to be, or under our own directory.
pub open spec fn token_at(
    said: Option<Seq<char>>,
    root: Option<Seq<char>>,
    separator: char,
) -> Option<Seq<char>> {
    if filled(said) is Some {
        filled(said)
    } else {
        under(root, "token"@, separator)
    }
}

pub fn token_file(said: Option<&str>, root: Option<&str>, separator: char) -> (r: Option<String>)
    ensures
        text::shown(r) == token_at(text::seen(said), text::seen(root), separator),
{
    match filled_of(said) {
        Some(path) => Some(path),
        None => under_of(root, "token", separator),
    }
}

/// Where both executables are installed: under the local application data, or
/// under our own directory.
pub open spec fn install_at(
    local: Option<Seq<char>>,
    root: Option<Seq<char>>,
    separator: char,
) -> Option<Seq<char>> {
    if filled(local) is Some {
        under(filled(local), "agent-frow"@, separator)
    } else {
        under(root, "bin"@, separator)
    }
}

/// Where both executables are installed, and the only path an agent's
/// configuration ever names.
///
/// `%LOCALAPPDATA%` rather than the build directory: a hook registered against
/// a build stops working the moment it is cleaned, and for Codex a moved path
/// also costs the user a fresh `/hooks` trust.
pub fn install_dir(local: Option<&str>, root: Option<&str>, separator: char) -> (r: Option<String>)
    ensures
        text::shown(r) == install_at(text::seen(local), text::seen(root), separator),
{
    match filled_of(local) {
        Some(local) => under_of(Some(local.as_str()), "agent-frow", separator),
        None => under_of(root, "bin", separator),
    }
}

/// When each flavor last reached us, so a diagnostic can answer the only
/// question that matters after an install: is it actually working?
pub fn last_seen_file(root: Option<&str>, separator: char) -> (r: Option<String>)
    ensures
        text::shown(r) == under(text::seen(root), "last-seen.json"@, separator),
{
    under_of(root, "last-seen.json", separator)
}

/// Lane names, colours, saved agents, the lane count — the window's settings.
///
/// Beside the installed executables rather than in the profile directory: it is
/// this application's own configuration, and it should go wherever removing
/// this application would take it.
pub fn settings_file(install_dir: Option<&str>, separator: char) -> (r: Option<String>)
    ensures
        text::shown(r) == under(text::seen(install_dir), "settings.json"@, separator),
{
    under_of(install_dir, "settings.json", separator)
}

/// The token a file holds, if it holds one.
pub fn token_in(text: Option<&str>) -> (r: Option<String>)
    ensures
        text::shown(r) == text::word(text::seen(text)),
{
    text::word_of(text)
}

/// A token, of random bytes: two hexadecimal digits each, in small letters.
pub open spec fn token_text(bytes: Seq<u8>) -> Seq<char>
    decreases bytes.len(),
{
    if bytes.len() == 0 {
        seq![]
    } else {
        token_text(bytes.drop_last()) + text::in_small(text::hex(bytes.last()))
    }
}

/// A token made of random bytes.
pub fn token_of(bytes: &Vec<u8>) -> (token: String)
    ensures
        token@ == token_text(bytes@),
{
    let mut token = String::new();
    let mut i: usize = 0;
    assert(token@ =~= token_text(bytes@.take(0)));
    while i < bytes.len()
        invariant
            i <= bytes@.len(),
            token@ == token_text(bytes@.take(i as int)),
        decreases bytes@.len() - i,
    {
        assert(bytes@.take(i + 1).drop_last() =~= bytes@.take(i as int));
        token.push_str(text::lower(text::hex_byte(bytes[i]).as_str()).as_str());
        i = i + 1;
    }
    assert(bytes@.take(i as int) =~= bytes@);
    token
}

/// **A token is two digits to a byte.**
pub proof fn a_token_is_two_digits_a_byte(bytes: Seq<u8>)
    ensures
        token_text(bytes).len() == 2 * bytes.len(),
    decreases bytes.len(),
{
    if bytes.len() > 0 {
        a_token_is_two_digits_a_byte(bytes.drop_last());
    }
}

proof fn a_name_stands_behind_its_separator(rest: Seq<char>, name: Seq<char>)
    requires
        rest.len() > name.len() > 0,
        rest.skip(rest.len() - name.len()) == name,
        is_separator(rest[rest.len() - name.len() - 1], false),
        forall|i: int| 0 <= i < name.len() ==> !is_separator(#[trigger] name[i], false),
    ensures
        after_separator(rest, false) == name,
    decreases name.len(),
{
    let n = name.len() as int;
    assert(rest.last() == rest.skip(rest.len() - n)[n - 1]);
    assert(rest.last() == name[n - 1]);
    assert(name =~= name.drop_last().push(name.last()));
    if n > 1 {
        let (less, short) = (rest.drop_last(), name.drop_last());
        assert(less.skip(less.len() - short.len()) =~= short) by {
            assert forall|i: int| 0 <= i < short.len() implies less.skip(
                less.len() - short.len(),
            )[i] == short[i] by {
                assert(rest.skip(rest.len() - n)[i] == name[i]);
            }
        }
        a_name_stands_behind_its_separator(less, short);
    } else {
        assert(after_separator(rest.drop_last(), false) =~= seq![]);
        assert(name.drop_last() =~= seq![]);
    }
}

/// **What is put under a folder is its last part**: of a folder, a separator
/// and a plain name, the name is what the file is called.
pub proof fn what_is_put_under_a_folder_is_its_last_part(
    folder: Seq<char>,
    separator: char,
    name: Seq<char>,
)
    requires
        folder.len() > 0,
        folder[0] != '/' && folder[0] != '\\',
        separator == '/' || separator == '\\',
        name.len() > 0,
        name != seq!['.'],
        name != seq!['.', '.'],
        forall|i: int| 0 <= i < name.len() ==> (#[trigger] name[i]) != '/' && name[i] != '\\',
    ensures
        last_part(folder.push(separator) + name) == Some(name),
{
    let path = folder.push(separator) + name;
    assert(path[0] == folder[0]);
    let skipped = prefix_len(path) as int;
    assert(skipped == 0 || skipped == 2);
    assert(skipped <= folder.len()) by {
        if skipped == 2 && folder.len() == 1 {
            assert(path[1] == separator);
        }
    }
    let rest = path.skip(skipped);
    let n = name.len() as int;
    assert(rest.skip(rest.len() - n) =~= name);
    assert(rest[rest.len() - n - 1] == separator);
    assert forall|i: int| 0 <= i < name.len() implies !is_separator(#[trigger] name[i], false) by {
        assert(name[i] != '/' && name[i] != '\\');
    }
    assert(rest.last() == name[n - 1]);
    assert(bare(rest, false) == rest) by {
        if rest.last() == '.' && is_separator(rest[rest.len() - 2], false) {
            if n > 1 {
                assert(rest[rest.len() - 2] == name[n - 2]);
            } else {
                assert(name =~= seq!['.']);
            }
        }
    }
    a_name_stands_behind_its_separator(rest, name);
    assert(name != seq!['.', '.'] && name != seq!['.']);
}

/// **A name joined to a folder stands right behind it**, with one separator
/// between them: none is added where the folder ends in one, or is nothing.
pub proof fn a_joined_name_stands_right_behind(base: Seq<char>, name: Seq<char>, separator: char)
    requires
        separator == '/' || separator == '\\',
    ensures
        ({
            let path = joined(base, name, separator);
            &&& path.len() >= base.len() + name.len()
            &&& path.take(base.len() as int) == base
            &&& path.skip(path.len() - name.len()) == name
            &&& path.len() <= base.len() + name.len() + 1
            &&& path.len() == base.len() + name.len() + 1 ==> path[base.len() as int] == separator
            &&& base.len() == 0 || base.last() == '/' || base.last() == separator ==> path.len()
                == base.len() + name.len()
            &&& base.len() > 2 && base.last() != '/' && base.last() != separator ==> path.len()
                == base.len() + name.len() + 1
        }),
{
    let path = joined(base, name, separator);
    assert(path.take(base.len() as int) =~= base);
    assert(path.skip(path.len() - name.len()) =~= name);
}

/// **Where things are kept**: the first home named counts, the token is where
/// it is said to be or else under the root, and the program is under the local
/// folder or else under the root. An empty word is no place.
pub proof fn where_things_are_kept(
    one: Seq<char>,
    other: Option<Seq<char>>,
    root: Seq<char>,
    separator: char,
)
    requires
        one.len() > 0,
    ensures
        ({
            let nothing = Seq::<char>::empty();
            &&& home_of(Some(one), other) == Some(one)
            &&& home_of(None, Some(one)) == Some(one)
            &&& home_of(Some(nothing), other) is None
            &&& home_of(None, None) is None
            &&& token_at(Some(one), other, separator) == Some(one)
            &&& token_at(None, Some(root), separator) == Some(joined(root, "token"@, separator))
            &&& token_at(Some(nothing), Some(root), separator) == Some(
                joined(root, "token"@, separator),
            )
            &&& install_at(Some(one), other, separator) == Some(
                joined(one, "agent-frow"@, separator),
            )
            &&& install_at(None, Some(root), separator) == Some(joined(root, "bin"@, separator))
            &&& install_at(Some(nothing), Some(root), separator) == Some(
                joined(root, "bin"@, separator),
            )
            &&& token_at(None, None, separator) is None && install_at(None, None, separator) is None
        }),
{
}

/// **A token spells its bytes one after the other.**
pub proof fn a_token_spells_its_bytes(a: Seq<u8>, b: Seq<u8>, byte: u8)
    ensures
        token_text(a + b) == token_text(a) + token_text(b),
        token_text(seq![byte]) == text::in_small(text::hex(byte)),
    decreases b.len(),
{
    if b.len() > 0 {
        assert((a + b).drop_last() =~= a + b.drop_last());
        a_token_spells_its_bytes(a, b.drop_last(), byte);
        assert(token_text(a + b) =~= token_text(a) + token_text(b));
    } else {
        assert(a + b =~= a);
        assert(token_text(a) + token_text(b) =~= token_text(a));
        assert(seq![byte].drop_last() =~= seq![]);
        assert(token_text(Seq::<u8>::empty()) =~= seq![]);
        assert(token_text(seq![byte]) =~= text::in_small(text::hex(byte)));
    }
}

/// Whether `word` holds no separator.
pub open spec fn one_part(word: Seq<char>) -> bool {
    forall|i: int| 0 <= i < word.len() ==> (#[trigger] word[i]) != '/' && word[i] != '\\'
}

proof fn a_part_ends_at_its_separator(word: Seq<char>, rest: Seq<char>)
    requires
        one_part(word),
        rest.len() > 0 ==> is_separator(rest[0], false),
    ensures
        first_part(word + rest, false) == word.len(),
    decreases word.len(),
{
    let path = word + rest;
    if word.len() > 0 {
        assert(path[0] == word[0]);
        let less = word.skip(1);
        assert(path.skip(1) =~= less + rest);
        assert forall|i: int| 0 <= i < less.len() implies (#[trigger] less[i]) != '/' && less[i]
            != '\\' by {
            assert(word[i + 1] != '/' && word[i + 1] != '\\');
        }
        a_part_ends_at_its_separator(less, rest);
    } else if rest.len() > 0 {
        assert(path[0] == rest[0]);
    }
}

/// **A folder that is shared is no part**: on a server's share the last part is
/// what stands under the share, and the share itself is called nothing.
pub proof fn a_share_is_no_part(server: Seq<char>, share: Seq<char>, name: Seq<char>)
    requires
        server.len() > 0 && one_part(server) && server[0] != '?' && server[0] != '.',
        share.len() > 0 && one_part(share),
        name.len() > 0 && one_part(name),
        name != seq!['.'],
        name != seq!['.', '.'],
    ensures
        ({
            let root = seq!['\\', '\\'] + server + seq!['\\'] + share;
            &&& last_part(root) is None
            &&& last_part(root + seq!['\\'] + name) == Some(name)
        }),
{
    let start = seq!['\\', '\\'];
    let root = start + server + seq!['\\'] + share;
    let path = root + seq!['\\'] + name;
    let tail = seq!['\\'] + name;
    assert(root.skip(2) =~= server + (seq!['\\'] + share));
    a_part_ends_at_its_separator(server, seq!['\\'] + share);
    let n = server.len() as int;
    assert(root.skip(2).skip(n + 1) =~= share);
    a_part_ends_at_its_separator(share, seq![]);
    assert(share + Seq::<char>::empty() =~= share);
    assert(root[2] == server[0] && path[2] == server[0]);
    assert(root[0] == '\\' && root[1] == '\\' && path[0] == '\\' && path[1] == '\\');
    assert(prefix_len(root) == root.len());
    assert(root.skip(root.len() as int) =~= seq![]);
    assert(bare(Seq::<char>::empty(), false) =~= seq![]);
    assert(after_separator(Seq::<char>::empty(), false) =~= seq![]);
    assert(last_part(root) is None);
    assert(path.skip(2) =~= server + (seq!['\\'] + share + tail));
    a_part_ends_at_its_separator(server, seq!['\\'] + share + tail);
    assert(path.skip(2).skip(n + 1) =~= share + tail);
    a_part_ends_at_its_separator(share, tail);
    assert(prefix_len(path) == root.len());
    let rest = path.skip(root.len() as int);
    assert(rest =~= tail);
    assert forall|i: int| 0 <= i < name.len() implies !is_separator(#[trigger] name[i], false) by {
        assert(name[i] != '/' && name[i] != '\\');
    }
    let m = name.len() as int;
    assert(rest.skip(rest.len() - m) =~= name);
    assert(bare(rest, false) == rest) by {
        assert(rest.last() == name[m - 1]);
        if rest.last() == '.' && is_separator(rest[rest.len() - 2], false) {
            if m > 1 {
                assert(rest[rest.len() - 2] == name[m - 2]);
            } else {
                assert(name =~= seq!['.']);
            }
        }
    }
    a_name_stands_behind_its_separator(rest, name);
    assert(name != seq!['.', '.'] && name != seq!['.']);
}

/// **A separator at the end changes nothing.**
pub proof fn a_separator_at_the_end_changes_nothing(folder: Seq<char>, separator: char)
    requires
        folder.len() > 2,
        folder[0] != '/' && folder[0] != '\\',
        separator == '/' || separator == '\\',
    ensures
        last_part(folder.push(separator)) == last_part(folder),
{
    let path = folder.push(separator);
    assert(path[0] == folder[0] && path[1] == folder[1]);
    assert(!is_verbatim(path) && !is_verbatim(folder));
    let skipped = prefix_len(folder) as int;
    assert(prefix_len(path) == skipped);
    assert(skipped == 0 || skipped == 2);
    let rest = path.skip(skipped);
    assert(rest.last() == separator);
    assert(rest.drop_last() =~= folder.skip(skipped));
}

} // verus!
