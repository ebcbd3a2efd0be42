//! Which LEDs of a Corsair keyboard are the F-row, and what is said of one.

use vstd::prelude::*;

use crate::paths;
use crate::settings::KEYS;
use crate::text;

verus! {

/// How this surface names itself in the window.
pub const SURFACE: &'static str = "Corsair";

/// The SDK's library.
pub const DLL_NAME: &'static str = "iCUESDK.x64_2019.dll";

/// The F-row LEDs, `CLK_F1` = 2 through `CLK_F12` = 13, contiguous.
pub const F_ROW_FIRST_LUID: u32 = 2;

/// How long iCUE gets to accept a connection before we say so and try again,
/// in milliseconds.
pub const CONNECT_TIMEOUT_MS: u64 = 8000;

/// How long to wait before trying again after a failure, in milliseconds.
pub const RETRY_MS: u64 = 5000;

/// The SDK's id for the nth key of the F-row — the one place a key index
/// becomes something Corsair-shaped.
pub fn luid(key: usize) -> (id: u32)
    requires
        key + F_ROW_FIRST_LUID <= u32::MAX,
    ensures
        id == F_ROW_FIRST_LUID + key,
{
    F_ROW_FIRST_LUID + key as u32
}

/// The first `upto` keys whose LEDs are reported.
pub open spec fn among(reported: Seq<u32>, upto: int) -> Seq<usize>
    decreases upto,
{
    if upto <= 0 {
        seq![]
    } else {
        let before = among(reported, upto - 1);
        if reported.contains((F_ROW_FIRST_LUID + (upto - 1)) as u32) {
            before.push((upto - 1) as usize)
        } else {
            before
        }
    }
}

pub fn has_led(reported: &Vec<u32>, id: u32) -> (r: bool)
    ensures
        r == reported@.contains(id),
{
    let mut i: usize = 0;
    while i < reported.len()
        invariant
            i <= reported@.len(),
            forall|j: int| 0 <= j < i ==> reported@[j] != id,
        decreases reported@.len() - i,
    {
        if reported[i] == id {
            assert(reported@[i as int] == id);
            return true;
        }
        i = i + 1;
    }
    false
}

/// Which of the twelve keys a keyboard actually has, by F-row position: ours,
/// intersected with what it reports. Nothing outside this list is ever
/// written.
pub fn available(reported: &Vec<u32>) -> (keys: Vec<usize>)
    ensures
        keys@ == among(reported@, KEYS as int),
{
    let mut keys: Vec<usize> = Vec::new();
    let mut key: usize = 0;
    while key < KEYS
        invariant
            key <= KEYS,
            keys@ == among(reported@, key as int),
        decreases KEYS - key,
    {
        if has_led(reported, luid(key)) {
            keys.push(key);
        }
        key = key + 1;
    }
    keys
}

/// Why the row is dark on a machine without the SDK's library.
pub fn no_library(reason: &str, library: &str) -> (sentence: String)
    ensures
        sentence@ == reason@ + ". Install the app so "@ + library@ + " sits beside it."@,
{
    let mut sentence = reason.to_owned();
    sentence.push_str(". Install the app so ");
    sentence.push_str(library);
    sentence.push_str(" sits beside it.");
    sentence
}

/// Why a connection that iCUE never accepted came to nothing.
pub fn not_accepted() -> (sentence: String)
    ensures
        sentence@ == "iCUE did not accept the connection within "@ + text::decimal(8)
            + "s — is third-party control enabled?"@,
{
    let mut sentence = "iCUE did not accept the connection within ".to_owned();
    sentence.push_str(text::number(CONNECT_TIMEOUT_MS / 1000).as_str());
    sentence.push_str("s — is third-party control enabled?");
    sentence
}

/// What a C string says: its bytes up to the first zero, or all of them.
pub fn c_string(raw: &Vec<u8>) -> (words: String)
    ensures
        words@ == text::lossy(text::up_to_zero(raw@)),
{
    let mut bytes: Vec<u8> = Vec::new();
    let mut i: usize = 0;
    assert(raw@.skip(0) =~= raw@);
    assert(bytes@ + text::up_to_zero(raw@) =~= text::up_to_zero(raw@));
    while i < raw.len()
        invariant_except_break
            i <= raw@.len(),
            bytes@ + text::up_to_zero(raw@.skip(i as int)) == text::up_to_zero(raw@),
        ensures
            bytes@ == text::up_to_zero(raw@),
        decreases raw@.len() - i,
    {
        let ghost rest = raw@.skip(i as int);
        assert(rest[0] == raw@[i as int]);
        if raw[i] == 0 {
            assert(bytes@ + text::up_to_zero(rest) =~= bytes@);
            break;
        }
        let ghost held = bytes@;
        bytes.push(raw[i]);
        assert(rest.skip(1) =~= raw@.skip(i + 1));
        assert(held + (seq![rest[0]] + text::up_to_zero(rest.skip(1))) =~= bytes@
            + text::up_to_zero(rest.skip(1)));
        i = i + 1;
        if i == raw.len() {
            assert(bytes@ + text::up_to_zero(raw@.skip(i as int)) =~= bytes@);
        }
    }
    text::lossy_text(&bytes)
}

/// **Only keys the keyboard has**: the keys that are painted are keys of the
/// F-row whose LEDs were reported.
pub proof fn only_reported_keys_are_painted(reported: Seq<u32>, upto: int)
    requires
        upto <= KEYS,
    ensures
        forall|i: int|
            0 <= i < among(reported, upto).len() ==> {
                let key = #[trigger] among(reported, upto)[i];
                key < KEYS && reported.contains((F_ROW_FIRST_LUID + key) as u32)
            },
    decreases upto,
{
    if upto > 0 {
        only_reported_keys_are_painted(reported, upto - 1);
        let before = among(reported, upto - 1);
        assert forall|i: int| 0 <= i < among(reported, upto).len() implies {
            let key = #[trigger] among(reported, upto)[i];
            key < KEYS && reported.contains((F_ROW_FIRST_LUID + key) as u32)
        } by {
            if i < before.len() {
                assert(among(reported, upto)[i] == before[i]);
            }
        }
    }
}

/// Where the SDK's library is looked for, in order.
pub open spec fn places(beside: Option<Seq<char>>, installed: Option<Seq<char>>) -> Seq<Seq<char>> {
    let in_dir = |dir: Option<Seq<char>>|
        match dir {
            Some(dir) => seq![paths::joined(dir, "iCUESDK.x64_2019.dll"@, '\\')],
            None => seq![],
        };
    in_dir(beside) + in_dir(installed) + seq!["iCUESDK.x64_2019.dll"@]
}

/// Where to look for the SDK, in order.
///
/// Beside the running executable first, because that is where the installer
/// puts it and it is the copy we were built against. The bare name last, which
/// asks Windows to search its usual places for anyone who put it on `PATH`.
pub fn candidates(beside: Option<&str>, installed: Option<&str>) -> (files: Vec<String>)
    ensures
        text::views(files@) == places(text::seen(beside), text::seen(installed)),
{
    let mut files: Vec<String> = Vec::new();
    assert(text::views(files@) =~= seq![]);
    if let Some(dir) = beside {
        files.push(paths::join(dir, DLL_NAME, '\\'));
    }
    let ghost so_far = text::views(files@);
    assert(so_far =~= (match text::seen(beside) {
        Some(dir) => seq![paths::joined(dir, DLL_NAME@, '\\')],
        None => seq![],
    }));
    if let Some(dir) = installed {
        files.push(paths::join(dir, DLL_NAME, '\\'));
    }
    assert(text::views(files@) =~= so_far + (match text::seen(installed) {
        Some(dir) => seq![paths::joined(dir, DLL_NAME@, '\\')],
        None => seq![],
    }));
    let ghost before = text::views(files@);
    files.push(DLL_NAME.to_owned());
    assert(text::views(files@) =~= before.push(DLL_NAME@));
    assert(text::views(files@) =~= places(text::seen(beside), text::seen(installed)));
    files
}

/// What was tried: each file, and why it would not load.
pub open spec fn attempts(tried: Seq<(String, String)>) -> Seq<Seq<char>> {
    Seq::new(tried.len(), |i: int| tried[i].0@ + " ("@ + tried[i].1@ + ")"@)
}

/// Why the SDK's library was not loaded from anywhere.
pub fn not_loaded(tried: &Vec<(String, String)>) -> (sentence: String)
    ensures
        sentence@ == "could not load iCUESDK.x64_2019.dll: tried "@ + text::joined_by(
            attempts(tried@),
            ", "@,
        ),
{
    let mut words: Vec<String> = Vec::new();
    let mut i: usize = 0;
    while i < tried.len()
        invariant
            i <= tried@.len(),
            text::views(words@) =~= attempts(tried@).take(i as int),
        decreases tried@.len() - i,
    {
        let ghost before = text::views(words@);
        let mut word = tried[i].0.clone();
        word.push_str(" (");
        word.push_str(tried[i].1.as_str());
        word.push_str(")");
        words.push(word);
        assert(text::views(words@) =~= before.push(attempts(tried@)[i as int]));
        i = i + 1;
    }
    assert(attempts(tried@).take(i as int) =~= attempts(tried@));
    let mut sentence = "could not load iCUESDK.x64_2019.dll: tried ".to_owned();
    sentence.push_str(text::join(&words, ", ").as_str());
    sentence
}

/// **A key is painted just where its LED is reported**, each once and in
/// order: the LED of key `n` is number `n + 2`.
pub proof fn every_reported_key_is_painted(reported: Seq<u32>, upto: int, key: usize)
    requires
        0 <= upto <= 12,
        key < upto,
    ensures
        among(reported, upto).contains(key) <==> reported.contains((key + 2) as u32),
        forall|i: int, j: int|
            0 <= i < j < among(reported, upto).len() ==> (#[trigger] among(reported, upto)[i]) < (
            #[trigger] among(reported, upto)[j]),
        forall|i: int|
            0 <= i < among(reported, upto).len() ==> (#[trigger] among(reported, upto)[i]) < upto,
    decreases upto,
{
    let all = among(reported, upto);
    let before = among(reported, upto - 1);
    if upto > 1 {
        every_reported_key_is_painted(
            reported,
            upto - 1,
            if key < upto - 1 {
                key
            } else {
                0
            },
        );
    } else {
        assert(before.len() == 0);
    }
    if key == upto - 1 {
        if reported.contains((key + 2) as u32) {
            assert(all[before.len() as int] == key);
        }
    } else {
        if before.contains(key) {
            let i = choose|i: int| 0 <= i < before.len() && before[i] == key;
            assert(all[i] == key);
        }
        if all.contains(key) {
            let i = choose|i: int| 0 <= i < all.len() && all[i] == key;
            assert(before[i] == key);
        }
    }
}

/// **Where the library is looked for**: beside the program, where it is
/// installed, and last by its name alone.
pub proof fn the_library_is_looked_for_nearest_first(beside: Seq<char>, installed: Seq<char>)
    ensures
        ({
            let name = "iCUESDK.x64_2019.dll"@;
            let at = |dir: Seq<char>| paths::joined(dir, name, '\\');
            &&& places(Some(beside), Some(installed)) == seq![at(beside), at(installed), name]
            &&& places(None, Some(installed)) == seq![at(installed), name]
            &&& places(Some(beside), None) == seq![at(beside), name]
            &&& places(None, None) == seq![name]
        }),
{
}

} // verus!
