//! When each flavor last reached us.
//!
//! A configuration file can only say a hook is *registered*; it can never say
//! the agent has actually run it. "Registered, but never seen" is the signature
//! of a Codex trust review nobody has done yet, and it looks exactly like a
//! broken app until you can tell the two apart.
//!
//! Kept on disk so the answer survives a restart and can be printed by
//! `doctor` when the tray app is not running.

use vstd::prelude::*;

use crate::json::{self, Json, Tree, json_of, number_of, pretty_of, says, shallow};
use crate::table::{Table, mapped};
use crate::text::{self, decimal};

verus! {

/// The times that an object holds, by name: only whole numbers are times.
pub open spec fn times_in(entries: Map<Seq<char>, Tree>) -> Map<Seq<char>, u64> {
    Map::new(
        |key: Seq<char>| entries.contains_key(key) && number_of(entries[key]) is Some,
        |key: Seq<char>| number_of(entries[key])->0,
    )
}

/// The times that a file holds: none, where it cannot be read or is not what
/// we write.
pub open spec fn times_of(text: Option<Seq<char>>) -> Map<Seq<char>, u64> {
    match text {
        None => map![],
        Some(text) => match json_of(text) {
            Ok(Tree::Record(entries)) => times_in(entries),
            _ => map![],
        },
    }
}

/// Times as an object.
pub open spec fn filed(times: Map<Seq<char>, u64>) -> Map<Seq<char>, Tree> {
    times.map_values(|at: u64| Tree::Unsigned(at))
}

/// Reads the recorded times, keyed by `--source` name.
pub fn load(text: Option<&str>) -> (times: Table<u64>)
    ensures
        times@ == times_of(text::seen(text)),
{
    let mut times: Table<u64> = Table::new();
    let source: &str = match text {
        Some(text) => text,
        None => return times,
    };
    let document = match json::parse(source) {
        Ok(document) => document,
        Err(_) => return times,
    };
    match document {
        Json::Record(entries) => {
            let ghost all = entries@;
            let mut i: usize = 0;
            assert(times_in(json::record(all.take(0))) =~= map![]);
            while i < entries.len()
                invariant
                    i <= all.len(),
                    all == entries@,
                    times@ == times_in(json::record(all.take(i as int))),
                decreases all.len() - i,
            {
                let ghost before = json::record(all.take(i as int));
                let ghost key = all[i as int].0@;
                let ghost value = all[i as int].1@;
                assert(all.take(i + 1).drop_last() =~= all.take(i as int));
                assert(json::record(all.take(i + 1)) == before.insert(key, value));
                // Of two entries under one name, the later counts.
                match entries[i].1.as_u64() {
                    Some(at) => {
                        times.insert(entries[i].0.clone(), at);
                        assert(times_in(before.insert(key, value)) =~= times_in(before).insert(
                            key,
                            at,
                        ));
                    },
                    None => {
                        times.remove(entries[i].0.as_str());
                        assert(times_in(before.insert(key, value)) =~= times_in(before).remove(
                            key,
                        ));
                    },
                }
                i = i + 1;
            }
            assert(all.take(i as int) =~= all);
            times
        },
        _ => times,
    }
}

/// What to write once `source` was heard from at `now_ms`, over what the file
/// held before. Read back, it holds that, and every other time it held.
pub fn record(text: Option<&str>, source: &str, now_ms: u64) -> (after: String)
    ensures
        after@ == pretty_of(
            Tree::Record(filed(times_of(text::seen(text)).insert(source@, now_ms))),
        ),
        times_of(Some(after@)) == times_of(text::seen(text)).insert(source@, now_ms),
{
    let mut times = load(text);
    times.insert(source.to_owned(), now_ms);
    let pairs = times.pairs();
    let ghost all = pairs@;
    let mut entries: Vec<(String, Json)> = Vec::new();
    let mut i: usize = 0;
    assert(json::record(entries@) =~= filed(mapped(all.take(0))));
    while i < pairs.len()
        invariant
            i <= all.len(),
            all == pairs@,
            json::record(entries@) == filed(mapped(all.take(i as int))),
        decreases all.len() - i,
    {
        let ghost before = mapped(all.take(i as int));
        assert(all.take(i + 1).drop_last() =~= all.take(i as int));
        json::put(&mut entries, pairs[i].0.as_str(), Json::Unsigned(pairs[i].1));
        assert(filed(before.insert(all[i as int].0@, all[i as int].1)) =~= filed(before).insert(
            all[i as int].0@,
            Tree::Unsigned(all[i as int].1),
        ));
        i = i + 1;
    }
    assert(all.take(i as int) =~= all);
    let document = Json::Record(entries);
    let after = json::pretty(&document);
    proof {
        let held = filed(times@);
        assert(document@ == Tree::Record(held));
        assert forall|key: Seq<char>| held.contains_key(key) implies shallow(
            #[trigger] held[key],
            99,
        ) by {}
        assert(shallow(document@, 100));
        assert(says(after@, document@));
        assert(times_in(held) =~= times@);
    }
    after
}

/// How long ago, in the words a person reads.
pub open spec fn ago(seconds: nat) -> Seq<char> {
    if seconds <= 5 {
        "just now"@
    } else if seconds <= 90 {
        decimal(seconds) + "s ago"@
    } else if seconds <= 5400 {
        decimal(seconds / 60) + "m ago"@
    } else if seconds <= 172_800 {
        decimal(seconds / 3600) + "h ago"@
    } else {
        decimal(seconds / 86_400) + "d ago"@
    }
}

/// What the last-event column says.
pub open spec fn last_heard(at: Option<u64>, now_ms: u64) -> Seq<char> {
    match at {
        None => "never"@,
        Some(at) => ago(if now_ms < at { 0 } else { (now_ms - at) as nat / 1000 }),
    }
}

fn counted(n: u64, unit: &str) -> (words: String)
    ensures
        words@ == decimal(n as nat) + unit@,
{
    let mut words = text::number(n);
    words.push_str(unit);
    words
}

/// "4m ago", "never", and so on — the column a person actually reads.
pub fn describe(at: Option<u64>, now_ms: u64) -> (words: String)
    ensures
        words@ == last_heard(at, now_ms),
{
    let at: u64 = match at {
        Some(at) => at,
        None => return "never".to_owned(),
    };
    let secs: u64 = if now_ms < at { 0 } else { (now_ms - at) / 1000 };
    if secs <= 5 {
        "just now".to_owned()
    } else if secs <= 90 {
        counted(secs, "s ago")
    } else if secs <= 5400 {
        counted(secs / 60, "m ago")
    } else if secs <= 172_800 {
        counted(secs / 3600, "h ago")
    } else {
        counted(secs / 86_400, "d ago")
    }
}

/// **Never is not a long time ago**: no time at all reads as "never".
pub proof fn never_is_no_time(at: u64, now_ms: u64)
    ensures
        last_heard(Some(at), now_ms) != "never"@,
{
    reveal_strlit("never");
    reveal_strlit("just now");
    reveal_strlit("s ago");
    reveal_strlit("m ago");
    reveal_strlit("h ago");
    reveal_strlit("d ago");
    let words = last_heard(Some(at), now_ms);
    if words.len() == "never"@.len() {
        assert(words.last() != 'r');
        assert("never"@.last() == 'r');
    }
}

/// **How long ago is told in the largest unit that fits**: the number of whole
/// seconds, minutes, hours or days that have gone by — seconds up to a minute
/// and a half, minutes up to an hour and a half, hours up to two days.
pub proof fn how_long_ago_is_told_in_whole_units(seconds: nat)
    ensures
        seconds <= 5 ==> ago(seconds) == "just now"@,
        5 < seconds <= 90 ==> ago(seconds) == decimal(seconds) + "s ago"@,
        90 < seconds <= 5400 ==> exists|n: nat|
            60 * n <= seconds < 60 * (n + 1) && ago(seconds) == #[trigger] decimal(n) + "m ago"@,
        5400 < seconds <= 172_800 ==> exists|n: nat|
            3600 * n <= seconds < 3600 * (n + 1) && ago(seconds) == #[trigger] decimal(n)
                + "h ago"@,
        172_800 < seconds ==> exists|n: nat|
            86_400 * n <= seconds < 86_400 * (n + 1) && ago(seconds) == #[trigger] decimal(n)
                + "d ago"@,
{
    let (m, h, d) = (seconds / 60, seconds / 3600, seconds / 86_400);
    assert(60 * m <= seconds < 60 * (m + 1));
    assert(3600 * h <= seconds < 3600 * (h + 1));
    assert(86_400 * d <= seconds < 86_400 * (d + 1));
    assert(decimal(m) == decimal(m) && decimal(h) == decimal(h) && decimal(d) == decimal(d));
}

/// **The time is counted from when something was heard**, in whole seconds; a
/// time to come is now.
pub proof fn the_time_is_counted_from_when_it_was_heard(at: u64, now_ms: u64)
    ensures
        last_heard(None, now_ms) == "never"@,
        now_ms <= at ==> last_heard(Some(at), now_ms) == ago(0),
        at <= now_ms ==> exists|seconds: nat|
            at + 1000 * seconds <= now_ms < at + 1000 * (seconds + 1) && last_heard(Some(at), now_ms)
                == #[trigger] ago(seconds),
{
    if at <= now_ms {
        let seconds = (now_ms - at) as nat / 1000;
        assert(at + 1000 * seconds <= now_ms < at + 1000 * (seconds + 1));
        assert(last_heard(Some(at), now_ms) == ago(seconds));
    }
}

} // verus!
