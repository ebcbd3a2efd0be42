//! The numbers a lane can show beside its state: how much of the context
//! window is used, and how much of the five-hour and seven-day limits.
//!
//! Hooks carry none of these — on either side. They come from two other
//! places, and this module is where both are turned into one shape:
//!
//! - One agent hands them to its status-line command, on every assistant
//!   message. The hook's `--status` mode projects three percentages out of
//!   that JSON and posts them as a `StatusLine` record; nothing else in the
//!   status JSON leaves the machine, and the JSON itself goes on to the
//!   user's own status line untouched.
//! - **Codex** writes them into its session rollout, one `token_count` line
//!   after each model response. Every Codex hook names that file
//!   (`transcript_path`), and the app reads its tail — never the hook, which
//!   is a Windows process even for a WSL agent and cannot see `/home`.
//!
//! The limits are an account's, not a lane's: every lane of one account
//! reads the same. Unknown is unknown, never zero.

use vstd::arithmetic::power2::pow2;
use vstd::prelude::*;

use crate::json::{
    Json, Tree, entry, json_of, parse, put, real_of, record, signed_at, text_at,
};
use crate::number;
use crate::text;

verus! {

/// Three percentages, each of them possibly unknown.
#[derive(Debug, Clone, Copy, PartialEq, Eq, Structural)]
pub struct Gauges {
    pub context_used: Option<u8>,
    pub five_hour: Option<u8>,
    pub seven_day: Option<u8>,
}

/// `newer` where it is known, else `older`.
pub open spec fn later(older: Option<u8>, newer: Option<u8>) -> Option<u8> {
    if newer is Some {
        newer
    } else {
        older
    }
}

impl Gauges {
    pub open spec fn unknown() -> Self {
        Gauges { context_used: None, five_hour: None, seven_day: None }
    }

    pub open spec fn merged(self, newer: Self) -> Self {
        Gauges {
            context_used: later(self.context_used, newer.context_used),
            five_hour: later(self.five_hour, newer.five_hour),
            seven_day: later(self.seven_day, newer.seven_day),
        }
    }

    /// Takes what `newer` knows and keeps what it does not.
    pub fn merge(&mut self, newer: Self)
        ensures
            *final(self) == old(self).merged(newer),
    {
        if newer.context_used.is_some() {
            self.context_used = newer.context_used;
        }
        if newer.five_hour.is_some() {
            self.five_hour = newer.five_hour;
        }
        if newer.seven_day.is_some() {
            self.seven_day = newer.seven_day;
        }
    }
}

impl Default for Gauges {
    fn default() -> (gauges: Self)
        ensures
            gauges == Gauges::unknown(),
    {
        Gauges { context_used: None, five_hour: None, seven_day: None }
    }
}

/// What the Codex TUI subtracts from both the usage and the window before
/// showing "context left": the tokens every conversation starts with.
pub const BASELINE_TOKENS: i64 = 12_000;

/// How much of a rollout's end is read. The last `token_count` sits before
/// the response items that follow it, and a tool's output among them can run
/// past sixty kilobytes; a quarter megabyte over WSL's file server is tens
/// of milliseconds on the worker thread, never on the accept path.
pub const TAIL: u64 = 262_144;

/// `n` within 0 and 100.
pub open spec fn capped(n: int) -> u8 {
    if n <= 0 {
        0
    } else if n >= 100 {
        100
    } else {
        n as u8
    }
}

/// A double as a whole percentage, rounded and clamped.
pub open spec fn percent_of(bits: u64) -> u8 {
    let m = number::significand(bits) as int;
    let e = number::exponent(bits);
    if number::is_negative(bits) {
        0
    } else if e >= 0 {
        capped(m * pow2(e as nat))
    } else {
        capped(number::nearest(m, pow2((-e) as nat) as int))
    }
}

fn percent_in(bits: u64) -> (r: u8)
    requires
        number::finite(bits),
    ensures
        r == percent_of(bits),
{
    if bits >= 0x8000_0000_0000_0000 {
        return 0;
    }
    let field: u64 = bits / 0x10_0000_0000_0000;
    let fraction: u64 = bits % 0x10_0000_0000_0000;
    let ghost m = number::significand(bits) as int;
    let ghost e = number::exponent(bits);
    if field < 1022 {
        proof {
            // Below a half.
            let d = pow2((-e) as nat) as int;
            vstd::arithmetic::power2::lemma2_to64_rest();
            if -e > 54 {
                vstd::arithmetic::power2::lemma_pow2_strictly_increases(54, (-e) as nat);
            }
            assert(d >= pow2(54));
            assert(m < 0x20_0000_0000_0000);
            assert((2 * m + d) / (2 * d) == 0) by (nonlinear_arith)
                requires
                    0 <= m,
                    2 * m < d,
            ;
        }
        return 0;
    }
    if field >= 1030 {
        proof {
            vstd::arithmetic::power2::lemma2_to64();
            vstd::arithmetic::power2::lemma2_to64_rest();
            assert(m >= 0x10_0000_0000_0000);
            if e >= 0 {
                vstd::arithmetic::power2::lemma_pow2_pos(e as nat);
                assert(m * pow2(e as nat) >= 100) by (nonlinear_arith)
                    requires
                        m >= 0x10_0000_0000_0000,
                        pow2(e as nat) >= 1,
                ;
            } else {
                let d = pow2((-e) as nat) as int;
                vstd::arithmetic::power2::lemma_pow2_pos((-e) as nat);
                if -e < 45 {
                    vstd::arithmetic::power2::lemma_pow2_strictly_increases((-e) as nat, 45);
                }
                assert(d <= 0x2000_0000_0000);
                assert((2 * m + d) / (2 * d) >= 100) by (nonlinear_arith)
                    requires
                        m >= 128 * d,
                        d > 0,
                ;
            }
        }
        return 100;
    }
    let d: u64 = number::two_to((1075 - field) as u32);
    let whole: u64 = 0x10_0000_0000_0000 + fraction;
    proof {
        vstd::arithmetic::power2::lemma2_to64();
        vstd::arithmetic::power2::lemma2_to64_rest();
        if 1075 - field < 53 {
            vstd::arithmetic::power2::lemma_pow2_strictly_increases((1075 - field) as nat, 53);
        }
        vstd::arithmetic::power2::lemma_pow2_pos((1075 - field) as nat);
    }
    let n: u64 = (2 * whole + d) / (2 * d);
    if n >= 100 {
        100
    } else {
        n as u8
    }
}

/// A JSON number as a whole percentage, rounded and clamped.
pub open spec fn percentage(tree: Tree) -> Option<u8> {
    match real_of(tree) {
        Some(bits) => Some(percent_of(bits)),
        None => None,
    }
}

/// A JSON number as a whole percentage, rounded and clamped. Anything that is
/// not a finite number is unknown.
pub fn percent(value: &Json) -> (r: Option<u8>)
    ensures
        r == percentage(value@),
{
    match value.as_real() {
        Some(bits) => Some(percent_in(bits)),
        None => None,
    }
}

pub open spec fn percent_at(tree: Tree, key: Seq<char>) -> Option<u8> {
    match entry(tree, key) {
        Some(value) => percentage(value),
        None => None,
    }
}

fn percent_under(value: &Json, key: &str) -> (r: Option<u8>)
    ensures
        r == percent_at(value@, key@),
{
    match value.get(key) {
        Some(value) => percent(value),
        None => None,
    }
}

/// One optional number under its key.
pub open spec fn kept(
    entries: Map<Seq<char>, Tree>,
    key: Seq<char>,
    value: Option<u8>,
) -> Map<Seq<char>, Tree> {
    match value {
        Some(n) => entries.insert(key, Tree::Unsigned(n as u64)),
        None => entries,
    }
}

impl Gauges {
    pub open spec fn wire(self) -> Tree {
        Tree::Record(
            kept(
                kept(kept(map![], "ctx"@, self.context_used), "h5"@, self.five_hour),
                "d7"@,
                self.seven_day,
            ),
        )
    }

    pub open spec fn read(tree: Tree) -> Option<Gauges> {
        if tree is Record {
            Some(
                Gauges {
                    context_used: percent_at(tree, "ctx"@),
                    five_hour: percent_at(tree, "h5"@),
                    seven_day: percent_at(tree, "d7"@),
                },
            )
        } else {
            None
        }
    }

    /// The wire shape: `{"ctx": 42, "h5": 10, "d7": 3}`, any key absent.
    pub fn from_json(value: &Json) -> (r: Option<Self>)
        ensures
            r == Gauges::read(value@),
    {
        if !value.is_record() {
            return None;
        }
        Some(
            Gauges {
                context_used: percent_under(value, "ctx"),
                five_hour: percent_under(value, "h5"),
                seven_day: percent_under(value, "d7"),
            },
        )
    }

    pub fn to_json(self) -> (json: Json)
        ensures
            json@ == self.wire(),
    {
        let mut object: Vec<(String, Json)> = Vec::new();
        assert(record(object@) =~= map![]);
        if let Some(value) = self.context_used {
            put(&mut object, "ctx", Json::Unsigned(value as u64));
        }
        if let Some(value) = self.five_hour {
            put(&mut object, "h5", Json::Unsigned(value as u64));
        }
        if let Some(value) = self.seven_day {
            put(&mut object, "d7", Json::Unsigned(value as u64));
        }
        Json::Record(object)
    }

    pub open spec fn nothing(self) -> bool {
        self.context_used is None && self.five_hour is None && self.seven_day is None
    }

    pub fn is_empty(self) -> (r: bool)
        ensures
            r == self.nothing(),
    {
        self.context_used.is_none() && self.five_hour.is_none() && self.seven_day.is_none()
    }

    pub open spec fn words(self) -> Option<Seq<char>> {
        if self.nothing() {
            None
        } else {
            Some(
                "ctx "@ + figure(self.context_used) + " · 5h "@ + figure(self.five_hour) + " · 7d "@
                    + figure(self.seven_day),
            )
        }
    }

    /// One line for the window: `ctx 42% · 5h — · 7d 3%`. Nothing at all
    /// when nothing is known — a lane with no numbers is two lines, not
    /// three dashes.
    pub fn sentence(self) -> (r: Option<String>)
        ensures
            text::shown(r) == self.words(),
    {
        if self.is_empty() {
            return None;
        }
        let mut words = "ctx ".to_owned();
        words.push_str(figure_text(self.context_used).as_str());
        words.push_str(" · 5h ");
        words.push_str(figure_text(self.five_hour).as_str());
        words.push_str(" · 7d ");
        words.push_str(figure_text(self.seven_day).as_str());
        Some(words)
    }
}

/// A percentage, or a dash while it is unknown.
pub open spec fn figure(value: Option<u8>) -> Seq<char> {
    match value {
        Some(n) => text::decimal(n as nat) + "%"@,
        None => "—"@,
    }
}

pub(crate) fn figure_text(value: Option<u8>) -> (r: String)
    ensures
        r@ == figure(value),
{
    match value {
        Some(n) => {
            let mut words = text::number(n as u64);
            words.push_str("%");
            words
        },
        None => "—".to_owned(),
    }
}

/// The share of the context used, by the TUI's arithmetic.
pub open spec fn context_share(total: i64, window: i64) -> u8 {
    let used = if total > BASELINE_TOKENS {
        total - BASELINE_TOKENS
    } else {
        0
    };
    percent_used(used as nat, (window - BASELINE_TOKENS) as nat)
}

/// How many hundredths of `room` are used, worked out in double precision: a
/// share under a thirty-second, where a double has finer steps than are
/// counted here, is none.
pub open spec fn percent_used(used: nat, room: nat) -> u8 {
    let hundredfold = number::to_double(100 * number::to_double(used, 1), 1);
    let room = number::to_double(room, 1);
    let share = number::to_double(hundredfold * pow2(57), room);
    capped(number::nearest(share as int, pow2(57) as int))
}

fn used_percent(used: u64, room: u64) -> (r: u8)
    requires
        used <= 0x7fff_ffff_ffff_ffff,
        0 < room <= 0x7fff_ffff_ffff_ffff,
    ensures
        r == percent_used(used as nat, room as nat),
{
    proof {
        number::double_bounds(used as nat);
        number::double_bounds(room as nat);
        vstd::arithmetic::power2::lemma2_to64();
        vstd::arithmetic::power2::lemma2_to64_rest();
    }
    let whole: u128 = number::double_near(used as u128, 1);
    proof {
        number::double_bounds(100 * whole as nat);
    }
    let hundredfold: u128 = number::double_near(100 * whole, 1);
    let room: u128 = number::double_near(room as u128, 1);
    let share: u128 = number::double_near(hundredfold * 0x200_0000_0000_0000, room);
    let n: u128 = share / 0x200_0000_0000_0000;
    if n >= 100 {
        proof {
            assert((2 * share + 0x200_0000_0000_0000) / 0x400_0000_0000_0000 >= 100);
        }
        return 100;
    }
    ((2 * share + 0x200_0000_0000_0000) / 0x400_0000_0000_0000) as u8
}

pub open spec fn context_in(payload: Tree) -> Option<u8> {
    match entry(payload, "info"@) {
        Some(info) => {
            let usage = entry(info, "last_token_usage"@);
            let total = match usage {
                Some(usage) => signed_at(usage, "total_tokens"@),
                None => None,
            };
            match (total, signed_at(info, "model_context_window"@)) {
                (Some(total), Some(window)) => if window > BASELINE_TOKENS {
                    Some(context_share(total, window))
                } else {
                    None
                },
                _ => None,
            }
        },
        None => None,
    }
}

/// What one limit adds: to the five-hour window when it is at most twelve
/// hours long, to the seven-day one when it is at least five days.
pub open spec fn with_limit(gauges: Gauges, limits: Tree, slot: Seq<char>) -> Gauges {
    match entry(limits, slot) {
        Some(window) => {
            let used = percent_at(window, "used_percent"@);
            match signed_at(window, "window_minutes"@) {
                Some(minutes) => if minutes <= 720 {
                    Gauges { five_hour: later(gauges.five_hour, used), ..gauges }
                } else if minutes >= 7200 {
                    Gauges { seven_day: later(gauges.seven_day, used), ..gauges }
                } else {
                    gauges
                },
                None => gauges,
            }
        },
        None => gauges,
    }
}

/// A rollout line's value as gauges, if it is a `token_count`.
pub open spec fn token_count_in(tree: Tree) -> Option<Gauges> {
    match entry(tree, "payload"@) {
        Some(payload) => if text_at(payload, "type"@) == Some("token_count"@) {
            let gauges = Gauges {
                context_used: context_in(payload),
                five_hour: None,
                seven_day: None,
            };
            match entry(payload, "rate_limits"@) {
                Some(limits) => Some(
                    with_limit(with_limit(gauges, limits, "primary"@), limits, "secondary"@),
                ),
                None => Some(gauges),
            }
        } else {
            None
        },
        None => None,
    }
}

/// What a rollout line says.
pub open spec fn line_gauges(line: Seq<char>) -> Option<Gauges> {
    if !text::has(line, "\"token_count\""@) {
        None
    } else {
        match json_of(text::trimmed(line)) {
            Ok(tree) => token_count_in(tree),
            Err(_) => None,
        }
    }
}

fn context_of(payload: &Json) -> (r: Option<u8>)
    ensures
        r == context_in(payload@),
{
    let info = match payload.get("info") {
        Some(info) => info,
        None => return None,
    };
    let total: Option<i64> = match info.get("last_token_usage") {
        Some(usage) => usage.signed_at("total_tokens"),
        None => None,
    };
    match (total, info.signed_at("model_context_window")) {
        (Some(total), Some(window)) => {
            if window > BASELINE_TOKENS {
                let used: u64 = if total > BASELINE_TOKENS {
                    (total - BASELINE_TOKENS) as u64
                } else {
                    0
                };
                Some(used_percent(used, (window - BASELINE_TOKENS) as u64))
            } else {
                None
            }
        },
        _ => None,
    }
}

fn add_limit(gauges: &mut Gauges, limits: &Json, slot: &str)
    ensures
        *final(gauges) == with_limit(*old(gauges), limits@, slot@),
{
    if let Some(window) = limits.get(slot) {
        let used = percent_under(window, "used_percent");
        if let Some(minutes) = window.signed_at("window_minutes") {
            if minutes <= 720 {
                if used.is_some() {
                    gauges.five_hour = used;
                }
            } else if minutes >= 7200 {
                if used.is_some() {
                    gauges.seven_day = used;
                }
            }
        }
    }
}

/// A rollout line's value as gauges, if it is a `token_count`: context by the
/// TUI's arithmetic, and each limit told apart by the length of its window
/// rather than by which slot it came in — the five-hour window is
/// `primary` on one plan and absent on another.
pub fn token_count(value: &Json) -> (r: Option<Gauges>)
    ensures
        r == token_count_in(value@),
{
    let payload = match value.get("payload") {
        Some(payload) => payload,
        None => return None,
    };
    let counts: bool = match payload.text_at("type") {
        Some(kind) => text::same(kind, "token_count"),
        None => false,
    };
    if !counts {
        return None;
    }
    let mut gauges = Gauges { context_used: context_of(payload), five_hour: None, seven_day: None };
    if let Some(limits) = payload.get("rate_limits") {
        add_limit(&mut gauges, limits, "primary");
        add_limit(&mut gauges, limits, "secondary");
    }
    Some(gauges)
}

/// One rollout line, if it is a `token_count`, as gauges.
pub fn codex_gauges(line: &str) -> (r: Option<Gauges>)
    ensures
        r == line_gauges(line@),
{
    if !text::contains(line, "\"token_count\"") {
        return None;
    }
    match parse(text::trim(line).as_str()) {
        Ok(value) => token_count(&value),
        Err(_) => None,
    }
}

/// The newest value of each field: lines later in the file win.
pub open spec fn newest(lines: Seq<Seq<char>>) -> Gauges
    decreases lines.len(),
{
    if lines.len() == 0 {
        Gauges::unknown()
    } else {
        let before = newest(lines.drop_last());
        match line_gauges(lines.last()) {
            Some(gauges) => before.merged(gauges),
            None => before,
        }
    }
}

/// The newest value of each field across `lines`, oldest first. Each field is
/// taken from the newest line that has it, since a `token_count` may carry
/// limits without usage or the other way round. `None` when no line has any.
pub fn fold(lines: &Vec<String>) -> (r: Option<Gauges>)
    ensures
        r == (if newest(text::views(lines@)).nothing() {
            None
        } else {
            Some(newest(text::views(lines@)))
        }),
{
    let ghost all = text::views(lines@);
    let mut found = Gauges { context_used: None, five_hour: None, seven_day: None };
    let mut i: usize = lines.len();
    assert(all.take(i as int) =~= all);
    while i > 0 && !(found.context_used.is_some() && found.five_hour.is_some()
        && found.seven_day.is_some())
        invariant
            i <= lines@.len(),
            all == text::views(lines@),
            newest(all) == newest(all.take(i as int)).merged(found),
        decreases i,
    {
        assert(all.take(i as int).drop_last() =~= all.take(i - 1));
        assert(all.take(i as int).last() == lines@[i - 1]@);
        if let Some(gauges) = codex_gauges(lines[i - 1].as_str()) {
            if found.context_used.is_none() {
                found.context_used = gauges.context_used;
            }
            if found.five_hour.is_none() {
                found.five_hour = gauges.five_hour;
            }
            if found.seven_day.is_none() {
                found.seven_day = gauges.seven_day;
            }
        }
        i = i - 1;
    }
    assert(newest(all) == found) by {
        if i == 0 {
            assert(all.take(0) =~= seq![]);
        }
    }
    if found.is_empty() {
        None
    } else {
        Some(found)
    }
}

/// The newest of each number across a rollout's lines, if there is any.
pub open spec fn tail_gauges(tail: Seq<char>) -> Option<Gauges> {
    let found = newest(text::lines_of(tail));
    if found.nothing() {
        None
    } else {
        Some(found)
    }
}

/// The gauges in a rollout's tail, as it was read.
///
/// Read from the end: the last line may be mid-write, and a `token_count` may
/// carry limits without usage or the other way round, so each field is taken
/// from the newest line that has it. `None` when the tail has no complete
/// `token_count` at all.
pub fn from_rollout(bytes: &Vec<u8>) -> (r: Option<Gauges>)
    ensures
        r == tail_gauges(text::lossy(bytes@)),
{
    from_text(text::lossy_text(bytes).as_str())
}

/// The gauges in a rollout's tail, as text.
pub fn from_text(tail: &str) -> (r: Option<Gauges>)
    ensures
        r == tail_gauges(tail@),
{
    fold(&text::lines(tail))
}

/// A Linux path, as a distribution's share names it.
pub open spec fn shared_path(distro: Seq<char>, path: Seq<char>) -> Seq<char> {
    "\\\\wsl.localhost\\"@ + distro + text::swapped(path, '/', '\\')
}

/// Where a transcript can be opened from.
pub open spec fn places(source: Seq<char>, path: Seq<char>, distros: Seq<Seq<char>>) -> Seq<
    Seq<char>,
> {
    if text::begins(source, "codex-win"@) {
        seq![path]
    } else if text::begins(source, "codex-wsl"@) && text::begins(path, "/"@) {
        Seq::new(distros.len(), |i: int| shared_path(distros[i], path))
    } else {
        seq![]
    }
}

/// Where a Codex transcript can be opened from Windows. A Windows agent's
/// path is used as it is; a WSL agent's is a Linux path, reachable through
/// `\\wsl.localhost\<distro>` — one candidate per distribution, since the
/// hook cannot say which one it ran in. No other agent's is ever read.
pub fn candidates(source: &str, transcript_path: &str, distros: &Vec<String>) -> (r: Vec<String>)
    ensures
        text::views(r@) == places(source@, transcript_path@, text::views(distros@)),
{
    let mut out: Vec<String> = Vec::new();
    let ghost names = text::views(distros@);
    if text::starts_with(source, "codex-win") {
        out.push(transcript_path.to_owned());
        assert(text::views(out@) =~= seq![transcript_path@]);
        return out;
    }
    if text::starts_with(source, "codex-wsl") && text::starts_with(transcript_path, "/") {
        let tail = text::swap(transcript_path, '/', '\\');
        let mut i: usize = 0;
        while i < distros.len()
            invariant
                i <= distros@.len(),
                names == text::views(distros@),
                tail@ == text::swapped(transcript_path@, '/', '\\'),
                text::views(out@) =~= Seq::new(
                    i as nat,
                    |j: int| shared_path(names[j], transcript_path@),
                ),
            decreases distros@.len() - i,
        {
            let ghost before = out@;
            let mut path = "\\\\wsl.localhost\\".to_owned();
            path.push_str(distros[i].as_str());
            path.push_str(tail.as_str());
            assert(names[i as int] == distros@[i as int]@);
            out.push(path);
            assert(text::views(out@) =~= text::views(before).push(path@));
            i = i + 1;
        }
        return out;
    }
    assert(text::views(out@) =~= seq![]);
    out
}

/// The flavor and the transcript of a Codex event that names its rollout.
pub open spec fn rollout_in(tree: Tree) -> Option<(Seq<char>, Seq<char>)> {
    match (text_at(tree, "src"@), text_at(tree, "transcript_path"@)) {
        (Some(source), Some(path)) => if text::begins(source, "codex"@) {
            Some((source, path))
        } else {
            None
        },
        _ => None,
    }
}

/// Which rollout a Codex event names, if it is one and names one.
pub fn rollout_of(value: &Json) -> (r: Option<(String, String)>)
    ensures
        match r {
            Some((source, path)) => rollout_in(value@) == Some((source@, path@)),
            None => rollout_in(value@) is None,
        },
{
    match (value.text_at("src"), value.text_at("transcript_path")) {
        (Some(source), Some(path)) => {
            if text::starts_with(source, "codex") {
                Some((source.to_owned(), path.to_owned()))
            } else {
                None
            }
        },
        _ => None,
    }
}

/// Adds what a rollout said to the event that names it. An event that is no
/// object, or a rollout that said nothing, leaves it exactly as it was.
pub fn attach(value: Json, gauges: Option<Gauges>) -> (r: Json)
    ensures
        r@ == (match (value@, gauges) {
            (Tree::Record(entries), Some(found)) => if found.nothing() {
                value@
            } else {
                Tree::Record(entries.insert("gauges"@, found.wire()))
            },
            _ => value@,
        }),
{
    match (value, gauges) {
        (Json::Record(entries), Some(found)) => {
            let mut entries = entries;
            if !found.is_empty() {
                put(&mut entries, "gauges", found.to_json());
            }
            Json::Record(entries)
        },
        (value, _) => value,
    }
}

proof fn whole_percent(n: u8)
    requires
        n <= 100,
    ensures
        percent_of(number::whole(n as u64)) == n,
{
    let bits = number::whole(n as u64);
    vstd::arithmetic::power2::lemma2_to64();
    if n > 0 {
        let k = number::room_for(n as nat);
        number::exactly_says(n as nat, 0, k);
        vstd::arithmetic::power2::lemma_pow2_pos(k);
        let p = pow2(k) as int;
        let m = number::significand(bits) as int;
        assert(m == n * p);
        if k == 0 {
            assert(n * p == n) by (nonlinear_arith)
                requires
                    p == 1,
            ;
        }
        assert(number::exponent(bits) == -k);
        assert(number::nearest(m, p) == n) by (nonlinear_arith)
            requires
                m == n * p,
                p > 0,
        {
            assert(2 * m + p == (2 * p) * n + p);
            vstd::arithmetic::div_mod::lemma_fundamental_div_mod_converse(2 * m + p, 2 * p, n as int, p);
        };
    } else {
        assert(number::exactly(0, 0) == 0);
        assert(bits == 0);
        let d = pow2(1074) as int;
        vstd::arithmetic::power2::lemma_pow2_pos(1074);
        assert(number::nearest(0, d) == 0) by (nonlinear_arith)
            requires
                d > 0,
        ;
        assert(number::significand(bits) == 0);
        assert(number::exponent(bits) == -1074);
    }
}

/// What is written on the wire is read back as it was.
pub proof fn gauges_survive_the_wire(gauges: Gauges)
    requires
        gauges.context_used matches Some(n) ==> n <= 100,
        gauges.five_hour matches Some(n) ==> n <= 100,
        gauges.seven_day matches Some(n) ==> n <= 100,
    ensures
        Gauges::read(gauges.wire()) == Some(gauges),
{
    reveal_strlit("ctx");
    reveal_strlit("h5");
    reveal_strlit("d7");
    assert("ctx"@.len() == 3 && "h5"@[0] == 'h' && "d7"@[0] == 'd' && "h5"@.len() == 2);
    if let Some(n) = gauges.context_used {
        whole_percent(n);
    }
    if let Some(n) = gauges.five_hour {
        whole_percent(n);
    }
    if let Some(n) = gauges.seven_day {
        whole_percent(n);
    }
}

/// **Unknown is unknown, never zero**: newer numbers replace what they know
/// and leave the rest, and knowing nothing changes nothing.
pub proof fn a_merge_forgets_nothing(known: Gauges, newer: Gauges)
    ensures
        known.context_used is Some ==> known.merged(newer).context_used is Some,
        known.five_hour is Some ==> known.merged(newer).five_hour is Some,
        known.seven_day is Some ==> known.merged(newer).seven_day is Some,
        newer.context_used is Some ==> known.merged(newer).context_used == newer.context_used,
        newer.five_hour is Some ==> known.merged(newer).five_hour == newer.five_hour,
        newer.seven_day is Some ==> known.merged(newer).seven_day == newer.seven_day,
        known.merged(Gauges::unknown()) == known,
        Gauges::unknown().merged(newer) == newer,
{
}

/// What a double makes of a quotient is near it: within one part in 2⁵², or
/// half of the smallest step there is.
proof fn a_double_is_near(n: nat, d: nat)
    requires
        d > 0,
    ensures
        ({
            let t = number::to_double(n, d) * d;
            &&& 2 * (t - n) <= d + 2 * (n / 0x10_0000_0000_0000)
            &&& 2 * (n - t) <= d + 2 * (n / 0x10_0000_0000_0000)
        }),
{
    let k = number::excess_bits(n / d);
    let gap = pow2(k);
    let part = d * gap;
    vstd::arithmetic::power2::lemma_pow2_pos(k);
    vstd::arithmetic::power2::lemma2_to64();
    number::excess_fits(n / d);
    vstd::arithmetic::div_mod::lemma_fundamental_div_mod(n as int, d as int);
    vstd::arithmetic::div_mod::lemma_mod_bound(n as int, d as int);
    let w = n / d;
    assert(part > 0) by (nonlinear_arith)
        requires
            part == d * gap,
            d > 0,
            gap > 0,
    ;
    vstd::arithmetic::div_mod::lemma_fundamental_div_mod(n as int, part as int);
    vstd::arithmetic::div_mod::lemma_mod_bound(n as int, part as int);
    let q = n / part;
    let r = n % part;
    let m = number::nearest_even(n, part);
    let t = (m * gap) * d;
    assert(t == m * part) by (nonlinear_arith)
        requires
            t == (m * gap) * d,
            part == d * gap,
    ;
    assert(2 * (m * part - n) <= part && 2 * (n - m * part) <= part) by (nonlinear_arith)
        requires
            n == part * q + r,
            0 <= r < part,
            m == q && 2 * r <= part || m == q + 1 && 2 * r >= part,
    ;
    if k > 0 {
        assert(0x10_0000_0000_0000 * part <= n) by (nonlinear_arith)
            requires
                0x10_0000_0000_0000 * gap <= w,
                part == d * gap,
                n == d * w + n % d,
                n % d >= 0,
                d > 0,
        ;
        assert(part <= n / 0x10_0000_0000_0000) by {
            vstd::arithmetic::div_mod::lemma_div_is_ordered(
                0x10_0000_0000_0000 * part as int,
                n as int,
                0x10_0000_0000_0000,
            );
        }
    } else {
        assert(part == d) by (nonlinear_arith)
            requires
                part == d * gap,
                gap == 1,
        ;
    }
}

proof fn a_small_number_is_a_double(n: nat)
    requires
        n < 0x20_0000_0000_0000,
    ensures
        number::to_double(n, 1) == n,
{
    assert(n / 1 == n);
    vstd::arithmetic::power2::lemma2_to64();
    assert(number::excess_bits(n) == 0);
    assert(n % 1 == 0);
    assert(number::nearest_even(n, 1) == n);
}

/// **The context is the share that is used, to the nearest hundredth**: of what
/// is left of the window beside the twelve thousand tokens that are always
/// there; nothing below those, and all of it from the end of the window on.
pub proof fn the_context_is_the_share_that_is_used(total: i64, window: i64)
    requires
        12_000 < window <= 0x1000_0000_0000,
        total <= 0x1000_0000_0000,
    ensures
        ({
            let used = if total > 12_000 {
                total - 12_000
            } else {
                0
            };
            let room = window - 12_000;
            let p = context_share(total, window) as int;
            &&& 0 <= p <= 100
            &&& used == 0 ==> p == 0
            &&& used >= room ==> p == 100
            &&& used < room ==> 2 * (p * room - 100 * used) <= room + 2 && 2 * (100 * used - p * room)
                <= room + 2
        }),
{
    let used = (if total > 12_000 {
        total - 12_000
    } else {
        0
    }) as nat;
    let room = (window - 12_000) as nat;
    let one = pow2(57);
    vstd::arithmetic::power2::lemma2_to64();
    vstd::arithmetic::power2::lemma2_to64_rest();
    assert(one == 0x200_0000_0000_0000);
    a_small_number_is_a_double(used);
    a_small_number_is_a_double(room);
    a_small_number_is_a_double(100 * used);
    let n = (100 * used) * one;
    let share = number::to_double(n, room);
    a_double_is_near(n, room);
    let t = share * room;
    assert(n / 0x10_0000_0000_0000 == 32 * (100 * used)) by {
        vstd::arithmetic::div_mod::lemma_fundamental_div_mod_converse(
            n as int,
            0x10_0000_0000_0000,
            32 * (100 * used) as int,
            0,
        );
    }
    // In steps of 2⁻⁵⁷ the share is within the room and a few of what it is of.
    let whole = number::nearest(share as int, one as int);
    let x = 2 * share + one;
    vstd::arithmetic::div_mod::lemma_fundamental_div_mod(x as int, 2 * one as int);
    vstd::arithmetic::div_mod::lemma_mod_bound(x as int, 2 * one as int);
    assert(2 * (whole * one) <= 2 * share + one && 2 * share <= 2 * (whole * one) + one);
    let wr = whole * room;
    assert((whole * one) * room == wr * one) by (nonlinear_arith)
        requires
            wr == whole * room,
    ;
    assert(2 * (wr * one) <= 2 * t + one * room && 2 * t <= 2 * (wr * one) + one * room)
        by (nonlinear_arith)
        requires
            2 * (whole * one) <= 2 * share + one,
            2 * share <= 2 * (whole * one) + one,
            (whole * one) * room == wr * one,
            t == share * room,
            room > 0,
    ;
    if used == 0 {
        assert(n == 0) by (nonlinear_arith)
            requires
                n == (100 * used) * one,
                used == 0,
        ;
        assert(t < room) by (nonlinear_arith)
            requires
                2 * t <= room,
                room > 0,
        ;
        assert(share == 0) by (nonlinear_arith)
            requires
                share * room < room,
                room > 0,
        ;
    } else if used >= room {
        assert(whole >= 100) by (nonlinear_arith)
            requires
                2 * t <= 2 * (wr * one) + one * room,
                wr == whole * room,
                2 * (n - t) <= room + 2 * (32 * (100 * used)),
                n == (100 * used) * one,
                one == 0x200_0000_0000_0000,
                used >= room,
                room > 0,
        {
            if whole <= 99 {
                assert(wr <= 99 * room);
                assert(wr * one <= (99 * room) * one);
                assert(2 * t <= 198 * (room * one) + one * room);
                assert(2 * n <= 199 * (room * one) + room + 6400 * used);
                assert(2 * n == 200 * (used * one));
                assert(used * one >= room * one);
                assert(used * one >= 0x200_0000_0000_0000 * used);
                assert(false);
            }
        };
    } else {
        assert(2 * (wr - 100 * used) <= room + 2 && 2 * (100 * used - wr) <= room + 2)
            by (nonlinear_arith)
            requires
                2 * (wr * one) <= 2 * t + one * room,
                2 * t <= 2 * (wr * one) + one * room,
                2 * (n - t) <= room + 2 * (32 * (100 * used)),
                2 * (t - n) <= room + 2 * (32 * (100 * used)),
                n == (100 * used) * one,
                one == 0x200_0000_0000_0000,
                used < room <= 0x1000_0000_0000,
        {
            assert(2 * (wr * one) - 200 * (used * one) <= one * room + room + 6400 * used);
            assert(200 * (used * one) - 2 * (wr * one) <= one * room + room + 6400 * used);
            assert(room + 6400 * used < 0x200_0000_0000_0000);
        };
        assert(whole >= 0) by {
            vstd::arithmetic::div_mod::lemma_div_pos_is_pos(x as int, 2 * one as int);
        }
        assert(0 <= whole <= 100) by (nonlinear_arith)
            requires
                2 * (wr - 100 * used) <= room + 2,
                2 * (100 * used - wr) <= room + 2,
                wr == whole * room,
                used < room,
                whole >= 0,
        {
            if whole >= 101 {
                assert(wr >= 101 * room);
                assert(100 * used <= 100 * room - 100);
            }
        };
    }
}

/// **A limit is told by the length of its window, not by its place**: up to
/// twelve hours it is the five-hour one, from five days on the seven-day one,
/// and between the two it is neither.
pub proof fn a_limit_is_told_by_its_window(gauges: Gauges, limits: Tree, slot: Seq<char>, minutes: i64)
    requires
        entry(limits, slot) is Some,
        signed_at(entry(limits, slot)->0, "window_minutes"@) == Some(minutes),
    ensures
        ({
            let after = with_limit(gauges, limits, slot);
            let used = percent_at(entry(limits, slot)->0, "used_percent"@);
            &&& after.context_used == gauges.context_used
            &&& minutes <= 720 && used is Some ==> after.five_hour == used
            &&& minutes <= 720 ==> after.seven_day == gauges.seven_day
            &&& minutes >= 7200 && used is Some ==> after.seven_day == used
            &&& minutes >= 7200 ==> after.five_hour == gauges.five_hour
            &&& 720 < minutes < 7200 || used is None ==> after == gauges
        }),
{
}

/// **A count of tokens says what is used of the context and of both limits**,
/// whichever place each limit stands in; a line of another kind says nothing.
pub proof fn a_token_count_says_all_three(tree: Tree, payload: Tree, limits: Tree, slot: bool)
    requires
        entry(tree, "payload"@) == Some(payload),
        entry(payload, "rate_limits"@) == Some(limits),
    ensures
        text_at(payload, "type"@) != Some("token_count"@) ==> token_count_in(tree) is None,
        text_at(payload, "type"@) == Some("token_count"@) ==> token_count_in(tree) is Some
            && token_count_in(tree)->0.context_used == context_in(payload),
        text_at(payload, "type"@) == Some("token_count"@) && ({
            let here = if slot {
                "primary"@
            } else {
                "secondary"@
            };
            let there = if slot {
                "secondary"@
            } else {
                "primary"@
            };
            &&& entry(limits, there) is None
            &&& entry(limits, here) matches Some(window) && signed_at(window, "window_minutes"@)
                == Some(10_080i64)
        }) ==> token_count_in(tree)->0.seven_day == percent_at(
            entry(
                limits,
                if slot {
                    "primary"@
                } else {
                    "secondary"@
                },
            )->0,
            "used_percent"@,
        ),
{
}

/// **The last word counts**: of several lines, what a later one says stands, and
/// what it does not say stays as it was.
pub proof fn the_last_word_counts(lines: Seq<Seq<char>>, line: Seq<char>)
    ensures
        ({
            let before = newest(lines);
            let after = newest(lines.push(line));
            match line_gauges(line) {
                Some(said) => {
                    &&& said.context_used is Some ==> after.context_used == said.context_used
                    &&& said.context_used is None ==> after.context_used == before.context_used
                    &&& said.five_hour is Some ==> after.five_hour == said.five_hour
                    &&& said.five_hour is None ==> after.five_hour == before.five_hour
                    &&& said.seven_day is Some ==> after.seven_day == said.seven_day
                    &&& said.seven_day is None ==> after.seven_day == before.seven_day
                },
                None => after == before,
            }
        }),
{
    assert(lines.push(line).drop_last() =~= lines);
}

/// **Each gauge has its own key on the wire, and one that is not known has
/// none.**
pub proof fn each_gauge_has_its_key(gauges: Gauges)
    ensures
        ({
            let wire = gauges.wire();
            let told = |value: Option<u8>|
                match value {
                    Some(n) => Some(Tree::Unsigned(n as u64)),
                    None => None,
                };
            &&& entry(wire, "ctx"@) == told(gauges.context_used)
            &&& entry(wire, "h5"@) == told(gauges.five_hour)
            &&& entry(wire, "d7"@) == told(gauges.seven_day)
        }),
{
    reveal_strlit("ctx");
    reveal_strlit("h5");
    reveal_strlit("d7");
    assert("ctx"@.len() == 3 && "h5"@.len() == 2 && "d7"@.len() == 2);
    assert("h5"@[0] == 'h' && "d7"@[0] == 'd');
}

/// **A rollout is where its agent sees it**: on Windows at its path, in WSL under
/// each distro there is, in their order; and nobody else has one.
pub proof fn a_rollout_is_where_its_agent_sees_it(
    path: Seq<char>,
    distros: Seq<Seq<char>>,
    i: int,
    k: int,
)
    requires
        path.len() > 0 && path[0] == '/',
    ensures
        places("codex-win"@, path, distros) == seq![path],
        places("codex-wsl"@, path, distros).len() == distros.len(),
        0 <= i < distros.len() ==> ({
            let place = places("codex-wsl"@, path, distros)[i];
            let root = "\\\\wsl.localhost\\"@ + distros[i];
            &&& place.len() == root.len() + path.len()
            &&& place.take(root.len() as int) == root
            &&& 0 <= k < path.len() ==> place[root.len() + k] == (if path[k] == '/' {
                '\\'
            } else {
                path[k]
            })
        }),
{
    reveal_strlit("codex-win");
    reveal_strlit("codex-wsl");
    reveal_strlit("/");
    let win = "codex-win"@;
    let wsl = "codex-wsl"@;
    assert(win.take(9) =~= win && wsl.take(9) =~= wsl);
    assert(win[7] == 'i' && wsl[7] == 's');
    assert(path.take(1) =~= "/"@);
    if 0 <= i < distros.len() {
        let root = "\\\\wsl.localhost\\"@ + distros[i];
        let place = places(wsl, path, distros)[i];
        assert(place == root + text::swapped(path, '/', '\\'));
        assert(place.take(root.len() as int) =~= root);
    }
}

/// **A figure is read with its sign, and one that is not known is a dash.** The
/// sentence gives all three in their order.
pub proof fn a_figure_is_read_with_its_sign(gauges: Gauges)
    ensures
        gauges.words() is None <==> gauges.context_used is None && gauges.five_hour is None
            && gauges.seven_day is None,
        figure(gauges.context_used) == (match gauges.context_used {
            Some(n) => text::decimal(n as nat) + "%"@,
            None => "—"@,
        }),
        gauges.words() is Some ==> gauges.words()->0 == "ctx "@ + figure(gauges.context_used)
            + " · 5h "@ + figure(gauges.five_hour) + " · 7d "@ + figure(gauges.seven_day),
{
}

/// **A percentage is rounded to the nearest whole one, half up, and kept between
/// none and a hundred**: of a number `m / d` it is as near as that.
pub proof fn a_percentage_is_rounded(bits: u64, d: int)
    requires
        number::exponent(bits) < 0,
        d == pow2((-number::exponent(bits)) as nat),
        !number::is_negative(bits),
    ensures
        ({
            let m = number::significand(bits) as int;
            let p = percent_of(bits) as int;
            &&& 0 <= p <= 100
            &&& p < 100 ==> 2 * (d * p) <= 2 * m + d < 2 * (d * p) + 2 * d
            &&& p == 100 ==> 200 * d <= 2 * m + d
        }),
{
    let m = number::significand(bits) as int;
    let k = (-number::exponent(bits)) as nat;
    vstd::arithmetic::power2::lemma_pow2_pos(k);
    number::half_and_more_goes_up(m, d);
    let q = number::nearest(m, d);
    if q < 0 {
        assert(2 * (d * q) + 2 * d <= 0) by (nonlinear_arith)
            requires
                q <= -1,
                d > 0,
        ;
    }
    if q >= 100 {
        assert(d * q >= d * 100) by (nonlinear_arith)
            requires
                q >= 100,
                d > 0,
        ;
    }
}

/// **Less than nothing is nothing, and a whole number is itself up to a
/// hundred.**
pub proof fn less_than_nothing_is_nothing(bits: u64)
    ensures
        number::is_negative(bits) ==> percent_of(bits) == 0,
        !number::is_negative(bits) && number::exponent(bits) >= 0 ==> ({
            let n = number::significand(bits) * pow2(number::exponent(bits) as nat);
            &&& n <= 100 ==> percent_of(bits) == n
            &&& n >= 100 ==> percent_of(bits) == 100
        }),
{
}

} // verus!
