//! Registering our hook in an agent's own configuration.
//!
//! The file belongs to the agent and to the user: it holds their model, their
//! permissions, their own hooks. So this edits it the way a careful person
//! would — read what is there, add only entries that are unmistakably ours,
//! leave every other key and every other hook alone, show the result before
//! writing it, and keep a backup. Removing takes out our entries and nothing
//! else. A file that does not parse is refused, never repaired.
//!
//! The two agents disagree about the filename and about matchers, and agree
//! about everything else, which is why one installer serves both.

use vstd::prelude::*;

use crate::event::{Event, Kind};
use crate::state::{State, Step, next};
use crate::agents::{Agent, Called, Flavor, Found, Host, Name};
use crate::json::{self, Json, Tree, entry, json_of, list_at, pretty_of, record, text_at, trees};
use crate::paths;
use crate::table::{Table, before, mapped_by_entries, one_comes_first};
use crate::text::{self, has, seen, trimmed, views};

verus! {

/// Our entries are the ones naming this executable, and nothing else in a
/// user's configuration will.
pub const BRIDGE_NAME: &'static str = "agent-frow-hook";

/// Seconds an agent may wait for us. We answer in well under a second and never
/// hold a decision open, so this only has to be long enough to survive a busy
/// machine.
pub const TIMEOUT_SECS: u64 = 5;

/// Codex clamps `SessionEnd` to three seconds and warns when asked for more.
/// Asking for exactly what it allows keeps its hooks screen clean, so a real
/// problem there is not buried among warnings we caused ourselves.
pub const CODEX_SESSION_END_TIMEOUT_SECS: u64 = 3;

/// The one tool Codex's `PreToolUse` is registered for. Codex reads a matcher
/// as a regular expression against the tool name, so this keeps the hook to
/// the calls that ask the user a question.
pub const QUESTION_TOOL_MATCHER: &'static str = "^request_user_input$";

/// The hooks each agent is asked for.
pub open spec fn wanted(agent: Agent) -> Seq<Seq<char>> {
    match agent {
        Agent::Claude => seq![
            "SessionStart"@,
            "UserPromptSubmit"@,
            "PostToolUse"@,
            "PostToolUseFailure"@,
            "PermissionRequest"@,
            "PermissionDenied"@,
            "Notification"@,
            "SubagentStart"@,
            "SubagentStop"@,
            "Stop"@,
            "StopFailure"@,
            "SessionEnd"@,
        ],
        Agent::Codex => seq![
            "SessionStart"@,
            "UserPromptSubmit"@,
            "PreToolUse"@,
            "PostToolUse"@,
            "PermissionRequest"@,
            "SubagentStart"@,
            "SubagentStop"@,
            "Stop"@,
            "SessionEnd"@,
        ],
    }
}

/// The hooks each agent is asked for, and why.
///
/// `PreToolUse` is deliberately never registered *unfiltered*: a pre-tool hook
/// fires for every tool call, and agents auto-approve nearly all of them.
/// Codex gets it for exactly one tool — see [`QUESTION_TOOL_MATCHER`] —
/// because for that tool, running it *is* asking the user.
pub fn events(agent: Agent) -> (names: Vec<String>)
    ensures
        views(names@) == wanted(agent),
{
    let mut names: Vec<String> = Vec::new();
    match agent {
        // `StopFailure` is how a lane can ever show Error. `PostToolUseFailure`
        // matters for the same reason in miniature: a tool that fails fires it
        // *instead* of `PostToolUse`. `SubagentStart`/`SubagentStop` are what
        // lets a lane say "the turn is done but subagents are still at work".
        // `PermissionDenied` is the only thing this agent sends when a pending
        // prompt is answered no — including by an interrupt.
        Agent::Claude => {
            names.push("SessionStart".to_owned());
            names.push("UserPromptSubmit".to_owned());
            names.push("PostToolUse".to_owned());
            names.push("PostToolUseFailure".to_owned());
            names.push("PermissionRequest".to_owned());
            names.push("PermissionDenied".to_owned());
            names.push("Notification".to_owned());
            names.push("SubagentStart".to_owned());
            names.push("SubagentStop".to_owned());
            names.push("Stop".to_owned());
            names.push("StopFailure".to_owned());
            names.push("SessionEnd".to_owned());
        },
        // Codex emits no `Notification` at all, and has neither an error nor an
        // interrupt event. It asks the user two ways: `PermissionRequest` for
        // an approval, and the `request_user_input` tool for a question, whose
        // `PreToolUse` is the moment the question appears and its
        // `PostToolUse` the moment it was answered.
        Agent::Codex => {
            names.push("SessionStart".to_owned());
            names.push("UserPromptSubmit".to_owned());
            names.push("PreToolUse".to_owned());
            names.push("PostToolUse".to_owned());
            names.push("PermissionRequest".to_owned());
            names.push("SubagentStart".to_owned());
            names.push("SubagentStop".to_owned());
            names.push("Stop".to_owned());
            names.push("SessionEnd".to_owned());
        },
    }
    assert(views(names@) =~= wanted(agent));
    names
}

/// Why a configuration could not be edited.
#[derive(Debug, PartialEq, Eq)]
pub enum Error {
    Unreadable(String),
    Unparseable(String),
    NotAnObject,
    Write(String),
}

impl Error {
    pub open spec fn words(self) -> Seq<char> {
        match self {
            Error::Unreadable(detail) => "could not read the configuration: "@ + detail@,
            Error::Unparseable(detail) => "the configuration is not valid JSON ("@ + detail@
                + ") — refusing to touch it"@,
            Error::NotAnObject => "the configuration is not a JSON object"@,
            Error::Write(detail) => "could not write the configuration: "@ + detail@,
        }
    }

    /// The error in words.
    pub fn describe(&self) -> (words: String)
        ensures
            words@ == self.words(),
    {
        match self {
            Error::Unreadable(detail) => {
                let mut words = "could not read the configuration: ".to_owned();
                words.push_str(detail.as_str());
                words
            },
            Error::Unparseable(detail) => {
                let mut words = "the configuration is not valid JSON (".to_owned();
                words.push_str(detail.as_str());
                words.push_str(") — refusing to touch it");
                words
            },
            Error::NotAnObject => "the configuration is not a JSON object".to_owned(),
            Error::Write(detail) => {
                let mut words = "could not write the configuration: ".to_owned();
                words.push_str(detail.as_str());
                words
            },
        }
    }
}

/// A proposed change, complete enough to show someone before anything is written.
#[derive(Debug)]
pub struct Plan {
    pub path: String,
    pub before: String,
    pub after: String,
    pub events_added: Vec<String>,
    pub events_removed: Vec<String>,
}

impl Plan {
    pub fn is_noop(&self) -> (r: bool)
        ensures
            r == (self.before@ == self.after@),
    {
        text::same(self.before.as_str(), self.after.as_str())
    }
}

/// Whether a hook runs our executable.
pub open spec fn calls_us(hook: Tree) -> bool {
    text_at(hook, "command"@) matches Some(command) && has(command, "agent-frow-hook"@)
}

/// Whether a hook entry is one of ours: one of the hooks it holds is.
pub open spec fn ours(tree: Tree) -> bool {
    list_at(tree, "hooks"@) matches Some(hooks) && any_calls_us(hooks)
}

pub open spec fn any_calls_us(hooks: Seq<Tree>) -> bool {
    exists|i: int| 0 <= i < hooks.len() && calls_us(#[trigger] hooks[i])
}

/// The entries of a list that are not ours, in their order.
pub open spec fn theirs(items: Seq<Tree>) -> Seq<Tree>
    decreases items.len(),
{
    if items.len() == 0 {
        seq![]
    } else if ours(items.last()) {
        theirs(items.drop_last())
    } else {
        theirs(items.drop_last()).push(items.last())
    }
}

/// What is registered for one event, without our entries.
pub open spec fn cleaned(value: Tree) -> Tree {
    match value {
        Tree::List(items) => Tree::List(theirs(items)),
        other => other,
    }
}

/// Whether nothing is left to register for one event.
pub open spec fn emptied(value: Tree) -> bool {
    value matches Tree::List(items) && theirs(items).len() == 0
}

/// Whether any entry for one event is ours.
pub open spec fn touched(hooks: Map<Seq<char>, Tree>, name: Seq<char>) -> bool {
    hooks.contains_key(name) && (hooks[name] matches Tree::List(items) && theirs(items).len()
        != items.len())
}

/// The hooks without any entry of ours. An event left with no hooks at all is
/// our leftover, not theirs.
pub open spec fn swept(hooks: Map<Seq<char>, Tree>) -> Map<Seq<char>, Tree> {
    Map::new(
        |name: Seq<char>| hooks.contains_key(name) && !emptied(hooks[name]),
        |name: Seq<char>| cleaned(hooks[name]),
    )
}

/// The hooks with one more entry for an event.
pub open spec fn registered(
    hooks: Map<Seq<char>, Tree>,
    event: Seq<char>,
    value: Tree,
) -> Map<Seq<char>, Tree> {
    if !hooks.contains_key(event) {
        hooks.insert(event, Tree::List(seq![value]))
    } else {
        match hooks[event] {
            Tree::List(items) => hooks.insert(event, Tree::List(items.push(value))),
            _ => hooks,
        }
    }
}

/// Whether an event takes another entry: what is there, if anything, is a
/// list.
pub open spec fn takes(hooks: Map<Seq<char>, Tree>, event: Seq<char>) -> bool {
    hooks.contains_key(event) ==> hooks[event] is List
}

/// One of our entries, for an agent and an event.
pub open spec fn our_entry(agent: Agent, event: Seq<char>, command: Seq<char>) -> Tree {
    let hook = map![
        "type"@ => Tree::Text("command"@),
        "command"@ => Tree::Text(command),
        "timeout"@ => Tree::Unsigned(
            if agent == Agent::Codex && event == "SessionEnd"@ {
                CODEX_SESSION_END_TIMEOUT_SECS
            } else {
                TIMEOUT_SECS
            },
        ),
    ];
    let entry = map!["hooks"@ => Tree::List(seq![Tree::Record(hook)])];
    Tree::Record(
        if agent == Agent::Claude {
            entry.insert("matcher"@, Tree::Text("*"@))
        } else if event == "PreToolUse"@ {
            entry.insert("matcher"@, Tree::Text("^request_user_input$"@))
        } else {
            entry
        },
    )
}

/// The hooks with our entry for each of `events`.
pub open spec fn registered_all(
    hooks: Map<Seq<char>, Tree>,
    agent: Agent,
    events: Seq<Seq<char>>,
    command: Seq<char>,
) -> Map<Seq<char>, Tree>
    decreases events.len(),
{
    if events.len() == 0 {
        hooks
    } else {
        registered(
            registered_all(hooks, agent, events.drop_last(), command),
            events.last(),
            our_entry(agent, events.last(), command),
        )
    }
}

/// Those of `events` that took an entry.
pub open spec fn taken(
    hooks: Map<Seq<char>, Tree>,
    agent: Agent,
    events: Seq<Seq<char>>,
    command: Seq<char>,
) -> Seq<Seq<char>>
    decreases events.len(),
{
    if events.len() == 0 {
        seq![]
    } else {
        let before = taken(hooks, agent, events.drop_last(), command);
        if takes(registered_all(hooks, agent, events.drop_last(), command), events.last()) {
            before.push(events.last())
        } else {
            before
        }
    }
}

/// The names that are in `names` and nowhere else, each once, in their order.
pub open spec fn exactly(list: Seq<Seq<char>>, names: Map<Seq<char>, ()>) -> bool {
    &&& forall|i: int, j: int|
        0 <= i < j < list.len() ==> before(#[trigger] list[i], #[trigger] list[j])
    &&& forall|name: Seq<char>| #[trigger] list.contains(name) <==> names.contains_key(name)
}

/// The names in their order.
pub open spec fn ordered(names: Map<Seq<char>, ()>) -> Seq<Seq<char>> {
    choose|list: Seq<Seq<char>>| exactly(list, names)
}

/// There is one order.
pub proof fn there_is_one_order(
    one: Seq<Seq<char>>,
    other: Seq<Seq<char>>,
    names: Map<Seq<char>, ()>,
)
    requires
        exactly(one, names),
        exactly(other, names),
    ensures
        one == other,
    decreases one.len(),
{
    if one.len() == 0 || other.len() == 0 {
        if one.len() > 0 {
            assert(one.contains(one[0]));
            assert(other.contains(one[0]));
        }
        if other.len() > 0 {
            assert(other.contains(other[0]));
            assert(one.contains(other[0]));
        }
        assert(one =~= other);
    } else {
        let a = one.last();
        let b = other.last();
        assert(one.contains(a) && other.contains(b)) by {
            assert(one[one.len() - 1] == a);
            assert(other[other.len() - 1] == b);
        }
        assert(names.contains_key(a) && names.contains_key(b));
        assert(other.contains(a) && one.contains(b));
        let i = choose|i: int| 0 <= i < other.len() && other[i] == a;
        let j = choose|j: int| 0 <= j < one.len() && one[j] == b;
        if a != b {
            assert(before(other[i], other[other.len() - 1]));
            assert(before(one[j], one[one.len() - 1]));
            one_comes_first(a, b);
        }
        let fewer = names.remove(a);
        fewer_are_in_order(one, names);
        fewer_are_in_order(other, names);
        there_is_one_order(one.drop_last(), other.drop_last(), fewer);
        assert(one =~= one.drop_last().push(a));
        assert(other =~= other.drop_last().push(b));
    }
}

proof fn fewer_are_in_order(list: Seq<Seq<char>>, names: Map<Seq<char>, ()>)
    requires
        exactly(list, names),
        list.len() > 0,
    ensures
        exactly(list.drop_last(), names.remove(list.last())),
{
    let fewer = list.drop_last();
    assert forall|i: int, j: int| 0 <= i < j < fewer.len() implies before(
        #[trigger] fewer[i],
        #[trigger] fewer[j],
    ) by {
        assert(before(list[i], list[j]));
    }
    assert forall|name: Seq<char>| #[trigger] fewer.contains(name) <==> names.remove(
        list.last(),
    ).contains_key(name) by {
        if fewer.contains(name) {
            let i = choose|i: int| 0 <= i < fewer.len() && fewer[i] == name;
            assert(list[i] == name);
            assert(list.contains(name));
            assert(before(list[i], list[list.len() - 1]));
            one_comes_first(name, list.last());
        }
        if names.contains_key(name) && name != list.last() {
            assert(list.contains(name));
            let i = choose|i: int| 0 <= i < list.len() && list[i] == name;
            assert(fewer[i] == name);
        }
    }
}

/// Whether a hook entry is one of ours.
fn is_ours(entry: &Json) -> (r: bool)
    ensures
        r == ours(entry@),
{
    let hooks = match entry.list_at("hooks") {
        Some(hooks) => hooks,
        None => return false,
    };
    proof {
        json::trees_are_items(hooks@);
    }
    let mut i: usize = 0;
    while i < hooks.len()
        invariant
            i <= hooks@.len(),
            trees(hooks@).len() == hooks@.len(),
            forall|j: int| 0 <= j < hooks@.len() ==> #[trigger] trees(hooks@)[j] == hooks@[j]@,
            list_at(entry@, "hooks"@) == Some(trees(hooks@)),
            forall|j: int| 0 <= j < i ==> !calls_us(#[trigger] trees(hooks@)[j]),
        decreases hooks@.len() - i,
    {
        assert(trees(hooks@)[i as int] == hooks@[i as int]@);
        if let Some(command) = hooks[i].text_at("command") {
            if text::contains(command, BRIDGE_NAME) {
                assert(calls_us(trees(hooks@)[i as int]));
                return true;
            }
        }
        i = i + 1;
    }
    false
}

/// The entries of a list that are not ours.
fn others(items: Vec<Json>) -> (kept: Vec<Json>)
    ensures
        trees(kept@) == theirs(trees(items@)),
{
    let ghost all = items@;
    let ghost held = trees(all);
    let mut kept: Vec<Json> = Vec::new();
    proof {
        json::trees_are_items(all);
        assert(held.take(0) =~= seq![]);
    }
    for item in iter: items
        invariant
            iter.seq() == all,
            held == trees(all),
            held.len() == all.len(),
            forall|j: int| 0 <= j < all.len() ==> #[trigger] held[j] == all[j]@,
            trees(kept@) == theirs(held.take(iter.index() as int)),
    {
        let ghost i = iter.index() as int;
        let ghost sofar = kept@;
        proof {
            assert(item == all[i]);
            assert(held[i] == item@);
            assert(held.take(i + 1).drop_last() =~= held.take(i));
            assert(held.take(i + 1).last() == held[i]);
        }
        if !is_ours(&item) {
            kept.push(item);
            assert(kept@.drop_last() =~= sofar);
        }
    }
    assert(held.take(held.len() as int) =~= held);
    kept
}

/// The names a table holds, in their order.
fn names_of(table: &Table<()>) -> (names: Vec<String>)
    ensures
        exactly(views(names@), table@),
{
    let pairs = table.pairs();
    let mut names: Vec<String> = Vec::new();
    let mut i: usize = 0;
    while i < pairs.len()
        invariant
            i <= pairs@.len(),
            names@.len() == i,
            forall|j: int| 0 <= j < i ==> (#[trigger] names@[j])@ == pairs@[j].0@,
        decreases pairs@.len() - i,
    {
        names.push(pairs[i].0.clone());
        i = i + 1;
    }
    proof {
        mapped_by_entries(pairs@);
        let list = views(names@);
        assert forall|name: Seq<char>| #[trigger] list.contains(name) <==> table@.contains_key(
            name,
        ) by {
            if list.contains(name) {
                let at = choose|at: int| 0 <= at < list.len() && list[at] == name;
                assert(table@.contains_key(pairs@[at].0@));
            }
            if table@.contains_key(name) {
                let at = choose|at: int|
                    0 <= at < pairs@.len() && (#[trigger] pairs@[at]).0@ == name;
                assert(list[at] == name);
            }
        }
    }
    names
}

/// The names of `hooks` that hold entries of ours, and are not among `except`.
pub open spec fn losing(hooks: Map<Seq<char>, Tree>, except: Seq<Seq<char>>) -> Map<
    Seq<char>,
    (),
> {
    Map::new(|name: Seq<char>| touched(hooks, name) && !except.contains(name), |name: Seq<char>| ())
}

/// Takes every entry of ours out — everywhere, not just from the events we are
/// about to register, since an older version may have registered others. Says
/// which events lost one, but for those in `except`.
fn sweep(hooks: Vec<(String, Json)>, except: &Vec<String>) -> (r: (Vec<(String, Json)>, Vec<String>))
    ensures
        record(r.0@) == swept(record(hooks@)),
        exactly(views(r.1@), losing(record(hooks@), views(except@))),
{
    let mut hooks = hooks;
    let ghost all = hooks@;
    let ghost held = record(all);
    let mut kept: Vec<(String, Json)> = Vec::new();
    let mut seen: Table<()> = Table::new();
    let mut lost: Table<()> = Table::new();
    assert(record(kept@) =~= map![]);
    assert(all.take(all.len() as int) =~= all);
    while hooks.len() > 0
        invariant
            hooks@.len() <= all.len(),
            hooks@ == all.take(hooks@.len() as int),
            held == record(all),
            forall|name: Seq<char>| #[trigger]
                seen@.contains_key(name) <==> exists|j: int|
                    hooks@.len() <= j < all.len() && (#[trigger] all[j]).0@ == name,
            forall|name: Seq<char>| #[trigger]
                record(kept@).contains_key(name) <==> seen@.contains_key(name) && swept(
                    held,
                ).contains_key(name),
            forall|name: Seq<char>| #[trigger]
                record(kept@).contains_key(name) ==> record(kept@)[name] == swept(held)[name],
            forall|name: Seq<char>| #[trigger]
                lost@.contains_key(name) <==> seen@.contains_key(name) && touched(held, name)
                    && !views(except@).contains(name),
        decreases hooks@.len(),
    {
        let ghost was = hooks@;
        let ghost at = hooks@.len() - 1;
        let ghost seen_before = seen@;
        let ghost kept_before = record(kept@);
        let ghost lost_before = lost@;
        let (name, value) = match hooks.pop() {
            Some(pair) => pair,
            None => return (kept, names_of(&lost)),
        };
        let ghost key = name@;
        assert(all[at].0@ == key && all[at].1 == value) by {
            assert(was[at] == all[at]);
        }
        assert(hooks@ =~= all.take(at));
        if !seen.contains(name.as_str()) {
            proof {
                assert forall|i: int| at < i < all.len() implies (#[trigger] all[i]).0@
                    != all[at].0@ by {
                    if all[i].0@ == key {
                        assert(seen_before.contains_key(key));
                    }
                }
                json::record_has(all, at);
            }
            assert(held.contains_key(key) && held[key] == value@);
            seen.insert(name.clone(), ());
            match value {
                Json::List(items) => {
                    let size: usize = items.len();
                    proof {
                        json::trees_are_items(items@);
                    }
                    let rest = others(items);
                    proof {
                        json::trees_are_items(rest@);
                    }
                    if rest.len() != size && !text::is_among(except, name.as_str()) {
                        lost.insert(name.clone(), ());
                    }
                    if rest.len() > 0 {
                        json::put(&mut kept, name.as_str(), Json::List(rest));
                    }
                },
                other => {
                    json::put(&mut kept, name.as_str(), other);
                },
            }
            proof {
                assert(seen@ == seen_before.insert(key, ()));
                if emptied(held[key]) {
                    assert(record(kept@) == kept_before);
                } else {
                    assert(record(kept@) == kept_before.insert(key, cleaned(held[key])));
                }
                assert forall|other: Seq<char>| #[trigger]
                    seen@.contains_key(other) <==> exists|j: int|
                        hooks@.len() <= j < all.len() && (#[trigger] all[j]).0@ == other by {
                    if other == key {
                        assert(all[at].0@ == other);
                    } else {
                        assert(seen@.contains_key(other) == seen_before.contains_key(other));
                    }
                }
            }
        } else {
            proof {
                assert forall|other: Seq<char>| #[trigger]
                    seen@.contains_key(other) <==> exists|j: int|
                        hooks@.len() <= j < all.len() && (#[trigger] all[j]).0@ == other by {
                    if other == key {
                        assert(all[at].0@ == other);
                    } else {
                        assert(seen@.contains_key(other) == seen_before.contains_key(other));
                    }
                }
            }
        }
    }
    proof {
        assert forall|name: Seq<char>| held.contains_key(name) implies #[trigger]
            seen@.contains_key(name) by {
            if !seen@.contains_key(name) {
                assert forall|i: int| 0 <= i < all.len() implies (#[trigger] all[i]).0@ != name by {
                    if all[i].0@ == name {
                        assert(seen@.contains_key(name));
                    }
                }
                json::record_lacks(all, name);
            }
        }
        assert(record(kept@) =~= swept(held));
        assert(lost@ =~= losing(held, views(except@)));
    }
    let names = names_of(&lost);
    (kept, names)
}

fn entry_for(agent: Agent, event: &str, command: &str) -> (entry: Json)
    ensures
        entry@ == our_entry(agent, event@, command@),
{
    let codex: bool = match agent {
        Agent::Codex => true,
        Agent::Claude => false,
    };
    let mut hook: Vec<(String, Json)> = Vec::new();
    assert(record(hook@) =~= map![]);
    json::put(&mut hook, "type", Json::Text("command".to_owned()));
    json::put(&mut hook, "command", Json::Text(command.to_owned()));
    let timeout: u64 = if codex && text::same(event, "SessionEnd") {
        CODEX_SESSION_END_TIMEOUT_SECS
    } else {
        TIMEOUT_SECS
    };
    json::put(&mut hook, "timeout", Json::Unsigned(timeout));
    let ghost held = record(hook@);

    // No `async: true`, deliberately: an agent that does not support it skips
    // the whole hook rather than the key, and every event would silently never
    // fire. Synchronous is fine regardless — ours connects to loopback, writes
    // a few hundred bytes and exits.
    let mut hooks: Vec<Json> = Vec::new();
    hooks.push(Json::Record(hook));
    proof {
        json::trees_are_items(hooks@);
        assert(trees(hooks@) =~= seq![Tree::Record(held)]);
    }
    let mut entry: Vec<(String, Json)> = Vec::new();
    assert(record(entry@) =~= map![]);
    json::put(&mut entry, "hooks", Json::List(hooks));
    // One agent expects the literal `"*"`. Codex reads a matcher as a regular
    // expression, where `*` is not a valid pattern — omitting it is what means
    // "every occurrence" there, and a real pattern is how its `PreToolUse` is
    // narrowed to the question tool alone.
    if !codex {
        json::put(&mut entry, "matcher", Json::Text("*".to_owned()));
    } else if text::same(event, "PreToolUse") {
        json::put(&mut entry, "matcher", Json::Text(QUESTION_TOOL_MATCHER.to_owned()));
    }
    Json::Record(entry)
}

/// Adds our entry for each of `names`, and says which took it.
fn register(
    hooks: Vec<(String, Json)>,
    agent: Agent,
    names: &Vec<String>,
    command: &str,
) -> (r: (Vec<(String, Json)>, Vec<String>))
    ensures
        record(r.0@) == registered_all(record(hooks@), agent, views(names@), command@),
        views(r.1@) == taken(record(hooks@), agent, views(names@), command@),
{
    let mut hooks = hooks;
    let ghost at_first = record(hooks@);
    let ghost all = views(names@);
    let mut added: Vec<String> = Vec::new();
    let mut i: usize = 0;
    assert(all.take(0) =~= seq![]);
    assert(views(added@) =~= seq![]);
    while i < names.len()
        invariant
            i <= names@.len(),
            all == views(names@),
            record(hooks@) == registered_all(at_first, agent, all.take(i as int), command@),
            views(added@) == taken(at_first, agent, all.take(i as int), command@),
        decreases names@.len() - i,
    {
        let ghost was = record(hooks@);
        let ghost already = added@;
        let name = &names[i];
        proof {
            assert(all.take(i + 1).drop_last() =~= all.take(i as int));
            assert(all.take(i + 1).last() == name@);
        }
        let value = entry_for(agent, name.as_str(), command);
        let ghost ours = value@;
        match json::take(&mut hooks, name.as_str()) {
            None => {
                let mut list: Vec<Json> = Vec::new();
                list.push(value);
                proof {
                    json::trees_are_items(list@);
                    assert(trees(list@) =~= seq![ours]);
                }
                json::put(&mut hooks, name.as_str(), Json::List(list));
                assert(was.remove(name@) =~= was);
                added.push(name.clone());
                assert(views(added@) =~= views(already).push(name@));
            },
            Some(Json::List(mut list)) => {
                let ghost listed = list@;
                list.push(value);
                assert(list@.drop_last() =~= listed);
                json::put(&mut hooks, name.as_str(), Json::List(list));
                assert(was.remove(name@).insert(name@, Tree::List(trees(listed).push(ours)))
                    =~= was.insert(name@, Tree::List(trees(listed).push(ours))));
                added.push(name.clone());
                assert(views(added@) =~= views(already).push(name@));
            },
            Some(other) => {
                let ghost held = other@;
                json::put(&mut hooks, name.as_str(), other);
                assert(was.remove(name@).insert(name@, held) =~= was);
            },
        }
        i = i + 1;
    }
    assert(all.take(i as int) =~= all);
    (hooks, added)
}

/// What a configuration's text is read as: none yet, or one that says nothing,
/// is an empty object.
pub open spec fn read_as(text: Option<Seq<char>>) -> Seq<char> {
    match text {
        None => "{}"@,
        Some(text) => if trimmed(text).len() == 0 {
            "{}"@
        } else {
            text
        },
    }
}

/// What a configuration's text is kept as.
pub open spec fn kept_as(text: Option<Seq<char>>) -> Seq<char> {
    match text {
        None => "{}"@,
        Some(text) => text,
    }
}

/// The hooks of a document, if it can have any: it has to be an object, and
/// so has what it holds under that name.
pub open spec fn hooks_of(document: Tree) -> Option<Map<Seq<char>, Tree>> {
    match document {
        Tree::Record(_) => match entry(document, "hooks"@) {
            None => Some(map![]),
            Some(Tree::Record(hooks)) => Some(hooks),
            Some(_) => None,
        },
        _ => None,
    }
}

/// The document with other hooks: none at all are left out.
pub open spec fn with_hooks(document: Tree, hooks: Map<Seq<char>, Tree>) -> Tree {
    match document {
        Tree::Record(entries) => Tree::Record(
            if hooks == Map::<Seq<char>, Tree>::empty() {
                entries.remove("hooks"@)
            } else {
                entries.insert("hooks"@, Tree::Record(hooks))
            },
        ),
        other => other,
    }
}

/// Why a configuration cannot be edited, if it cannot.
pub open spec fn objection(text: Option<Seq<char>>) -> Option<Option<Seq<char>>> {
    match json_of(read_as(text)) {
        Err(detail) => Some(Some(detail)),
        Ok(document) => if hooks_of(document) is None {
            Some(None)
        } else {
            None
        },
    }
}

/// Whether `r` says just what the objection is.
pub open spec fn objects(r: Result<Plan, Error>, objection: Option<Seq<char>>) -> bool {
    match objection {
        Some(detail) => r matches Err(Error::Unparseable(said)) && said@ == detail,
        None => r matches Err(Error::NotAnObject),
    }
}

/// The text of a document with other hooks.
pub open spec fn rewritten(text: Option<Seq<char>>, hooks: Map<Seq<char>, Tree>) -> Seq<char> {
    pretty_of(with_hooks(json_of(read_as(text))->Ok_0, hooks)) + "\n"@
}

/// A document in two parts: its hooks, and everything else.
fn opened(text: Option<&str>) -> (r: Result<(Vec<(String, Json)>, Vec<(String, Json)>), Error>)
    ensures
        match r {
            Ok((root, hooks)) => {
                let document = json_of(read_as(seen(text)))->Ok_0;
                &&& json_of(read_as(seen(text))) is Ok
                &&& document is Record
                &&& record(root@) == document->Record_0.remove("hooks"@)
                &&& hooks_of(document) == Some(record(hooks@))
            },
            Err(Error::Unparseable(said)) => objection(seen(text)) == Some(Some(said@)),
            Err(Error::NotAnObject) => objection(seen(text)) == Some(None::<Seq<char>>),
            Err(_) => false,
        },
{
    let source: String = match text {
        Some(text) => if text::trim(text).as_str().is_empty() {
            "{}".to_owned()
        } else {
            text.to_owned()
        },
        None => "{}".to_owned(),
    };
    let document = match json::parse(source.as_str()) {
        Ok(document) => document,
        Err(error) => return Err(Error::Unparseable(error)),
    };
    match document {
        Json::Record(entries) => {
            let mut root = entries;
            let ghost held = record(root@);
            match json::take(&mut root, "hooks") {
                None => {
                    let hooks: Vec<(String, Json)> = Vec::new();
                    assert(record(hooks@) =~= map![]);
                    Ok((root, hooks))
                },
                Some(Json::Record(hooks)) => Ok((root, hooks)),
                Some(_) => Err(Error::NotAnObject),
            }
        },
        _ => Err(Error::NotAnObject),
    }
}

/// A document put back together.
fn closed_up(root: Vec<(String, Json)>, hooks: Vec<(String, Json)>) -> (after: String)
    ensures
        after@ == pretty_of(
            with_hooks(Tree::Record(record(root@)), record(hooks@)),
        ) + "\n"@,
{
    let mut root = root;
    if hooks.len() == 0 {
        assert(record(hooks@) =~= map![]);
        json::take(&mut root, "hooks");
    } else {
        proof {
            let held = hooks@;
            assert(record(held).contains_key(held.last().0@));
            assert(record(held) != Map::<Seq<char>, Tree>::empty());
        }
        json::put(&mut root, "hooks", Json::Record(hooks));
    }
    let document = Json::Record(root);
    let mut after = json::pretty(&document);
    after.push_str("\n");
    after
}

fn before_of(text: Option<&str>) -> (r: String)
    ensures
        r@ == kept_as(seen(text)),
{
    match text {
        Some(text) => text.to_owned(),
        None => "{}".to_owned(),
    }
}

/// What installing would do to a configuration that reads `text`, or is not
/// there yet.
pub fn plan_install(found: &Found, install_dir: &str, text: Option<&str>, agent_name: &Name) -> (r: Result<
    Plan,
    Error,
>)
    ensures
        match objection(seen(text)) {
            Some(detail) => objects(r, detail),
            None => r matches Ok(plan) && plan_installs(
                plan,
                *found,
                seen(text),
                hooks_of(json_of(read_as(seen(text)))->Ok_0)->0,
                command(found.flavor, install_dir@, agent_name@),
            ),
        },
{
    let line = command_for(&found.flavor, install_dir, agent_name);
    let (root, hooks) = match opened(text) {
        Ok(parts) => parts,
        Err(error) => return Err(error),
    };
    let ghost document = json_of(read_as(seen(text)))->Ok_0;
    let ghost others = record(root@);
    let names = events(found.flavor.agent);
    let (kept, removed) = sweep(hooks, &names);
    let (hooks, added) = register(kept, found.flavor.agent, &names, line.as_str());
    let ghost after_hooks = record(hooks@);
    let after = closed_up(root, hooks);
    proof {
        same_document(document, others, after_hooks);
    }
    Ok(
        Plan {
            path: found.config.clone(),
            before: before_of(text),
            after,
            events_added: added,
            events_removed: removed,
        },
    )
}

/// What installing is to do: our entries go where they are wanted and come out
/// everywhere else, and nothing else changes.
pub open spec fn plan_installs(
    plan: Plan,
    found: Found,
    text: Option<Seq<char>>,
    hooks: Map<Seq<char>, Tree>,
    command: Seq<char>,
) -> bool {
    let agent = found.flavor.agent;
    &&& plan.path@ == found.config@
    &&& plan.before@ == kept_as(text)
    &&& plan.after@ == rewritten(
        text,
        registered_all(swept(hooks), agent, wanted(agent), command),
    )
    &&& views(plan.events_added@) == taken(swept(hooks), agent, wanted(agent), command)
    &&& exactly(views(plan.events_removed@), losing(hooks, wanted(agent)))
}

/// What removing is to do: our entries come out everywhere, and nothing else
/// changes.
pub open spec fn plan_removes(
    plan: Plan,
    found: Found,
    text: Option<Seq<char>>,
    hooks: Map<Seq<char>, Tree>,
) -> bool {
    &&& plan.path@ == found.config@
    &&& plan.before@ == kept_as(text)
    &&& plan.after@ == rewritten(text, swept(hooks))
    &&& plan.events_added@.len() == 0
    &&& exactly(views(plan.events_removed@), losing(hooks, seq![]))
}

proof fn same_document(document: Tree, others: Map<Seq<char>, Tree>, hooks: Map<Seq<char>, Tree>)
    requires
        document is Record,
        others == document->Record_0.remove("hooks"@),
    ensures
        with_hooks(Tree::Record(others), hooks) == with_hooks(document, hooks),
{
    let all = document->Record_0;
    assert(others.remove("hooks"@) =~= all.remove("hooks"@));
    assert(others.insert("hooks"@, Tree::Record(hooks)) =~= all.insert(
        "hooks"@,
        Tree::Record(hooks),
    ));
}

/// What removing would do to a configuration that reads `text`, or is not
/// there.
pub fn plan_remove(found: &Found, text: Option<&str>) -> (r: Result<Plan, Error>)
    ensures
        match objection(seen(text)) {
            Some(detail) => objects(r, detail),
            None => r matches Ok(plan) && plan_removes(
                plan,
                *found,
                seen(text),
                hooks_of(json_of(read_as(seen(text)))->Ok_0)->0,
            ),
        },
{
    let (root, hooks) = match opened(text) {
        Ok(parts) => parts,
        Err(error) => return Err(error),
    };
    let ghost document = json_of(read_as(seen(text)))->Ok_0;
    let ghost others = record(root@);
    let nobody: Vec<String> = Vec::new();
    assert(views(nobody@) =~= seq![]);
    let (kept, removed) = sweep(hooks, &nobody);
    let ghost after_hooks = record(kept@);
    let after = closed_up(root, kept);
    proof {
        same_document(document, others, after_hooks);
    }
    Ok(
        Plan {
            path: found.config.clone(),
            before: before_of(text),
            after,
            events_added: Vec::new(),
            events_removed: removed,
        },
    )
}

/// A path the way a WSL agent sees it: `C:/…` is mounted under `/mnt/c`.
pub open spec fn wsl_path(path: Seq<char>) -> Seq<char> {
    let text = text::swapped(path, '\\', '/');
    if text.len() >= 3 && text[1] == ':' && text[2] == '/' && (text[0] as u32) < 128 {
        "/mnt/"@.push(text::small(text[0])) + "/"@ + text.skip(3)
    } else {
        text
    }
}

/// A path as one word of a command line.
pub open spec fn quoted(path: Seq<char>) -> Seq<char> {
    if path.contains(' ') {
        "\""@ + path + "\""@
    } else {
        path
    }
}

/// The command an agent should run.
pub open spec fn command(flavor: Flavor, install_dir: Seq<char>, agent_name: Called) -> Seq<char> {
    let exe = paths::joined(install_dir, "agent-frow-hook.exe"@, '\\');
    let path = match flavor.host {
        Host::Windows => text::swapped(exe, '\\', '/'),
        Host::Wsl { .. } => wsl_path(exe),
    };
    quoted(path) + " --source "@ + flavor.source_name(agent_name)
}

/// `C:\Users\me\AppData\Local\...` as WSL sees it.
fn windows_path_to_wsl(path: &str) -> (r: String)
    ensures
        r@ == wsl_path(path@),
{
    let slashed = text::swap(path, '\\', '/');
    let all = text::chars(slashed.as_str());
    if all.len() >= 3 && all[1] == ':' && all[2] == '/' && (all[0] as u32) < 128 {
        let mut out = "/mnt/".to_owned();
        out.push(text::small_char(all[0]));
        out.push_str("/");
        let rest = text::string_of(&all, 3, all.len());
        out.push_str(rest.as_str());
        assert(rest@ =~= slashed@.skip(3));
        out
    } else {
        slashed
    }
}

/// Quotes a path only when it needs it.
///
/// Agents run these through a shell, so a home directory containing a space
/// would otherwise be read as a path plus an argument — a hook that silently
/// never runs, which is the hardest kind of failure to notice.
fn shell_word(path: &str) -> (r: String)
    ensures
        r@ == quoted(path@),
{
    let all = text::chars(path);
    let mut i: usize = 0;
    while i < all.len()
        invariant
            i <= all@.len(),
            all@ == path@,
            forall|j: int| 0 <= j < i ==> all@[j] != ' ',
        decreases all@.len() - i,
    {
        if all[i] == ' ' {
            assert(path@[i as int] == ' ');
            let mut out = "\"".to_owned();
            out.push_str(path);
            out.push_str("\"");
            return out;
        }
        i = i + 1;
    }
    path.to_owned()
}

/// The command an agent should run, for this flavor.
///
/// Always the installed executable, never a build directory. It must also
/// never change once written — Codex records trust against a hash of this
/// exact string and stops running a hook whose text has moved.
///
/// Forward slashes even on the Windows side: CreateProcess, cmd, and
/// PowerShell all accept them, and agents that run their hooks through bash
/// eat backslashes as escapes. A WSL agent runs the *Windows* executable
/// through interop, so it reaches loopback on the Windows side.
pub fn command_for(flavor: &Flavor, install_dir: &str, agent_name: &Name) -> (line: String)
    ensures
        line@ == command(*flavor, install_dir@, agent_name@),
{
    let exe = paths::join(install_dir, "agent-frow-hook.exe", '\\');
    let path: String = match &flavor.host {
        Host::Windows => text::swap(exe.as_str(), '\\', '/'),
        Host::Wsl { .. } => windows_path_to_wsl(exe.as_str()),
    };
    let mut line = shell_word(path.as_str());
    line.push_str(" --source ");
    line.push_str(flavor.source(agent_name).as_str());
    line
}

/// The events a configuration registers us for: none, where it cannot be read
/// or does not hold any.
pub open spec fn installed_in(text: Option<Seq<char>>) -> Map<Seq<char>, ()> {
    match text {
        None => map![],
        Some(text) => match json_of(text) {
            Ok(document) => match entry(document, "hooks"@) {
                Some(Tree::Record(hooks)) => losing(hooks, seq![]),
                _ => map![],
            },
            Err(_) => map![],
        },
    }
}

/// An entry of ours in a list is one that taking ours out would lose.
proof fn ours_are_lost(items: Seq<Tree>)
    ensures
        theirs(items).len() <= items.len(),
        theirs(items).len() != items.len() <==> exists|i: int|
            0 <= i < items.len() && ours(#[trigger] items[i]),
    decreases items.len(),
{
    if items.len() > 0 {
        let fewer = items.drop_last();
        ours_are_lost(fewer);
        if ours(items.last()) {
            assert(ours(items[items.len() - 1]));
        } else {
            if theirs(fewer).len() != fewer.len() {
                let i = choose|i: int| 0 <= i < fewer.len() && ours(#[trigger] fewer[i]);
                assert(ours(items[i]));
            } else {
                assert forall|i: int| 0 <= i < items.len() implies !ours(#[trigger] items[i]) by {
                    if i < fewer.len() {
                        assert(items[i] == fewer[i]);
                    }
                }
            }
        }
    }
}

fn holds_ours(items: &Vec<Json>) -> (r: bool)
    ensures
        r == (theirs(trees(items@)).len() != trees(items@).len()),
{
    let ghost held = trees(items@);
    proof {
        json::trees_are_items(items@);
        ours_are_lost(held);
    }
    let mut i: usize = 0;
    while i < items.len()
        invariant
            i <= items@.len(),
            held == trees(items@),
            held.len() == items@.len(),
            forall|j: int| 0 <= j < items@.len() ==> #[trigger] held[j] == items@[j]@,
            theirs(held).len() != held.len() <==> exists|i: int|
                0 <= i < held.len() && ours(#[trigger] held[i]),
            forall|j: int| 0 <= j < i ==> !ours(#[trigger] held[j]),
        decreases items@.len() - i,
    {
        assert(held[i as int] == items@[i as int]@);
        if is_ours(&items[i]) {
            return true;
        }
        i = i + 1;
    }
    false
}

/// Which of our events are currently registered in a configuration that reads
/// `text`, or could not be read.
pub fn installed_events(text: Option<&str>) -> (names: Vec<String>)
    ensures
        exactly(views(names@), installed_in(seen(text))),
{
    let mut found: Table<()> = Table::new();
    let source: &str = match text {
        Some(text) => text,
        None => return names_of(&found),
    };
    let document = match json::parse(source) {
        Ok(document) => document,
        Err(_) => return names_of(&found),
    };
    let hooks = match document.get("hooks") {
        Some(Json::Record(hooks)) => hooks,
        _ => return names_of(&found),
    };
    let ghost all = hooks@;
    let ghost held = record(all);
    let nobody = Table::<()>::new();
    let mut passed: Table<()> = nobody;
    let mut i: usize = hooks.len();
    while i > 0
        invariant
            i <= all.len(),
            all == hooks@,
            held == record(all),
            forall|name: Seq<char>| #[trigger]
                passed@.contains_key(name) <==> exists|j: int|
                    i <= j < all.len() && (#[trigger] all[j]).0@ == name,
            forall|name: Seq<char>| #[trigger]
                found@.contains_key(name) <==> passed@.contains_key(name) && touched(held, name),
        decreases i,
    {
        i = i - 1;
        let ghost passed_before = passed@;
        let ghost key = all[i as int].0@;
        if !passed.contains(hooks[i].0.as_str()) {
            proof {
                assert forall|j: int| i < j < all.len() implies (#[trigger] all[j]).0@
                    != all[i as int].0@ by {
                    if all[j].0@ == key {
                        assert(passed_before.contains_key(key));
                    }
                }
                json::record_has(all, i as int);
            }
            passed.insert(hooks[i].0.clone(), ());
            if let Json::List(items) = &hooks[i].1 {
                if holds_ours(items) {
                    found.insert(hooks[i].0.clone(), ());
                }
            }
        }
        proof {
            assert forall|other: Seq<char>| #[trigger]
                passed@.contains_key(other) <==> exists|j: int|
                    i <= j < all.len() && (#[trigger] all[j]).0@ == other by {
                if other == key {
                    assert(all[i as int].0@ == other);
                } else {
                    assert(passed@.contains_key(other) == passed_before.contains_key(other));
                }
            }
        }
    }
    proof {
        assert forall|name: Seq<char>| held.contains_key(name) implies #[trigger]
            passed@.contains_key(name) by {
            if !passed@.contains_key(name) {
                assert forall|i: int| 0 <= i < all.len() implies (#[trigger] all[i]).0@ != name by {
                    if all[i].0@ == name {
                        assert(passed@.contains_key(name));
                    }
                }
                json::record_lacks(all, name);
            }
        }
        assert(found@ =~= losing(held, seq![]));
    }
    names_of(&found)
}

/// Those of `names` that are not in `there`.
pub open spec fn lacking(names: Seq<Seq<char>>, there: Map<Seq<char>, ()>) -> Seq<Seq<char>>
    decreases names.len(),
{
    if names.len() == 0 {
        seq![]
    } else {
        let before = lacking(names.drop_last(), there);
        if there.contains_key(names.last()) {
            before
        } else {
            before.push(names.last())
        }
    }
}

/// Events this build needs that are not registered.
///
/// A configuration that merely *mentions* us is not a configuration that works.
pub fn missing_events(agent: Agent, text: Option<&str>) -> (missing: Vec<String>)
    ensures
        views(missing@) == lacking(wanted(agent), installed_in(seen(text))),
{
    let installed = installed_events(text);
    let names = events(agent);
    let ghost all = views(names@);
    let mut missing: Vec<String> = Vec::new();
    let mut i: usize = 0;
    assert(all.take(0) =~= seq![]);
    assert(views(missing@) =~= seq![]);
    while i < names.len()
        invariant
            i <= names@.len(),
            all == views(names@),
            exactly(views(installed@), installed_in(seen(text))),
            views(missing@) == lacking(all.take(i as int), installed_in(seen(text))),
        decreases names@.len() - i,
    {
        let ghost already = missing@;
        proof {
            assert(all.take(i + 1).drop_last() =~= all.take(i as int));
            assert(all.take(i + 1).last() == names@[i as int]@);
        }
        if !text::is_among(&installed, names[i].as_str()) {
            missing.push(names[i].clone());
            assert(views(missing@) =~= views(already).push(names@[i as int]@));
        }
        i = i + 1;
    }
    assert(all.take(i as int) =~= all);
    missing
}

/// Events where we are registered but no longer want to be.
///
/// Left behind by an older version of this application. They cost a process
/// spawn on every occurrence and tell a lane nothing.
pub fn stale_events(agent: Agent, text: Option<&str>) -> (stale: Vec<String>)
    ensures
        exactly(
            views(stale@),
            installed_in(seen(text)).remove_keys(wanted(agent).to_set()),
        ),
{
    let installed = installed_events(text);
    let names = events(agent);
    let ghost all = views(installed@);
    let ghost there = installed_in(seen(text));
    let mut left: Table<()> = Table::new();
    let mut i: usize = 0;
    while i < installed.len()
        invariant
            i <= installed@.len(),
            all == views(installed@),
            views(names@) == wanted(agent),
            forall|name: Seq<char>| #[trigger]
                left@.contains_key(name) <==> all.take(i as int).contains(name) && !wanted(
                    agent,
                ).contains(name),
        decreases installed@.len() - i,
    {
        let ghost before = left@;
        let ghost key = installed@[i as int]@;
        if !text::is_among(&names, installed[i].as_str()) {
            left.insert(installed[i].clone(), ());
        }
        proof {
            assert(all.take(i + 1) =~= all.take(i as int).push(key));
            assert forall|name: Seq<char>| #[trigger]
                left@.contains_key(name) <==> all.take(i + 1).contains(name) && !wanted(
                    agent,
                ).contains(name) by {
                let grown = all.take(i as int).push(key);
                assert(grown[i as int] == key);
                if all.take(i as int).contains(name) {
                    let at = choose|at: int|
                        0 <= at < all.take(i as int).len() && all.take(i as int)[at] == name;
                    assert(grown[at] == name);
                }
                assert(left@.contains_key(name) == (before.contains_key(name) || (name == key
                    && !wanted(agent).contains(key))));
            }
        }
        i = i + 1;
    }
    proof {
        assert(all.take(i as int) =~= all);
        let set = wanted(agent).to_set();
        assert forall|name: Seq<char>| #[trigger] set.contains(name) == wanted(agent).contains(
            name,
        ) by {}
        assert forall|name: Seq<char>| #[trigger]
            left@.contains_key(name) == there.remove_keys(set).contains_key(name) by {
            assert(all.contains(name) == there.contains_key(name));
        }
        assert(left@ =~= there.remove_keys(set));
    }
    names_of(&left)
}

/// The version the installed copy says it is, if it says.
pub fn installed_version(text: Option<&str>) -> (version: Option<String>)
    ensures
        text::shown(version) == text::word(seen(text)),
{
    text::word_of(text)
}

/// What a bare launch should do, given where it runs from and what is
/// installed.
#[derive(Debug, Clone, Copy, PartialEq, Eq, Structural)]
pub enum Launch {
    /// This is the installed copy, or an equal twin of it: just run.
    Run,
    /// Foreign copy, and the install is absent or another version: install
    /// everything and relaunch from the installed location.
    Install,
}

/// No marker (an install from before markers existed) reads as "another
/// version": one reinstall heals it.
pub fn launch_decision(
    running_from_install_dir: bool,
    installed_exe_present: bool,
    installed_version: Option<&str>,
    own_version: &str,
) -> (launch: Launch)
    ensures
        launch == (if running_from_install_dir || (installed_exe_present && seen(installed_version)
            == Some(own_version@)) {
            Launch::Run
        } else {
            Launch::Install
        }),
{
    if running_from_install_dir {
        return Launch::Run;
    }
    if !installed_exe_present {
        return Launch::Install;
    }
    match installed_version {
        Some(version) => if text::same(version, own_version) {
            Launch::Run
        } else {
            Launch::Install
        },
        None => Launch::Install,
    }
}

/// What to do with one file of an install.
#[derive(Debug, Clone, Copy, PartialEq, Eq, Structural)]
pub enum Copying {
    /// It is optional, and not here.
    Skip,
    /// It is not here, and there is no install without it.
    Refuse,
    /// What runs is what is installed: there is nothing to copy.
    Keep,
    /// Copy it, after moving the old one out of the way if there is one —
    /// copying over a running executable fails on Windows.
    Copy { aside: bool },
}

/// What to do with one file of an install: whether it is `here` beside the
/// running executable, whether an install can do without it, whether one is
/// already `there`, and whether the two are one file under two names.
pub fn copying(here: bool, optional: bool, there: bool, same_file: bool) -> (r: Copying)
    ensures
        r == (if !here {
            if optional {
                Copying::Skip
            } else {
                Copying::Refuse
            }
        } else if same_file {
            Copying::Keep
        } else {
            Copying::Copy { aside: there }
        }),
{
    if !here {
        if optional {
            Copying::Skip
        } else {
            Copying::Refuse
        }
    } else if same_file {
        Copying::Keep
    } else {
        Copying::Copy { aside: there }
    }
}

/// Taking ours out of a list that has none changes nothing.
proof fn theirs_are_theirs(items: Seq<Tree>)
    ensures
        theirs(theirs(items)) == theirs(items),
    decreases items.len(),
{
    if items.len() > 0 {
        theirs_are_theirs(items.drop_last());
        let kept = theirs(items.drop_last());
        if !ours(items.last()) {
            assert(kept.push(items.last()).drop_last() =~= kept);
        }
    }
}

proof fn sweeping_twice(hooks: Map<Seq<char>, Tree>)
    ensures
        swept(swept(hooks)) == swept(hooks),
{
    let once = swept(hooks);
    assert forall|name: Seq<char>| #[trigger] once.contains_key(name) implies !emptied(once[name])
        && cleaned(once[name]) == once[name] by {
        if let Tree::List(items) = hooks[name] {
            theirs_are_theirs(items);
        }
    }
    assert(swept(once) =~= once);
}

/// What is in a text is in any longer one.
proof fn longer_has_it(whole: Seq<char>, part: Seq<char>, left: Seq<char>, right: Seq<char>)
    requires
        has(whole, part),
    ensures
        has(left + whole + right, part),
{
    let at = choose|at: int|
        0 <= at <= whole.len() - part.len() && #[trigger] whole.subrange(at, at + part.len())
            == part;
    let all = left + whole + right;
    let there = left.len() + at;
    assert(all.subrange(there, there + part.len()) =~= whole.subrange(at, at + part.len()));
}

/// The command we register names our executable, wherever it is installed.
proof fn our_command_names_us(flavor: Flavor, install_dir: Seq<char>, agent_name: Called)
    ensures
        has(command(flavor, install_dir, agent_name), "agent-frow-hook"@),
{
    reveal_strlit("agent-frow-hook");
    reveal_strlit("agent-frow-hook.exe");
    let us = "agent-frow-hook"@;
    let name = "agent-frow-hook.exe"@;
    let exe = paths::joined(install_dir, name, '\\');
    let size = exe.len() - name.len();
    assert(exe.skip(size) =~= name);
    let slashed = text::swapped(exe, '\\', '/');
    assert(slashed.skip(size) =~= name) by {
        assert forall|i: int| 0 <= i < name.len() implies slashed.skip(size)[i] == name[i] by {
            assert(exe.skip(size)[i] == exe[size + i]);
            assert(name[i] != '\\');
        }
    }
    assert(has(slashed, us)) by {
        assert(slashed.subrange(size, size + us.len()) =~= us);
    }
    let path = match flavor.host {
        Host::Windows => slashed,
        Host::Wsl { .. } => wsl_path(exe),
    };
    assert(has(path, us)) by {
        if flavor.host is Wsl && slashed.len() >= 3 && slashed[1] == ':' && slashed[2] == '/' && (
        slashed[0] as u32) < 128 {
            assert(size >= 3) by {
                if size <= 1 {
                    assert(slashed.skip(size)[1 - size] == slashed[1]);
                    assert(name[1 - size] != ':');
                } else if size == 2 {
                    assert(slashed.skip(size)[0] == slashed[2]);
                    assert(name[0] != '/');
                }
            }
            let rest = slashed.skip(3);
            assert(rest.subrange(size - 3, size - 3 + us.len()) =~= us);
            assert(has(rest, us));
            let front = "/mnt/"@.push(text::small(slashed[0])) + "/"@;
            longer_has_it(rest, us, front, seq![]);
            assert(front + rest + seq![] =~= path);
        }
    }
    let word = quoted(path);
    assert(has(word, us)) by {
        if path.contains(' ') {
            longer_has_it(path, us, "\""@, "\""@);
        }
    }
    let end = " --source "@ + flavor.source_name(agent_name);
    longer_has_it(word, us, seq![], end);
    assert(seq![] + word + end =~= command(flavor, install_dir, agent_name));
}

/// An entry that runs a command naming us is ours.
proof fn our_entry_is_ours(agent: Agent, event: Seq<char>, command: Seq<char>)
    requires
        has(command, "agent-frow-hook"@),
    ensures
        ours(our_entry(agent, event, command)),
{
    reveal_strlit("hooks");
    reveal_strlit("matcher");
    reveal_strlit("type");
    reveal_strlit("command");
    reveal_strlit("timeout");
    let entry = our_entry(agent, event, command);
    assert("hooks"@.len() != "matcher"@.len());
    assert("type"@.len() != "command"@.len());
    assert("timeout"@[0] != "command"@[0]);
    let hooks = list_at(entry, "hooks"@)->0;
    assert(hooks.len() == 1);
    assert(text_at(hooks[0], "command"@) == Some(command));
    assert(calls_us(hooks[0]));
}

proof fn only_ours_leaves_none(value: Tree)
    requires
        ours(value),
    ensures
        theirs(seq![value]).len() == 0,
{
    assert(seq![value].drop_last() =~= seq![]);
    assert(theirs(Seq::<Tree>::empty()).len() == 0);
}

/// Entries of ours are what a sweep takes out again.
proof fn a_sweep_undoes_registering(
    hooks: Map<Seq<char>, Tree>,
    agent: Agent,
    events: Seq<Seq<char>>,
    command: Seq<char>,
)
    requires
        has(command, "agent-frow-hook"@),
    ensures
        swept(registered_all(hooks, agent, events, command)) == swept(hooks),
    decreases events.len(),
{
    if events.len() > 0 {
        let before = registered_all(hooks, agent, events.drop_last(), command);
        let event = events.last();
        let value = our_entry(agent, event, command);
        let after = registered(before, event, value);
        a_sweep_undoes_registering(hooks, agent, events.drop_last(), command);
        our_entry_is_ours(agent, event, command);
        if !before.contains_key(event) {
            only_ours_leaves_none(value);
            assert(emptied(after[event]));
        } else if let Tree::List(items) = before[event] {
            assert(items.push(value).drop_last() =~= items);
            assert(theirs(items.push(value)) == theirs(items));
            assert(cleaned(after[event]) == cleaned(before[event]));
        }
        assert(swept(after) =~= swept(before));
    }
}

/// **Removing undoes installing**: what is left after both is what removing
/// alone would have left — every hook that is not ours, in its place.
pub proof fn removing_undoes_installing(
    hooks: Map<Seq<char>, Tree>,
    flavor: Flavor,
    install_dir: Seq<char>,
    agent_name: Called,
)
    ensures
        swept(
            registered_all(
                swept(hooks),
                flavor.agent,
                wanted(flavor.agent),
                command(flavor, install_dir, agent_name),
            ),
        ) == swept(hooks),
{
    our_command_names_us(flavor, install_dir, agent_name);
    a_sweep_undoes_registering(
        swept(hooks),
        flavor.agent,
        wanted(flavor.agent),
        command(flavor, install_dir, agent_name),
    );
    sweeping_twice(hooks);
}

/// **Installing twice is installing once.**
pub proof fn installing_twice_is_installing_once(
    hooks: Map<Seq<char>, Tree>,
    flavor: Flavor,
    install_dir: Seq<char>,
    agent_name: Called,
)
    ensures
        ({
            let agent = flavor.agent;
            let line = command(flavor, install_dir, agent_name);
            let once = registered_all(swept(hooks), agent, wanted(agent), line);
            registered_all(swept(once), agent, wanted(agent), line) == once
        }),
{
    removing_undoes_installing(hooks, flavor, install_dir, agent_name);
}

proof fn registering_is_seen(
    hooks: Map<Seq<char>, Tree>,
    agent: Agent,
    events: Seq<Seq<char>>,
    command: Seq<char>,
    name: Seq<char>,
)
    requires
        has(command, "agent-frow-hook"@),
        forall|other: Seq<char>| !#[trigger] touched(hooks, other),
    ensures
        touched(registered_all(hooks, agent, events, command), name) <==> taken(
            hooks,
            agent,
            events,
            command,
        ).contains(name),
    decreases events.len(),
{
    if events.len() > 0 {
        let fewer = events.drop_last();
        let before = registered_all(hooks, agent, fewer, command);
        let named = taken(hooks, agent, fewer, command);
        let event = events.last();
        let value = our_entry(agent, event, command);
        let after = registered(before, event, value);
        registering_is_seen(hooks, agent, fewer, command, name);
        our_entry_is_ours(agent, event, command);
        if takes(before, event) {
            let all = named.push(event);
            assert(all[all.len() - 1] == event);
            if named.contains(name) {
                let at = choose|at: int| 0 <= at < named.len() && named[at] == name;
                assert(all[at] == name);
            }
            if !before.contains_key(event) {
                only_ours_leaves_none(value);
            } else if let Tree::List(items) = before[event] {
                ours_are_lost(items);
                assert(items.push(value).drop_last() =~= items);
            }
            assert(touched(after, event));
            if name != event {
                assert(touched(after, name) == touched(before, name));
            }
        }
    }
}

proof fn a_sweep_leaves_none_of_ours(hooks: Map<Seq<char>, Tree>)
    ensures
        forall|name: Seq<char>| !#[trigger] touched(swept(hooks), name),
{
    assert forall|name: Seq<char>| !#[trigger] touched(swept(hooks), name) by {
        if swept(hooks).contains_key(name) {
            if let Tree::List(items) = hooks[name] {
                theirs_are_theirs(items);
            }
        }
    }
}

/// **An install registers exactly what it says**: afterwards our entries are
/// where the plan added them and nowhere else, so nothing is stale, and only
/// an event whose hooks are no list can be missing.
pub proof fn an_install_registers_what_it_says(
    hooks: Map<Seq<char>, Tree>,
    flavor: Flavor,
    install_dir: Seq<char>,
    name: Seq<char>,
    agent_name: Called,
)
    ensures
        ({
            let agent = flavor.agent;
            let line = command(flavor, install_dir, agent_name);
            touched(registered_all(swept(hooks), agent, wanted(agent), line), name) <==> taken(
                swept(hooks),
                agent,
                wanted(agent),
                line,
            ).contains(name)
        }),
{
    our_command_names_us(flavor, install_dir, agent_name);
    a_sweep_leaves_none_of_ours(hooks);
    registering_is_seen(
        swept(hooks),
        flavor.agent,
        wanted(flavor.agent),
        command(flavor, install_dir, agent_name),
        name,
    );
}

/// **Only the hooks are edited**: whatever the hooks become, every other key
/// of the configuration is as it was.
pub proof fn only_the_hooks_are_edited(document: Tree, hooks: Map<Seq<char>, Tree>, key: Seq<char>)
    requires
        key != "hooks"@,
    ensures
        entry(with_hooks(document, hooks), key) == entry(document, key),
{
}

/// Every kind's name, told apart from every other by its length and letters.
proof fn names_told_apart()
    ensures
        forall|a: Kind, b: Kind| #![trigger a.title(), b.title()] a.title() == b.title() ==> a == b,
{
    assert forall|a: Kind, b: Kind| #![trigger a.title(), b.title()] a.title() == b.title() implies a
        == b by {
        crate::event::a_name_is_one_kind(a, b);
    }
}

/// **Every kind of event that can change a lane, and that the agent emits, is
/// asked for**: of one agent all but the question tool's, which it does not
/// have, of Codex all but those it never sends; and of neither the status line,
/// which is no hook. Nothing else is asked for, and nothing twice.
pub proof fn every_kind_an_agent_emits_is_asked_for(agent: Agent, kind: Kind)
    ensures
        wanted(agent).contains(kind.title()) <==> (match agent {
            Agent::Claude => kind != Kind::PreToolUse && kind != Kind::StatusLine,
            Agent::Codex => kind != Kind::PostToolUseFailure && kind != Kind::PermissionDenied
                && kind != Kind::Notification && kind != Kind::StopFailure && kind
                != Kind::StatusLine,
        }),
        forall|i: int|
            0 <= i < wanted(agent).len() ==> exists|one: Kind|
                (#[trigger] wanted(agent)[i]) == #[trigger] one.title(),
        wanted(agent).no_duplicates(),
{
    names_told_apart();
    let list = wanted(agent);
    let kinds: Seq<Kind> = match agent {
        Agent::Claude => seq![
            Kind::SessionStart,
            Kind::UserPromptSubmit,
            Kind::PostToolUse,
            Kind::PostToolUseFailure,
            Kind::PermissionRequest,
            Kind::PermissionDenied,
            Kind::Notification,
            Kind::SubagentStart,
            Kind::SubagentStop,
            Kind::Stop,
            Kind::StopFailure,
            Kind::SessionEnd,
        ],
        Agent::Codex => seq![
            Kind::SessionStart,
            Kind::UserPromptSubmit,
            Kind::PreToolUse,
            Kind::PostToolUse,
            Kind::PermissionRequest,
            Kind::SubagentStart,
            Kind::SubagentStop,
            Kind::Stop,
            Kind::SessionEnd,
        ],
    };
    assert(list.len() == kinds.len());
    assert forall|i: int| 0 <= i < list.len() implies (#[trigger] list[i]) == kinds[i].title() by {}
    assert forall|i: int, j: int| 0 <= i < j < kinds.len() implies kinds[i] != kinds[j] by {}
    if kinds.contains(kind) {
        let i = choose|i: int| 0 <= i < kinds.len() && kinds[i] == kind;
        assert(list[i] == kind.title());
    }
    if list.contains(kind.title()) {
        let i = choose|i: int| 0 <= i < list.len() && list[i] == kind.title();
        assert(kinds[i] == kind);
    }
    assert(kinds.contains(kind) <==> (match agent {
        Agent::Claude => kind != Kind::PreToolUse && kind != Kind::StatusLine,
        Agent::Codex => kind != Kind::PostToolUseFailure && kind != Kind::PermissionDenied && kind
            != Kind::Notification && kind != Kind::StopFailure && kind != Kind::StatusLine,
    })) by {
        assert(forall|i: int| 0 <= i < kinds.len() ==> #[trigger] kinds.contains(kinds[i]));
        match agent {
            Agent::Claude => {
                assert(kinds.contains(kinds[0]) && kinds.contains(kinds[1]) && kinds.contains(kinds[2])
                    && kinds.contains(kinds[3]) && kinds.contains(kinds[4]) && kinds.contains(
                    kinds[5],
                ) && kinds.contains(kinds[6]) && kinds.contains(kinds[7]) && kinds.contains(
                    kinds[8],
                ) && kinds.contains(kinds[9]) && kinds.contains(kinds[10]) && kinds.contains(
                    kinds[11],
                ));
            },
            Agent::Codex => {
                assert(kinds.contains(kinds[0]) && kinds.contains(kinds[1]) && kinds.contains(kinds[2])
                    && kinds.contains(kinds[3]) && kinds.contains(kinds[4]) && kinds.contains(
                    kinds[5],
                ) && kinds.contains(kinds[6]) && kinds.contains(kinds[7]) && kinds.contains(
                    kinds[8],
                ));
            },
        }
    }
}

/// **Each way a turn can go reaches the app**: whatever state an event of the
/// agent can bring about, an event that brings it about is asked for.
pub proof fn each_step_is_asked_for(agent: Agent, current: State, event: Event)
    requires
        next(current, event) != Step::Stay,
        agent == Agent::Codex ==> event.kind != Kind::PostToolUseFailure && event.kind
            != Kind::PermissionDenied && event.kind != Kind::Notification && event.kind
            != Kind::StopFailure,
        agent == Agent::Claude ==> event.kind != Kind::PreToolUse,
    ensures
        wanted(agent).contains(event.kind.title()),
{
    every_kind_an_agent_emits_is_asked_for(agent, event.kind);
}

/// **An entry is ours by what it runs**: one of its hooks has a command with
/// our executable's name in it. Whatever else it holds, an entry that has none
/// is somebody else's.
pub proof fn an_entry_is_ours_by_what_it_runs(tree: Tree, hooks: Seq<Tree>, i: int, line: Seq<char>)
    requires
        entry(tree, "hooks"@) == Some(Tree::List(hooks)),
    ensures
        0 <= i < hooks.len() && entry(hooks[i], "command"@) == Some(Tree::Text(line)) && has(
            line,
            "agent-frow-hook"@,
        ) ==> ours(tree),
        (forall|j: int|
            0 <= j < hooks.len() ==> !((entry(#[trigger] hooks[j], "command"@) matches Some(
                Tree::Text(said),
            ) && has(said, "agent-frow-hook"@)))) ==> !ours(tree),
{
    if 0 <= i < hooks.len() && entry(hooks[i], "command"@) == Some(Tree::Text(line)) && has(
        line,
        "agent-frow-hook"@,
    ) {
        assert(calls_us(hooks[i]));
    }
}

/// The entries that are not ours are the others, all of them, in their order.
proof fn theirs_are_the_others(items: Seq<Tree>)
    ensures
        theirs(items) == items.filter(|tree: Tree| !ours(tree)),
    decreases items.len(),
{
    reveal(Seq::filter);
    if items.len() > 0 {
        theirs_are_the_others(items.drop_last());
    }
}

/// What a configuration has under one event.
pub open spec fn under(document: Tree, name: Seq<char>) -> Option<Tree> {
    match entry(document, "hooks"@) {
        Some(hooks) => entry(hooks, name),
        None => None,
    }
}

/// What is to stand under an event: the entries that are not ours, in their
/// order, and then `own`, if there is one. Nothing, if that is no entry at all;
/// and what is no list is left as it is.
pub open spec fn own_beside_theirs(was: Option<Tree>, own: Option<Tree>) -> Option<Tree> {
    let kept = match was {
        Some(Tree::List(items)) => items.filter(|tree: Tree| !ours(tree)),
        _ => seq![],
    };
    match was {
        Some(Tree::List(_)) | None => match own {
            Some(own) => Some(Tree::List(kept.push(own))),
            None => if kept.len() == 0 {
                None
            } else {
                Some(Tree::List(kept))
            },
        },
        other => other,
    }
}

proof fn registered_once(
    hooks: Map<Seq<char>, Tree>,
    agent: Agent,
    events: Seq<Seq<char>>,
    command: Seq<char>,
    name: Seq<char>,
)
    requires
        events.no_duplicates(),
    ensures
        ({
            let after = registered_all(hooks, agent, events, command);
            let own = our_entry(agent, name, command);
            if !events.contains(name) {
                after.contains_key(name) == hooks.contains_key(name) && (hooks.contains_key(name)
                    ==> after[name] == hooks[name])
            } else if !hooks.contains_key(name) {
                after.contains_key(name) && after[name] == Tree::List(seq![own])
            } else {
                after.contains_key(name) && after[name] == (match hooks[name] {
                    Tree::List(items) => Tree::List(items.push(own)),
                    other => other,
                })
            }
        }),
    decreases events.len(),
{
    if events.len() > 0 {
        let fewer = events.drop_last();
        assert(fewer.no_duplicates());
        registered_once(hooks, agent, fewer, command, name);
        if fewer.contains(name) {
            let i = choose|i: int| 0 <= i < fewer.len() && fewer[i] == name;
            assert(events[i] == name);
            assert(events.last() != name);
        }
        if events.contains(name) && events.last() != name {
            let i = choose|i: int| 0 <= i < events.len() && events[i] == name;
            assert(fewer[i] == name);
        }
        if events.last() == name {
            assert(events[events.len() - 1] == name);
        }
    }
}

/// **An install puts one entry of ours under each event that is asked for, and
/// touches nothing else**: what it writes is the configuration with every key
/// but the hooks as it was, and under each event what was there of others, in
/// its order, before ours. An older entry of ours is gone.
pub proof fn an_install_adds_ours_and_touches_nothing_else(
    plan: Plan,
    found: Found,
    text: Option<Seq<char>>,
    install_dir: Seq<char>,
    agent_name: Called,
    key: Seq<char>,
    name: Seq<char>,
)
    requires
        objection(text) is None,
        plan_installs(
            plan,
            found,
            text,
            hooks_of(json_of(read_as(text))->Ok_0)->0,
            command(found.flavor, install_dir, agent_name),
        ),
    ensures
        plan.path@ == found.config@,
        exists|after: Tree|
            #![trigger pretty_of(after)]
            {
                let document = json_of(read_as(text))->Ok_0;
                let agent = found.flavor.agent;
                let line = command(found.flavor, install_dir, agent_name);
                &&& plan.after@ == pretty_of(after) + "\n"@
                &&& key != "hooks"@ ==> entry(after, key) == entry(document, key)
                &&& under(after, name) == own_beside_theirs(
                    under(document, name),
                    if wanted(agent).contains(name) {
                        Some(our_entry(agent, name, line))
                    } else {
                        None
                    },
                )
            },
{
    let document = json_of(read_as(text))->Ok_0;
    let agent = found.flavor.agent;
    let line = command(found.flavor, install_dir, agent_name);
    let hooks = hooks_of(document)->0;
    let result = registered_all(swept(hooks), agent, wanted(agent), line);
    let after = with_hooks(document, result);
    every_kind_an_agent_emits_is_asked_for(agent, Kind::Stop);
    registered_once(swept(hooks), agent, wanted(agent), line, name);
    if let Some(Tree::List(items)) = under(document, name) {
        theirs_are_the_others(items);
    }
    assert(under(document, name) == (if hooks.contains_key(name) {
        Some(hooks[name])
    } else {
        None
    }));
    assert(under(after, name) == (if result.contains_key(name) {
        Some(result[name])
    } else {
        None
    })) by {
        if result == Map::<Seq<char>, Tree>::empty() {
            assert(entry(after, "hooks"@) is None);
        }
    }
    if !hooks.contains_key(name) {
        assert(Seq::<Tree>::empty().push(our_entry(agent, name, line)) =~= seq![
            our_entry(agent, name, line),
        ]);
    } else if let Tree::List(items) = hooks[name] {
        if theirs(items).len() == 0 {
            assert(theirs(items).push(our_entry(agent, name, line)) =~= seq![
                our_entry(agent, name, line),
            ]);
        }
    }
    assert(plan.after@ == pretty_of(after) + "\n"@);
}

/// **A removal takes ours out everywhere, and touches nothing else.**
pub proof fn a_removal_takes_ours_and_nothing_else(
    plan: Plan,
    found: Found,
    text: Option<Seq<char>>,
    key: Seq<char>,
    name: Seq<char>,
)
    requires
        objection(text) is None,
        plan_removes(plan, found, text, hooks_of(json_of(read_as(text))->Ok_0)->0),
    ensures
        plan.path@ == found.config@,
        plan.events_added@.len() == 0,
        exists|after: Tree|
            #![trigger pretty_of(after)]
            {
                let document = json_of(read_as(text))->Ok_0;
                &&& plan.after@ == pretty_of(after) + "\n"@
                &&& key != "hooks"@ ==> entry(after, key) == entry(document, key)
                &&& under(after, name) == own_beside_theirs(under(document, name), None)
            },
{
    let document = json_of(read_as(text))->Ok_0;
    let hooks = hooks_of(document)->0;
    let result = swept(hooks);
    let after = with_hooks(document, result);
    if let Some(Tree::List(items)) = under(document, name) {
        theirs_are_the_others(items);
    }
    assert(under(document, name) == (if hooks.contains_key(name) {
        Some(hooks[name])
    } else {
        None
    }));
    assert(under(after, name) == (if result.contains_key(name) {
        Some(result[name])
    } else {
        None
    })) by {
        if result == Map::<Seq<char>, Tree>::empty() {
            assert(entry(after, "hooks"@) is None);
        }
    }
    assert(plan.after@ == pretty_of(after) + "\n"@);
}

/// **A plan says what it does**: the events it adds are those asked for whose
/// hooks can take an entry, and the events it removes are those that had an
/// entry of ours and are not asked for.
pub proof fn a_plan_says_what_it_does(
    plan: Plan,
    found: Found,
    text: Option<Seq<char>>,
    line: Seq<char>,
    name: Seq<char>,
)
    requires
        objection(text) is None,
        plan_installs(plan, found, text, hooks_of(json_of(read_as(text))->Ok_0)->0, line),
    ensures
        ({
            let document = json_of(read_as(text))->Ok_0;
            let asked = wanted(found.flavor.agent).contains(name);
            let was = under(document, name);
            &&& views(plan.events_added@).contains(name) <==> asked && (was is None || was->0 is List)
            &&& views(plan.events_removed@).contains(name) <==> !asked && (was matches Some(
                Tree::List(items),
            ) && exists|i: int| 0 <= i < items.len() && ours(#[trigger] items[i]))
        }),
{
    let document = json_of(read_as(text))->Ok_0;
    let hooks = hooks_of(document)->0;
    let agent = found.flavor.agent;
    every_kind_an_agent_emits_is_asked_for(agent, Kind::Stop);
    taken_once(swept(hooks), agent, wanted(agent), line, name);
    assert(under(document, name) == (if hooks.contains_key(name) {
        Some(hooks[name])
    } else {
        None
    }));
    if let Some(Tree::List(items)) = under(document, name) {
        ours_are_lost(items);
    }
    assert(views(plan.events_removed@).contains(name) <==> losing(
        hooks,
        wanted(agent),
    ).contains_key(name));
}

proof fn taken_once(
    hooks: Map<Seq<char>, Tree>,
    agent: Agent,
    events: Seq<Seq<char>>,
    command: Seq<char>,
    name: Seq<char>,
)
    requires
        events.no_duplicates(),
    ensures
        taken(hooks, agent, events, command).contains(name) <==> events.contains(name) && takes(
            hooks,
            name,
        ),
    decreases events.len(),
{
    if events.len() > 0 {
        let fewer = events.drop_last();
        let before = taken(hooks, agent, fewer, command);
        let all = taken(hooks, agent, events, command);
        assert(fewer.no_duplicates());
        taken_once(hooks, agent, fewer, command, name);
        registered_once(hooks, agent, fewer, command, events.last());
        if fewer.contains(events.last()) {
            let i = choose|i: int| 0 <= i < fewer.len() && fewer[i] == events.last();
            assert(events[i] == events[events.len() - 1]);
        }
        if before.contains(name) {
            let i = choose|i: int| 0 <= i < before.len() && before[i] == name;
            assert(all[i] == name);
        }
        if all.len() > before.len() {
            assert(all[before.len() as int] == events.last());
        }
        if all.contains(name) && name != events.last() {
            let i = choose|i: int| 0 <= i < all.len() && all[i] == name;
            assert(before[i] == name);
        }
        if fewer.contains(name) {
            let i = choose|i: int| 0 <= i < fewer.len() && fewer[i] == name;
            assert(events[i] == name);
        }
        if events.contains(name) && events.last() != name {
            let i = choose|i: int| 0 <= i < events.len() && events[i] == name;
            assert(fewer[i] == name);
        }
        if events.last() == name {
            assert(events[events.len() - 1] == name);
        }
    }
}

/// **Our entry runs our command and nothing else**, with five seconds to do it,
/// or the three Codex allows the end of a session. One agent's is for every
/// tool; Codex's is for every tool too, but the one for a tool about to run,
/// which is for its question alone.
pub proof fn our_entry_runs_our_command(agent: Agent, event: Seq<char>, line: Seq<char>)
    ensures
        ({
            let own = our_entry(agent, event, line);
            &&& entry(own, "hooks"@) matches Some(Tree::List(hooks)) && {
                &&& hooks.len() == 1
                &&& entry(hooks[0], "type"@) == Some(Tree::Text("command"@))
                &&& entry(hooks[0], "command"@) == Some(Tree::Text(line))
                &&& entry(hooks[0], "timeout"@) == Some(
                    Tree::Unsigned(
                        if agent == Agent::Codex && event == "SessionEnd"@ {
                            3
                        } else {
                            5
                        },
                    ),
                )
                &&& entry(hooks[0], "async"@) is None
            }
            &&& agent == Agent::Claude ==> entry(own, "matcher"@) == Some(Tree::Text("*"@))
            &&& agent == Agent::Codex && event == "PreToolUse"@ ==> entry(own, "matcher"@) == Some(
                Tree::Text("^request_user_input$"@),
            )
            &&& agent == Agent::Codex && event != "PreToolUse"@ ==> entry(own, "matcher"@) is None
        }),
{
    reveal_strlit("hooks");
    reveal_strlit("matcher");
    reveal_strlit("type");
    reveal_strlit("command");
    reveal_strlit("timeout");
    reveal_strlit("async");
    assert("hooks"@.len() != "matcher"@.len());
    assert("type"@.len() != "command"@.len());
    assert("timeout"@[0] != "command"@[0]);
    assert("async"@.len() == 5 && "type"@.len() == 4);
}

/// **The command is the installed executable, as the agent's own side sees
/// it, and says which agent runs it.** There is no backward slash in its path;
/// from WSL a drive is a mount under its small letter; and a path with a blank
/// in it is one word.
pub proof fn the_command_runs_the_installed_executable(
    flavor: Flavor,
    drive: char,
    rest: Seq<char>,
    agent_name: Called,
)
    requires
        'A' <= drive <= 'Z' || 'a' <= drive <= 'z',
        rest.len() > 0,
        rest.last() != '\\' && rest.last() != '/',
    ensures
        ({
            let dir = seq![drive, ':', '\\'] + rest;
            let line = command(flavor, dir, agent_name);
            let tail = text::swapped(rest, '\\', '/') + "/agent-frow-hook.exe"@;
            let small = if drive <= 'Z' {
                (drive as u32 + 32) as char
            } else {
                drive
            };
            let path = match flavor.host {
                Host::Windows => seq![drive, ':', '/'] + tail,
                Host::Wsl { .. } => seq!['/', 'm', 'n', 't', '/', small, '/'] + tail,
            };
            let word = if path.contains(' ') {
                seq!['"'] + path + seq!['"']
            } else {
                path
            };
            &&& line == word + " --source "@ + flavor.source_name(agent_name)
            &&& !path.contains('\\')
        }),
{
    reveal_strlit("agent-frow-hook.exe");
    reveal_strlit("/agent-frow-hook.exe");
    reveal_strlit("/mnt/");
    reveal_strlit("/");
    reveal_strlit("\"");
    let dir = seq![drive, ':', '\\'] + rest;
    let name = "agent-frow-hook.exe"@;
    assert(dir.last() == rest.last());
    assert(dir.len() > 3);
    let exe = paths::joined(dir, name, '\\');
    assert(exe == dir.push('\\') + name);
    let tail = text::swapped(rest, '\\', '/') + "/agent-frow-hook.exe"@;
    let slashed = text::swapped(exe, '\\', '/');
    assert(slashed =~= seq![drive, ':', '/'] + tail);
    assert(slashed.skip(3) =~= tail);
    assert("\""@ =~= seq!['"']);
    let small = text::small(drive);
    assert("/mnt/"@.push(small) + "/"@ + tail =~= seq!['/', 'm', 'n', 't', '/', small, '/'] + tail);
    assert(forall|i: int| 0 <= i < tail.len() ==> #[trigger] tail[i] != '\\');
    let windows = seq![drive, ':', '/'] + tail;
    let wsl = seq!['/', 'm', 'n', 't', '/', small, '/'] + tail;
    assert forall|i: int| 0 <= i < windows.len() implies #[trigger] windows[i] != '\\' by {
        if i >= 3 {
            assert(windows[i] == tail[i - 3]);
        }
    }
    assert forall|i: int| 0 <= i < wsl.len() implies #[trigger] wsl[i] != '\\' by {
        if i >= 7 {
            assert(wsl[i] == tail[i - 7]);
        }
    }
}

/// **A missing event is one that is asked for and has no entry of ours; a stale
/// one has an entry and is not asked for**, whatever the configuration says.
pub proof fn what_is_missing_is_asked_for_and_not_there(
    agent: Agent,
    text: Seq<char>,
    name: Seq<char>,
)
    requires
        json_of(text) is Ok,
    ensures
        ({
            let there = under(json_of(text)->Ok_0, name) matches Some(Tree::List(items))
                && exists|i: int| 0 <= i < items.len() && ours(#[trigger] items[i]);
            &&& installed_in(Some(text)).contains_key(name) <==> there
            &&& lacking(wanted(agent), installed_in(Some(text))).contains(name) <==> wanted(
                agent,
            ).contains(name) && !there
        }),
{
    let document = json_of(text)->Ok_0;
    if let Some(Tree::List(items)) = under(document, name) {
        ours_are_lost(items);
    }
    lacking_is(wanted(agent), installed_in(Some(text)), name);
}

proof fn lacking_is(names: Seq<Seq<char>>, there: Map<Seq<char>, ()>, name: Seq<char>)
    ensures
        lacking(names, there).contains(name) <==> names.contains(name) && !there.contains_key(name),
    decreases names.len(),
{
    if names.len() > 0 {
        let fewer = names.drop_last();
        let before = lacking(fewer, there);
        let all = lacking(names, there);
        lacking_is(fewer, there, name);
        if before.contains(name) {
            let i = choose|i: int| 0 <= i < before.len() && before[i] == name;
            assert(all[i] == name);
        }
        if all.len() > before.len() {
            assert(all[before.len() as int] == names.last());
        }
        if all.contains(name) && name != names.last() {
            let i = choose|i: int| 0 <= i < all.len() && all[i] == name;
            assert(before[i] == name);
        }
        if fewer.contains(name) {
            let i = choose|i: int| 0 <= i < fewer.len() && fewer[i] == name;
            assert(names[i] == name);
        }
        if names.contains(name) && names.last() != name {
            let i = choose|i: int| 0 <= i < names.len() && names[i] == name;
            assert(fewer[i] == name);
        }
        if names.last() == name {
            assert(names[names.len() - 1] == name);
        }
    }
}

/// **A configuration that is no object is refused, and so is one whose hooks
/// are none**; what is not there yet, or is blank, is an empty one.
pub proof fn only_an_object_is_edited(text: Option<Seq<char>>)
    ensures
        text is None || trimmed(text->0).len() == 0 ==> read_as(text) == "{}"@,
        text is Some && trimmed(text->0).len() > 0 ==> read_as(text) == text->0,
        objection(text) is None <==> (json_of(read_as(text)) matches Ok(Tree::Record(keys)) && (
        keys.contains_key("hooks"@) ==> keys["hooks"@] is Record)),
{
}

} // verus!
