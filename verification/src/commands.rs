//! The command line: what was asked for, and what is said in answer.

use vstd::prelude::*;

use crate::agents::{Agent, Called, Found, Name};
use crate::install::{
    self, Plan, installed_in, lacking, ordered, there_is_one_order, wanted,
};
use crate::lastseen::{self, last_heard};
use crate::settings::{Settings, Setup};
use crate::settings_file::{self, setup_in};
use crate::json::json_of;
use crate::table::Table;
use crate::text::{self, decimal, joined_by, seen, shown, views};
use crate::tracker::{Desk, Tracker, desk};

verus! {

/// What was asked for.
#[derive(Debug, PartialEq, Eq)]
pub enum Command {
    Doctor,
    Install,
    Remove,
    /// Receive events; also what is meant when nothing is said.
    Run,
    Unknown(String),
}

/// The command that a list of arguments begins with.
pub fn command_of(args: &Vec<String>) -> (command: Command)
    ensures
        match command {
            Command::Doctor => args@.len() > 0 && args@[0]@ == "doctor"@,
            Command::Install => args@.len() > 0 && args@[0]@ == "install"@,
            Command::Remove => args@.len() > 0 && args@[0]@ == "remove"@,
            Command::Run => args@.len() == 0 || args@[0]@ == "run"@,
            Command::Unknown(other) => {
                &&& args@.len() > 0
                &&& other@ == args@[0]@
                &&& other@ != "doctor"@ && other@ != "install"@ && other@ != "remove"@ && other@
                    != "run"@
            },
        },
{
    if args.len() == 0 {
        return Command::Run;
    }
    let first = args[0].as_str();
    if text::same(first, "doctor") {
        Command::Doctor
    } else if text::same(first, "install") {
        Command::Install
    } else if text::same(first, "remove") {
        Command::Remove
    } else if text::same(first, "run") {
        Command::Run
    } else {
        Command::Unknown(args[0].clone())
    }
}

/// What follows the first `name` among `flags`.
pub open spec fn flag_in(flags: Seq<Seq<char>>, name: Seq<char>) -> Option<Seq<char>>
    decreases flags.len(),
{
    if flags.len() == 0 {
        None
    } else if flags[0] == name {
        if flags.len() > 1 {
            Some(flags[1])
        } else {
            None
        }
    } else {
        flag_in(flags.skip(1), name)
    }
}

pub fn flag_value(flags: &Vec<String>, name: &str) -> (value: Option<String>)
    ensures
        shown(value) == flag_in(views(flags@), name@),
{
    let ghost all = views(flags@);
    let mut i: usize = 0;
    assert(all.skip(0) =~= all);
    while i < flags.len()
        invariant
            i <= flags@.len(),
            all == views(flags@),
            flag_in(all, name@) == flag_in(all.skip(i as int), name@),
        decreases flags@.len() - i,
    {
        assert(all.skip(i as int)[0] == flags@[i as int]@);
        if text::same(flags[i].as_str(), name) {
            if i + 1 < flags.len() {
                assert(all.skip(i as int)[1] == flags@[i + 1]@);
                return Some(flags[i + 1].clone());
            }
            return None;
        }
        assert(all.skip(i as int).skip(1) =~= all.skip(i + 1));
        i = i + 1;
    }
    None
}

/// Those of `found` that are meant: all of them, or the one named.
pub open spec fn meant(found: Seq<Found>, source: Option<Seq<char>>, agent_name: Called) -> Seq<Found>
    decreases found.len(),
{
    match source {
        None => found,
        Some(name) => if found.len() == 0 {
            seq![]
        } else {
            let before = meant(found.drop_last(), source, agent_name);
            if found.last().flavor.source_name(agent_name) == name {
                before.push(found.last())
            } else {
                before
            }
        },
    }
}

/// The flavors to act on: all of them, or the one named by `--source`.
pub fn selected(found: Vec<Found>, flags: &Vec<String>, agent_name: &Name) -> (kept: Vec<Found>)
    ensures
        kept@ == meant(found@, flag_in(views(flags@), "--source"@), agent_name@),
{
    let name: String = match flag_value(flags, "--source") {
        Some(name) => name,
        None => return found,
    };
    let ghost all = found@;
    let ghost source = Some(name@);
    let mut kept: Vec<Found> = Vec::new();
    assert(all.take(0) =~= seq![]);
    for entry in iter: found
        invariant
            iter.seq() == all,
            source == Some(name@),
            kept@ == meant(all.take(iter.index() as int), source, agent_name@),
    {
        let ghost i = iter.index() as int;
        proof {
            assert(entry == all[i]);
            assert(all.take(i + 1).drop_last() =~= all.take(i));
        }
        if text::same(entry.flavor.source(agent_name).as_str(), name.as_str()) {
            kept.push(entry);
        }
    }
    assert(all.take(all.len() as int) =~= all);
    kept
}

/// Adds a line made of two parts.
fn say(lines: &mut Vec<String>, first: &str, second: &str)
    ensures
        views(final(lines)@) == views(old(lines)@).push(first@ + second@),
{
    let mut line = first.to_owned();
    line.push_str(second);
    lines.push(line);
    assert(views(lines@) =~= views(old(lines)@).push(first@ + second@));
}

/// What heads the list of things about one agent.
pub open spec fn heading(found: Found, between: Seq<char>, agent_name: Called) -> Seq<char> {
    found.flavor.words(agent_name) + between + found.flavor.source_name(agent_name) + "]"@
}

fn heading_of(found: &Found, between: &str, agent_name: &Name) -> (line: String)
    ensures
        line@ == heading(*found, between@, agent_name@),
{
    let mut line = found.flavor.describe(agent_name);
    line.push_str(between);
    line.push_str(found.flavor.source(agent_name).as_str());
    line.push_str("]");
    line
}

/// What a plan says of itself, line by line.
pub open spec fn report_lines(found: Found, plan: Plan, dry_run: bool, agent_name: Called) -> Seq<Seq<char>> {
    let head = seq!["\n"@ + heading(found, "  ["@, agent_name), "  "@ + plan.path@];
    if plan.before@ == plan.after@ {
        head.push("  already as it should be — nothing to write"@ + ""@)
    } else {
        let added = if plan.events_added@.len() == 0 {
            head
        } else {
            head.push("  registering  "@ + joined_by(views(plan.events_added@), ", "@))
        };
        let removed = if plan.events_removed@.len() == 0 {
            added
        } else {
            added.push("  removing     "@ + joined_by(views(plan.events_removed@), ", "@))
        };
        if dry_run {
            removed.push("  --dry-run: not written. Proposed file:\n"@ + ""@) + text::lines_of(
                plan.after@,
            ).map_values(|line: Seq<char>| "    "@ + line)
        } else {
            removed
        }
    }
}

/// What to print about a plan.
pub fn report(found: &Found, plan: &Plan, dry_run: bool, agent_name: &Name) -> (lines: Vec<String>)
    ensures
        views(lines@) == report_lines(*found, *plan, dry_run, agent_name@),
{
    let mut lines: Vec<String> = Vec::new();
    assert(views(lines@) =~= seq![]);
    say(&mut lines, "\n", heading_of(found, "  [", agent_name).as_str());
    say(&mut lines, "  ", plan.path.as_str());
    assert(views(lines@) =~= seq!["\n"@ + heading(*found, "  ["@, agent_name@), "  "@ + plan.path@]);
    if plan.is_noop() {
        say(&mut lines, "  already as it should be — nothing to write", "");
        return lines;
    }
    if plan.events_added.len() > 0 {
        say(&mut lines, "  registering  ", text::join(&plan.events_added, ", ").as_str());
    }
    if plan.events_removed.len() > 0 {
        say(&mut lines, "  removing     ", text::join(&plan.events_removed, ", ").as_str());
    }
    if dry_run {
        say(&mut lines, "  --dry-run: not written. Proposed file:\n", "");
        let file = text::lines(plan.after.as_str());
        let ghost before = views(lines@);
        let ghost all = views(file@);
        let mut i: usize = 0;
        assert(before + all.take(0).map_values(|line: Seq<char>| "    "@ + line) =~= before);
        while i < file.len()
            invariant
                i <= file@.len(),
                all == views(file@),
                views(lines@) == before + all.take(i as int).map_values(
                    |line: Seq<char>| "    "@ + line,
                ),
            decreases file@.len() - i,
        {
            let ghost so_far = views(lines@);
            say(&mut lines, "    ", file[i].as_str());
            assert(views(lines@) =~= before + all.take(i + 1).map_values(
                |line: Seq<char>| "    "@ + line,
            ));
            i = i + 1;
        }
        assert(all.take(i as int) =~= all);
    }
    lines
}

/// An agent that was found, and its configuration: whether it is there, and
/// what it reads, when it can be read.
#[derive(Debug)]
pub struct Checked {
    pub found: Found,
    pub config_present: bool,
    pub text: Option<String>,
}

/// What is said of an agent's hooks: that they are there, and what is missing.
pub open spec fn hooks_words(installed: Seq<Seq<char>>, missing: Seq<Seq<char>>) -> Seq<char> {
    if installed.len() == 0 {
        "not registered"@
    } else if missing.len() == 0 {
        decimal(installed.len()) + " registered"@
    } else {
        decimal(installed.len()) + " registered, MISSING "@ + joined_by(missing, ", "@)
    }
}

/// Where to go when an agent is registered but never heard from. The single
/// most confusing state there is, so it is named exactly.
pub open spec fn hint_words(agent: Agent) -> Seq<char> {
    match agent {
        Agent::Codex =>
            "registered but never seen — open Codex, run /hooks, and trust the entry"@,
        Agent::Claude => "registered but never seen — restart the agent so it reads its hooks"@,
    }
}

/// What `doctor` says of one agent.
pub open spec fn agent_lines(
    checked: Checked,
    times: Map<Seq<char>, u64>,
    now: u64,
    agent_name: Called,
) -> Seq<Seq<char>> {
    let found = checked.found;
    let installed = ordered(installed_in(shown(checked.text)));
    let missing = lacking(wanted(found.flavor.agent), installed_in(shown(checked.text)));
    let stale = ordered(
        installed_in(shown(checked.text)).remove_keys(wanted(found.flavor.agent).to_set()),
    );
    let source = found.flavor.source_name(agent_name);
    let last = if times.contains_key(source) {
        Some(times[source])
    } else {
        None
    };
    let head = seq![
        "\n  "@ + heading(found, "   ["@, agent_name),
        "    directory   "@ + found.home@,
        "    config      "@ + (found.config@ + if checked.config_present {
            ""@
        } else {
            "  (not written yet — installing creates it)"@
        }),
        "    in use      "@ + if found.evidence@.len() > 0 {
            "yes ("@ + joined_by(views(found.evidence@), ", "@) + ")"@
        } else {
            "no sign of use — this may be a leftover directory"@
        },
        "    hooks       "@ + hooks_words(installed, missing),
    ];
    let with_stale = if stale.len() == 0 {
        head
    } else {
        head.push(
            "    stale       "@ + (joined_by(stale, ", "@)
                + " — registered by an older build, install removes them"@),
        )
    };
    let with_last = with_stale.push("    last event  "@ + last_heard(last, now));
    if installed.len() > 0 && !times.contains_key(source) {
        with_last.push("                "@ + hint_words(found.flavor.agent))
    } else {
        with_last
    }
}

fn config_words(checked: &Checked) -> (words: String)
    ensures
        words@ == checked.found.config@ + if checked.config_present {
            ""@
        } else {
            "  (not written yet — installing creates it)"@
        },
{
    let mut words = checked.found.config.clone();
    if checked.config_present {
        words.push_str("");
    } else {
        words.push_str("  (not written yet — installing creates it)");
    }
    words
}

fn use_words(found: &Found) -> (words: String)
    ensures
        words@ == if found.evidence@.len() > 0 {
            "yes ("@ + joined_by(views(found.evidence@), ", "@) + ")"@
        } else {
            "no sign of use — this may be a leftover directory"@
        },
{
    if found.looks_used() {
        let mut words = "yes (".to_owned();
        words.push_str(text::join(&found.evidence, ", ").as_str());
        words.push_str(")");
        words
    } else {
        "no sign of use — this may be a leftover directory".to_owned()
    }
}

fn registered_words(installed: &Vec<String>, missing: &Vec<String>) -> (words: String)
    ensures
        words@ == hooks_words(views(installed@), views(missing@)),
{
    if installed.len() == 0 {
        return "not registered".to_owned();
    }
    let mut words = text::number(installed.len() as u64);
    if missing.len() == 0 {
        words.push_str(" registered");
    } else {
        words.push_str(" registered, MISSING ");
        words.push_str(text::join(missing, ", ").as_str());
    }
    words
}

fn hint_of(agent: Agent) -> (words: &'static str)
    ensures
        words@ == hint_words(agent),
{
    match agent {
        Agent::Codex => "registered but never seen — open Codex, run /hooks, and trust the entry",
        Agent::Claude => "registered but never seen — restart the agent so it reads its hooks",
    }
}

proof fn in_that_order(list: Seq<Seq<char>>, names: Map<Seq<char>, ()>)
    requires
        install::exactly(list, names),
    ensures
        list == ordered(names),
{
    there_is_one_order(list, ordered(names), names);
}

fn doctor_agent(lines: &mut Vec<String>, checked: &Checked, times: &Table<u64>, now: u64, agent_name: &Name)
    ensures
        views(final(lines)@) == views(old(lines)@) + agent_lines(*checked, times@, now, agent_name@),
{
    let ghost before = views(lines@);
    let found = &checked.found;
    let config: Option<&str> = match &checked.text {
        Some(text) => Some(text.as_str()),
        None => None,
    };
    assert(seen(config) == shown(checked.text));
    let installed = install::installed_events(config);
    let missing = install::missing_events(found.flavor.agent, config);
    let stale = install::stale_events(found.flavor.agent, config);
    proof {
        in_that_order(views(installed@), installed_in(seen(config)));
        in_that_order(
            views(stale@),
            installed_in(seen(config)).remove_keys(wanted(found.flavor.agent).to_set()),
        );
    }
    let source = found.flavor.source(agent_name);
    let last = times.get(source.as_str());
    say(lines, "\n  ", heading_of(found, "   [", agent_name).as_str());
    say(lines, "    directory   ", found.home.as_str());
    say(lines, "    config      ", config_words(checked).as_str());
    say(lines, "    in use      ", use_words(found).as_str());
    say(lines, "    hooks       ", registered_words(&installed, &missing).as_str());
    let ghost head = seq![
        "\n  "@ + heading(*found, "   ["@, agent_name@),
        "    directory   "@ + found.home@,
        "    config      "@ + (found.config@ + if checked.config_present {
            ""@
        } else {
            "  (not written yet — installing creates it)"@
        }),
        "    in use      "@ + if found.evidence@.len() > 0 {
            "yes ("@ + joined_by(views(found.evidence@), ", "@) + ")"@
        } else {
            "no sign of use — this may be a leftover directory"@
        },
        "    hooks       "@ + hooks_words(views(installed@), views(missing@)),
    ];
    assert(views(lines@) =~= before + head);
    let ghost mut said = head;
    if stale.len() > 0 {
        let mut words = text::join(&stale, ", ");
        words.push_str(" — registered by an older build, install removes them");
        say(lines, "    stale       ", words.as_str());
        proof {
            said = head.push("    stale       "@ + words@);
        }
        assert(views(lines@) =~= before + said);
    }
    let heard = lastseen::describe(last, now);
    say(lines, "    last event  ", heard.as_str());
    proof {
        said = said.push("    last event  "@ + heard@);
    }
    assert(views(lines@) =~= before + said);
    if installed.len() > 0 && last.is_none() {
        say(lines, "                ", hint_of(found.flavor.agent));
        proof {
            said = said.push("                "@ + hint_words(found.flavor.agent));
        }
        assert(views(lines@) =~= before + said);
    }
    assert(said =~= agent_lines(*checked, times@, now, agent_name@));
}

/// What `doctor` says of every agent, up to one of them.
pub open spec fn agents_lines(
    checked: Seq<Checked>,
    times: Map<Seq<char>, u64>,
    now: u64,
    agent_name: Called,
) -> Seq<Seq<char>>
    decreases checked.len(),
{
    if checked.len() == 0 {
        seq![]
    } else {
        agents_lines(checked.drop_last(), times, now, agent_name) + agent_lines(checked.last(), times, now, agent_name)
    }
}

/// Everything `doctor` says.
pub open spec fn doctor_lines(
    install_dir: Seq<char>,
    hook_present: bool,
    starts_with_windows: bool,
    checked: Seq<Checked>,
    times: Map<Seq<char>, u64>,
    now: u64,
    agent_name: Called,
) -> Seq<Seq<char>> {
    let head = seq![
        "install directory  "@ + install_dir,
        "  agent-frow-hook.exe  "@ + if hook_present {
            "present\n"@
        } else {
            "MISSING — run `agent-frow install`\n"@
        },
        "start with Windows  "@ + if starts_with_windows {
            "yes\n"@
        } else {
            "no\n"@
        },
    ];
    if checked.len() == 0 {
        head + seq![
            "no agents found"@ + ""@,
            "  looked for "@ + (Agent::Claude.directory(agent_name) + " and "@
                + Agent::Codex.directory(agent_name)
                + " in the Windows profile and in every WSL home"@),
        ]
    } else {
        head.push("agents"@ + ""@) + agents_lines(checked, times, now, agent_name)
    }
}

/// What is installed, and whether it is working.
pub fn doctor(
    install_dir: &str,
    hook_present: bool,
    starts_with_windows: bool,
    checked: &Vec<Checked>,
    times: &Table<u64>,
    now: u64,
    agent_name: &Name,
) -> (lines: Vec<String>)
    ensures
        views(lines@) == doctor_lines(
            install_dir@,
            hook_present,
            starts_with_windows,
            checked@,
            times@,
            now,
            agent_name@,
        ),
{
    let mut lines: Vec<String> = Vec::new();
    assert(views(lines@) =~= seq![]);
    say(&mut lines, "install directory  ", install_dir);
    say(
        &mut lines,
        "  agent-frow-hook.exe  ",
        if hook_present {
            "present\n"
        } else {
            "MISSING — run `agent-frow install`\n"
        },
    );
    say(
        &mut lines,
        "start with Windows  ",
        if starts_with_windows {
            "yes\n"
        } else {
            "no\n"
        },
    );
    if checked.len() == 0 {
        say(&mut lines, "no agents found", "");
        let mut looked = Agent::Claude.dir(agent_name);
        looked.push_str(" and ");
        looked.push_str(Agent::Codex.dir(agent_name).as_str());
        looked.push_str(" in the Windows profile and in every WSL home");
        say(&mut lines, "  looked for ", looked.as_str());
        assert(views(lines@) =~= doctor_lines(
            install_dir@,
            hook_present,
            starts_with_windows,
            checked@,
            times@,
            now,
            agent_name@,
        ));
        return lines;
    }
    say(&mut lines, "agents", "");
    let ghost head = views(lines@);
    let mut i: usize = 0;
    assert(checked@.take(0) =~= seq![]);
    assert(head + agents_lines(seq![], times@, now, agent_name@) =~= head);
    while i < checked.len()
        invariant
            i <= checked@.len(),
            views(lines@) == head + agents_lines(checked@.take(i as int), times@, now, agent_name@),
        decreases checked@.len() - i,
    {
        let ghost before = agents_lines(checked@.take(i as int), times@, now, agent_name@);
        let ghost one = agent_lines(checked@[i as int], times@, now, agent_name@);
        assert(checked@.take(i + 1).drop_last() =~= checked@.take(i as int));
        doctor_agent(&mut lines, &checked[i], times, now, agent_name);
        assert(views(lines@) =~= head + (before + one));
        i = i + 1;
    }
    assert(checked@.take(i as int) =~= checked@);
    assert(views(lines@) =~= doctor_lines(
        install_dir@,
        hook_present,
        starts_with_windows,
        checked@,
        times@,
        now,
        agent_name@,
    ));
    lines
}

/// What is left for the user to do after an install.
pub fn afterwards(found: &Vec<Found>) -> (lines: Vec<String>)
    ensures
        lines@.len() == (if exists|i: int|
            0 <= i < found@.len() && (#[trigger] found@[i]).flavor.agent == Agent::Codex {
            2
        } else {
            1int
        }),
        lines@[0]@ == "\nRestart each agent so it reads its hooks."@,
        lines@.len() == 2 ==> lines@[1]@
            == "For Codex, also run /hooks inside it and trust the entry, or it will never run."@,
{
    let mut lines: Vec<String> = Vec::new();
    lines.push("\nRestart each agent so it reads its hooks.".to_owned());
    let mut i: usize = 0;
    while i < found.len()
        invariant
            i <= found@.len(),
            lines@.len() == 1,
            lines@[0]@ == "\nRestart each agent so it reads its hooks."@,
            forall|j: int| 0 <= j < i ==> (#[trigger] found@[j]).flavor.agent != Agent::Codex,
        decreases found@.len() - i,
    {
        match found[i].flavor.agent {
            Agent::Codex => {
                assert(found@[i as int].flavor.agent == Agent::Codex);
                lines.push(
                    "For Codex, also run /hooks inside it and trust the entry, or it will never run."
                        .to_owned(),
                );
                return lines;
            },
            Agent::Claude => {},
        }
        i = i + 1;
    }
    lines
}

/// The settings to start with, and what was wrong with the file, if anything.
pub open spec fn opening(file: Option<Result<Seq<char>, Seq<char>>>, agent_name: Called) -> (Setup, Option<Seq<char>>) {
    match file {
        None => (Setup::usual(), None),
        Some(Err(error)) => (Setup::usual(), Some(error)),
        Some(Ok(text)) => match json_of(text) {
            Err(error) => (Setup::usual(), Some(error)),
            Ok(tree) => if tree is Record {
                (setup_in(tree, agent_name), None)
            } else {
                (Setup::usual(), Some("the settings file is not a JSON object"@))
            },
        },
    }
}

pub open spec fn file_view(file: Option<Result<String, String>>) -> Option<
    Result<Seq<char>, Seq<char>>,
> {
    match file {
        None => None,
        Some(Ok(text)) => Some(Ok(text@)),
        Some(Err(error)) => Some(Err(error@)),
    }
}

/// The tracker a run starts with, from the settings file — not there, not
/// readable, or its text — and the last-seen file.
///
/// A settings file we cannot read is reported and left exactly as it is.
/// Starting from defaults is recoverable; overwriting colours somebody
/// hand-edited, because one character was wrong, is not.
pub fn started(file: Option<Result<String, String>>, last_seen: Option<&str>, agent_name: &Name) -> (tracker: Tracker)
    ensures
        ({
            let (setup, error) = opening(file_view(file), agent_name@);
            tracker@ == (Desk {
                settings_error: error,
                ..desk(setup, lastseen::times_of(seen(last_seen)))
            })
        }),
{
    let (settings, error): (Settings, Option<String>) = match file {
        None => (Settings::default(), None),
        Some(Err(error)) => (Settings::default(), Some(error)),
        Some(Ok(text)) => match settings_file::parse(text.as_str(), agent_name) {
            Ok(settings) => (settings, None),
            Err(error) => (Settings::default(), Some(error)),
        },
    };
    let mut tracker = Tracker::new(settings, lastseen::load(last_seen));
    tracker.settings_error = error;
    tracker
}

/// **A flag's value is the word behind it**: behind the first of its name, and
/// none where the name is last or not there.
pub proof fn a_flags_value_is_the_word_behind_it(flags: Seq<Seq<char>>, name: Seq<char>, at: int)
    requires
        0 <= at <= flags.len(),
        forall|i: int| 0 <= i < at ==> (#[trigger] flags[i]) != name,
        at < flags.len() ==> flags[at] == name,
    ensures
        flag_in(flags, name) == (if at + 1 < flags.len() {
            Some(flags[at + 1])
        } else {
            None
        }),
    decreases at,
{
    if at > 0 {
        let rest = flags.skip(1);
        assert(flags[0] != name);
        assert forall|i: int| 0 <= i < at - 1 implies (#[trigger] rest[i]) != name by {
            assert(flags[i + 1] != name);
        }
        a_flags_value_is_the_word_behind_it(rest, name, at - 1);
        assert(flag_in(flags, name) == flag_in(rest, name));
    }
}

/// **A named source picks its own agents**: in their order, each that goes by
/// the name and no other; without a name, all.
pub proof fn a_named_source_picks_its_own(
    some: Seq<Found>,
    one: Found,
    source: Seq<char>,
    agent_name: Called,
)
    ensures
        meant(some, None, agent_name) == some,
        one.flavor.source_name(agent_name) == source ==> meant(
            some.push(one),
            Some(source),
            agent_name,
        ) == meant(some, Some(source), agent_name).push(one),
        one.flavor.source_name(agent_name) != source ==> meant(
            some.push(one),
            Some(source),
            agent_name,
        ) == meant(some, Some(source), agent_name),
        meant(Seq::<Found>::empty(), Some(source), agent_name).len() == 0,
        forall|i: int|
            0 <= i < meant(some, Some(source), agent_name).len() ==> (#[trigger] meant(
                some,
                Some(source),
                agent_name,
            )[i]).flavor.source_name(agent_name) == source,
    decreases some.len(),
{
    assert(some.push(one).drop_last() =~= some);
    if some.len() > 0 {
        a_named_source_picks_its_own(some.drop_last(), one, source, agent_name);
    }
}

/// **Settings are what the file says, or what is usual**: with no file nothing
/// is wrong, and a file that cannot be read, or is no record, is told of and
/// changes nothing.
pub proof fn settings_are_the_files_or_the_usual(
    text: Seq<char>,
    error: Seq<char>,
    agent_name: Called,
)
    ensures
        opening(None, agent_name) == (Setup::usual(), None::<Seq<char>>),
        opening(Some(Err(error)), agent_name) == (Setup::usual(), Some(error)),
        json_of(text) matches Err(why) ==> opening(Some(Ok(text)), agent_name) == (
            Setup::usual(),
            Some(why),
        ),
        json_of(text) matches Ok(tree) ==> (tree is Record ==> opening(Some(Ok(text)), agent_name)
            == (setup_in(tree, agent_name), None::<Seq<char>>)) && (tree !is Record ==> opening(
            Some(Ok(text)),
            agent_name,
        ).0 == Setup::usual() && opening(Some(Ok(text)), agent_name).1 is Some),
{
}

/// **A report says what a plan changes**: under the agent's own heading and
/// path, that nothing is to be written where nothing changes, and else what is
/// registered and what is removed; only a rehearsal shows the file.
pub proof fn a_report_says_what_a_plan_changes(
    found: Found,
    plan: Plan,
    dry_run: bool,
    agent_name: Called,
)
    ensures
        ({
            let lines = report_lines(found, plan, dry_run, agent_name);
            let added = "  registering  "@ + joined_by(views(plan.events_added@), ", "@);
            let removed = "  removing     "@ + joined_by(views(plan.events_removed@), ", "@);
            let (some, gone) = (plan.events_added@.len() > 0, plan.events_removed@.len() > 0);
            &&& lines.len() >= 2
            &&& lines[1] == "  "@ + plan.path@
            &&& plan.before@ == plan.after@ ==> lines.len() == 3
            &&& plan.before@ != plan.after@ && some ==> lines[2] == added
            &&& plan.before@ != plan.after@ && !some && gone ==> lines[2] == removed
            &&& plan.before@ != plan.after@ && some && gone ==> lines[3] == removed
            &&& plan.before@ != plan.after@ && !dry_run ==> lines.len() == 2 + (if some {
                1int
            } else {
                0
            }) + (if gone {
                1int
            } else {
                0
            })
            &&& plan.before@ != plan.after@ && dry_run ==> lines.len() == 3 + (if some {
                1int
            } else {
                0
            }) + (if gone {
                1int
            } else {
                0
            }) + text::lines_of(plan.after@).len()
        }),
{
}

/// **What is registered is counted, and what is missing is named.**
pub proof fn what_is_missing_is_named(installed: Seq<Seq<char>>, missing: Seq<Seq<char>>)
    requires
        installed.len() > 0,
    ensures
        hooks_words(Seq::<Seq<char>>::empty(), missing) == "not registered"@,
        hooks_words(installed, Seq::<Seq<char>>::empty()) == decimal(installed.len())
            + " registered"@,
        missing.len() > 0 ==> hooks_words(installed, missing) == decimal(installed.len())
            + " registered, MISSING "@ + joined_by(missing, ", "@),
{
}

/// **An agent that is registered and was never heard gets a hint**, and no
/// other does: five lines on every agent, one more for what an older build
/// left, one for when it was last heard, and the hint at the end.
pub proof fn an_agent_never_heard_gets_a_hint(
    checked: Checked,
    times: Map<Seq<char>, u64>,
    now: u64,
    agent_name: Called,
)
    ensures
        ({
            let lines = agent_lines(checked, times, now, agent_name);
            let there = installed_in(shown(checked.text));
            let source = checked.found.flavor.source_name(agent_name);
            let stale = ordered(
                there.remove_keys(wanted(checked.found.flavor.agent).to_set()),
            ).len() > 0;
            let hinted = ordered(there).len() > 0 && !times.contains_key(source);
            &&& lines.len() == 6 + (if stale {
                1int
            } else {
                0
            }) + (if hinted {
                1int
            } else {
                0
            })
            &&& hinted ==> lines.last() == "                "@ + hint_words(
                checked.found.flavor.agent,
            )
            &&& !hinted ==> lines.last() == "    last event  "@ + last_heard(
                if times.contains_key(source) {
                    Some(times[source])
                } else {
                    None
                },
                now,
            )
            &&& lines[1] == "    directory   "@ + checked.found.home@
            &&& lines[4] == "    hooks       "@ + hooks_words(
                ordered(there),
                lacking(wanted(checked.found.flavor.agent), there),
            )
        }),
{
}

/// **Every agent found is told of**, in the order they were found.
pub proof fn every_agent_found_is_told_of(
    some: Seq<Checked>,
    one: Checked,
    times: Map<Seq<char>, u64>,
    now: u64,
    agent_name: Called,
)
    ensures
        agents_lines(some.push(one), times, now, agent_name) == agents_lines(
            some,
            times,
            now,
            agent_name,
        ) + agent_lines(one, times, now, agent_name),
        agents_lines(Seq::<Checked>::empty(), times, now, agent_name).len() == 0,
{
    assert(some.push(one).drop_last() =~= some);
}

} // verus!
