//! Finding the coding agents installed on this machine.
//!
//! There are four of them, and all four are found from Windows. That is the
//! whole reason this application has no component inside WSL: a distribution's
//! filesystem is reachable at `\\wsl.localhost\<distro>\`, so its agents can be
//! detected and configured from here like any other directory.
//!
//! Detection reports what it found and where, and says "not found" plainly. It
//! never guesses: an agent this cannot see is one the user can be told about,
//! whereas an agent this *invents* produces an Install button that writes a file
//! nothing will ever read.

use vstd::prelude::*;

use crate::paths;
use crate::text;

verus! {

#[derive(Debug, Clone, Copy, PartialEq, Eq, Structural)]
pub enum Agent {
    Claude,
    Codex,
}

/// What the agent beside Codex calls itself. This crate holds no name of its
/// own for it: whoever runs the crate says.
#[derive(Debug)]
pub struct Name {
    /// In small letters, as its directory and its sources have it.
    pub word: String,
    /// As people know it.
    pub title: String,
}

/// A [`Name`], by its characters.
pub ghost struct Called {
    pub word: Seq<char>,
    pub title: Seq<char>,
}

impl View for Name {
    type V = Called;

    open spec fn view(&self) -> Called {
        Called { word: self.word@, title: self.title@ }
    }
}

impl Called {
    /// Whether the name can be told from every other word that stands where it
    /// may stand, and a source cut at its dash begins with all of it.
    pub open spec fn stands_apart(self) -> bool {
        &&& self.word != "codex"@
        &&& self.word != "any"@
        &&& forall|i: int| 0 <= i < self.word.len() ==> (#[trigger] self.word[i]) != '-'
    }
}

impl Agent {
    /// The agent's name in small letters.
    pub open spec fn word(self, name: Called) -> Seq<char> {
        match self {
            Agent::Claude => name.word,
            Agent::Codex => "codex"@,
        }
    }

    fn named_as(self, name: &Name) -> (word: String)
        ensures
            word@ == self.word(name@),
    {
        match self {
            Agent::Claude => name.word.clone(),
            Agent::Codex => "codex".to_owned(),
        }
    }

    pub open spec fn directory(self, name: Called) -> Seq<char> {
        "."@ + self.word(name)
    }

    /// The directory the agent keeps in a home directory.
    pub fn dir(self, name: &Name) -> (dir: String)
        ensures
            dir@ == self.directory(name@),
    {
        let mut dir = ".".to_owned();
        dir.push_str(self.named_as(name).as_str());
        dir
    }

    pub open spec fn config_name(self) -> Seq<char> {
        match self {
            Agent::Claude => "settings.json"@,
            Agent::Codex => "hooks.json"@,
        }
    }

    /// The file hooks are registered in. Different names, identical JSON shape,
    /// which is why one installer serves both.
    pub fn config(self) -> (name: &'static str)
        ensures
            name@ == self.config_name(),
    {
        match self {
            Agent::Claude => "settings.json",
            Agent::Codex => "hooks.json",
        }
    }

    pub open spec fn traces(self) -> Seq<Seq<char>> {
        match self {
            Agent::Claude => seq!["projects"@, "sessions"@, "history.jsonl"@],
            Agent::Codex => seq!["sessions"@, "cache"@, "memories"@, "history.jsonl"@],
        }
    }

    /// Directories that only exist once the agent has actually been used. An
    /// empty home of its own proves nothing; projects in it mean someone worked
    /// there.
    pub fn evidence_of_use(self) -> (names: Vec<&'static str>)
        ensures
            names@.len() == self.traces().len(),
            forall|i: int| 0 <= i < names@.len() ==> (#[trigger] names@[i])@ == self.traces()[i],
    {
        match self {
            Agent::Claude => vec!["projects", "sessions", "history.jsonl"],
            Agent::Codex => vec!["sessions", "cache", "memories", "history.jsonl"],
        }
    }

    pub open spec fn title(self, name: Called) -> Seq<char> {
        match self {
            Agent::Claude => name.title,
            Agent::Codex => "Codex"@,
        }
    }

    pub fn label(self, name: &Name) -> (title: String)
        ensures
            title@ == self.title(name@),
    {
        match self {
            Agent::Claude => name.title.clone(),
            Agent::Codex => "Codex".to_owned(),
        }
    }

    /// The agent a `--source` name begins with.
    pub open spec fn named(source: Seq<char>, name: Called) -> Option<Agent> {
        let first = text::before_first(source, '-');
        if first == name.word {
            Some(Agent::Claude)
        } else if first == "codex"@ {
            Some(Agent::Codex)
        } else {
            None
        }
    }

    /// Which agent a `--source` name belongs to.
    ///
    /// Events carry the flavor and nothing else about who sent them, so this is
    /// how a session knows which agent it is — and therefore which states that
    /// agent is even able to report.
    pub fn from_source(source: &str, name: &Name) -> (agent: Option<Self>)
        ensures
            agent == Agent::named(source@, name@),
    {
        let first = text::head(source, '-');
        if text::same(first.as_str(), name.word.as_str()) {
            Some(Agent::Claude)
        } else if text::same(first.as_str(), "codex") {
            Some(Agent::Codex)
        } else {
            None
        }
    }
}

pub open spec fn host_of(source: Seq<char>) -> Seq<char> {
    let last = text::after_last(source, '-');
    if last == "wsl"@ {
        "WSL"@
    } else if last == "win"@ {
        "Windows"@
    } else {
        "unknown host"@
    }
}

/// "Windows" or "WSL", from a `--source` name.
pub fn host_label(source: &str) -> (name: &'static str)
    ensures
        name@ == host_of(source@),
{
    let last = text::tail(source, '-');
    if text::same(last.as_str(), "wsl") {
        "WSL"
    } else if text::same(last.as_str(), "win") {
        "Windows"
    } else {
        "unknown host"
    }
}

/// Where an agent runs. A WSL agent is a distribution and a user inside it.
#[derive(Debug, Clone, PartialEq, Eq)]
pub enum Host {
    Windows,
    Wsl { distro: String, user: String },
}

/// One of the four supported combinations.
#[derive(Debug, Clone, PartialEq, Eq)]
pub struct Flavor {
    pub agent: Agent,
    pub host: Host,
}

impl Flavor {
    /// The flavor in words.
    pub open spec fn words(self, name: Called) -> Seq<char> {
        match self.host {
            Host::Windows => self.agent.title(name) + " on Windows"@,
            Host::Wsl { distro, user } => self.agent.title(name) + " in WSL ("@ + distro@ + ", "@
                + user@ + ")"@,
        }
    }

    pub open spec fn source_name(self, name: Called) -> Seq<char> {
        match self.host {
            Host::Windows => self.agent.word(name) + "-win"@,
            Host::Wsl { .. } => self.agent.word(name) + "-wsl"@,
        }
    }

    /// The `--source` value passed to the hook, and the name used everywhere a
    /// person has to be told which agent is misbehaving.
    pub fn source(&self, name: &Name) -> (source: String)
        ensures
            source@ == self.source_name(name@),
    {
        let mut source = self.agent.named_as(name);
        match &self.host {
            Host::Windows => source.push_str("-win"),
            Host::Wsl { .. } => source.push_str("-wsl"),
        }
        source
    }

    /// What the user still has to do themselves before hooks actually run.
    ///
    /// Codex refuses to run a command hook until it has been reviewed, and
    /// *where* you do that differs: the CLI has a `/hooks` command, while the
    /// Windows desktop app puts it under its settings. Sending someone to the
    /// wrong one is worse than saying nothing, because everything looks
    /// installed and nothing happens.
    pub fn trust_hint(&self) -> (hint: &'static str)
        ensures
            hint@ == (match (self.agent, self.host) {
                (Agent::Codex, Host::Windows) =>
                    "Then approve it in Codex under Settings → Hooks, or it never runs."@,
                (Agent::Codex, Host::Wsl { .. }) =>
                    "Then run /hooks inside Codex and trust the entry, or it never runs."@,
                (Agent::Claude, _) => "Then restart the agent so it reads its hooks."@,
            }),
    {
        match self.agent {
            Agent::Codex => match &self.host {
                Host::Windows => {
                    "Then approve it in Codex under Settings → Hooks, or it never runs."
                },
                Host::Wsl { .. } => {
                    "Then run /hooks inside Codex and trust the entry, or it never runs."
                },
            },
            Agent::Claude => "Then restart the agent so it reads its hooks.",
        }
    }

    pub fn describe(&self, name: &Name) -> (words: String)
        ensures
            words@ == self.words(name@),
    {
        let mut words = self.agent.label(name);
        match &self.host {
            Host::Windows => words.push_str(" on Windows"),
            Host::Wsl { distro, user } => {
                words.push_str(" in WSL (");
                words.push_str(distro.as_str());
                words.push_str(", ");
                words.push_str(user.as_str());
                words.push_str(")");
            },
        }
        words
    }
}

/// What detection found for one flavor.
#[derive(Debug, Clone, PartialEq, Eq)]
pub struct Found {
    pub flavor: Flavor,
    /// The agent's own directory.
    pub home: String,
    /// The file we would write hooks into.
    pub config: String,
    /// Sub-directories showing the agent has actually been used here.
    pub evidence: Vec<String>,
}

impl Found {
    /// Whether this looks like a live installation rather than a leftover
    /// directory. Reported rather than enforced — the user can still install
    /// into a bare directory if they know better than we do.
    pub fn looks_used(&self) -> (r: bool)
        ensures
            r == (self.evidence@.len() > 0),
    {
        self.evidence.len() > 0
    }
}

/// The names of those that are there.
pub open spec fn present(names: Seq<Seq<char>>, there: Seq<bool>) -> Seq<Seq<char>>
    decreases names.len(),
{
    if names.len() == 0 {
        seq![]
    } else {
        let before = present(names.drop_last(), there);
        if names.len() <= there.len() && there[names.len() - 1] {
            before.push(names.last())
        } else {
            before
        }
    }
}

/// What was found of `agent` under `home`: nothing when its directory is not
/// one; else where it is, where its hooks go, and which of the traces of use
/// are there.
pub fn probe(
    agent: Agent,
    name: &Name,
    host: Host,
    home: &str,
    separator: char,
    is_dir: bool,
    there: &Vec<bool>,
) -> (r: Option<Found>)
    ensures
        r is Some <==> is_dir,
        r matches Some(found) ==> {
            &&& found.flavor == (Flavor { agent, host })
            &&& found.home@ == paths::joined(home@, agent.directory(name@), separator)
            &&& found.config@ == paths::joined(found.home@, agent.config_name(), separator)
            &&& text::views(found.evidence@) == present(agent.traces(), there@)
        },
{
    if !is_dir {
        return None;
    }
    let agent_home = paths::join(home, agent.dir(name).as_str(), separator);
    let config = paths::join(agent_home.as_str(), agent.config(), separator);
    let names = agent.evidence_of_use();
    let ghost traces = agent.traces();
    let mut evidence: Vec<String> = Vec::new();
    let mut i: usize = 0;
    assert(text::views(evidence@) =~= present(traces.take(0), there@));
    while i < names.len()
        invariant
            i <= names@.len() == traces.len(),
            forall|j: int| 0 <= j < names@.len() ==> (#[trigger] names@[j])@ == traces[j],
            text::views(evidence@) == present(traces.take(i as int), there@),
        decreases names@.len() - i,
    {
        let ghost before = evidence@;
        assert(traces.take(i + 1).drop_last() =~= traces.take(i as int));
        if i < there.len() && there[i] {
            evidence.push(names[i].to_owned());
            assert(text::views(evidence@) =~= text::views(before).push(traces[i as int]));
        }
        i = i + 1;
    }
    assert(traces.take(i as int) =~= traces);
    Some(Found { flavor: Flavor { agent, host }, home: agent_home, config, evidence })
}

/// A WSL home: the distribution, the user, and the directory.
pub struct WslHome {
    pub distro: String,
    pub user: String,
    pub home: String,
}

/// Where `at`, of the places to look, is: the profile's two agents first,
/// then the two of each WSL home.
pub open spec fn place(profile: Option<Seq<char>>, homes: Seq<WslHome>, at: int) -> (
    Agent,
    Option<(Seq<char>, Seq<char>)>,
    Seq<char>,
) {
    let agent = if at % 2 == 0 {
        Agent::Claude
    } else {
        Agent::Codex
    };
    let skipped = if profile is Some {
        1int
    } else {
        0
    };
    if at / 2 < skipped {
        (agent, None, profile->0)
    } else {
        let wsl = homes[at / 2 - skipped];
        (agent, Some((wsl.distro@, wsl.user@)), wsl.home@)
    }
}

pub open spec fn host_names(host: Host) -> Option<(Seq<char>, Seq<char>)> {
    match host {
        Host::Windows => None,
        Host::Wsl { distro, user } => Some((distro@, user@)),
    }
}

/// Every place an agent may be: both agents in the Windows profile, then both
/// in each WSL home.
pub fn places(profile: Option<&str>, homes: &Vec<WslHome>) -> (r: Vec<(Agent, Host, String)>)
    ensures
        r@.len() == 2 * (homes@.len() + (if profile is Some {
            1int
        } else {
            0
        })),
        forall|i: int|
            0 <= i < r@.len() ==> ((#[trigger] r@[i]).0, host_names(r@[i].1), r@[i].2@) == place(
                match profile {
                    Some(home) => Some(home@),
                    None => None,
                },
                homes@,
                i,
            ),
{
    let mut out: Vec<(Agent, Host, String)> = Vec::new();
    let ghost named: Option<Seq<char>> = match profile {
        Some(home) => Some(home@),
        None => None,
    };
    let ghost skipped: int = if profile is Some {
        1
    } else {
        0
    };
    if let Some(home) = profile {
        out.push((Agent::Claude, Host::Windows, home.to_owned()));
        out.push((Agent::Codex, Host::Windows, home.to_owned()));
    }
    let mut k: usize = 0;
    while k < homes.len()
        invariant
            k <= homes@.len(),
            skipped == (if profile is Some {
                1int
            } else {
                0
            }),
            named == (match profile {
                Some(home) => Some(home@),
                None => None,
            }),
            out@.len() == 2 * (k + skipped),
            forall|i: int|
                0 <= i < out@.len() ==> ((#[trigger] out@[i]).0, host_names(out@[i].1), out@[i].2@)
                    == place(named, homes@, i),
        decreases homes@.len() - k,
    {
        let wsl = &homes[k];
        let first = Host::Wsl { distro: wsl.distro.clone(), user: wsl.user.clone() };
        let second = Host::Wsl { distro: wsl.distro.clone(), user: wsl.user.clone() };
        out.push((Agent::Claude, first, wsl.home.clone()));
        out.push((Agent::Codex, second, wsl.home.clone()));
        k = k + 1;
    }
    out
}

/// A distribution's homes, as Windows reaches them.
pub fn homes_root(distro: &str) -> (path: String)
    ensures
        path@ == "\\\\wsl.localhost\\"@ + distro@ + "\\home"@,
{
    let mut path = "\\\\wsl.localhost\\".to_owned();
    path.push_str(distro);
    path.push_str("\\home");
    path
}

/// Bytes taken two at a time, the low one first; an odd last byte is left.
pub open spec fn units_of(bytes: Seq<u8>) -> Seq<u16> {
    Seq::new(bytes.len() / 2, |i: int| (bytes[2 * i] + 0x100 * bytes[2 * i + 1]) as u16)
}

/// What `String::from_utf16_lossy` makes of `units`.
pub uninterp spec fn utf16_text(units: Seq<u16>) -> Seq<char>;

/// `String::from_utf16_lossy`. The text is a function of the units; units
/// that are not surrogates come back as the characters they are.
#[verifier::external_body]
fn decode_units(units: &Vec<u16>) -> (text: String)
    ensures
        text@ == utf16_text(units@),
        (forall|i: int| 0 <= i < units@.len() ==> units@[i] < 0xD800) ==> text@ == Seq::new(
            units@.len(),
            |i: int| units@[i] as char,
        ),
{
    String::from_utf16_lossy(units)
}

pub fn decode_utf16le(bytes: &Vec<u8>) -> (text: String)
    ensures
        text@ == utf16_text(units_of(bytes@)),
        (forall|i: int| 0 <= i < units_of(bytes@).len() ==> #[trigger] units_of(bytes@)[i] < 0xD800) ==> text@
            == Seq::new(units_of(bytes@).len(), |i: int| units_of(bytes@)[i] as char),
{
    let mut units: Vec<u16> = Vec::new();
    let total: usize = bytes.len();
    let size: usize = total / 2;
    let mut i: usize = 0;
    while i < size
        invariant
            total == bytes@.len(),
            i <= size == total / 2,
            units@ =~= units_of(bytes@).take(i as int),
        decreases size - i,
    {
        units.push(bytes[2 * i] as u16 + 0x100 * bytes[2 * i + 1] as u16);
        i = i + 1;
    }
    assert(units@ =~= units_of(bytes@));
    decode_units(&units)
}

/// The lines of a text, trimmed, of those that have anything on them.
pub open spec fn names_on(lines: Seq<Seq<char>>) -> Seq<Seq<char>>
    decreases lines.len(),
{
    if lines.len() == 0 {
        seq![]
    } else {
        let before = names_on(lines.drop_last());
        let name = text::trimmed(lines.last());
        if name.len() == 0 {
            before
        } else {
            before.push(name)
        }
    }
}

/// Installed distributions, from what `wsl.exe -l -q` wrote.
///
/// The output is UTF-16LE, not UTF-8 — reading it as bytes yields a string with
/// a null between every character, which is exactly the sort of thing that
/// silently produces zero distributions and no explanation.
pub fn distro_names(output: &Vec<u8>) -> (names: Vec<String>)
    ensures
        text::views(names@) == names_on(text::lines_of(utf16_text(units_of(output@)))),
{
    let decoded = decode_utf16le(output);
    let lines = text::lines(decoded.as_str());
    let ghost all = text::views(lines@);
    let mut names: Vec<String> = Vec::new();
    let mut i: usize = 0;
    assert(text::views(names@) =~= names_on(all.take(0)));
    while i < lines.len()
        invariant
            i <= lines@.len(),
            all == text::views(lines@),
            text::views(names@) == names_on(all.take(i as int)),
        decreases lines@.len() - i,
    {
        let ghost before = names@;
        assert(all.take(i + 1).drop_last() =~= all.take(i as int));
        assert(all[i as int] == lines@[i as int]@);
        let name = text::trim(lines[i].as_str());
        if !name.as_str().is_empty() {
            names.push(name);
            assert(text::views(names@) =~= text::views(before).push(name@));
        }
        i = i + 1;
    }
    assert(all.take(i as int) =~= all);
    names
}

/// Every flavor's `--source` name leads back to its agent.
pub proof fn a_source_names_its_agent(flavor: Flavor, name: Called)
    requires
        name.stands_apart(),
    ensures
        Agent::named(flavor.source_name(name), name) == Some(flavor.agent),
        host_of(flavor.source_name(name)) == (match flavor.host {
            Host::Windows => "Windows"@,
            Host::Wsl { .. } => "WSL"@,
        }),
{
    reveal_strlit("codex");
    reveal_strlit("-win");
    reveal_strlit("-wsl");
    reveal_strlit("win");
    reveal_strlit("wsl");
    let source = flavor.source_name(name);
    let head = flavor.agent.word(name);
    let tail = match flavor.host {
        Host::Windows => "win"@,
        Host::Wsl { .. } => "wsl"@,
    };
    assert(source =~= head + seq!['-'] + tail);
    assert(forall|i: int| 0 <= i < head.len() ==> head[i] != '-');
    assert(forall|i: int| 0 <= i < tail.len() ==> tail[i] != '-');
    text::parts_of(head, '-', tail);
    assert("win"@[1] == 'i' && "wsl"@[1] == 's');
}

/// **Each agent has its own place and its own files.**
pub proof fn each_agent_has_its_own_files(agent: Agent, name: Called)
    ensures
        agent == Agent::Codex ==> agent.directory(name) == ".codex"@ && agent.config_name()
            == "hooks.json"@,
        agent == Agent::Claude ==> agent.directory(name) == "."@ + name.word && agent.config_name()
            == "settings.json"@,
        agent.traces().no_duplicates(),
        agent.traces().contains("history.jsonl"@),
        agent.traces().contains("sessions"@),
{
    reveal_strlit(".codex");
    reveal_strlit(".");
    reveal_strlit("codex");
    assert("."@ + "codex"@ =~= ".codex"@);
    reveal_strlit("projects");
    reveal_strlit("sessions");
    reveal_strlit("history.jsonl");
    reveal_strlit("cache");
    reveal_strlit("memories");
    assert("projects"@[0] == 'p' && "sessions"@[0] == 's' && "history.jsonl"@[0] == 'h');
    assert("cache"@[0] == 'c' && "memories"@[0] == 'm');
    let list = agent.traces();
    assert(list[list.len() - 1] == "history.jsonl"@);
    if agent == Agent::Claude {
        assert(list[1] == "sessions"@);
    } else {
        assert(list[0] == "sessions"@);
    }
}

/// **What is there is evidence, and nothing else is**: a name is among what was
/// found exactly when it was looked for and is there.
pub proof fn what_is_there_is_evidence(names: Seq<Seq<char>>, there: Seq<bool>, i: int)
    requires
        names.len() == there.len(),
        names.no_duplicates(),
        0 <= i < names.len(),
    ensures
        present(names, there).contains(names[i]) <==> there[i],
        forall|k: int|
            0 <= k < present(names, there).len() ==> names.contains(
                #[trigger] present(names, there)[k],
            ),
{
    present_is(names, there, i);
    present_of(names, there);
}

proof fn present_of(names: Seq<Seq<char>>, there: Seq<bool>)
    ensures
        forall|k: int|
            0 <= k < present(names, there).len() ==> names.contains(
                #[trigger] present(names, there)[k],
            ),
    decreases names.len(),
{
    if names.len() > 0 {
        let fewer = names.drop_last();
        present_of(fewer, there);
        let before = present(fewer, there);
        let all = present(names, there);
        assert forall|k: int| 0 <= k < all.len() implies names.contains(#[trigger] all[k]) by {
            if k < before.len() {
                assert(fewer.contains(before[k]));
                let j = choose|j: int| 0 <= j < fewer.len() && fewer[j] == before[k];
                assert(names[j] == all[k]);
            } else {
                assert(names[names.len() - 1] == all[k]);
            }
        }
    }
}

proof fn present_is(names: Seq<Seq<char>>, there: Seq<bool>, i: int)
    requires
        names.len() <= there.len(),
        names.no_duplicates(),
        0 <= i < names.len(),
    ensures
        present(names, there).contains(names[i]) <==> there[i],
    decreases names.len(),
{
    let fewer = names.drop_last();
    let before = present(fewer, there);
    let all = present(names, there);
    let last = names.len() - 1;
    present_of(fewer, there);
    assert(fewer.no_duplicates());
    if all.len() > before.len() {
        assert(all[before.len() as int] == names[last]);
    }
    if i < last {
        present_is(fewer, there, i);
        assert(fewer[i] == names[i]);
        if before.contains(names[i]) {
            let k = choose|k: int| 0 <= k < before.len() && before[k] == names[i];
            assert(all[k] == names[i]);
        }
        if all.contains(names[i]) {
            let k = choose|k: int| 0 <= k < all.len() && all[k] == names[i];
            assert(names[i] != names[last]);
            assert(before[k] == names[i]);
        }
    } else if all.contains(names[i]) && !there[i] {
        let k = choose|k: int| 0 <= k < all.len() && all[k] == names[i];
        assert(fewer.contains(before[k]));
        let j = choose|j: int| 0 <= j < fewer.len() && fewer[j] == before[k];
        assert(names[j] == names[i]);
    }
}

/// **Every home is looked in for either agent**: the one on Windows, if there is
/// one, and each in WSL, in their order.
pub proof fn every_home_is_looked_in_for_either_agent(
    profile: Option<Seq<char>>,
    homes: Seq<WslHome>,
    i: int,
)
    requires
        0 <= i < homes.len(),
    ensures
        profile is Some ==> place(profile, homes, 0) == (
            Agent::Claude,
            None::<(Seq<char>, Seq<char>)>,
            profile->0,
        ) && place(profile, homes, 1) == (
            Agent::Codex,
            None::<(Seq<char>, Seq<char>)>,
            profile->0,
        ),
        ({
            let at = 2 * i + (if profile is Some {
                2int
            } else {
                0int
            });
            let there = Some((homes[i].distro@, homes[i].user@));
            &&& place(profile, homes, at) == (Agent::Claude, there, homes[i].home@)
            &&& place(profile, homes, at + 1) == (Agent::Codex, there, homes[i].home@)
        }),
{
}

/// **A distro is a line that is not blank**: every one is named, without the
/// white space around it, in their order.
pub proof fn a_distro_is_a_line_that_is_not_blank(lines: Seq<Seq<char>>, line: Seq<char>)
    ensures
        text::trimmed(line).len() == 0 ==> names_on(lines.push(line)) == names_on(lines),
        text::trimmed(line).len() > 0 ==> names_on(lines.push(line)) == names_on(lines).push(
            text::trimmed(line),
        ),
        names_on(Seq::<Seq<char>>::empty()).len() == 0,
{
    assert(lines.push(line).drop_last() =~= lines);
}

/// **Two bytes are a character's unit, the smaller first.**
pub proof fn two_bytes_are_a_unit(bytes: Seq<u8>, i: int)
    requires
        0 <= 2 * i,
        2 * i + 1 < bytes.len(),
    ensures
        units_of(bytes).len() == bytes.len() / 2,
        units_of(bytes)[i] == bytes[2 * i] + 256 * bytes[2 * i + 1],
{
}

} // verus!
