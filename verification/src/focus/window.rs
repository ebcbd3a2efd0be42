//! Finding the terminal that ran an agent, and putting it in front.
//!
//! Reading the desktop and moving its windows is somebody else's: what is read
//! comes in as plain values, and what comes out is which window, which tab and
//! what to say.

use vstd::prelude::*;

use super::Report;
use crate::event::Ancestor;
use crate::text::{self, decimal, joined_by, views};

verus! {

/// The class of every Windows Terminal window.
pub const TERMINAL_WINDOW_CLASS: &'static str = "CASCADIA_HOSTING_WINDOW_CLASS";

/// A top-level window that can be seen and has a title.
#[derive(Debug, Clone, PartialEq, Eq)]
pub struct Candidate {
    pub hwnd: isize,
    pub process_id: u32,
    pub title: String,
    /// Kept so a terminal can be recognised without asking every window.
    pub class_name: String,
    /// Splash screens and floating palettes. A host app's real window is never
    /// one of these.
    pub tool_window: bool,
}

/// A [`Candidate`], its texts by their characters.
pub ghost struct Sight {
    pub hwnd: isize,
    pub process_id: u32,
    pub title: Seq<char>,
    pub class_name: Seq<char>,
    pub tool_window: bool,
}

impl View for Candidate {
    type V = Sight;

    open spec fn view(&self) -> Sight {
        Sight {
            hwnd: self.hwnd,
            process_id: self.process_id,
            title: self.title@,
            class_name: self.class_name@,
            tool_window: self.tool_window,
        }
    }
}

pub open spec fn sights(windows: Seq<Candidate>) -> Seq<Sight> {
    Seq::new(windows.len(), |i: int| windows[i]@)
}

/// Whether a window class is Windows Terminal's.
pub open spec fn hosts_tabs(class_name: Seq<char>) -> bool {
    class_name == "CASCADIA_HOSTING_WINDOW_CLASS"@
}

/// Whether a window class is a terminal: Windows Terminal, or the classic
/// console host.
pub open spec fn is_terminal(class_name: Seq<char>) -> bool {
    hosts_tabs(class_name) || class_name == "ConsoleWindowClass"@
}

fn has_tabs(class_name: &str) -> (r: bool)
    ensures
        r == hosts_tabs(class_name@),
{
    text::same(class_name, "CASCADIA_HOSTING_WINDOW_CLASS")
}

/// Whether a window class is a terminal.
///
/// `CASCADIA_HOSTING_WINDOW_CLASS` is Windows Terminal (WSL agents, and Windows
/// agents run there); `ConsoleWindowClass` is the classic console host, conhost
/// (a Windows agent in cmd or a bare console). No longer the test of what can
/// be summoned — identity does that now — but still two jobs: preferring the
/// real terminal over a transient helper (`PopupHost`) inside Windows
/// Terminal's own pid, and the fallback rule for an ancestor whose exe name an
/// older hook did not record. A Terminal pid can own several such windows (one
/// process hosts them all); a console pid owns exactly one.
pub fn is_terminal_class(class_name: &str) -> (r: bool)
    ensures
        r == is_terminal(class_name@),
{
    has_tabs(class_name) || text::same(class_name, "ConsoleWindowClass")
}

/// The places in `windows`, of the first `upto`, that belong to `pid` and are
/// a Windows Terminal.
pub open spec fn terminals_of(windows: Seq<Sight>, pid: u32, upto: int) -> Seq<usize>
    decreases upto,
{
    if upto <= 0 {
        seq![]
    } else {
        let before = terminals_of(windows, pid, upto - 1);
        let window = windows[upto - 1];
        if window.process_id == pid && hosts_tabs(window.class_name) {
            before.push((upto - 1) as usize)
        } else {
            before
        }
    }
}

/// The first place in `windows`, of the first `upto`, that belongs to `pid`
/// and, with `shell`, is a terminal; without it, is no tool window.
pub open spec fn first_of(windows: Seq<Sight>, pid: u32, shell: bool, upto: int) -> Option<usize>
    decreases upto,
{
    if upto <= 0 {
        None
    } else {
        match first_of(windows, pid, shell, upto - 1) {
            Some(at) => Some(at),
            None => {
                let window = windows[upto - 1];
                if window.process_id == pid && (if shell {
                    is_terminal(window.class_name)
                } else {
                    !window.tool_window
                }) {
                    Some((upto - 1) as usize)
                } else {
                    None
                }
            },
        }
    }
}

/// The windows of one process worth raising, best first.
///
/// Every Windows Terminal window of the pid, in Z-order, because Terminal
/// hosts all of its windows in one process and any of them may hold the tab.
/// Otherwise the one window the older rule picked: a terminal-class window
/// (keeps `PopupHost` out of Terminal's own pid — and a console host owns
/// exactly one window), else, only once identity has been checked, the topmost
/// window that is not a tool window (a desktop app or an IDE).
pub open spec fn hosts(windows: Seq<Sight>, pid: u32, identified: bool) -> Seq<usize> {
    let count = windows.len() as int;
    let terminals = terminals_of(windows, pid, count);
    if terminals.len() > 0 {
        terminals
    } else {
        match first_of(windows, pid, true, count) {
            Some(at) => seq![at],
            None => match first_of(windows, pid, false, count) {
                Some(at) => if identified {
                    seq![at]
                } else {
                    seq![]
                },
                None => seq![],
            },
        }
    }
}

proof fn first_stays(windows: Seq<Sight>, pid: u32, shell: bool, upto: int, whole: int)
    requires
        0 <= upto <= whole,
        first_of(windows, pid, shell, upto) is Some,
    ensures
        first_of(windows, pid, shell, whole) == first_of(windows, pid, shell, upto),
    decreases whole,
{
    if upto < whole {
        first_stays(windows, pid, shell, upto, whole - 1);
    }
}

fn find_first(windows: &Vec<Candidate>, pid: u32, shell: bool) -> (r: Option<usize>)
    ensures
        r == first_of(sights(windows@), pid, shell, windows@.len() as int),
        r matches Some(at) ==> at < windows@.len(),
{
    let ghost all = sights(windows@);
    let mut i: usize = 0;
    while i < windows.len()
        invariant
            i <= windows@.len(),
            all == sights(windows@),
            first_of(all, pid, shell, i as int) is None,
        decreases windows@.len() - i,
    {
        let window = &windows[i];
        assert(all[i as int] == window@);
        let fit: bool = if shell {
            is_terminal_class(window.class_name.as_str())
        } else {
            !window.tool_window
        };
        if window.process_id == pid && fit {
            proof {
                assert(first_of(all, pid, shell, i + 1) == Some(i));
                first_stays(all, pid, shell, i + 1, windows@.len() as int);
            }
            return Some(i);
        }
        i = i + 1;
    }
    None
}

fn hosts_of(windows: &Vec<Candidate>, pid: u32, identified: bool) -> (r: Vec<usize>)
    ensures
        r@ == hosts(sights(windows@), pid, identified),
        forall|k: int| 0 <= k < r@.len() ==> (#[trigger] r@[k]) < windows@.len(),
{
    let ghost all = sights(windows@);
    let mut terminals: Vec<usize> = Vec::new();
    let mut i: usize = 0;
    while i < windows.len()
        invariant
            i <= windows@.len(),
            all == sights(windows@),
            terminals@ == terminals_of(all, pid, i as int),
            forall|k: int| 0 <= k < terminals@.len() ==> (#[trigger] terminals@[k]) < i,
        decreases windows@.len() - i,
    {
        let window = &windows[i];
        assert(all[i as int] == window@);
        if window.process_id == pid && has_tabs(window.class_name.as_str()) {
            terminals.push(i);
        }
        i = i + 1;
    }
    if terminals.len() > 0 {
        return terminals;
    }
    let mut out: Vec<usize> = Vec::new();
    match find_first(windows, pid, true) {
        Some(at) => {
            out.push(at);
            assert(out@ =~= seq![at]);
        },
        None => {
            if identified {
                if let Some(at) = find_first(windows, pid, false) {
                    out.push(at);
                    assert(out@ =~= seq![at]);
                }
            }
        },
    }
    out
}

/// Whether an ancestor still is what it was: nothing recorded says it is not,
/// or its pid resolves to the name that was. `explorer.exe` never counts: it
/// sits above nearly everything ever launched from the shell, and its windows
/// are never the host.
pub open spec fn still_is(recorded: Option<Seq<char>>, current: Option<Seq<char>>) -> bool {
    match recorded {
        Some(name) => text::in_small(name) != text::in_small("explorer.exe"@) && (
        current matches Some(now) && text::in_small(now) == text::in_small(name)),
        None => true,
    }
}

/// The windows of one ancestor worth raising: none if it is not what it was,
/// and never this application's own.
pub open spec fn worth_raising(
    ancestor: (u32, Option<Seq<char>>),
    current: Option<Seq<char>>,
    windows: Seq<Sight>,
    own_pid: u32,
) -> Seq<usize> {
    if ancestor.0 == own_pid || !still_is(ancestor.1, current) {
        seq![]
    } else {
        hosts(windows, ancestor.0, ancestor.1 is Some)
    }
}

/// Where an agent's window is: the windows it may be, and what its process is
/// called, when that was recorded.
pub struct Host {
    pub windows: Vec<usize>,
    pub exe: Option<String>,
}

pub open spec fn current_at(current: Seq<Option<String>>, i: int) -> Option<Seq<char>> {
    if 0 <= i < current.len() {
        text::shown(current[i])
    } else {
        None
    }
}

/// Whether `host` is the ancestor at `i`.
pub open spec fn is_host(
    host: Host,
    line: Seq<(u32, Option<Seq<char>>)>,
    current: Seq<Option<String>>,
    windows: Seq<Sight>,
    own_pid: u32,
    i: int,
) -> bool {
    &&& host.windows@ == worth_raising(line[i], current_at(current, i), windows, own_pid)
    &&& host.windows@.len() > 0
    &&& text::shown(host.exe) == (if line[i].1 is Some {
        current_at(current, i)
    } else {
        None
    })
}

fn of_same_name(recorded: &Option<String>, current: Option<&String>) -> (r: bool)
    ensures
        r == still_is(
            text::shown(*recorded),
            match current {
                Some(now) => Some(now@),
                None => None,
            },
        ),
{
    match recorded {
        Some(name) => !text::same_letters(name.as_str(), "explorer.exe") && match current {
            Some(now) => text::same_letters(now.as_str(), name.as_str()),
            None => false,
        },
        None => true,
    }
}

/// The agent's *host window*: the nearest ancestor that still is what it was
/// when the event was recorded and owns a real window.
///
/// `current` is what each ancestor's pid resolves to now. Matching any window
/// an ancestor owned went wrong three ways — it raised a transient Terminal
/// helper (`PopupHost`); it raised an unrelated app whose pid a dead
/// ancestor's had been recycled into; and it could raise this app's own
/// window, which is why a summon "did nothing" precisely when the app was
/// focused.
///
/// The test is identity: the hook records each ancestor's exe name at event
/// time, and a window only counts while its pid still resolves to that name.
/// Ancestors are walked nearest first, so an agent in VS Code's terminal
/// raises VS Code, not whatever launched VS Code. Identity finds the
/// *process*, and Windows Terminal hosts every one of its windows in a single
/// process, so a matching pid can own several terminal windows; all of them
/// are kept, and the tab is what chooses between them.
pub fn find_host(
    ancestors: &Vec<Ancestor>,
    current: &Vec<Option<String>>,
    windows: &Vec<Candidate>,
    own_pid: u32,
) -> (r: Result<Host, Report>)
    ensures
        ({
            let line = crate::event::line_of(ancestors@);
            let all = sights(windows@);
            match r {
                Ok(host) => exists|i: int|
                    #![trigger line[i]]
                    0 <= i < line.len() && is_host(host, line, current@, all, own_pid, i)
                        && forall|j: int|
                        0 <= j < i ==> worth_raising(
                            #[trigger] line[j],
                            current_at(current@, j),
                            all,
                            own_pid,
                        ).len() == 0,
                Err(report) => {
                    &&& forall|j: int|
                        0 <= j < line.len() ==> worth_raising(
                            #[trigger] line[j],
                            current_at(current@, j),
                            all,
                            own_pid,
                        ).len() == 0
                    &&& report.says_no(
                        if line.len() == 0 {
                            "this session has not reported where it is running"@
                        } else {
                            "no window found for that agent — it may have closed, or its ancestry is stale (restart the agent to refresh it)"@
                        },
                    )
                },
            }
        }),
        r matches Ok(host) ==> host.windows@.len() > 0 && forall|k: int|
            0 <= k < host.windows@.len() ==> (#[trigger] host.windows@[k]) < windows@.len(),
{
    let ghost line = crate::event::line_of(ancestors@);
    let ghost all = sights(windows@);
    if ancestors.len() == 0 {
        // Older events carry no ancestry; the next one from that session will.
        return Err(
            Report::failed("this session has not reported where it is running".to_owned()),
        );
    }
    let mut i: usize = 0;
    while i < ancestors.len()
        invariant
            i <= ancestors@.len(),
            line == crate::event::line_of(ancestors@),
            all == sights(windows@),
            forall|j: int|
                0 <= j < i ==> worth_raising(
                    #[trigger] line[j],
                    current_at(current@, j),
                    all,
                    own_pid,
                ).len() == 0,
        decreases ancestors@.len() - i,
    {
        let ancestor = &ancestors[i];
        assert(line[i as int] == ancestor@);
        let now: Option<&String> = if i < current.len() {
            match &current[i] {
                Some(now) => Some(now),
                None => None,
            }
        } else {
            None
        };
        if ancestor.pid != own_pid && of_same_name(&ancestor.exe, now) {
            let found = hosts_of(windows, ancestor.pid, ancestor.exe.is_some());
            if found.len() > 0 {
                let exe: Option<String> = match (&ancestor.exe, now) {
                    (Some(_), Some(now)) => Some(now.clone()),
                    _ => None,
                };
                let host = Host { windows: found, exe };
                assert(is_host(host, line, current@, all, own_pid, i as int));
                return Ok(host);
            }
        }
        i = i + 1;
    }
    Err(
        Report::failed(
            "no window found for that agent — it may have closed, or its ancestry is stale (restart the agent to refresh it)".to_owned(),
        ),
    )
}

/// One terminal window's tabs, read once, for choosing between the several
/// windows of a Terminal process.
#[derive(Debug, Clone, PartialEq, Eq)]
pub struct TabbedWindow {
    /// Position in the host list, so choosing needs no window handle.
    pub index: usize,
    /// The tab in front, when it could be read.
    pub selected: Option<String>,
    /// Every tab, in the window's order. Empty means *unread*, not tabless: a
    /// window that has not been drawn since it went to the back can answer
    /// with nothing, and so can a minimized one.
    pub tabs: Vec<String>,
}

/// A [`TabbedWindow`], its texts by their characters.
pub ghost struct Strip {
    pub index: usize,
    pub selected: Option<Seq<char>>,
    pub tabs: Seq<Seq<char>>,
}

impl View for TabbedWindow {
    type V = Strip;

    open spec fn view(&self) -> Strip {
        Strip {
            index: self.index,
            selected: text::shown(self.selected),
            tabs: views(self.tabs@),
        }
    }
}

pub open spec fn strips(windows: Seq<TabbedWindow>) -> Seq<Strip> {
    Seq::new(windows.len(), |i: int| windows[i]@)
}

/// The first of the first `upto` windows that is showing `name`, or, without
/// `showing`, that holds a tab of that name.
pub open spec fn first_with(windows: Seq<Strip>, name: Seq<char>, showing: bool, upto: int) -> Option<
    usize,
>
    decreases upto,
{
    if upto <= 0 {
        None
    } else {
        match first_with(windows, name, showing, upto - 1) {
            Some(index) => Some(index),
            None => {
                let window = windows[upto - 1];
                if showing && window.selected == Some(name) || !showing && window.tabs.contains(
                    name,
                ) {
                    Some(window.index)
                } else {
                    None
                }
            },
        }
    }
}

/// The window for one name: one already showing it beats one merely containing
/// it, so the raise lands on a tab that needs no re-selecting.
pub open spec fn window_for(windows: Seq<Strip>, name: Seq<char>) -> Option<usize> {
    match first_with(windows, name, true, windows.len() as int) {
        Some(index) => Some(index),
        None => first_with(windows, name, false, windows.len() as int),
    }
}

/// The window for the first of the first `upto` names that has one.
pub open spec fn chosen(windows: Seq<Strip>, names: Seq<Seq<char>>, upto: int) -> Option<usize>
    decreases upto,
{
    if upto <= 0 {
        None
    } else {
        match chosen(windows, names, upto - 1) {
            Some(index) => Some(index),
            None => window_for(windows, names[upto - 1]),
        }
    }
}

/// Which window is raised: the one the names choose, or the topmost.
pub open spec fn choice(windows: Seq<Strip>, names: Seq<Seq<char>>) -> usize {
    match chosen(windows, names, names.len() as int) {
        Some(index) => index,
        None => if windows.len() > 0 {
            windows[0].index
        } else {
            0
        },
    }
}

proof fn with_stays(windows: Seq<Strip>, name: Seq<char>, showing: bool, upto: int, whole: int)
    requires
        0 <= upto <= whole,
        first_with(windows, name, showing, upto) is Some,
    ensures
        first_with(windows, name, showing, whole) == first_with(windows, name, showing, upto),
    decreases whole,
{
    if upto < whole {
        with_stays(windows, name, showing, upto, whole - 1);
    }
}

proof fn chosen_stays(windows: Seq<Strip>, names: Seq<Seq<char>>, upto: int, whole: int)
    requires
        0 <= upto <= whole,
        chosen(windows, names, upto) is Some,
    ensures
        chosen(windows, names, whole) == chosen(windows, names, upto),
    decreases whole,
{
    if upto < whole {
        chosen_stays(windows, names, upto, whole - 1);
    }
}

fn find_with(windows: &Vec<TabbedWindow>, name: &str, showing: bool) -> (r: Option<usize>)
    ensures
        r == first_with(strips(windows@), name@, showing, windows@.len() as int),
{
    let ghost all = strips(windows@);
    let mut i: usize = 0;
    while i < windows.len()
        invariant
            i <= windows@.len(),
            all == strips(windows@),
            first_with(all, name@, showing, i as int) is None,
        decreases windows@.len() - i,
    {
        let window = &windows[i];
        assert(all[i as int] == window@);
        let hit: bool = if showing {
            match &window.selected {
                Some(selected) => text::same(selected.as_str(), name),
                None => false,
            }
        } else {
            text::is_among(&window.tabs, name)
        };
        if hit {
            proof {
                with_stays(all, name@, showing, i + 1, windows@.len() as int);
            }
            return Some(window.index);
        }
        i = i + 1;
    }
    None
}

/// Which of several terminal windows to raise for `tab_names`: its index.
///
/// Names are tried in order — the lane's first, since that is the one the user
/// controls — and for each, a window already showing it beats one merely
/// containing it, so the raise lands on a tab that needs no re-selecting. When
/// nothing matches, the first window: it is the topmost, which is exactly the
/// rule for a process that owns one window, and the report then says which
/// tabs were there. An empty list — nothing read from any window — gives the
/// same, for the same reason.
pub fn pick(windows: &Vec<TabbedWindow>, tab_names: &Vec<String>) -> (index: usize)
    ensures
        index == choice(strips(windows@), views(tab_names@)),
{
    let ghost all = strips(windows@);
    let ghost names = views(tab_names@);
    let mut i: usize = 0;
    while i < tab_names.len()
        invariant
            i <= tab_names@.len(),
            all == strips(windows@),
            names == views(tab_names@),
            chosen(all, names, i as int) is None,
        decreases tab_names@.len() - i,
    {
        let name = tab_names[i].as_str();
        assert(names[i as int] == name@);
        let found: Option<usize> = match find_with(windows, name, true) {
            Some(index) => Some(index),
            None => find_with(windows, name, false),
        };
        if let Some(index) = found {
            proof {
                chosen_stays(all, names, i + 1, tab_names@.len() as int);
            }
            return index;
        }
        i = i + 1;
    }
    if windows.len() > 0 {
        assert(all[0] == windows@[0]@);
        windows[0].index
    } else {
        0
    }
}

/// The tabs of each of the first `upto` windows that could be read, one text
/// to a window.
pub open spec fn readable(windows: Seq<Strip>, upto: int) -> Seq<Seq<char>>
    decreases upto,
{
    if upto <= 0 {
        seq![]
    } else {
        let before = readable(windows, upto - 1);
        let tabs = windows[upto - 1].tabs;
        if tabs.len() > 0 {
            before.push(joined_by(tabs, ", "@))
        } else {
            before
        }
    }
}

pub open spec fn unread() -> Seq<char> {
    "raised the terminal; its tabs could not be read"@
}

/// What is said when no tab of several windows has any of the names: every tab
/// of every window, so the user can see what is there — grouped by window, in
/// the order they were stacked.
pub open spec fn none_called(names: Seq<Seq<char>>, windows: Seq<Strip>) -> Seq<char> {
    let read = readable(windows, windows.len() as int);
    let left = windows.len() - read.len();
    if read.len() == 0 {
        unread()
    } else {
        let known = "raised the terminal, but no tab is called "@ + joined_by(names, " or "@)
            + " in any of its "@ + decimal(windows.len()) + " windows. Their tabs: "@ + joined_by(
            read,
            "; "@,
        );
        if left > 0 {
            known + "; "@ + decimal(left as nat) + " window"@ + (if left == 1 {
                ""@
            } else {
                "s"@
            }) + " unreadable"@
        } else {
            known
        }
    }
}

proof fn readable_are_fewer(windows: Seq<Strip>, upto: int)
    requires
        0 <= upto,
    ensures
        readable(windows, upto).len() <= upto,
    decreases upto,
{
    if upto > 0 {
        readable_are_fewer(windows, upto - 1);
    }
}

/// The report for a raise that found no tab called any of `tab_names` in any
/// of several windows.
pub fn no_such_tab(tab_names: &Vec<String>, windows: &Vec<TabbedWindow>) -> (r: String)
    ensures
        r@ == none_called(views(tab_names@), strips(windows@)),
{
    let ghost all = strips(windows@);
    let mut read: Vec<String> = Vec::new();
    let mut i: usize = 0;
    assert(views(read@) =~= seq![]);
    while i < windows.len()
        invariant
            i <= windows@.len(),
            all == strips(windows@),
            views(read@) == readable(all, i as int),
        decreases windows@.len() - i,
    {
        let ghost before = read@;
        assert(all[i as int] == windows@[i as int]@);
        assert(all[i as int].tabs.len() == windows@[i as int].tabs@.len());
        if windows[i].tabs.len() > 0 {
            let tabs = text::join(&windows[i].tabs, ", ");
            read.push(tabs);
            assert(views(read@) =~= views(before).push(tabs@));
        }
        i = i + 1;
    }
    proof {
        readable_are_fewer(all, windows@.len() as int);
        assert(views(read@).len() == read@.len());
    }
    if read.len() == 0 {
        return "raised the terminal; its tabs could not be read".to_owned();
    }
    let mut detail = "raised the terminal, but no tab is called ".to_owned();
    detail.push_str(text::join(tab_names, " or ").as_str());
    detail.push_str(" in any of its ");
    detail.push_str(text::number(windows.len() as u64).as_str());
    detail.push_str(" windows. Their tabs: ");
    detail.push_str(text::join(&read, "; ").as_str());
    let unreadable: usize = windows.len() - read.len();
    if unreadable > 0 {
        detail.push_str("; ");
        detail.push_str(text::number(unreadable as u64).as_str());
        detail.push_str(" window");
        detail.push_str(if unreadable == 1 { "" } else { "s" });
        detail.push_str(" unreadable");
    }
    detail
}

/// A window that is being brought forward for an agent.
pub struct Summons {
    pub hwnd: isize,
    pub title: String,
    pub class_name: String,
    /// What its process is called, when that was recorded.
    pub exe: Option<String>,
    /// The tabs of every window there was to choose from, when there were
    /// several.
    pub snapshot: Vec<TabbedWindow>,
    pub tab_names: Vec<String>,
}

impl Summons {
    /// What the window is called in a report: by the tab we are after, when it
    /// is a terminal with tabs — its title is whatever tab is in front, so its
    /// current title says nothing useful — and else by its title.
    pub open spec fn called(self) -> Seq<char> {
        if hosts_tabs(self.class_name@) && self.tab_names@.len() > 0 {
            self.tab_names@[0]@
        } else {
            self.title@
        }
    }

    /// The window to raise, of those the host may be: the tab decides between
    /// several, and one costs no reading of tabs. `None` when the tabs were
    /// read of some other windows.
    pub fn new(
        host: &Host,
        windows: &Vec<Candidate>,
        snapshot: Vec<TabbedWindow>,
        tab_names: &Vec<String>,
    ) -> (r: Option<Summons>)
        ensures
            ({
                let at = choice(strips(snapshot@), views(tab_names@)) as int;
                match r {
                    Some(summons) => {
                        &&& 0 <= at < host.windows@.len()
                        &&& host.windows@[at] < windows@.len()
                        &&& summons.hwnd == windows@[host.windows@[at] as int].hwnd
                        &&& summons.title@ == windows@[host.windows@[at] as int].title@
                        &&& summons.class_name@ == windows@[host.windows@[at] as int].class_name@
                        &&& text::shown(summons.exe) == text::shown(host.exe)
                        &&& summons.snapshot == snapshot
                        &&& views(summons.tab_names@) == views(tab_names@)
                    },
                    None => at >= host.windows@.len() || host.windows@[at] >= windows@.len(),
                }
            }),
    {
        let at: usize = pick(&snapshot, tab_names);
        if at >= host.windows.len() || host.windows[at] >= windows.len() {
            return None;
        }
        let found = &windows[host.windows[at]];
        Some(
            Summons {
                hwnd: found.hwnd,
                title: found.title.clone(),
                class_name: found.class_name.clone(),
                exe: text::copy_of(&host.exe),
                snapshot,
                tab_names: text::copy_list(tab_names),
            },
        )
    }

    fn what(&self) -> (r: String)
        ensures
            r@ == self.called(),
    {
        if has_tabs(self.class_name.as_str()) && self.tab_names.len() > 0 {
            self.tab_names[0].clone()
        } else {
            self.title.clone()
        }
    }

    /// What is said when the window did not come forward.
    pub fn refused(&self, minimized: bool) -> (report: Report)
        ensures
            report.says_no(
                if minimized {
                    self.called()
                        + " would not restore from minimized — flashed it in the taskbar"@
                } else {
                    "Windows refused to bring "@ + self.called() + " forward"@
                },
            ),
    {
        let what = self.what();
        let mut reason = String::new();
        if minimized {
            reason = what;
            reason.push_str(" would not restore from minimized — flashed it in the taskbar");
        } else {
            reason = "Windows refused to bring ".to_owned();
            reason.push_str(what.as_str());
            reason.push_str(" forward");
        }
        Report::failed(reason)
    }

    /// What is said of a window that has no tabs, once it is in front; nothing
    /// of one that has. A console host has one session, so raising it is
    /// everything; a desktop-app host (Codex, an IDE) likewise — there
    /// is no tab concept, so say what was raised, exe and all, and be done.
    pub fn raised(&self) -> (r: Option<Report>)
        ensures
            match r {
                Some(report) => !hosts_tabs(self.class_name@) && report.says_raised(
                    self.hwnd,
                    match self.exe {
                        Some(exe) => if !is_terminal(self.class_name@) {
                            "raised "@ + self.called() + " ("@ + exe@ + ")"@
                        } else {
                            "raised "@ + self.called()
                        },
                        None => "raised "@ + self.called(),
                    },
                ),
                None => hosts_tabs(self.class_name@),
            },
    {
        if has_tabs(self.class_name.as_str()) {
            return None;
        }
        let mut detail = "raised ".to_owned();
        detail.push_str(self.what().as_str());
        if let Some(exe) = &self.exe {
            if !is_terminal_class(self.class_name.as_str()) {
                detail.push_str(" (");
                detail.push_str(exe.as_str());
                detail.push_str(")");
            }
        }
        Some(Report::raised(self.hwnd, detail))
    }

    /// What is said when the tab in front is one of the names already. Only
    /// the tab re-selection is skipped, never the raise: selecting an
    /// already-selected tab moves keyboard focus to the tab strip and steals
    /// the terminal's arrow keys.
    pub fn already_showing(&self, selected: Option<&str>) -> (r: Option<Report>)
        ensures
            match (r, selected) {
                (Some(report), Some(selected)) => views(self.tab_names@).contains(selected@)
                    && report.says_raised(
                    self.hwnd,
                    "raised, already showing the "@ + selected@ + " tab"@,
                ),
                (Some(_), None) => false,
                (None, Some(selected)) => !views(self.tab_names@).contains(selected@),
                (None, None) => true,
            },
    {
        match selected {
            Some(selected) => {
                if !text::is_among(&self.tab_names, selected) {
                    return None;
                }
                let mut detail = "raised, already showing the ".to_owned();
                detail.push_str(selected);
                detail.push_str(" tab");
                Some(Report::raised(self.hwnd, detail))
            },
            None => None,
        }
    }

    /// What is said when one of the names was put in front.
    pub fn showing(&self, name: &str) -> (report: Report)
        ensures
            report.says_raised(self.hwnd, "raised, showing the "@ + name@ + " tab"@),
    {
        let mut detail = "raised, showing the ".to_owned();
        detail.push_str(name);
        detail.push_str(" tab");
        Report::raised(self.hwnd, detail)
    }

    /// What is said when the window came forward and no tab has any of the
    /// names: half of what was asked for, and worth saying — the user is
    /// looking at the right terminal showing the wrong agent. Naming the lane
    /// after its tab is what fixes it, so the message names the tabs that are
    /// actually there. With several windows they have all been read; with one,
    /// `present` is what it has.
    pub fn missing(&self, present: &Vec<String>) -> (report: Report)
        ensures
            report.says_raised(
                self.hwnd,
                if self.snapshot@.len() > 0 {
                    none_called(views(self.tab_names@), strips(self.snapshot@))
                } else if present@.len() == 0 {
                    unread()
                } else {
                    "raised the terminal, but no tab is called "@ + joined_by(
                        views(self.tab_names@),
                        " or "@,
                    ) + ". Its tabs: "@ + joined_by(views(present@), ", "@)
                },
            ),
    {
        let detail: String = if self.snapshot.len() > 0 {
            no_such_tab(&self.tab_names, &self.snapshot)
        } else if present.len() == 0 {
            "raised the terminal; its tabs could not be read".to_owned()
        } else {
            let mut detail = "raised the terminal, but no tab is called ".to_owned();
            detail.push_str(text::join(&self.tab_names, " or ").as_str());
            detail.push_str(". Its tabs: ");
            detail.push_str(text::join(present, ", ").as_str());
            detail
        };
        Report::raised(self.hwnd, detail)
    }
}

/// Whether the window in front belongs to one of `ancestors`.
pub fn is_foreground(ancestors: &Vec<Ancestor>, foreground_pid: Option<u32>) -> (r: bool)
    ensures
        r == (foreground_pid matches Some(pid) && exists|i: int|
            0 <= i < ancestors@.len() && (#[trigger] ancestors@[i]).pid == pid),
{
    let pid: u32 = match foreground_pid {
        Some(pid) => pid,
        None => return false,
    };
    let mut i: usize = 0;
    while i < ancestors.len()
        invariant
            i <= ancestors@.len(),
            foreground_pid == Some(pid),
            forall|j: int| 0 <= j < i ==> (#[trigger] ancestors@[j]).pid != pid,
        decreases ancestors@.len() - i,
    {
        if ancestors[i].pid == pid {
            return true;
        }
        i = i + 1;
    }
    false
}

proof fn terminals_belong(windows: Seq<Sight>, pid: u32, upto: int)
    requires
        upto <= windows.len() <= usize::MAX,
    ensures
        forall|k: int|
            0 <= k < terminals_of(windows, pid, upto).len() ==> (#[trigger] terminals_of(
                windows,
                pid,
                upto,
            )[k]) < windows.len() && windows[terminals_of(windows, pid, upto)[k] as int].process_id
                == pid,
    decreases upto,
{
    if upto > 0 {
        terminals_belong(windows, pid, upto - 1);
        let before = terminals_of(windows, pid, upto - 1);
        let now = terminals_of(windows, pid, upto);
        assert forall|k: int| 0 <= k < now.len() implies (#[trigger] now[k]) < windows.len()
            && windows[now[k] as int].process_id == pid by {
            if k < before.len() {
                assert(now[k] == before[k]);
            }
        }
    }
}

proof fn first_belongs(windows: Seq<Sight>, pid: u32, shell: bool, upto: int)
    requires
        upto <= windows.len() <= usize::MAX,
    ensures
        first_of(windows, pid, shell, upto) matches Some(at) ==> at < windows.len()
            && windows[at as int].process_id == pid,
    decreases upto,
{
    if upto > 0 {
        first_belongs(windows, pid, shell, upto - 1);
    }
}

/// **A summons raises only a window of the process that ran the agent**: never
/// this application's own, never one of a process whose pid has since been
/// recycled onto another name, and never the shell's.
pub proof fn a_summons_raises_only_the_agents_window(
    ancestor: (u32, Option<Seq<char>>),
    current: Option<Seq<char>>,
    windows: Seq<Sight>,
    own_pid: u32,
    k: int,
)
    requires
        windows.len() <= usize::MAX,
        0 <= k < worth_raising(ancestor, current, windows, own_pid).len(),
    ensures
        ({
            let at = worth_raising(ancestor, current, windows, own_pid)[k] as int;
            &&& 0 <= at < windows.len()
            &&& windows[at].process_id == ancestor.0
            &&& windows[at].process_id != own_pid
            &&& ancestor.1 matches Some(name) ==> current is Some && text::in_small(current->0)
                == text::in_small(name) && text::in_small(name) != text::in_small("explorer.exe"@)
        }),
{
    let count = windows.len() as int;
    terminals_belong(windows, ancestor.0, count);
    first_belongs(windows, ancestor.0, true, count);
    first_belongs(windows, ancestor.0, false, count);
}

/// **Every Windows Terminal window of the process, and each once**: where a
/// process has one, the windows worth raising are exactly the places of all
/// that have its pid and that class, in the order of the desktop. Any of them
/// may hold the tab.
pub proof fn every_terminal_window_is_kept(windows: Seq<Sight>, pid: u32, identified: bool)
    requires
        exists|i: int|
            0 <= i < windows.len() && (#[trigger] windows[i]).process_id == pid && windows[i].class_name
                == "CASCADIA_HOSTING_WINDOW_CLASS"@,
        windows.len() <= usize::MAX,
    ensures
        ({
            let places = hosts(windows, pid, identified);
            &&& forall|i: int|
                0 <= i < windows.len() ==> (places.contains(i as usize) <==> (
                #[trigger] windows[i]).process_id == pid && windows[i].class_name
                    == "CASCADIA_HOSTING_WINDOW_CLASS"@)
            &&& forall|k: int|
                0 <= k < places.len() ==> (#[trigger] places[k]) < windows.len()
            &&& forall|k: int, l: int|
                0 <= k < l < places.len() ==> (#[trigger] places[k]) < (#[trigger] places[l])
        }),
{
    let count = windows.len() as int;
    terminals_are_all(windows, pid, count);
    let i = choose|i: int|
        0 <= i < windows.len() && (#[trigger] windows[i]).process_id == pid && windows[i].class_name
            == "CASCADIA_HOSTING_WINDOW_CLASS"@;
    let places = terminals_of(windows, pid, count);
    assert(places.contains(i as usize));
    assert(places.len() > 0);
}

proof fn terminals_are_all(windows: Seq<Sight>, pid: u32, upto: int)
    requires
        0 <= upto <= windows.len() <= usize::MAX,
    ensures
        ({
            let places = terminals_of(windows, pid, upto);
            &&& forall|i: int|
                0 <= i < upto ==> (places.contains(i as usize) <==> (
                #[trigger] windows[i]).process_id == pid && windows[i].class_name
                    == "CASCADIA_HOSTING_WINDOW_CLASS"@)
            &&& forall|k: int| 0 <= k < places.len() ==> (#[trigger] places[k]) < upto
            &&& forall|k: int, l: int|
                0 <= k < l < places.len() ==> (#[trigger] places[k]) < (#[trigger] places[l])
        }),
    decreases upto,
{
    if upto > 0 {
        terminals_are_all(windows, pid, upto - 1);
        let before = terminals_of(windows, pid, upto - 1);
        let places = terminals_of(windows, pid, upto);
        let last = (upto - 1) as usize;
        assert forall|i: int| 0 <= i < upto implies (places.contains(i as usize) <==> (
        #[trigger] windows[i]).process_id == pid && windows[i].class_name
            == "CASCADIA_HOSTING_WINDOW_CLASS"@) by {
            if i == upto - 1 {
                if places.len() > before.len() {
                    assert(places[before.len() as int] == last);
                }
            } else {
                if before.contains(i as usize) {
                    let k = choose|k: int| 0 <= k < before.len() && before[k] == i as usize;
                    assert(places[k] == i as usize);
                }
                if places.contains(i as usize) {
                    let k = choose|k: int| 0 <= k < places.len() && places[k] == i as usize;
                    assert(before[k] == i as usize);
                }
            }
        }
    }
}

spec fn suits(window: Sight, pid: u32, shell: bool) -> bool {
    window.process_id == pid && (if shell {
        is_terminal(window.class_name)
    } else {
        !window.tool_window
    })
}

proof fn first_is_first(windows: Seq<Sight>, pid: u32, shell: bool, upto: int)
    requires
        0 <= upto <= windows.len() <= usize::MAX,
    ensures
        match first_of(windows, pid, shell, upto) {
            Some(at) => at < upto && suits(windows[at as int], pid, shell) && forall|i: int|
                0 <= i < at ==> !suits(#[trigger] windows[i], pid, shell),
            None => forall|i: int| 0 <= i < upto ==> !suits(#[trigger] windows[i], pid, shell),
        },
    decreases upto,
{
    if upto > 0 {
        first_is_first(windows, pid, shell, upto - 1);
    }
}

/// **Without a Windows Terminal window there is one window at most**: the
/// topmost console of the process, whatever else it owns; else, and only of a
/// process known to be what it was, its topmost window that is no tool window.
pub proof fn else_one_window_is_raised(windows: Seq<Sight>, pid: u32, identified: bool, i: int)
    requires
        windows.len() <= usize::MAX,
        forall|j: int|
            0 <= j < windows.len() ==> !((#[trigger] windows[j]).process_id == pid
                && windows[j].class_name == "CASCADIA_HOSTING_WINDOW_CLASS"@),
        0 <= i < windows.len(),
        windows[i].process_id == pid,
    ensures
        ({
            let places = hosts(windows, pid, identified);
            let console = |j: int|
                windows[j].process_id == pid && windows[j].class_name == "ConsoleWindowClass"@;
            let plain = |j: int| windows[j].process_id == pid && !windows[j].tool_window;
            &&& places.len() <= 1
            &&& console(i) ==> places.len() == 1 && console(places[0] as int) && places[0] <= i
            &&& identified && plain(i) ==> places.len() == 1
            &&& places.len() == 1 ==> places[0] < windows.len() && (console(places[0] as int) || (
            identified && plain(places[0] as int) && (plain(i) ==> places[0] <= i)))
        }),
{
    let count = windows.len() as int;
    terminals_are_all(windows, pid, count);
    let places = terminals_of(windows, pid, count);
    if places.len() > 0 {
        assert(places.contains(places[0]));
        assert(windows[places[0] as int].process_id == pid);
    }
    first_is_first(windows, pid, true, count);
    first_is_first(windows, pid, false, count);
    assert(windows[i].process_id == pid);
}

/// **Only an ancestor that still is what it was**: this application's own
/// windows are never raised, nor those of a pid that now is another program,
/// nor the shell's, whatever the case its name is written in.
pub proof fn a_bystander_is_never_raised(
    pid: u32,
    recorded: Option<Seq<char>>,
    current: Option<Seq<char>>,
    windows: Seq<Sight>,
    own_pid: u32,
)
    ensures
        pid == own_pid ==> worth_raising((pid, recorded), current, windows, own_pid).len() == 0,
        recorded is Some && current is None ==> worth_raising(
            (pid, recorded),
            current,
            windows,
            own_pid,
        ).len() == 0,
        recorded is Some && current is Some && text::in_small(recorded->0) != text::in_small(
            current->0,
        ) ==> worth_raising((pid, recorded), current, windows, own_pid).len() == 0,
        recorded is Some && text::in_small(recorded->0) == text::in_small("explorer.exe"@)
            ==> worth_raising((pid, recorded), current, windows, own_pid).len() == 0,
        pid != own_pid && recorded is Some && recorded == current && text::in_small(recorded->0)
            != text::in_small("explorer.exe"@) ==> worth_raising(
            (pid, recorded),
            current,
            windows,
            own_pid,
        ) == hosts(windows, pid, true),
        pid != own_pid && recorded is None ==> worth_raising(
            (pid, recorded),
            current,
            windows,
            own_pid,
        ) == hosts(windows, pid, false),
{
}

proof fn with_is_first(windows: Seq<Strip>, name: Seq<char>, showing: bool, upto: int)
    requires
        0 <= upto <= windows.len(),
    ensures
        match first_with(windows, name, showing, upto) {
            Some(index) => exists|i: int|
                0 <= i < upto && (#[trigger] windows[i]).index == index && holds(
                    windows[i],
                    name,
                    showing,
                ) && forall|j: int| 0 <= j < i ==> !holds(#[trigger] windows[j], name, showing),
            None => forall|j: int| 0 <= j < upto ==> !holds(#[trigger] windows[j], name, showing),
        },
    decreases upto,
{
    if upto > 0 {
        with_is_first(windows, name, showing, upto - 1);
        let last = windows[upto - 1];
        if first_with(windows, name, showing, upto - 1) is None && holds(last, name, showing) {
            assert(windows[upto - 1].index == last.index);
        }
    }
}

/// Whether a window shows `name`, or, without `showing`, has a tab of it.
pub open spec fn holds(window: Strip, name: Seq<char>, showing: bool) -> bool {
    if showing {
        window.selected == Some(name)
    } else {
        window.tabs.contains(name)
    }
}

proof fn chosen_by(windows: Seq<Strip>, names: Seq<Seq<char>>, upto: int)
    requires
        0 <= upto <= names.len(),
    ensures
        match chosen(windows, names, upto) {
            Some(index) => exists|n: int|
                0 <= n < upto && window_for(windows, #[trigger] names[n]) == Some(index)
                    && forall|m: int| 0 <= m < n ==> window_for(windows, #[trigger] names[m]) is None,
            None => forall|m: int|
                0 <= m < upto ==> window_for(windows, #[trigger] names[m]) is None,
        },
    decreases upto,
{
    if upto > 0 {
        chosen_by(windows, names, upto - 1);
    }
}

/// **The tab chooses the window**: the one raised shows or holds the first of
/// the names that any window has. Of those with that name it shows it, if any
/// does, and is the topmost such. Where no window has any of the names it is
/// the topmost of all.
pub proof fn the_tab_chooses_the_window(windows: Seq<Strip>, names: Seq<Seq<char>>, n: int, i: int)
    requires
        0 <= n < names.len(),
        0 <= i < windows.len(),
        holds(windows[i], names[n], true) || holds(windows[i], names[n], false),
        forall|m: int, j: int|
            0 <= m < n && 0 <= j < windows.len() ==> !holds(
                #[trigger] windows[j],
                #[trigger] names[m],
                true,
            ) && !holds(windows[j], names[m], false),
    ensures
        exists|w: int|
            0 <= w < windows.len() && (#[trigger] windows[w]).index == choice(windows, names) && (
            holds(windows[w], names[n], true) || (holds(windows[w], names[n], false) && forall|j: int|
                0 <= j < windows.len() ==> !holds(#[trigger] windows[j], names[n], true)))
                && forall|j: int|
                0 <= j < w ==> !holds(
                    #[trigger] windows[j],
                    names[n],
                    holds(windows[w], names[n], true),
                ),
{
    let count = windows.len() as int;
    chosen_by(windows, names, names.len() as int);
    with_is_first(windows, names[n], true, count);
    with_is_first(windows, names[n], false, count);
    assert(window_for(windows, names[n]) is Some);
    assert forall|m: int| 0 <= m < n implies window_for(windows, #[trigger] names[m]) is None by {
        with_is_first(windows, names[m], true, count);
        with_is_first(windows, names[m], false, count);
    }
    let first = choose|k: int|
        0 <= k < names.len() && window_for(windows, #[trigger] names[k]) == chosen(
            windows,
            names,
            names.len() as int,
        ) && forall|m: int| 0 <= m < k ==> window_for(windows, #[trigger] names[m]) is None;
    assert(first == n);
    let showing = first_with(windows, names[n], true, count) is Some;
    let index = choice(windows, names);
    assert(first_with(windows, names[n], showing, count) == Some(index));
    let w = choose|k: int|
        0 <= k < count && (#[trigger] windows[k]).index == index && holds(
            windows[k],
            names[n],
            showing,
        ) && forall|j: int| 0 <= j < k ==> !holds(#[trigger] windows[j], names[n], showing);
    assert(windows[w].index == index);
}

/// With no window that has any of the names, the topmost is raised.
pub proof fn with_no_tab_the_topmost_is_raised(windows: Seq<Strip>, names: Seq<Seq<char>>)
    requires
        windows.len() > 0,
        forall|m: int, j: int|
            0 <= m < names.len() && 0 <= j < windows.len() ==> !holds(
                #[trigger] windows[j],
                #[trigger] names[m],
                true,
            ) && !holds(windows[j], names[m], false),
    ensures
        choice(windows, names) == windows[0].index,
{
    let count = windows.len() as int;
    chosen_by(windows, names, names.len() as int);
    assert forall|m: int| 0 <= m < names.len() implies window_for(
        windows,
        #[trigger] names[m],
    ) is None by {
        with_is_first(windows, names[m], true, count);
        with_is_first(windows, names[m], false, count);
    }
}

} // verus!
