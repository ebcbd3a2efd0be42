//! Which window is an agent's, and what is said once it is in front.

use agent_frow::event::Ancestor;
use agent_frow::focus::forward::{
    look_again, strip_matters, Deed, Raise, Tab, TabStep, Way, LOOK_MS, STAY_MS, TAB_ATTEMPTS,
};
use agent_frow::focus::window::{
    find_host, is_foreground, is_terminal_class, no_such_tab, pick, Candidate, TabbedWindow,
    TERMINAL_WINDOW_CLASS,
};
use agent_frow::focus::{answered, ready_to_type, sent, Key, Report};

#[test]
fn a_keystroke_needs_the_foreground_and_not_the_tab_strip() {
    assert_eq!(ready_to_type(true, Some(false)), Ok(()));
    assert!(ready_to_type(false, Some(false))
        .unwrap_err()
        .contains("press again"));
    assert!(ready_to_type(true, Some(true))
        .unwrap_err()
        .contains("tab strip"));
    assert!(ready_to_type(true, None)
        .unwrap_err()
        .contains("could not tell"));
    assert!(
        ready_to_type(false, None)
            .unwrap_err()
            .contains("press again"),
        "the foreground is the first question"
    );
}

fn window(index: usize, tabs: &[&str], selected: Option<&str>) -> TabbedWindow {
    TabbedWindow {
        index,
        selected: selected.map(str::to_owned),
        tabs: tabs.iter().map(|tab| (*tab).to_owned()).collect(),
    }
}

fn names(names: &[&str]) -> Vec<String> {
    names.iter().map(|name| (*name).to_owned()).collect()
}

#[test]
fn one_window_is_the_window() {
    let windows = vec![window(0, &["other"], Some("other"))];
    assert_eq!(pick(&windows, &names(&["keeb"])), 0);
}

#[test]
fn nothing_read_falls_back_to_the_topmost() {
    assert_eq!(pick(&vec![], &names(&["keeb"])), 0);
    let windows = vec![window(0, &[], None), window(1, &[], None)];
    assert_eq!(pick(&windows, &names(&["keeb"])), 0);
}

#[test]
fn no_match_falls_back_to_the_topmost() {
    let windows = vec![window(0, &["a"], Some("a")), window(1, &["b"], Some("b"))];
    assert_eq!(pick(&windows, &names(&["keeb"])), 0);
    assert_eq!(pick(&windows, &vec![]), 0);
}

#[test]
fn a_window_holding_the_tab_beats_the_topmost() {
    let windows = vec![
        window(0, &["a"], Some("a")),
        window(1, &["b", "keeb"], Some("b")),
    ];
    assert_eq!(pick(&windows, &names(&["keeb"])), 1);
}

#[test]
fn a_window_showing_the_tab_beats_one_merely_holding_it() {
    // Two lanes on one project, unnamed, share a tab title: the one in
    // front needs no re-selecting, so it wins.
    let windows = vec![
        window(0, &["keeb", "x"], Some("x")),
        window(1, &["keeb"], Some("keeb")),
    ];
    assert_eq!(pick(&windows, &names(&["keeb"])), 1);
}

#[test]
fn the_lane_name_beats_the_project_name_in_another_window() {
    // Window 0 shows the project; window 1 merely holds the lane's name.
    // The lane's name is the one the user chose, so it wins anyway.
    let windows = vec![
        window(0, &["ai-agent-keeb"], Some("ai-agent-keeb")),
        window(1, &["x", "keeb"], Some("x")),
    ];
    assert_eq!(pick(&windows, &names(&["keeb", "ai-agent-keeb"])), 1);
}

#[test]
fn a_later_window_with_the_first_name_beats_an_earlier_one_with_the_second() {
    let windows = vec![
        window(0, &["proj"], Some("proj")),
        window(1, &["lane"], None),
    ];
    assert_eq!(pick(&windows, &names(&["lane", "proj"])), 1);
}

#[test]
fn report_lists_every_window_grouped() {
    let windows = vec![
        window(0, &["a", "b"], Some("a")),
        window(1, &["c"], Some("c")),
    ];
    assert_eq!(
        no_such_tab(&names(&["keeb", "proj"]), &windows),
        "raised the terminal, but no tab is called keeb or proj in any of its 2 windows. \
         Their tabs: a, b; c"
    );
}

#[test]
fn report_counts_windows_it_could_not_read() {
    let windows = vec![
        window(0, &["a"], Some("a")),
        window(1, &[], None),
        window(2, &[], None),
    ];
    assert_eq!(
        no_such_tab(&names(&["keeb"]), &windows),
        "raised the terminal, but no tab is called keeb in any of its 3 windows. \
         Their tabs: a; 2 windows unreadable"
    );
    let one = vec![window(0, &["a"], Some("a")), window(1, &[], None)];
    assert!(no_such_tab(&names(&["keeb"]), &one).ends_with("; 1 window unreadable"));
}

#[test]
fn report_says_when_nothing_could_be_read() {
    let windows = vec![window(0, &[], None), window(1, &[], None)];
    assert_eq!(
        no_such_tab(&names(&["keeb"]), &windows),
        "raised the terminal; its tabs could not be read"
    );
}

fn candidate(hwnd: isize, process_id: u32, class_name: &str) -> Candidate {
    Candidate {
        hwnd,
        process_id,
        title: format!("window {hwnd}"),
        class_name: class_name.to_owned(),
        tool_window: false,
    }
}

fn ancestor(pid: u32, exe: Option<&str>) -> Ancestor {
    Ancestor {
        pid,
        exe: exe.map(str::to_owned),
    }
}

#[test]
fn a_summons_goes_to_the_nearest_ancestor_that_is_still_itself() {
    let windows = vec![
        candidate(1, 300, "Chrome_WidgetWin_1"),
        candidate(2, 200, "CASCADIA_HOSTING_WINDOW_CLASS"),
    ];
    let line = vec![
        ancestor(100, Some("shell.exe")),
        ancestor(200, Some("WindowsTerminal.exe")),
        ancestor(300, Some("Code.exe")),
    ];
    let current = vec![
        Some("shell.exe".to_owned()),
        Some("WindowsTerminal.exe".to_owned()),
        Some("Code.exe".to_owned()),
    ];
    let host = find_host(&line, &current, &windows, 1).unwrap();
    assert_eq!(host.windows, vec![1]);
    // The pid has been taken by another program since: not that window.
    let reused = vec![
        Some("shell.exe".to_owned()),
        Some("notepad.exe".to_owned()),
        Some("Code.exe".to_owned()),
    ];
    let host = find_host(&line, &reused, &windows, 1).unwrap();
    assert_eq!(host.windows, vec![0]);
    assert!(find_host(&vec![], &vec![], &windows, 1).is_err());
}

#[test]
fn only_two_window_classes_are_terminals() {
    assert!(is_terminal_class("CASCADIA_HOSTING_WINDOW_CLASS"));
    assert!(is_terminal_class("ConsoleWindowClass"));
    assert!(!is_terminal_class("Notepad"));
}

#[test]
fn a_terminal_is_in_front_when_an_ancestor_owns_the_foreground() {
    let line = vec![ancestor(100, None), ancestor(200, None)];
    assert!(is_foreground(&line, Some(200)));
    assert!(!is_foreground(&line, Some(300)));
    assert!(!is_foreground(&line, None));
}

#[test]
fn a_report_says_whether_anything_was_raised() {
    let no = Report::failed("no such window".to_owned());
    assert!(!no.raised && no.window.is_none());
    let yes = Report::raised(7, "raised it".to_owned());
    assert!(yes.raised);
    assert_eq!(yes.window, Some(7));
    assert_eq!(answered("raised it", "sent Enter"), "raised it — sent Enter");
    assert!(sent(Key::Enter, "a tab").contains("Enter"));
}

/// Raises a window that answers each look from `answers`, and says what was
/// done to it, how long was waited in all, and how it went.
fn raised_by(answers: &[bool]) -> (Vec<Deed>, u64, Option<bool>) {
    let (mut raise, first) = Raise::start();
    let mut round = Some(first);
    let (mut deeds, mut waited) = (Vec::new(), 0);
    let mut looks = answers.iter();
    while let Some(now) = round {
        waited += now.wait_ms;
        if now.deed != Deed::Nothing {
            deeds.push(now.deed);
        }
        match looks.next() {
            Some(yes) => round = raise.seen(*yes),
            None => break,
        }
    }
    (deeds, waited, raise.raised())
}

#[test]
fn a_window_in_front_is_looked_at_twice() {
    let gone_well = raised_by(&[false, true, true]);
    assert_eq!(gone_well, (vec![Deed::Force], STAY_MS, Some(true)));
    // It only flashed on top: once more, the task switcher's way.
    let flashed = raised_by(&[false, true, false, false, true, true]);
    assert_eq!(flashed.0, [Deed::Force, Deed::SwitchAndForce]);
    assert_eq!(flashed.2, Some(true));
    let (_, _, undecided) = raised_by(&[false, true]);
    assert_eq!(undecided, None);
}

#[test]
fn a_window_that_never_comes_is_given_up() {
    let (deeds, waited, raised) = raised_by(&[false; 40]);
    assert_eq!(deeds, [Deed::Force, Deed::SwitchAndForce]);
    assert_eq!(waited, 19 * LOOK_MS);
    assert_eq!(raised, Some(false));
}

#[test]
fn a_minimized_window_is_restored_first() {
    // Minimized; the second look after asking politely says it is back.
    let (deeds, waited, raised) = raised_by(&[true, true, false, true, true]);
    assert_eq!(deeds, [Deed::Restore(Way::Politely), Deed::Force]);
    assert_eq!(waited, LOOK_MS + STAY_MS);
    assert_eq!(raised, Some(true));
    // It never comes back: every way is tried, and it is never forced.
    let (deeds, waited, raised) = raised_by(&[true; 60]);
    assert_eq!(
        deeds,
        [
            Deed::Restore(Way::Politely),
            Deed::Restore(Way::ByItsThread),
            Deed::Restore(Way::BySwitcher),
        ]
    );
    assert_eq!(waited, (3 + 8 + 8) * LOOK_MS);
    assert_eq!(raised, Some(false));
}

/// Selects one of `count` tabs in a window that answers looks by `in_front` and
/// selections by `takes`, and says which was shown, and the selections made.
fn shown_by(
    count: usize,
    in_front: bool,
    takes: fn(usize, usize) -> bool,
) -> (Option<usize>, Vec<usize>) {
    let (mut tab, mut step) = Tab::start(count);
    let mut tried = Vec::new();
    while let Some(now) = step {
        let yes = match now {
            TabStep::Look { .. } => in_front,
            TabStep::Select { name } => {
                tried.push(name);
                takes(name, tried.len())
            }
        };
        step = tab.told(yes, count);
    }
    (tab.shown(), tried)
}

#[test]
fn a_tab_is_selected_until_it_is_seen_to_be() {
    assert_eq!(shown_by(2, true, |_, _| true), (Some(0), vec![0]));
    assert_eq!(shown_by(2, true, |_, times| times == 3), (Some(0), vec![0, 0, 0]));
    let (shown, tried) = shown_by(2, true, |name, _| name == 1);
    assert_eq!(shown, Some(1));
    assert_eq!(tried.len(), TAB_ATTEMPTS as usize + 1);
    assert_eq!(shown_by(0, true, |_, _| true), (None, vec![]));
}

#[test]
fn a_window_that_will_not_come_forward_is_still_tried_once() {
    assert_eq!(shown_by(2, false, |_, _| false), (None, vec![0, 1]));
    assert_eq!(shown_by(2, false, |name, _| name == 0), (Some(0), vec![0]));
}

#[test]
fn the_tab_strip_matters_only_in_a_window_with_tabs() {
    assert!(strip_matters(true, TERMINAL_WINDOW_CLASS));
    assert!(!strip_matters(false, TERMINAL_WINDOW_CLASS));
    assert!(!strip_matters(true, "ConsoleWindowClass"));
    assert!(look_again(0, false));
    assert!(!look_again(0, true));
    assert!(!look_again(TAB_ATTEMPTS - 1, false));
}
