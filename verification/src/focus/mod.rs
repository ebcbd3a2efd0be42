//! Bringing the window an agent runs in forward — a terminal, a desktop app,
//! or an IDE.
//!
//! **The product's two actions.** Everything else is display: the app never
//! answers a hook, never approves anything, never captures a key. Clicking a
//! lane raises a window; and the answer keys — a lane's three after its
//! first on the F-row, a row's middle three on a Stream Deck — while the
//! lane is Waiting, raise the window and then send one Up, Down or Enter —
//! only into a window that verifiably has the keyboard, never to gain it.
//!
//! What each attempt actually achieved is reported rather than assumed. "The
//! window came forward showing the wrong agent" is a different outcome from
//! "the right tab is in front", and the user can see which they got.

use vstd::prelude::*;

pub mod forward;
pub mod window;

verus! {

/// How well a focus request went, in the user's words.
#[derive(Debug, Clone, PartialEq, Eq)]
pub struct Report {
    pub raised: bool,
    /// The top-level window that came forward, when one did — what a
    /// keystroke may then be sent to, once it is verified to have the
    /// keyboard.
    pub window: Option<isize>,
    pub detail: String,
}

impl Report {
    /// Whether this says that nothing was raised, and why.
    pub open spec fn says_no(self, detail: Seq<char>) -> bool {
        !self.raised && self.window is None && self.detail@ == detail
    }

    /// Whether this says that `window` was raised, and how.
    pub open spec fn says_raised(self, window: isize, detail: Seq<char>) -> bool {
        self.raised && self.window == Some(window) && self.detail@ == detail
    }

    pub fn failed(detail: String) -> (report: Self)
        ensures
            report.says_no(detail@),
    {
        Report { raised: false, window: None, detail }
    }

    pub fn raised(window: isize, detail: String) -> (report: Self)
        ensures
            report.says_raised(window, detail@),
    {
        Report { raised: true, window: Some(window), detail }
    }
}

/// The one keystroke a surface may send: an answer to a question the agent
/// is asking, pressed by the user on a key that says which.
#[derive(Debug, Clone, Copy, PartialEq, Eq, Structural)]
pub enum Key {
    Up,
    Down,
    Enter,
}

impl Key {
    pub open spec fn called(self) -> Seq<char> {
        match self {
            Key::Up => "Up"@,
            Key::Down => "Down"@,
            Key::Enter => "Enter"@,
        }
    }

    pub fn name(self) -> (name: &'static str)
        ensures
            name@ == self.called(),
    {
        match self {
            Key::Up => "Up",
            Key::Down => "Down",
            Key::Enter => "Enter",
        }
    }

    /// The key's virtual code, and whether it is an extended key, which the
    /// arrows are.
    pub fn code(self) -> (r: (u16, bool))
        ensures
            r == (match self {
                Key::Up => (0x26u16, true),
                Key::Down => (0x28u16, true),
                Key::Enter => (0x0du16, false),
            }),
    {
        match self {
            Key::Up => (0x26, true),
            Key::Down => (0x28, true),
            Key::Enter => (0x0d, false),
        }
    }
}

/// **No key goes where it was not verified to go.** A keystroke is let out only
/// into the foreground window, and only where focus is known to be off the tab
/// strip.
pub open spec fn may_type(foreground_is_target: bool, on_tab_strip: Option<bool>) -> bool {
    foreground_is_target && on_tab_strip == Some(false)
}

/// Whether a keystroke may go out, given what was verified: the target is
/// the foreground window, and — for a terminal with tabs — keyboard focus
/// is not on its tab strip, where arrows switch tabs instead of reaching
/// the agent. `None` for the tab strip is "could not tell", and a keystroke
/// whose destination cannot be told is not sent; the user is told instead.
pub fn ready_to_type(foreground_is_target: bool, on_tab_strip: Option<bool>) -> (r: Result<
    (),
    &'static str,
>)
    ensures
        r is Ok == may_type(foreground_is_target, on_tab_strip),
        match r {
            Ok(()) => true,
            Err(why) => if !foreground_is_target {
                why@ == "brought forward, but the keyboard is elsewhere — press again"@
            } else if on_tab_strip == Some(true) {
                why@ == "focus is on the terminal's tab strip — click into the terminal"@
            } else {
                on_tab_strip is None && why@
                    == "could not tell where the keyboard is — click into the terminal"@
            },
        },
{
    if !foreground_is_target {
        return Err("brought forward, but the keyboard is elsewhere — press again");
    }
    match on_tab_strip {
        Some(false) => Ok(()),
        Some(true) => Err("focus is on the terminal's tab strip — click into the terminal"),
        None => Err("could not tell where the keyboard is — click into the terminal"),
    }
}

/// What is said of a key that went out: which, and into what.
pub fn sent(key: Key, title: &str) -> (r: String)
    ensures
        r@ == "sent "@ + key.called() + " to "@ + (if title@.len() == 0 {
            "the terminal"@
        } else {
            title@
        }),
{
    let mut out = "sent ".to_owned();
    out.push_str(key.name());
    out.push_str(" to ");
    out.push_str(if title.is_empty() { "the terminal" } else { title });
    out
}

/// What an answer is said to have done: how the raise went, and what became
/// of the key.
pub fn answered(raised: &str, typed: &str) -> (r: String)
    ensures
        r@ == raised@ + " — "@ + typed@,
{
    let mut out = raised.to_owned();
    out.push_str(" — ");
    out.push_str(typed);
    out
}

} // verus!
