//! What a Stream Deck shows: one row per lane from the scene, and what its
//! keys mean — summons, and in Waiting answers.
//!
//! A row is a lane the way the F-row is: its first key is the lane's name,
//! its last the lane's state, and the keys between are the lane's body, lit
//! from the same palette as the keyboards. Unlike them it paints on its own
//! terms: a key carries how long the lane has been in its state, which changes
//! while the state does not, so the scene's "nothing changed" is not this
//! surface's. Instead every key is compared with what it was last told, and
//! only a key whose colour or label differs is drawn and written.

use vstd::prelude::*;

use super::canvas::{Ink, Label, Pen, Picture, Saying, can_draw, draw_key, face_picture, ink_on};
use super::device::{Deck, Found, Told};
use crate::focus::Key;
use crate::gauges::Gauges;
use crate::keys::Press;
use crate::settings::{Rgb, Setup, Tuning};
use crate::state::State;
use crate::single::{self, channel, fraction, of_channel, one, product};
use crate::surface::palette::{self, at_most_one, black, color_at, glow, lane_key, state_at};
use crate::surface::scene::Frame;
use crate::text::{self, decimal};
use crate::tracker::{
    Desk, KeyboardStatus, Tracker, clock, clock_text, seconds, sitting,
};

verus! {

/// How this surface names itself in the window.
pub const SURFACE: &'static str = "Stream Deck";

/// Why the deck is not taken while its own software is up.
pub const APP_RUNNING: &'static str =
    "the Stream Deck app is running — quit it to let Agent F-Row drive the deck";

/// A row needs this many keys to carry the three answers between its name
/// and its state.
pub const ANSWER_COLS: usize = 5;

/// What a key is told — the whole of it. Two equal faces are the same
/// pixels, which is what lets an unchanged key go unwritten.
#[derive(Debug, Clone, PartialEq, Eq)]
pub struct Face {
    pub colour: Rgb,
    pub label: Label,
    pub ink: Ink,
}

/// A [`Face`], its words by their characters.
pub ghost struct Look {
    pub colour: Rgb,
    pub label: Saying,
    pub ink: Ink,
}

impl View for Face {
    type V = Look;

    open spec fn view(&self) -> Look {
        Look { colour: self.colour, label: self.label@, ink: self.ink }
    }
}

pub open spec fn looks(faces: Seq<Face>) -> Seq<Look> {
    Seq::new(faces.len(), |i: int| faces[i]@)
}

/// A key past the lanes: dark, wordless.
pub open spec fn bare() -> Look {
    Look { colour: black(), label: Saying::Blank, ink: Ink::Quiet }
}

impl Face {
    /// A key past the lanes: dark, wordless.
    pub fn blank() -> (face: Face)
        ensures
            face@ == bare(),
    {
        Face { colour: palette::off(), label: Label::Blank, ink: Ink::Quiet }
    }

    /// Whether two keys are told the same.
    pub fn same(&self, other: &Face) -> (r: bool)
        ensures
            r == (self@ == other@),
    {
        self.colour == other.colour && same_ink(self.ink, other.ink) && same_label(
            &self.label,
            &other.label,
        )
    }

    /// The same face once more.
    pub fn copy(&self) -> (face: Face)
        ensures
            face@ == self@,
    {
        let label = match &self.label {
            Label::Blank => Label::Blank,
            Label::Name(name) => Label::Name(name.clone()),
            Label::Status { state, elapsed } => Label::Status { state, elapsed: elapsed.clone() },
            Label::Wait { state, held } => Label::Wait { state, held: held.clone() },
            Label::Up => Label::Up,
            Label::Down => Label::Down,
            Label::Enter => Label::Enter,
            Label::Gauge { name, value } => Label::Gauge { name, value: *value },
        };
        Face { colour: self.colour, label, ink: self.ink }
    }
}

fn same_ink(left: Ink, right: Ink) -> (r: bool)
    ensures
        r == (left == right),
{
    left == right
}

fn same_value(left: Option<u8>, right: Option<u8>) -> (r: bool)
    ensures
        r == (left == right),
{
    match (left, right) {
        (Some(a), Some(b)) => a == b,
        (None, None) => true,
        _ => false,
    }
}

fn same_label(left: &Label, right: &Label) -> (r: bool)
    ensures
        r == (left@ == right@),
{
    match (left, right) {
        (Label::Blank, Label::Blank) => true,
        (Label::Name(a), Label::Name(b)) => text::same(a.as_str(), b.as_str()),
        (Label::Status { state: a, elapsed: c }, Label::Status { state: b, elapsed: d }) => {
            text::same(a, b) && text::same(c.as_str(), d.as_str())
        },
        (Label::Wait { state: a, held: c }, Label::Wait { state: b, held: d }) => text::same(a, b)
            && text::same(c.as_str(), d.as_str()),
        (Label::Up, Label::Up) => true,
        (Label::Down, Label::Down) => true,
        (Label::Enter, Label::Enter) => true,
        (Label::Gauge { name: a, value: c }, Label::Gauge { name: b, value: d }) => text::same(a, b)
            && same_value(*c, *d),
        _ => false,
    }
}

/// What a key in a row is for.
#[derive(Debug, Clone, Copy, PartialEq, Eq, Structural)]
pub enum Role {
    /// The first key: the lane's name.
    Name,
    /// The keys between, counted from the left.
    Middle(usize),
    /// The last key: the lane's state.
    Status,
}

pub open spec fn role_of(col: int, cols: int) -> Role {
    if col == 0 {
        Role::Name
    } else if col + 1 == cols {
        Role::Status
    } else {
        Role::Middle((col - 1) as usize)
    }
}

/// The role of column `col` in a row `cols` wide. On a row of one, the one
/// key is the name.
pub fn role(col: usize, cols: usize) -> (role: Role)
    ensures
        role == role_of(col as int, cols as int),
{
    if col == 0 {
        Role::Name
    } else if cols > 0 && col == cols - 1 {
        Role::Status
    } else {
        Role::Middle(col - 1)
    }
}

/// The colour of one key of a row: the F-row's, with the last key steadied —
/// the state key holds the lane's resting glow through Waiting's pulse,
/// Error's red and Done's marker.
pub open spec fn row_key(state: Option<State>, colour: Rgb, col: int, cols: int, elapsed_ms: u64) -> Rgb {
    if cols >= 2 && col == cols - 1 && (state == Some(State::Waiting) || state == Some(
        State::Error,
    ) || state == Some(State::Done)) {
        glow(colour)
    } else {
        lane_key(state, colour, col, cols, elapsed_ms)
    }
}

/// The colours of one row — the F-row's, with the last key steadied.
/// Everything else is the palette's.
pub fn row_colors(state: Option<State>, colour: Rgb, cols: usize, elapsed_ms: u64) -> (row: Vec<Rgb>)
    ensures
        row@ == Seq::new(
            cols as nat,
            |col: int| row_key(state, colour, col, cols as int, elapsed_ms),
        ),
{
    let mut row = palette::lane_colors(state, colour, cols, elapsed_ms);
    if cols >= 2 {
        match state {
            Some(State::Waiting) | Some(State::Error) | Some(State::Done) => {
                row.set(cols - 1, palette::base(colour));
            },
            _ => {},
        }
    }
    assert(row@ =~= Seq::new(
        cols as nat,
        |col: int| row_key(state, colour, col, cols as int, elapsed_ms),
    ));
    row
}

/// How many lanes a deck of `rows` rows shows.
pub open spec fn lanes_on(rows: int, lane_count: int) -> int {
    if rows < lane_count {
        rows
    } else {
        lane_count
    }
}

/// How many lanes a deck of `rows` rows shows: a lane is a row, and the
/// lanes past the last row are simply not on the deck.
pub fn shown_lanes(rows: usize, lane_count: usize) -> (r: usize)
    ensures
        r == lanes_on(rows as int, lane_count as int),
{
    if rows < lane_count {
        rows
    } else {
        lane_count
    }
}

/// The words for one lane.
#[derive(Debug, Clone, PartialEq, Eq)]
pub struct Caption {
    pub name: String,
    /// `None` for a lane with nobody on it.
    pub state: Option<&'static str>,
    /// How long the lane has been as it is — a stopwatch, or in Waiting a
    /// count of minutes. Empty for a preview and for an empty lane.
    pub elapsed: String,
    /// The numbers, for a lane with a session on it; a preview has none.
    pub gauges: Option<Gauges>,
    /// Why the lane is in Error, when it is and when it is known.
    pub reason: Option<String>,
}

/// A [`Caption`], its words by their characters.
pub ghost struct Words {
    pub name: Seq<char>,
    pub state: Option<Seq<char>>,
    pub elapsed: Seq<char>,
    pub gauges: Option<Gauges>,
    pub reason: Option<Seq<char>>,
}

impl View for Caption {
    type V = Words;

    open spec fn view(&self) -> Words {
        Words {
            name: self.name@,
            state: text::seen(self.state),
            elapsed: self.elapsed@,
            gauges: self.gauges,
            reason: text::shown(self.reason),
        }
    }
}

pub open spec fn wordings(captions: Seq<Caption>) -> Seq<Words> {
    Seq::new(captions.len(), |i: int| captions[i]@)
}

/// What an empty lane's name key says when the user has not named it: the
/// lowest free lane is where the next agent lands, and says so in three
/// words; the others are simply free. "Lane 2" told nobody anything.
pub const NEXT_HERE: &'static str = "next agent here";

pub const FREE: &'static str = "free";

/// Whether `lane` is the lowest with nobody on it.
pub open spec fn lowest_free(desk: Desk, lane: int) -> bool {
    &&& sitting(desk.sessions, lane as usize) is None
    &&& forall|other: int|
        0 <= other < lane ==> (#[trigger] sitting(desk.sessions, other as usize)) is Some
}

/// What is said of one lane.
pub open spec fn lane_words(desk: Desk, lane: int, now: u64) -> Words {
    match desk.preview {
        Some(preview) => Words {
            name: desk.settings.called(lane, None),
            state: Some(preview.state.title()),
            elapsed: Seq::<char>::empty(),
            gauges: None,
            reason: None,
        },
        None => match sitting(desk.sessions, lane as usize) {
            Some(at) => {
                let life = desk.sessions[at];
                Words {
                    name: desk.settings.called(lane, life.project()),
                    state: Some(life.shows().title()),
                    elapsed: clock_text(life.shows(), seconds(life.since, now)),
                    gauges: Some(life.gauges),
                    reason: life.failure,
                }
            },
            None => Words {
                name: if desk.settings.is_named(lane) {
                    desk.settings.called(lane, None)
                } else if lowest_free(desk, lane) {
                    "next agent here"@
                } else {
                    "free"@
                },
                state: None,
                elapsed: Seq::<char>::empty(),
                gauges: None,
                reason: None,
            },
        },
    }
}

/// One caption per lane: what the lane is called, the state it shows, and
/// how long it has shown it. A preview names every lane with its state and
/// no time, since it is not a session; an empty lane says what it is for —
/// or its name, if the user gave it one, since a saved agent may be on its
/// way back to it.
pub fn captions(tracker: &Tracker, now: u64) -> (captions: Vec<Caption>)
    ensures
        wordings(captions@) == Seq::new(
            tracker@.settings.lane_count as nat,
            |lane: int| lane_words(tracker@, lane, now),
        ),
{
    let settings = &tracker.settings;
    let mut captions: Vec<Caption> = Vec::new();
    let ghost desk = tracker@;
    let count: usize = settings.lane_count;
    let mut lane: usize = 0;
    let mut free_seen = false;
    while lane < count
        invariant
            lane <= count,
            desk == tracker@,
            settings@ == desk.settings,
            captions@.len() == lane,
            forall|i: int| 0 <= i < lane ==> (#[trigger] captions@[i])@ == lane_words(desk, i, now),
            free_seen == exists|i: int|
                0 <= i < lane && (#[trigger] sitting(desk.sessions, i as usize)) is None,
        decreases count - lane,
    {
        let caption: Caption = if let Some(preview) = tracker.preview {
            if tracker.on_lane(lane).is_none() {
                free_seen = true;
            }
            Caption {
                name: settings.display_name(lane, None),
                state: Some(preview.state.label()),
                elapsed: String::new(),
                gauges: None,
                reason: None,
            }
        } else {
            match tracker.on_lane(lane) {
                Some(session) => {
                    let project = session.project();
                    let known: Option<&str> = match &project {
                        Some(project) => Some(project.as_str()),
                        None => None,
                    };
                    let state = session.effective_state();
                    Caption {
                        name: settings.display_name(lane, known),
                        state: Some(state.label()),
                        elapsed: clock(state, session.since, now),
                        gauges: Some(session.gauges),
                        reason: text::copy_of(&session.failure),
                    }
                },
                None => {
                    let lowest: bool = !free_seen;
                    free_seen = true;
                    assert(lowest == lowest_free(desk, lane as int));
                    Caption {
                        name: if settings.named(lane) {
                            settings.display_name(lane, None)
                        } else if lowest {
                            "next agent here".to_owned()
                        } else {
                            "free".to_owned()
                        },
                        state: None,
                        elapsed: String::new(),
                        gauges: None,
                        reason: None,
                    }
                },
            }
        };
        assert(caption@ == lane_words(desk, lane as int, now));
        captions.push(caption);
        lane = lane + 1;
    }
    assert(wordings(captions@) =~= Seq::new(
        tracker@.settings.lane_count as nat,
        |lane: int| lane_words(tracker@, lane, now),
    ));
    captions
}

/// The places below `upto` that are down now and were not before.
pub open spec fn risen(before: Seq<bool>, after: Seq<bool>, upto: int) -> Seq<usize>
    decreases upto,
{
    if upto <= 0 {
        seq![]
    } else {
        let rest = risen(before, after, upto - 1);
        let key = upto - 1;
        if after[key] && !(key < before.len() && before[key]) {
            rest.push(key as usize)
        } else {
            rest
        }
    }
}

/// Which keys went down between two readings. A key held is not pressed
/// again, and a key released is nothing.
pub fn pressed(before: &Vec<bool>, after: &Vec<bool>) -> (keys: Vec<usize>)
    ensures
        keys@ == risen(before@, after@, after@.len() as int),
{
    let mut keys: Vec<usize> = Vec::new();
    let mut key: usize = 0;
    while key < after.len()
        invariant
            key <= after@.len(),
            keys@ == risen(before@, after@, key as int),
        decreases after@.len() - key,
    {
        if after[key] && !(key < before.len() && before[key]) {
            keys.push(key);
        }
        key = key + 1;
    }
    keys
}

/// The words of a key.
pub open spec fn key_label(state: Option<State>, words: Option<Words>, col: int, cols: int) -> Saying {
    let said: Option<Seq<char>> = match words {
        Some(words) => words.state,
        None => None,
    };
    let gauges: Option<Gauges> = match words {
        Some(words) => words.gauges,
        None => None,
    };
    let elapsed: Seq<char> = match words {
        Some(words) => words.elapsed,
        None => Seq::<char>::empty(),
    };
    let why: Option<Seq<char>> = match words {
        Some(words) => words.reason,
        None => None,
    };
    match role_of(col, cols) {
        Role::Name => Saying::Name(
            match words {
                Some(words) => words.name,
                None => Seq::<char>::empty(),
            },
        ),
        Role::Status => match said {
            None => Saying::Blank,
            Some(word) => match state {
                // Idle is one dim key and the rest off, words included.
                Some(State::Idle) => Saying::Blank,
                // In Error the second line is the reason, when there is one:
                // "rate limit" says more than how long ago.
                Some(State::Error) => Saying::Status {
                    state: word,
                    elapsed: match why {
                        Some(why) => why,
                        None => elapsed,
                    },
                },
                // In Waiting how long is the news: the count as the headline,
                // the word as its caption. A preview has no clock and keeps
                // the word alone.
                Some(State::Waiting) => if elapsed.len() > 0 {
                    Saying::Wait { state: word, held: elapsed }
                } else {
                    Saying::Status { state: word, elapsed }
                },
                _ => Saying::Status { state: word, elapsed },
            },
        },
        Role::Middle(index) => if state == Some(State::Waiting) && cols >= ANSWER_COLS {
            if index == 0 {
                Saying::Up
            } else if index == 1 {
                Saying::Down
            } else if index == 2 {
                Saying::Enter
            } else {
                Saying::Blank
            }
        } else {
            // The numbers, on the keys a narrow deck has: ctx alone on three
            // columns, all three on five or more. Idle shows nothing but its
            // name; a preview has no numbers to show.
            match (state, gauges) {
                (None, _) => Saying::Blank,
                (Some(State::Idle), _) => Saying::Blank,
                (_, None) => Saying::Blank,
                (_, Some(gauges)) => if index == 0 {
                    Saying::Gauge { name: "ctx"@, value: gauges.context_used }
                } else if index == 1 {
                    Saying::Gauge { name: "5h"@, value: gauges.five_hour }
                } else if index == 2 {
                    Saying::Gauge { name: "7d"@, value: gauges.seven_day }
                } else {
                    Saying::Blank
                },
            }
        },
    }
}

/// One key of a lane's row. A dark lane is labelled quietly; a lit one in the
/// ink chosen for its lane — steady, or fading with the key as the runner
/// crosses it, rather than vanishing into it.
pub open spec fn key_look(
    state: Option<State>,
    colour: Rgb,
    words: Option<Words>,
    elapsed_ms: u64,
    col: int,
    cols: int,
) -> Look {
    let shade = row_key(state, colour, col, cols, elapsed_ms);
    Look {
        colour: shade,
        label: key_label(state, words, col, cols),
        ink: if state is None || state == Some(State::Idle) {
            Ink::Quiet
        } else {
            ink_on(shade, colour)
        },
    }
}

pub open spec fn words_at(words: Seq<Words>, row: int) -> Option<Words> {
    if 0 <= row < words.len() {
        Some(words[row])
    } else {
        None
    }
}

/// The first `upto` rows of a deck, key by key: row `r` is lane `r`, and rows
/// past the lanes are blank.
pub open spec fn rows_look(
    states: Seq<Option<State>>,
    setup: Setup,
    elapsed_ms: u64,
    words: Seq<Words>,
    rows: int,
    cols: int,
    upto: int,
) -> Seq<Look>
    decreases upto,
{
    if upto <= 0 {
        seq![]
    } else {
        let row = upto - 1;
        rows_look(states, setup, elapsed_ms, words, rows, cols, upto - 1) + Seq::new(
            cols as nat,
            |col: int|
                if row < lanes_on(rows, setup.lane_count as int) {
                    key_look(
                        state_at(states, row),
                        color_at(setup, row),
                        words_at(words, row),
                        elapsed_ms,
                        col,
                        cols,
                    )
                } else {
                    bare()
                },
        )
    }
}

fn label_of(state: Option<State>, caption: Option<&Caption>, col: usize, cols: usize) -> (label:
    Label)
    ensures
        label@ == key_label(
            state,
            match caption {
                Some(caption) => Some(caption@),
                None => None,
            },
            col as int,
            cols as int,
        ),
{
    match role(col, cols) {
        Role::Name => Label::Name(
            match caption {
                Some(caption) => caption.name.clone(),
                None => String::new(),
            },
        ),
        Role::Status => {
            let caption = match caption {
                Some(caption) => caption,
                None => return Label::Blank,
            };
            let word = match caption.state {
                Some(word) => word,
                None => return Label::Blank,
            };
            match state {
                Some(State::Idle) => Label::Blank,
                Some(State::Error) => Label::Status {
                    state: word,
                    elapsed: match &caption.reason {
                        Some(why) => why.clone(),
                        None => caption.elapsed.clone(),
                    },
                },
                Some(State::Waiting) => if !caption.elapsed.as_str().is_empty() {
                    Label::Wait { state: word, held: caption.elapsed.clone() }
                } else {
                    Label::Status { state: word, elapsed: caption.elapsed.clone() }
                },
                _ => Label::Status { state: word, elapsed: caption.elapsed.clone() },
            }
        },
        Role::Middle(index) => {
            let lane = match state {
                Some(lane) => lane,
                None => return Label::Blank,
            };
            if lane == State::Waiting && cols >= ANSWER_COLS {
                return match index {
                    0 => Label::Up,
                    1 => Label::Down,
                    2 => Label::Enter,
                    _ => Label::Blank,
                };
            }
            if lane == State::Idle {
                return Label::Blank;
            }
            let gauges: Option<Gauges> = match caption {
                Some(caption) => caption.gauges,
                None => None,
            };
            match (gauges, index) {
                (Some(gauges), 0) => Label::Gauge { name: "ctx", value: gauges.context_used },
                (Some(gauges), 1) => Label::Gauge { name: "5h", value: gauges.five_hour },
                (Some(gauges), 2) => Label::Gauge { name: "7d", value: gauges.seven_day },
                _ => Label::Blank,
            }
        },
    }
}

/// What every key should show, row-major: row `r` is lane `r`, its keys
/// coloured by [`row_colors`] and labelled by role — the name first, the
/// state over how long last (in Waiting, how long over the state), and
/// between them the lane's numbers: context used, the five-hour limit, the
/// seven-day limit — except in Waiting, where those three carry the answers
/// instead. Rows past the lanes are blank.
pub fn faces(frame: &Frame<'_>, captions: &Vec<Caption>, rows: usize, cols: usize) -> (faces: Vec<
    Face,
>)
    ensures
        looks(faces@) == rows_look(
            frame.states@,
            frame.settings@,
            frame.elapsed_ms,
            wordings(captions@),
            rows as int,
            cols as int,
            rows as int,
        ),
{
    let settings = frame.settings;
    let shown: usize = shown_lanes(rows, settings.lane_count);
    let ghost words = wordings(captions@);
    let ghost states = frame.states@;
    let ghost setup = settings@;
    let mut faces: Vec<Face> = Vec::new();
    let mut row: usize = 0;
    assert(looks(faces@) =~= seq![]);
    while row < rows
        invariant
            row <= rows,
            settings@ == setup,
            shown == lanes_on(rows as int, setup.lane_count as int),
            words == wordings(captions@),
            states == frame.states@,
            looks(faces@) == rows_look(
                states,
                setup,
                frame.elapsed_ms,
                words,
                rows as int,
                cols as int,
                row as int,
            ),
        decreases rows - row,
    {
        let ghost above = looks(faces@);
        let lit: bool = row < shown;
        let colour = palette::color_of(settings, row);
        let state = palette::state_of(frame.states, row);
        let caption: Option<&Caption> = if row < captions.len() {
            Some(&captions[row])
        } else {
            None
        };
        let ghost said = words_at(words, row as int);
        assert(said == (match caption {
            Some(caption) => Some(caption@),
            None => None,
        }));
        let colours = row_colors(state, colour, cols, frame.elapsed_ms);
        let ghost line = Seq::new(
            cols as nat,
            |col: int|
                if row < lanes_on(rows as int, setup.lane_count as int) {
                    key_look(
                        state_at(states, row as int),
                        color_at(setup, row as int),
                        words_at(words, row as int),
                        frame.elapsed_ms,
                        col,
                        cols as int,
                    )
                } else {
                    bare()
                },
        );
        let mut col: usize = 0;
        assert(above + line.take(0) =~= above);
        while col < cols
            invariant
                col <= cols,
                row < rows,
                lit == (row < shown),
                shown == lanes_on(rows as int, setup.lane_count as int),
                colour == color_at(setup, row as int),
                state == state_at(states, row as int),
                said == words_at(words, row as int),
                said == (match caption {
                    Some(caption) => Some(caption@),
                    None => None,
                }),
                colours@ == Seq::new(
                    cols as nat,
                    |col: int| row_key(state, colour, col, cols as int, frame.elapsed_ms),
                ),
                line == Seq::new(
                    cols as nat,
                    |col: int|
                        if row < lanes_on(rows as int, setup.lane_count as int) {
                            key_look(
                                state_at(states, row as int),
                                color_at(setup, row as int),
                                words_at(words, row as int),
                                frame.elapsed_ms,
                                col,
                                cols as int,
                            )
                        } else {
                            bare()
                        },
                ),
                looks(faces@) =~= above + line.take(col as int),
            decreases cols - col,
        {
            let ghost before = faces@;
            let face: Face = if lit {
                let shade = colours[col];
                let ink = match state {
                    None | Some(State::Idle) => Ink::Quiet,
                    Some(_) => Ink::on(shade, colour),
                };
                Face { colour: shade, label: label_of(state, caption, col, cols), ink }
            } else {
                Face::blank()
            };
            assert(face@ == line[col as int]);
            faces.push(face);
            assert(looks(faces@) =~= looks(before).push(face@));
            assert(line.take(col + 1) =~= line.take(col as int).push(line[col as int]));
            col = col + 1;
        }
        assert(line.take(cols as int) =~= line);
        row = row + 1;
    }
    faces
}

/// What a key of a deck means; nothing past the lanes.
pub open spec fn deck_press(key: int, cols: int, shown: int, waiting: bool) -> Option<Press> {
    let wide = if cols < 1 {
        1
    } else {
        cols
    };
    let row = key / wide;
    let col = key % wide;
    if row >= shown {
        None
    } else if waiting && wide >= ANSWER_COLS && col == 1 {
        Some(Press::Answer(row as usize, Key::Up))
    } else if waiting && wide >= ANSWER_COLS && col == 2 {
        Some(Press::Answer(row as usize, Key::Down))
    } else if waiting && wide >= ANSWER_COLS && col == 3 {
        Some(Press::Answer(row as usize, Key::Enter))
    } else {
        Some(Press::Summon(row as usize))
    }
}

/// What pressing `key` on a deck `cols` wide means, with `shown` lanes on it
/// and the pressed row's lane `waiting` or not. Every key of a row summons
/// its lane; in Waiting the three after the name answer instead. A key past
/// the lanes is nothing. The same [`Press`] the F-row's keys speak.
pub fn press_of(key: usize, cols: usize, shown: usize, waiting: bool) -> (press: Option<Press>)
    ensures
        press == deck_press(key as int, cols as int, shown as int, waiting),
{
    let wide: usize = if cols < 1 { 1 } else { cols };
    let row: usize = key / wide;
    let col: usize = key % wide;
    if row >= shown {
        return None;
    }
    if waiting && wide >= ANSWER_COLS {
        match col {
            1 => return Some(Press::Answer(row, Key::Up)),
            2 => return Some(Press::Answer(row, Key::Down)),
            3 => return Some(Press::Answer(row, Key::Enter)),
            _ => {},
        }
    }
    Some(Press::Summon(row))
}

/// What the first `upto` of the keys that went down mean.
pub open spec fn presses_of(
    desk: Desk,
    keys: Seq<usize>,
    rows: int,
    cols: int,
    upto: int,
) -> Seq<Press>
    decreases upto,
{
    if upto <= 0 {
        seq![]
    } else {
        let rest = presses_of(desk, keys, rows, cols, upto - 1);
        let key = keys[upto - 1] as int;
        let wide = if cols < 1 {
            1
        } else {
            cols
        };
        match deck_press(
            key,
            cols,
            lanes_on(rows, desk.settings.lane_count as int),
            desk.answerable((key / wide) as usize),
        ) {
            Some(press) => rest.push(press),
            None => rest,
        }
    }
}

/// What the keys that went down on a deck mean, in order.
pub fn presses(tracker: &Tracker, keys: &Vec<usize>, rows: usize, cols: usize) -> (presses: Vec<
    Press,
>)
    ensures
        presses@ == presses_of(tracker@, keys@, rows as int, cols as int, keys@.len() as int),
{
    let shown: usize = shown_lanes(rows, tracker.settings.lane_count);
    let wide: usize = if cols < 1 { 1 } else { cols };
    let mut out: Vec<Press> = Vec::new();
    let mut i: usize = 0;
    while i < keys.len()
        invariant
            i <= keys@.len(),
            wide == (if cols < 1 { 1usize } else { cols }),
            shown == lanes_on(rows as int, tracker@.settings.lane_count as int),
            out@ == presses_of(tracker@, keys@, rows as int, cols as int, i as int),
        decreases keys@.len() - i,
    {
        let key: usize = keys[i];
        if let Some(press) = press_of(key, cols, shown, tracker.answerable(key / wide)) {
            out.push(press);
        }
        i = i + 1;
    }
    out
}

pub open spec fn lanes_text(from: nat, to: nat) -> Seq<char> {
    if from == to {
        "lane "@ + decimal(from)
    } else {
        "lanes "@ + decimal(from) + "–"@ + decimal(to)
    }
}

/// What a deck shows: the model, the lanes on it and the keys each has — and,
/// when the lane count runs past the rows, the lanes that are not on it.
pub open spec fn layout_text(model: Seq<char>, rows: int, cols: nat, lane_count: nat) -> Seq<char> {
    let shown = lanes_on(rows, lane_count as int) as nat;
    let known = model + ": "@ + decimal(shown) + " lane"@ + (if shown == 1 {
        ""@
    } else {
        "s"@
    }) + " of "@ + decimal(cols) + " keys"@;
    if lane_count > shown {
        known + ", "@ + lanes_text(shown + 1, lane_count) + " "@ + (if lane_count - shown == 1 {
            "is"@
        } else {
            "are"@
        }) + " not on it"@
    } else {
        known
    }
}

/// What a deck shows, for the window. The serial is `doctor`'s business, not
/// the window's.
pub fn layout_sentence(found: &Found, lane_count: usize) -> (sentence: String)
    ensures
        sentence@ == layout_text(
            found.model@,
            found.rows as int,
            found.cols as nat,
            lane_count as nat,
        ),
{
    let shown: usize = shown_lanes(found.rows, lane_count);
    let mut sentence = found.model.clone();
    sentence.push_str(": ");
    sentence.push_str(text::number(shown as u64).as_str());
    sentence.push_str(" lane");
    sentence.push_str(if shown == 1 { "" } else { "s" });
    sentence.push_str(" of ");
    sentence.push_str(text::number(found.cols as u64).as_str());
    sentence.push_str(" keys");
    if lane_count > shown {
        let mut range = String::new();
        if shown + 1 == lane_count {
            range = "lane ".to_owned();
            range.push_str(text::number(lane_count as u64).as_str());
        } else {
            range = "lanes ".to_owned();
            range.push_str(text::number(shown as u64 + 1).as_str());
            range.push_str("–");
            range.push_str(text::number(lane_count as u64).as_str());
        }
        assert(range@ =~= lanes_text((shown + 1) as nat, lane_count as nat));
        sentence.push_str(", ");
        sentence.push_str(range.as_str());
        sentence.push_str(" ");
        sentence.push_str(if lane_count - shown == 1 { "is" } else { "are" });
        sentence.push_str(" not on it");
    }
    sentence
}

/// A brightness as the deck takes it: a whole percentage, and no more than all
/// of it.
pub open spec fn percent_of(tuning: Tuning) -> u8 {
    channel(product(at_most_one(fraction(tuning.brightness)), 100 * one()))
}

/// The deck's backlight for a device's tuning, in whole percent.
pub fn percent(tuning: Tuning) -> (r: u8)
    ensures
        r == percent_of(tuning),
        r <= 100,
{
    assert(1 * one() == one());
    let share = single::fraction_of(tuning.brightness).min(single::whole(1));
    proof {
        let all = of_channel(100);
        single::product_ordered(share@, all, one(), all);
        single::channel_back(100);
        single::product_one(all);
        single::channel_ordered(product(share@, all), all);
    }
    share.times(single::whole(100)).channel()
}

/// What the window is told of the deck, when the lane count is not the one it
/// was last told about — the sentence depends on nothing else that can change.
pub fn layout_report(found: &Found, lane_count: usize, reported: Option<usize>) -> (status: Option<
    KeyboardStatus,
>)
    requires
        found.rows * found.cols <= usize::MAX,
    ensures
        match status {
            Some(status) => {
                &&& reported != Some(lane_count)
                &&& status@.surface == "Stream Deck"@
                &&& status@.connected
                &&& status@.driven == lanes_on(found.rows as int, lane_count as int) * (
                if found.cols < 1 {
                    1
                } else {
                    found.cols as int
                })
                &&& status@.detail == layout_text(
                    found.model@,
                    found.rows as int,
                    found.cols as nat,
                    lane_count as nat,
                )
            },
            None => reported == Some(lane_count),
        },
{
    if let Some(told) = reported {
        if told == lane_count {
            return None;
        }
    }
    let shown: usize = shown_lanes(found.rows, lane_count);
    let wide: usize = if found.cols < 1 { 1 } else { found.cols };
    proof {
        assert(0 <= shown * wide <= usize::MAX) by {
            if found.cols >= 1 {
                assert(shown * wide <= found.rows * found.cols) by (nonlinear_arith)
                    requires
                        0 <= shown <= found.rows,
                        wide == found.cols,
                        1 <= wide,
                ;
                assert(0 <= shown * wide) by (nonlinear_arith)
                    requires
                        0 <= shown,
                        0 <= wide,
                ;
            } else {
                assert(shown * wide == shown) by (nonlinear_arith)
                    requires
                        wide == 1,
                ;
            }
        }
    }
    Some(KeyboardStatus::driving("Stream Deck", layout_sentence(found, lane_count), shown * wide))
}

/// A face a key may have been told.
pub open spec fn look_of(face: Option<Face>) -> Option<Look> {
    match face {
        Some(face) => Some(face@),
        None => None,
    }
}

pub open spec fn known_looks(shown: Seq<Option<Face>>) -> Seq<Option<Look>> {
    Seq::new(shown.len(), |i: int| look_of(shown[i]))
}

/// Whether a key has to be told something new.
pub open spec fn is_stale(shown: Seq<Option<Look>>, wanted: Seq<Look>, key: int) -> bool {
    !(key < shown.len() && shown[key] == Some(wanted[key]))
}

/// The keys below `upto` that have to be told something new.
pub open spec fn stale_keys(shown: Seq<Option<Look>>, wanted: Seq<Look>, upto: int) -> Seq<usize>
    decreases upto,
{
    if upto <= 0 {
        seq![]
    } else {
        let rest = stale_keys(shown, wanted, upto - 1);
        if is_stale(shown, wanted, upto - 1) {
            rest.push((upto - 1) as usize)
        } else {
            rest
        }
    }
}

/// Which keys have to be drawn: those whose face differs from what they were
/// last told. `shown` is what the deck has, `None` for a key it has never been
/// told about.
pub fn stale(shown: &Vec<Option<Face>>, wanted: &Vec<Face>) -> (keys: Vec<usize>)
    ensures
        keys@ == stale_keys(known_looks(shown@), looks(wanted@), wanted@.len() as int),
        forall|j: int| 0 <= j < keys@.len() ==> (#[trigger] keys@[j]) < wanted@.len(),
{
    let ghost had = known_looks(shown@);
    let ghost want = looks(wanted@);
    let mut keys: Vec<usize> = Vec::new();
    let mut key: usize = 0;
    while key < wanted.len()
        invariant
            key <= wanted@.len(),
            had == known_looks(shown@),
            want == looks(wanted@),
            keys@ == stale_keys(had, want, key as int),
            forall|j: int| 0 <= j < keys@.len() ==> (#[trigger] keys@[j]) < key,
        decreases wanted@.len() - key,
    {
        assert(want[key as int] == wanted@[key as int]@);
        let mut same = false;
        if key < shown.len() {
            assert(had[key as int] == look_of(shown@[key as int]));
            if let Some(face) = &shown[key] {
                same = face.same(&wanted[key]);
            }
        }
        if !same {
            keys.push(key);
        }
        key = key + 1;
    }
    keys
}

/// The picture of each of `keys`: of the face it is wanted to show, drawn at the
/// deck's own size with the pen that is its.
pub open spec fn pictures_of(
    size: (usize, usize),
    wanted: Seq<Look>,
    keys: Seq<usize>,
    pens: Seq<Pen>,
) -> Seq<Picture> {
    Seq::new(
        keys.len(),
        |j: int|
            {
                let look = wanted[keys[j] as int];
                face_picture(size, look.colour, look.label, look.ink, pens[j])
            },
    )
}

/// Whether every one of `keys` can be drawn at that size.
pub open spec fn all_drawable(
    size: (usize, usize),
    wanted: Seq<Look>,
    keys: Seq<usize>,
) -> bool {
    forall|j: int|
        0 <= j < keys.len() ==> can_draw(size, wanted[(#[trigger] keys[j]) as int].label)
}

/// What a deck is told when the first `upto` of `keys` are painted.
pub open spec fn paintings(keys: Seq<usize>, pictures: Seq<Picture>, upto: int) -> Seq<Told> {
    Seq::new(
        upto as nat,
        |j: int|
            Told::Paint { key: (keys[j] % 256) as u8, picture: pictures[j], refusal: None },
    )
}

/// What is known of the keys once the first `upto` of `keys` were painted.
pub open spec fn brought_up(
    shown: Seq<Option<Look>>,
    wanted: Seq<Look>,
    keys: Seq<usize>,
    upto: int,
) -> Seq<Option<Look>>
    decreases upto,
{
    if upto <= 0 {
        shown
    } else {
        let before = brought_up(shown, wanted, keys, upto - 1);
        let key = keys[upto - 1] as int;
        if key < before.len() {
            before.update(key, Some(wanted[key]))
        } else {
            before
        }
    }
}

/// Whether the deck took every picture, and the flush if there was any.
pub open spec fn all_took(
    was: Seq<Told>,
    now: Seq<Told>,
    keys: Seq<usize>,
    pictures: Seq<Picture>,
) -> bool {
    now == was + paintings(keys, pictures, keys.len() as int) + (if keys.len() > 0 {
        seq![Told::Flush { refusal: None }]
    } else {
        seq![]
    })
}

/// Whether the deck took the first `upto` pictures and then refused, for
/// `reason`: the next picture, or, after the last, the flush.
pub open spec fn broke_off(
    was: Seq<Told>,
    now: Seq<Told>,
    keys: Seq<usize>,
    pictures: Seq<Picture>,
    upto: int,
    reason: Seq<char>,
) -> bool {
    now == was + paintings(keys, pictures, upto) + seq![
        if upto < keys.len() {
            Told::Paint {
                key: (keys[upto] % 256) as u8,
                picture: pictures[upto],
                refusal: Some(reason),
            }
        } else {
            Told::Flush { refusal: Some(reason) }
        },
    ]
}

/// Whether the deck refused somewhere, for `reason`, and what is known of the
/// keys is what it took before that.
pub open spec fn stopped(
    was: Seq<Told>,
    now: Seq<Told>,
    keys: Seq<usize>,
    pictures: Seq<Picture>,
    had: Seq<Option<Look>>,
    wanted: Seq<Look>,
    known: Seq<Option<Look>>,
    reason: Seq<char>,
) -> bool {
    keys.len() > 0 && exists|upto: int|
        0 <= upto <= keys.len() && #[trigger] broke_off(was, now, keys, pictures, upto, reason)
            && known == brought_up(had, wanted, keys, upto)
}

/// Writes every key whose face differs from what it was last told, and
/// flushes if any did; `pens` are theirs, in the order [`stale`] names them.
/// `shown` is brought up to date as it goes. Returns how many keys were
/// written.
pub fn paint_changed<D: Deck>(
    deck: &mut D,
    shown: &mut Vec<Option<Face>>,
    wanted: &Vec<Face>,
    pens: &Vec<Pen>,
) -> (r: Result<usize, String>)
    requires
        pens@.len() == stale_keys(
            known_looks(old(shown)@),
            looks(wanted@),
            wanted@.len() as int,
        ).len(),
        all_drawable(
            old(deck).size(),
            looks(wanted@),
            stale_keys(known_looks(old(shown)@), looks(wanted@), wanted@.len() as int),
        ),
    ensures
        ({
            let had = known_looks(old(shown)@);
            let keys = stale_keys(had, looks(wanted@), wanted@.len() as int);
            let pictures = pictures_of(old(deck).size(), looks(wanted@), keys, pens@);
            match r {
                Ok(written) => {
                    &&& written == keys.len()
                    &&& all_took(old(deck).told(), final(deck).told(), keys, pictures)
                    &&& known_looks(final(shown)@) == brought_up(
                        had,
                        looks(wanted@),
                        keys,
                        keys.len() as int,
                    )
                },
                Err(reason) => stopped(
                    old(deck).told(),
                    final(deck).told(),
                    keys,
                    pictures,
                    had,
                    looks(wanted@),
                    known_looks(final(shown)@),
                    reason@,
                ),
            }
        }),
{
    let ghost had = known_looks(shown@);
    let ghost want = looks(wanted@);
    let ghost was = deck.told();
    let size = deck.key_size();
    let keys = stale(shown, wanted);
    let ghost pictures = pictures_of(size, want, keys@, pens@);
    let mut j: usize = 0;
    assert(was + paintings(keys@, pictures, 0) =~= was);
    while j < keys.len()
        invariant
            j <= keys@.len(),
            keys@.len() == pens@.len(),
            size == old(deck).size(),
            want == looks(wanted@),
            had == known_looks(old(shown)@),
            was == old(deck).told(),
            keys@ == stale_keys(had, want, wanted@.len() as int),
            pictures == pictures_of(size, want, keys@, pens@),
            all_drawable(size, want, keys@),
            forall|k: int| 0 <= k < keys@.len() ==> (#[trigger] keys@[k]) < wanted@.len(),
            deck.told() == was + paintings(keys@, pictures, j as int),
            known_looks(shown@) == brought_up(had, want, keys@, j as int),
        decreases keys@.len() - j,
    {
        let key: usize = keys[j];
        let face = &wanted[key];
        assert(want[key as int] == face@);
        assert(can_draw(size, want[keys@[j as int] as int].label));
        let picture = draw_key(size, face.colour, &face.label, face.ink, &pens[j]);
        assert(picture@ == pictures[j as int]);
        let told = deck.paint((key % 256) as u8, &picture);
        if let Err(reason) = told {
            assert(deck.told() =~= was + paintings(keys@, pictures, j as int) + seq![
                Told::Paint {
                    key: (keys@[j as int] % 256) as u8,
                    picture: pictures[j as int],
                    refusal: Some(reason@),
                },
            ]);
            assert(broke_off(was, deck.told(), keys@, pictures, j as int, reason@));
            assert(stopped(
                was,
                deck.told(),
                keys@,
                pictures,
                had,
                want,
                known_looks(shown@),
                reason@,
            ));
            return Err(reason);
        }
        assert(deck.told() =~= was + paintings(keys@, pictures, j + 1));
        let ghost before = shown@;
        if key < shown.len() {
            shown.set(key, Some(wanted[key].copy()));
            assert(known_looks(shown@) =~= known_looks(before).update(
                key as int,
                Some(want[key as int]),
            ));
        }
        j = j + 1;
    }
    if keys.len() > 0 {
        let flushed = deck.flush();
        if let Err(reason) = flushed {
            assert(deck.told() =~= was + paintings(keys@, pictures, j as int) + seq![
                Told::Flush { refusal: Some(reason@) },
            ]);
            assert(broke_off(was, deck.told(), keys@, pictures, j as int, reason@));
            assert(stopped(
                was,
                deck.told(),
                keys@,
                pictures,
                had,
                want,
                known_looks(shown@),
                reason@,
            ));
            return Err(reason);
        }
        assert(deck.told() =~= was + paintings(keys@, pictures, j as int) + seq![
            Told::Flush { refusal: None },
        ]);
    } else {
        assert(deck.told() =~= was + paintings(keys@, pictures, 0) + seq![]);
    }
    Ok(keys.len())
}

/// **An unchanged key goes unwritten**: once a deck has taken what it was
/// wanted to show, showing the same again writes nothing.
pub proof fn an_unchanged_deck_is_written_once(
    shown: Seq<Option<Look>>,
    wanted: Seq<Look>,
    key: int,
)
    requires
        wanted.len() <= shown.len(),
        wanted.len() <= usize::MAX,
        0 <= key < wanted.len(),
    ensures
        ({
            let keys = stale_keys(shown, wanted, wanted.len() as int);
            let after = brought_up(shown, wanted, keys, keys.len() as int);
            &&& after[key] == Some(wanted[key])
            &&& !is_stale(after, wanted, key)
        }),
{
    let keys = stale_keys(shown, wanted, wanted.len() as int);
    stale_are_named(shown, wanted, wanted.len() as int, key);
    brought_up_says(shown, wanted, keys, keys.len() as int, key);
    assert(keys.take(keys.len() as int) =~= keys);
}

proof fn stale_are_named(shown: Seq<Option<Look>>, wanted: Seq<Look>, upto: int, key: int)
    requires
        0 <= key < upto <= wanted.len() <= usize::MAX,
    ensures
        is_stale(shown, wanted, key) ==> stale_keys(shown, wanted, upto).contains(key as usize),
    decreases upto,
{
    let now = stale_keys(shown, wanted, upto);
    let before = stale_keys(shown, wanted, upto - 1);
    if is_stale(shown, wanted, key) {
        if key == upto - 1 {
            assert(now[now.len() - 1] == key as usize);
        } else {
            stale_are_named(shown, wanted, upto - 1, key);
            let k = choose|k: int| 0 <= k < before.len() && before[k] == key as usize;
            assert(now[k] == key as usize);
        }
    }
}

proof fn brought_up_says(
    shown: Seq<Option<Look>>,
    wanted: Seq<Look>,
    keys: Seq<usize>,
    upto: int,
    key: int,
)
    requires
        0 <= key < shown.len(),
        key <= usize::MAX,
        0 <= upto <= keys.len(),
    ensures
        brought_up(shown, wanted, keys, upto).len() == shown.len(),
        brought_up(shown, wanted, keys, upto)[key] == (if keys.take(upto).contains(key as usize) {
            Some(wanted[key])
        } else {
            shown[key]
        }),
    decreases upto,
{
    if upto > 0 {
        brought_up_says(shown, wanted, keys, upto - 1, key);
        let less = keys.take(upto - 1);
        let more = keys.take(upto);
        assert(more =~= less.push(keys[upto - 1]));
        if more.contains(key as usize) && keys[upto - 1] != key as usize {
            let k = choose|k: int| 0 <= k < more.len() && more[k] == key as usize;
            assert(less[k] == key as usize);
        }
        if less.contains(key as usize) {
            let k = choose|k: int| 0 <= k < less.len() && less[k] == key as usize;
            assert(more[k] == key as usize);
        }
        if keys[upto - 1] == key as usize {
            assert(more[upto - 1] == key as usize);
        }
    } else {
        assert(keys.take(0) =~= seq![]);
    }
}

/// **A deck answers only a lane that is waiting**, and only where a row has
/// room for the three answers.
pub proof fn a_deck_answers_only_a_waiting_lane(
    desk: Desk,
    keys: Seq<usize>,
    rows: int,
    cols: int,
    upto: int,
    i: int,
)
    requires
        0 <= upto <= keys.len(),
        0 <= i < presses_of(desk, keys, rows, cols, upto).len(),
    ensures
        presses_of(desk, keys, rows, cols, upto)[i] matches Press::Answer(lane, _)
            ==> desk.answerable(lane) && cols >= ANSWER_COLS,
    decreases upto,
{
    if upto > 0 {
        let rest = presses_of(desk, keys, rows, cols, upto - 1);
        if i < rest.len() {
            a_deck_answers_only_a_waiting_lane(desk, keys, rows, cols, upto - 1, i);
        }
    }
}

proof fn stale_count_up(shown: Seq<Option<Look>>, wanted: Seq<Look>, upto: int)
    requires
        0 <= upto <= wanted.len() <= usize::MAX,
    ensures
        forall|j: int|
            0 <= j < stale_keys(shown, wanted, upto).len() ==> {
                let key = #[trigger] stale_keys(shown, wanted, upto)[j];
                key < upto && is_stale(shown, wanted, key as int)
            },
        forall|i: int, j: int|
            0 <= i < j < stale_keys(shown, wanted, upto).len() ==> #[trigger] stale_keys(
                shown,
                wanted,
                upto,
            )[i] < #[trigger] stale_keys(shown, wanted, upto)[j],
    decreases upto,
{
    if upto > 0 {
        stale_count_up(shown, wanted, upto - 1);
        let before = stale_keys(shown, wanted, upto - 1);
        let now = stale_keys(shown, wanted, upto);
        assert forall|j: int| 0 <= j < now.len() implies {
            let key = #[trigger] now[j];
            key < upto && is_stale(shown, wanted, key as int)
        } by {
            if j < before.len() {
                assert(now[j] == before[j]);
            }
        }
        assert forall|i: int, j: int| 0 <= i < j < now.len() implies #[trigger] now[i]
            < #[trigger] now[j] by {
            assert(now[i] == before[i]);
            if j < before.len() {
                assert(now[j] == before[j]);
            }
        }
    }
}

/// **Only what changed is written, and it is the picture of what is wanted**:
/// once a deck took everything, it was told — in the order of its keys — of
/// exactly those whose face differs, each the picture of its face at the deck's
/// own size, and then once to show them; nothing at all when none differs. Every
/// key is then known to show what was wanted, and no other is touched.
pub proof fn only_what_changed_is_written(
    shown: Seq<Option<Look>>,
    wanted: Seq<Look>,
    size: (usize, usize),
    pens: Seq<Pen>,
    was: Seq<Told>,
    now: Seq<Told>,
)
    requires
        wanted.len() <= shown.len(),
        wanted.len() <= 256,
        ({
            let keys = stale_keys(shown, wanted, wanted.len() as int);
            all_took(was, now, keys, pictures_of(size, wanted, keys, pens))
        }),
    ensures
        ({
            let keys = stale_keys(shown, wanted, wanted.len() as int);
            let after = brought_up(shown, wanted, keys, keys.len() as int);
            &&& forall|i: int, j: int|
                0 <= i < j < keys.len() ==> #[trigger] keys[i] < #[trigger] keys[j]
            &&& forall|k: int|
                0 <= k < wanted.len() ==> (#[trigger] keys.contains(k as usize) <==> shown[k] != Some(
                    wanted[k],
                ))
            &&& now.len() == was.len() + keys.len() + (if keys.len() > 0 {
                1int
            } else {
                0
            })
            &&& now.take(was.len() as int) == was
            &&& forall|j: int|
                0 <= j < keys.len() ==> {
                    let look = wanted[(#[trigger] keys[j]) as int];
                    now[was.len() + j] == (Told::Paint {
                        key: keys[j] as u8,
                        picture: face_picture(size, look.colour, look.label, look.ink, pens[j]),
                        refusal: None,
                    })
                }
            &&& keys.len() > 0 ==> now.last() == (Told::Flush { refusal: None })
            &&& after.len() == shown.len()
            &&& forall|k: int|
                0 <= k < wanted.len() ==> #[trigger] after[k] == Some(wanted[k])
            &&& forall|k: int|
                wanted.len() <= k < shown.len() && k <= usize::MAX ==> #[trigger] after[k]
                    == shown[k]
        }),
{
    let upto = wanted.len() as int;
    let keys = stale_keys(shown, wanted, upto);
    let after = brought_up(shown, wanted, keys, keys.len() as int);
    stale_count_up(shown, wanted, upto);
    assert forall|k: int| 0 <= k < wanted.len() implies (#[trigger] keys.contains(k as usize) <==> shown[k]
        != Some(wanted[k])) by {
        stale_are_named(shown, wanted, upto, k);
    }
    assert(now.take(was.len() as int) =~= was);
    assert(keys.take(keys.len() as int) =~= keys);
    assert forall|k: int| 0 <= k < wanted.len() implies #[trigger] after[k] == Some(wanted[k]) by {
        brought_up_says(shown, wanted, keys, keys.len() as int, k);
        assert(keys.contains(k as usize) <==> shown[k] != Some(wanted[k]));
    }
    assert forall|k: int| wanted.len() <= k < shown.len() && k <= usize::MAX implies #[trigger] after[k]
        == shown[k] by {
        brought_up_says(shown, wanted, keys, keys.len() as int, k);
    }
    same_number(shown, wanted, keys, keys.len() as int);
}

proof fn same_number(shown: Seq<Option<Look>>, wanted: Seq<Look>, keys: Seq<usize>, upto: int)
    ensures
        brought_up(shown, wanted, keys, upto).len() == shown.len(),
    decreases upto,
{
    if upto > 0 {
        same_number(shown, wanted, keys, upto - 1);
    }
}

proof fn where_a_face_stands(
    states: Seq<Option<State>>,
    setup: Setup,
    elapsed_ms: u64,
    words: Seq<Words>,
    rows: int,
    cols: int,
    upto: int,
    row: int,
    col: int,
)
    requires
        0 <= col < cols,
        0 <= row < upto,
    ensures
        rows_look(states, setup, elapsed_ms, words, rows, cols, upto).len() == upto * cols,
        0 <= row * cols + col < upto * cols,
        rows_look(states, setup, elapsed_ms, words, rows, cols, upto)[row * cols + col] == (if row
            < rows && row < setup.lane_count {
            key_look(
                state_at(states, row),
                color_at(setup, row),
                words_at(words, row),
                elapsed_ms,
                col,
                cols,
            )
        } else {
            bare()
        }),
    decreases upto,
{
    let before = rows_look(states, setup, elapsed_ms, words, rows, cols, upto - 1);
    assert(upto * cols == (upto - 1) * cols + cols && row * cols + col < upto * cols && row * cols
        >= 0) by (nonlinear_arith)
        requires
            0 <= col < cols,
            0 <= row < upto,
    ;
    if upto > 1 {
        where_a_face_stands(
            states,
            setup,
            elapsed_ms,
            words,
            rows,
            cols,
            upto - 1,
            if row < upto - 1 {
                row
            } else {
                0
            },
            col,
        );
    } else {
        assert(before.len() == 0);
        assert((upto - 1) * cols == 0) by (nonlinear_arith)
            requires
                upto == 1,
        ;
    }
    assert(before.len() == (upto - 1) * cols);
    if row == upto - 1 {
        assert(row * cols + col - before.len() == col);
    } else {
        assert(row * cols + col < (upto - 1) * cols) by (nonlinear_arith)
            requires
                0 <= col < cols,
                0 <= row < upto - 1,
        ;
    }
}

proof fn a_label_says_the_answer(
    state: Option<State>,
    words: Option<Words>,
    lane: int,
    cols: int,
    shown: int,
    key: int,
    col: int,
)
    requires
        0 < cols <= usize::MAX,
        0 <= col < cols,
        0 <= lane <= usize::MAX,
        key / cols == lane,
        key % cols == col,
    ensures
        ({
            let press = deck_press(key, cols, shown, state == Some(State::Waiting));
            let label = key_label(state, words, col, cols);
            let own = lane as usize;
            &&& press is None <==> lane >= shown
            &&& press matches Some(Press::Summon(reached)) ==> reached == lane && label
                != Saying::Up && label != Saying::Down && label != Saying::Enter
            &&& press matches Some(Press::Answer(reached, answer)) ==> reached == lane && label == (
            match answer {
                Key::Up => Saying::Up,
                Key::Down => Saying::Down,
                _ => Saying::Enter,
            })
            &&& lane < shown && label == Saying::Up ==> press == Some(Press::Answer(own, Key::Up))
            &&& lane < shown && label == Saying::Down ==> press == Some(
                Press::Answer(own, Key::Down),
            )
            &&& lane < shown && label == Saying::Enter ==> press == Some(
                Press::Answer(own, Key::Enter),
            )
        }),
{
}

/// **A key of the deck is the lane's that pressing it reaches**: what any other
/// lane does or is called changes nothing on it, a key that reaches no lane is
/// blank, and a key that says an answer gives that answer.
#[verifier::rlimit(40)]
pub proof fn a_face_is_the_lane_it_reaches(
    states: Seq<Option<State>>,
    others: Seq<Option<State>>,
    setup: Setup,
    elapsed_ms: u64,
    words: Seq<Words>,
    rewords: Seq<Words>,
    rows: int,
    cols: int,
    key: int,
    lane: int,
)
    requires
        0 < cols <= usize::MAX,
        0 <= key < rows * cols,
        0 <= lane < states.len(),
        lane < others.len(),
        lane < words.len(),
        lane < rewords.len(),
        states[lane] == others[lane],
        words[lane] == rewords[lane],
        lane * cols <= key < (lane + 1) * cols,
        lane <= usize::MAX,
    ensures
        ({
            let shown = lanes_on(rows, setup.lane_count as int);
            let waiting = states[lane] == Some(State::Waiting);
            let press = deck_press(key, cols, shown, waiting);
            let face = rows_look(states, setup, elapsed_ms, words, rows, cols, rows)[key];
            &&& rows_look(states, setup, elapsed_ms, words, rows, cols, rows).len() == rows * cols
            &&& face == rows_look(others, setup, elapsed_ms, rewords, rows, cols, rows)[key]
            &&& press is None <==> lane >= setup.lane_count
            &&& press is None ==> face == (Look {
                colour: Rgb { r: 0, g: 0, b: 0 },
                label: Saying::Blank,
                ink: Ink::Quiet,
            })
            &&& press matches Some(Press::Summon(reached)) ==> reached == lane && face.label
                != Saying::Up && face.label != Saying::Down && face.label != Saying::Enter
            &&& press matches Some(Press::Answer(reached, answer)) ==> reached == lane
                && face.label == (match answer {
                Key::Up => Saying::Up,
                Key::Down => Saying::Down,
                _ => Saying::Enter,
            })
            &&& face.label == Saying::Up ==> press == Some(Press::Answer(lane as usize, Key::Up))
            &&& face.label == Saying::Down ==> press == Some(
                Press::Answer(lane as usize, Key::Down),
            )
            &&& face.label == Saying::Enter ==> press == Some(
                Press::Answer(lane as usize, Key::Enter),
            )
        }),
{
    let col = key - lane * cols;
    assert((lane + 1) * cols == lane * cols + cols) by (nonlinear_arith);
    vstd::arithmetic::div_mod::lemma_fundamental_div_mod_converse(key, cols, lane, col);
    assert(lane < rows) by (nonlinear_arith)
        requires
            lane * cols <= key < rows * cols,
            0 < cols,
    ;
    where_a_face_stands(states, setup, elapsed_ms, words, rows, cols, rows, lane, col);
    where_a_face_stands(others, setup, elapsed_ms, rewords, rows, cols, rows, lane, col);
    a_label_says_the_answer(
        states[lane],
        Some(words[lane]),
        lane,
        cols,
        lanes_on(rows, setup.lane_count as int),
        key,
        col,
    );
}

/// **What the keys of a row say**: the lane's name on the first, its state on
/// the last with how long it has lasted — or why it failed — and between them
/// how much of the context and of the two limits is used, in that order.
pub proof fn a_row_says_its_lane(state: State, words: Words, cols: int, colour: Rgb, elapsed_ms: u64)
    requires
        cols >= 2,
        words.state is Some,
    ensures
        ({
            let at = |col: int| key_label(Some(state), Some(words), col, cols);
            let word = words.state->0;
            let last = at(cols - 1);
            &&& at(0) == Saying::Name(words.name)
            &&& state == State::Idle ==> last == Saying::Blank
            &&& state == State::Error ==> last == (Saying::Status {
                state: word,
                elapsed: if words.reason is Some {
                    words.reason->0
                } else {
                    words.elapsed
                },
            })
            &&& state == State::Waiting && words.elapsed.len() > 0 ==> last == (Saying::Wait {
                state: word,
                held: words.elapsed,
            })
            &&& state == State::Running || state == State::Done || state == State::Connected || state
                == State::Interrupted ==> last == (Saying::Status {
                state: word,
                elapsed: words.elapsed,
            })
            &&& cols >= 5 && state != State::Idle && state != State::Waiting ==> (
            words.gauges matches Some(gauges) ==> {
                &&& at(1) == (Saying::Gauge { name: "ctx"@, value: gauges.context_used })
                &&& at(2) == (Saying::Gauge { name: "5h"@, value: gauges.five_hour })
                &&& at(3) == (Saying::Gauge { name: "7d"@, value: gauges.seven_day })
            })
            &&& cols >= 5 && state == State::Waiting ==> at(1) == Saying::Up && at(2)
                == Saying::Down && at(3) == Saying::Enter
            &&& forall|col: int|
                0 < col < cols - 1 && (state == State::Idle || words.gauges is None && state
                    != State::Waiting) ==> #[trigger] key_label(Some(state), Some(words), col, cols)
                    == Saying::Blank
            &&& state == State::Waiting || state == State::Error || state == State::Done
                ==> row_key(Some(state), colour, cols - 1, cols, elapsed_ms) == glow(colour)
            &&& forall|col: int|
                0 <= col < cols && (col < cols - 1 || state != State::Waiting && state
                    != State::Error && state != State::Done) ==> #[trigger] row_key(
                    Some(state),
                    colour,
                    col,
                    cols,
                    elapsed_ms,
                ) == lane_key(Some(state), colour, col, cols, elapsed_ms)
        }),
{
}

/// **What a row is told of its lane**: of whoever sits there their name, state,
/// clock, numbers and reason; of an empty lane its own name, or that the next
/// agent comes here, or that it is free; and of a preview its state alone.
pub proof fn a_row_is_told_of_whoever_sits_there(desk: Desk, lane: usize, at: int, now: u64)
    requires
        0 <= at < desk.sessions.len(),
        desk.sessions[at].lane == Some(lane),
        forall|i: int|
            0 <= i < desk.sessions.len() && i != at ==> (#[trigger] desk.sessions[i]).lane != Some(
                lane,
            ),
    ensures
        ({
            let life = desk.sessions[at];
            let words = lane_words(desk, lane as int, now);
            &&& desk.preview is None ==> {
                &&& words.name == desk.settings.called(lane as int, life.project())
                &&& words.state == Some(life.shows().title())
                &&& words.elapsed == clock_text(life.shows(), seconds(life.since, now))
                &&& words.gauges == Some(life.gauges)
                &&& words.reason == life.failure
            }
            &&& desk.preview matches Some(preview) ==> words.state == Some(preview.state.title())
                && words.gauges is None && words.reason is None && words.elapsed.len() == 0
        }),
{
    crate::tracker::found_on_its_lane(desk.sessions, lane);
}

/// Whether a session sits on `lane`.
pub open spec fn someone_sits(desk: Desk, lane: usize) -> bool {
    exists|i: int| 0 <= i < desk.sessions.len() && (#[trigger] desk.sessions[i]).lane == Some(lane)
}

/// **One empty lane at most is where the next agent comes**: the lowest that
/// nobody sits on, where it has no name of its own.
pub proof fn the_next_agent_comes_to_the_lowest_free_lane(
    desk: Desk,
    lane: usize,
    other: usize,
    now: u64,
)
    requires
        desk.preview is None,
        lane < other,
        forall|i: int|
            0 <= i < desk.sessions.len() ==> (#[trigger] desk.sessions[i]).lane != Some(lane)
                && desk.sessions[i].lane != Some(other),
        !desk.settings.is_named(lane as int),
        !desk.settings.is_named(other as int),
    ensures
        lane_words(desk, other as int, now).name == "free"@,
        lane_words(desk, lane as int, now).state is None,
        (forall|below: usize| below < lane ==> #[trigger] someone_sits(desk, below))
            ==> lane_words(desk, lane as int, now).name == "next agent here"@,
{
    crate::tracker::found_on_its_lane(desk.sessions, lane);
    crate::tracker::found_on_its_lane(desk.sessions, other);
    assert(sitting(desk.sessions, lane as int as usize) is None);
    assert(!lowest_free(desk, other as int));
    if forall|below: usize| below < lane ==> #[trigger] someone_sits(desk, below) {
        assert forall|below: int| 0 <= below < lane implies (#[trigger] sitting(
            desk.sessions,
            below as usize,
        )) is Some by {
            crate::tracker::found_on_its_lane(desk.sessions, below as usize);
            assert(someone_sits(desk, below as usize));
        }
        assert(lowest_free(desk, lane as int));
    }
}

/// **A key is pressed when it goes down**: each that is down and was not, once
/// and in order.
pub proof fn a_key_is_pressed_when_it_goes_down(before: Seq<bool>, after: Seq<bool>, upto: int)
    requires
        0 <= upto <= after.len(),
        upto <= usize::MAX,
    ensures
        ({
            let keys = risen(before, after, upto);
            &&& forall|key: usize|
                key < upto ==> (#[trigger] keys.contains(key) <==> after[key as int] && (key
                    >= before.len() || !before[key as int]))
            &&& forall|i: int| 0 <= i < keys.len() ==> (#[trigger] keys[i]) < upto
            &&& forall|i: int, j: int|
                0 <= i < j < keys.len() ==> (#[trigger] keys[i]) < (#[trigger] keys[j])
        }),
    decreases upto,
{
    if upto > 0 {
        a_key_is_pressed_when_it_goes_down(before, after, upto - 1);
        let rest = risen(before, after, upto - 1);
        let keys = risen(before, after, upto);
        let last = (upto - 1) as usize;
        assert forall|key: usize| key < upto implies (#[trigger] keys.contains(key) <==> after[key as int]
            && (key >= before.len() || !before[key as int])) by {
            if rest.contains(key) {
                let i = choose|i: int| 0 <= i < rest.len() && rest[i] == key;
                assert(keys[i] == key);
            }
            if keys.contains(key) && key < last {
                let i = choose|i: int| 0 <= i < keys.len() && keys[i] == key;
                assert(i < rest.len() && rest[i] == key);
            }
            if key == last {
                if keys.len() > rest.len() {
                    assert(keys[rest.len() as int] == last);
                } else {
                    assert(!rest.contains(last));
                }
            }
        }
    }
}

/// **Each key that goes down is a press of its own**, in the order they went
/// down: one key is what its place means, and more are one after the other.
pub proof fn each_key_is_its_own_press(
    desk: Desk,
    keys: Seq<usize>,
    rows: int,
    cols: int,
    upto: int,
    lane: int,
    col: int,
)
    requires
        0 < upto <= keys.len(),
        0 <= lane <= usize::MAX,
        0 <= col < cols,
        keys[upto - 1] == lane * cols + col,
    ensures
        presses_of(desk, keys, rows, cols, 0).len() == 0,
        ({
            let rest = presses_of(desk, keys, rows, cols, upto - 1);
            let all = presses_of(desk, keys, rows, cols, upto);
            let own = lane as usize;
            let answers = desk.answerable(own) && cols >= 5;
            &&& all.take(rest.len() as int) == rest
            &&& lane >= rows || lane >= desk.settings.lane_count ==> all == rest
            &&& lane < rows && lane < desk.settings.lane_count ==> all.len() == rest.len() + 1
                && all.last() == (if answers && col == 1 {
                Press::Answer(own, Key::Up)
            } else if answers && col == 2 {
                Press::Answer(own, Key::Down)
            } else if answers && col == 3 {
                Press::Answer(own, Key::Enter)
            } else {
                Press::Summon(own)
            })
        }),
{
    let key = keys[upto - 1] as int;
    vstd::arithmetic::div_mod::lemma_fundamental_div_mod_converse(key, cols, lane, col);
}

/// **Brightness is a share of a hundred**: none is nothing, all is a hundred,
/// and more is no less.
pub proof fn brightness_is_a_share_of_a_hundred(dim: Tuning, bright: Tuning)
    requires
        dim.brightness <= bright.brightness,
    ensures
        percent_of(dim) <= percent_of(bright) <= 100,
        dim.brightness == 0 ==> percent_of(dim) == 0,
        bright.brightness >= 0x1000_0000 ==> percent_of(bright) == 100,
{
    let p = vstd::arithmetic::power2::pow2(121);
    let (n, m) = (dim.brightness as nat, bright.brightness as nat);
    let whole = 0x1000_0000nat;
    vstd::arithmetic::power2::lemma_pow2_adds(28, 121);
    vstd::arithmetic::power2::lemma2_to64();
    single::near_itself(1, 149);
    single::near_itself(0, 121);
    single::near_itself(100, 149);
    assert(0 * p == 0 && 1 * one() == one());
    assert(fraction(0) == 0);
    assert(fraction(0x1000_0000) == one());
    assert((n * p) * 1 <= (m * p) * 1) by (nonlinear_arith)
        requires
            n <= m,
    ;
    single::near_ordered(n * p, 1, m * p, 1);
    let (low, high) = (at_most_one(fraction(dim.brightness)), at_most_one(
        fraction(bright.brightness),
    ));
    let top = 100 * one();
    single::product_ordered(low, top, high, top);
    single::product_ordered(high, top, one(), top);
    single::channel_ordered(product(low, top), product(high, top));
    single::channel_ordered(product(high, top), product(one(), top));
    single::product_one(top);
    single::channel_back(100);
    single::channel_back(0);
    assert(0 * one() == 0);
    if m >= whole {
        assert((whole * p) * 1 <= (m * p) * 1) by (nonlinear_arith)
            requires
                whole <= m,
        ;
        single::near_ordered(whole * p, 1, m * p, 1);
    }
}

/// **A deck says which lanes it has no row for**: as many lanes as it has rows,
/// or all there are; and where some are left over, from the next to the last.
pub proof fn a_deck_says_what_it_has_no_row_for(
    model: Seq<char>,
    rows: int,
    cols: nat,
    lane_count: nat,
)
    requires
        0 <= rows,
    ensures
        ({
            let shown = if rows < lane_count {
                rows as nat
            } else {
                lane_count
            };
            let known = model + ": "@ + decimal(shown) + " lane"@ + (if shown == 1 {
                ""@
            } else {
                "s"@
            }) + " of "@ + decimal(cols) + " keys"@;
            let said = layout_text(model, rows, cols, lane_count);
            &&& lane_count <= rows ==> said == known
            &&& lane_count == rows + 1 ==> said == known + ", "@ + ("lane "@ + decimal(lane_count))
                + " "@ + "is"@ + " not on it"@
            &&& lane_count > rows + 1 ==> said == known + ", "@ + ("lanes "@ + decimal(
                (rows + 1) as nat,
            ) + "–"@ + decimal(lane_count)) + " "@ + "are"@ + " not on it"@
        }),
{
}

} // verus!
