//! The monitor as a surface: mini mode.
//!
//! The window folded down to a Stream Deck's picture of the lanes — one row
//! per agent, five keys to a row: the name, the three numbers, the state —
//! lit from the same palette the keyboards are. A row past the lanes is an
//! off-keyboard session, which has no key on any board but has one here; an
//! empty lane has no row at all, since a row that says nothing only costs the
//! space it takes.
//!
//! A key is a summon and nothing more. The keyboard's and the deck's answer
//! keys are not repeated: a click on the screen is a click, and the surface
//! mirrors the agents rather than driving them. Like the window it lives in,
//! it is never brightness-scaled or colour-corrected — those exist to make
//! LEDs match a screen, and this is the screen.
//!
//! Lengths are in thousandths of a point.

use vstd::prelude::*;

use super::palette::{self, color_at, color_of};
use super::streamdeck::canvas::{Ink, Label, Saying, ink_on};
use super::streamdeck::surface::{
    Face, Look, Role, Words, key_label, looks, role, role_of, row_colors, row_key,
};
use crate::gauges::Gauges;
use crate::lanes;
use crate::settings::Rgb;
use crate::state::State;
use crate::text::{self, decimal};
use crate::tracker::{
    Desk, Life, Session, Tracker, elapsed, elapsed_text, laneless, seconds, sitting,
};

verus! {

/// Keys to a row: the name, ctx, 5h, 7d, the state — the deck's row.
pub const COLS: usize = 5;

/// The smallest the mini window may be squeezed to: one row whose keys can
/// still carry a word each.
pub const MIN_WIDTH: u64 = 300_000;

pub const MIN_HEIGHT: u64 = 60_000;

/// The width the mini window starts at, before the user resizes it.
pub const DEFAULT_WIDTH: u64 = 440_000;

/// What one row costs vertically before the user resizes: a key tall enough
/// for a word over a number.
pub const DEFAULT_ROW_HEIGHT: u64 = 64_000;

/// A row cannot be squeezed below this: a number still has to be read.
pub const MIN_ROW_HEIGHT: u64 = 36_000;

/// The panel's margin, all round.
pub const MARGIN: u64 = 6_000;

/// The gap between two keys, and between two rows.
pub const GAP: u64 = 6_000;

/// ~30 Hz while something moves: the runner and the pulse are what this
/// surface is for. In milliseconds.
pub const ANIMATED_FRAME_MS: u64 = 33;

/// The window's ordinary pace when nothing moves — enough to keep an elapsed
/// time honest. In milliseconds.
pub const RESTING_FRAME_MS: u64 = 500;

/// What an off-keyboard row is lit in: it has no lane, so it has no lane
/// colour. A grey that is plainly not any lane's — and not red, which is
/// Error's alone.
pub open spec fn grey() -> Rgb {
    Rgb { r: 150, g: 155, b: 165 }
}

pub fn off_keyboard_colour() -> (rgb: Rgb)
    ensures
        rgb == grey(),
{
    Rgb { r: 150, g: 155, b: 165 }
}

/// What clicking a key brings forward.
#[derive(Debug, PartialEq, Eq)]
pub enum Target {
    /// The session on this lane.
    Lane(usize),
    /// A session named by identity, because it has no lane.
    Session { source: String, id: String },
}

/// A [`Target`], its words by their characters.
pub ghost enum Aim {
    Lane(usize),
    Session { source: Seq<char>, id: Seq<char> },
}

impl View for Target {
    type V = Aim;

    open spec fn view(&self) -> Aim {
        match self {
            Target::Lane(lane) => Aim::Lane(*lane),
            Target::Session { source, id } => Aim::Session { source: source@, id: id@ },
        }
    }
}

impl Target {
    /// The same target once more.
    pub fn copy(&self) -> (target: Target)
        ensures
            target@ == self@,
    {
        match self {
            Target::Lane(lane) => Target::Lane(*lane),
            Target::Session { source, id } => Target::Session {
                source: source.clone(),
                id: id.clone(),
            },
        }
    }
}

/// One row of the monitor — a lane with a session on it, or an off-keyboard
/// session.
#[derive(Debug, PartialEq, Eq)]
pub struct Row {
    pub name: String,
    pub state: State,
    /// The lane's colour; [`off_keyboard_colour`] for a session without one.
    pub colour: Rgb,
    /// Five keys, left to right, as the palette lights and labels them
    /// this instant.
    pub keys: Vec<Face>,
    pub target: Target,
    pub off_keyboard: bool,
}

/// A [`Row`], its words by their characters.
#[verifier::ext_equal]
pub ghost struct Line {
    pub name: Seq<char>,
    pub state: State,
    pub colour: Rgb,
    pub keys: Seq<Look>,
    pub target: Aim,
    pub off_keyboard: bool,
}

impl View for Row {
    type V = Line;

    open spec fn view(&self) -> Line {
        Line {
            name: self.name@,
            state: self.state,
            colour: self.colour,
            keys: looks(self.keys@),
            target: self.target@,
            off_keyboard: self.off_keyboard,
        }
    }
}

pub open spec fn lines(rows: Seq<Row>) -> Seq<Line> {
    Seq::new(rows.len(), |i: int| rows[i]@)
}

/// What a gesture on the monitor asked for.
#[derive(Debug, PartialEq, Eq)]
pub enum Action {
    Focus(Target),
    /// Back to the full window.
    Leave,
    /// The window is being dragged by its background — it has no title bar.
    Move,
    /// The window is being dragged by its corner.
    Resize,
}

/// The words of key `col` of a row.
pub open spec fn label_at(
    state: State,
    name: Seq<char>,
    elapsed: Seq<char>,
    gauges: Option<Gauges>,
    reason: Option<Seq<char>>,
    col: int,
) -> Saying {
    match role_of(col, COLS as int) {
        Role::Name => Saying::Name(name),
        Role::Status => if state == State::Idle {
            Saying::Blank
        } else {
            Saying::Status {
                state: state.title(),
                elapsed: if state == State::Error && reason is Some {
                    reason->0
                } else {
                    elapsed
                },
            }
        },
        Role::Middle(index) => if state == State::Idle || gauges is None {
            Saying::Blank
        } else if index == 0 {
            Saying::Gauge { name: "ctx"@, value: gauges->0.context_used }
        } else if index == 1 {
            Saying::Gauge { name: "5h"@, value: gauges->0.five_hour }
        } else if index == 2 {
            Saying::Gauge { name: "7d"@, value: gauges->0.seven_day }
        } else {
            Saying::Blank
        },
    }
}

/// Key `col` of a row.
pub open spec fn face_at(
    state: State,
    colour: Rgb,
    name: Seq<char>,
    elapsed: Seq<char>,
    gauges: Option<Gauges>,
    reason: Option<Seq<char>>,
    elapsed_ms: u64,
    col: int,
) -> Look {
    let key_colour = row_key(Some(state), colour, col, COLS as int, elapsed_ms);
    Look {
        colour: key_colour,
        label: label_at(state, name, elapsed, gauges, reason, col),
        ink: if state == State::Idle {
            Ink::Quiet
        } else {
            ink_on(key_colour, colour)
        },
    }
}

/// One row's keys.
pub open spec fn row_faces(
    state: State,
    colour: Rgb,
    name: Seq<char>,
    elapsed: Seq<char>,
    gauges: Option<Gauges>,
    reason: Option<Seq<char>>,
    elapsed_ms: u64,
) -> Seq<Look> {
    Seq::new(
        COLS as nat,
        |col: int| face_at(state, colour, name, elapsed, gauges, reason, elapsed_ms, col),
    )
}

/// One session's row. A preview shows its own state: no time, no numbers.
pub open spec fn line_of(
    life: Life,
    name: Seq<char>,
    colour: Rgb,
    target: Aim,
    off_keyboard: bool,
    now: u64,
    elapsed_ms: u64,
    preview: Option<State>,
) -> Line {
    Line {
        name,
        state: match preview {
            Some(state) => state,
            None => life.shows(),
        },
        colour,
        keys: match preview {
            Some(state) => row_faces(
                state,
                colour,
                name,
                Seq::<char>::empty(),
                None,
                None,
                elapsed_ms,
            ),
            None => row_faces(
                life.shows(),
                colour,
                name,
                elapsed_text(seconds(life.since, now)),
                Some(life.gauges),
                life.failure,
                elapsed_ms,
            ),
        },
        target,
        off_keyboard,
    }
}

/// The state a desk previews, if any.
pub open spec fn previewed(desk: Desk) -> Option<State> {
    match desk.preview {
        Some(preview) => Some(preview.state),
        None => None,
    }
}

/// The rows of the first `upto` lanes.
pub open spec fn lane_lines(desk: Desk, now: u64, elapsed_ms: u64, upto: int) -> Seq<Line>
    decreases upto,
{
    if upto <= 0 {
        seq![]
    } else {
        let before = lane_lines(desk, now, elapsed_ms, upto - 1);
        let lane = upto - 1;
        match sitting(desk.sessions, lane as usize) {
            Some(at) => before.push(
                line_of(
                    desk.sessions[at],
                    desk.settings.called(lane, desk.sessions[at].project()),
                    color_at(desk.settings, lane),
                    Aim::Lane(lane as usize),
                    false,
                    now,
                    elapsed_ms,
                    previewed(desk),
                ),
            ),
            None => before,
        }
    }
}

/// The row of a session without a lane.
pub open spec fn laneless_line(life: Life, now: u64, elapsed_ms: u64) -> Line {
    line_of(
        life,
        match life.project() {
            Some(project) => project,
            None => "unknown project"@,
        },
        grey(),
        Aim::Session { source: life.source, id: life.session_id },
        true,
        now,
        elapsed_ms,
        None,
    )
}

/// The sessions without a lane, in the order they arrived.
pub open spec fn off_keyboard(desk: Desk) -> Seq<Life> {
    laneless(desk.sessions, lanes::by_age(desk.sessions, desk.sessions.len() as int))
}

/// Every row: the lanes with a session on them, then everybody else.
pub open spec fn board(desk: Desk, now: u64, elapsed_ms: u64) -> Seq<Line> {
    lane_lines(desk, now, elapsed_ms, desk.settings.lane_count as int) + off_keyboard(
        desk,
    ).map_values(|life: Life| laneless_line(life, now, elapsed_ms))
}

fn is_idle(state: State) -> (r: bool)
    ensures
        r == (state == State::Idle),
{
    match state {
        State::Idle => true,
        _ => false,
    }
}

fn label_of(
    state: State,
    name: &str,
    elapsed: &str,
    gauges: Option<Gauges>,
    reason: &Option<String>,
    col: usize,
) -> (label: Label)
    ensures
        label@ == label_at(state, name@, elapsed@, gauges, text::shown(*reason), col as int),
{
    match role(col, COLS) {
        Role::Name => Label::Name(name.to_owned()),
        Role::Status => {
            if is_idle(state) {
                return Label::Blank;
            }
            let under: String = match (state, reason) {
                (State::Error, Some(reason)) => reason.clone(),
                _ => elapsed.to_owned(),
            };
            Label::Status { state: state.label(), elapsed: under }
        },
        Role::Middle(index) => {
            if is_idle(state) {
                return Label::Blank;
            }
            match gauges {
                None => Label::Blank,
                Some(gauges) => if index == 0 {
                    Label::Gauge { name: "ctx", value: gauges.context_used }
                } else if index == 1 {
                    Label::Gauge { name: "5h", value: gauges.five_hour }
                } else if index == 2 {
                    Label::Gauge { name: "7d", value: gauges.seven_day }
                } else {
                    Label::Blank
                },
            }
        },
    }
}

/// One row's keys, the deck's way: the name first, the state over how long
/// last, and between them the numbers — context used, the five-hour limit,
/// the seven-day limit. In Error the reason takes the time's place under the
/// word, when there is one. Idle is one dim name key and the rest dark, words
/// included; a preview has no time and no numbers.
pub fn faces(
    state: State,
    colour: Rgb,
    name: &str,
    elapsed: &str,
    gauges: Option<Gauges>,
    reason: &Option<String>,
    elapsed_ms: u64,
) -> (keys: Vec<Face>)
    ensures
        looks(keys@) == row_faces(
            state,
            colour,
            name@,
            elapsed@,
            gauges,
            text::shown(*reason),
            elapsed_ms,
        ),
{
    let colours = row_colors(Some(state), colour, COLS, elapsed_ms);
    let mut keys: Vec<Face> = Vec::new();
    let ghost all = row_faces(
        state,
        colour,
        name@,
        elapsed@,
        gauges,
        text::shown(*reason),
        elapsed_ms,
    );
    let mut col: usize = 0;
    while col < COLS
        invariant
            col <= COLS,
            colours@ == Seq::new(
                COLS as nat,
                |col: int| row_key(Some(state), colour, col, COLS as int, elapsed_ms),
            ),
            all == row_faces(
                state,
                colour,
                name@,
                elapsed@,
                gauges,
                text::shown(*reason),
                elapsed_ms,
            ),
            keys@.len() == col,
            forall|i: int| 0 <= i < col ==> (#[trigger] keys@[i])@ == all[i],
        decreases COLS - col,
    {
        let key_colour: Rgb = colours[col];
        let ink: Ink = if is_idle(state) {
            Ink::Quiet
        } else {
            Ink::on(key_colour, colour)
        };
        let label = label_of(state, name, elapsed, gauges, reason, col);
        let face = Face { colour: key_colour, label, ink };
        assert(face@ == all[col as int]);
        keys.push(face);
        col = col + 1;
    }
    assert(looks(keys@) =~= all);
    keys
}

fn row_of(
    session: &Session,
    name: String,
    colour: Rgb,
    target: Target,
    off_keyboard: bool,
    now: u64,
    elapsed_ms: u64,
    preview: Option<State>,
) -> (row: Row)
    ensures
        row@ == line_of(
            session@,
            name@,
            colour,
            target@,
            off_keyboard,
            now,
            elapsed_ms,
            preview,
        ),
{
    let keys = match preview {
        Some(state) => faces(state, colour, name.as_str(), "", None, &None, elapsed_ms),
        None => {
            let held = elapsed(session.since, now);
            faces(
                session.effective_state(),
                colour,
                name.as_str(),
                held.as_str(),
                Some(session.gauges),
                &session.failure,
                elapsed_ms,
            )
        },
    };
    let state: State = match preview {
        Some(state) => state,
        None => session.effective_state(),
    };
    proof {
        reveal_strlit("");
        assert(""@ =~= Seq::<char>::empty());
    }
    Row { name, state, colour, keys, target, off_keyboard }
}

/// The rows: every lane with a session on it, in lane order, then each
/// off-keyboard session. A preview overrides the state of every lane the
/// way it does on the keyboards — no time, no numbers; the off-keyboard rows
/// are not lanes and stay real.
pub fn rows(tracker: &Tracker, now: u64, elapsed_ms: u64) -> (rows: Vec<Row>)
    ensures
        lines(rows@) == board(tracker@, now, elapsed_ms),
{
    let settings = &tracker.settings;
    let preview: Option<State> = match tracker.preview {
        Some(preview) => Some(preview.state),
        None => None,
    };
    let ghost desk = tracker@;
    let mut rows: Vec<Row> = Vec::new();
    let count: usize = settings.lane_count;
    let mut lane: usize = 0;
    assert(lines(rows@) =~= seq![]);
    while lane < count
        invariant
            lane <= count,
            desk == tracker@,
            settings@ == desk.settings,
            preview == previewed(desk),
            lines(rows@) == lane_lines(desk, now, elapsed_ms, lane as int),
        decreases count - lane,
    {
        if let Some(session) = tracker.on_lane(lane) {
            let project = session.project();
            let known: Option<&str> = match &project {
                Some(project) => Some(project.as_str()),
                None => None,
            };
            let row = row_of(
                session,
                settings.display_name(lane, known),
                color_of(settings, lane),
                Target::Lane(lane),
                false,
                now,
                elapsed_ms,
                preview,
            );
            let ghost before = rows@;
            rows.push(row);
            assert(lines(rows@) =~= lines(before).push(row@));
        }
        lane = lane + 1;
    }
    let extra = tracker.overflow();
    let ghost named = lines(rows@);
    let ghost rest = off_keyboard(desk);
    assert(rest.len() == extra@.len()) by {
        assert(Seq::new(extra@.len(), |i: int| extra@[i]@).len() == extra@.len());
    }
    let mut i: usize = 0;
    while i < extra.len()
        invariant
            i <= extra@.len(),
            rest.len() == extra@.len(),
            forall|j: int| 0 <= j < extra@.len() ==> (#[trigger] extra@[j])@ == rest[j],
            rows@.len() == named.len() + i,
            forall|j: int| 0 <= j < named.len() ==> (#[trigger] rows@[j])@ == named[j],
            forall|j: int|
                named.len() <= j < rows@.len() ==> (#[trigger] rows@[j])@ == laneless_line(
                    rest[j - named.len()],
                    now,
                    elapsed_ms,
                ),
        decreases extra@.len() - i,
    {
        let session: &Session = extra[i];
        let name: String = match session.project() {
            Some(project) => project,
            None => "unknown project".to_owned(),
        };
        let target = Target::Session {
            source: session.source.clone(),
            id: session.session_id.clone(),
        };
        let row = row_of(
            session,
            name,
            off_keyboard_colour(),
            target,
            true,
            now,
            elapsed_ms,
            None,
        );
        assert(session@ == rest[i as int]);
        assert(row@ == laneless_line(rest[i as int], now, elapsed_ms));
        rows.push(row);
        i = i + 1;
    }
    assert(lines(rows@) =~= board(desk, now, elapsed_ms));
    rows
}

/// How many rows there is room for: no rows is still one row's worth, since a
/// window with nothing in it has to be somewhere to be double-clicked.
pub open spec fn at_least_one(rows: int) -> int {
    if rows < 1 {
        1
    } else {
        rows
    }
}

pub open spec fn larger(a: int, b: int) -> int {
    if a < b {
        b
    } else {
        a
    }
}

/// How tall a window of `rows` rows is.
pub open spec fn window_height(rows: int, row_height: int) -> int {
    larger(
        at_least_one(rows) * larger(row_height, MIN_ROW_HEIGHT as int) + GAP * (at_least_one(rows)
            - 1) + 2 * MARGIN,
        MIN_HEIGHT as int,
    )
}

/// The window size for `rows` rows at the user's width and row height,
/// never below the smallest.
pub fn window_size(rows: u32, width: u32, row_height: u32) -> (size: (u64, u128))
    ensures
        size.0 == larger(width as int, MIN_WIDTH as int),
        size.1 == window_height(rows as int, row_height as int),
{
    let rows: u128 = if rows < 1 { 1 } else { rows as u128 };
    let row_height: u128 = if (row_height as u64) < MIN_ROW_HEIGHT {
        MIN_ROW_HEIGHT as u128
    } else {
        row_height as u128
    };
    assert(0 <= rows * row_height <= 0xffff_ffff * 0xffff_ffff) by (nonlinear_arith)
        requires
            1 <= rows <= 0xffff_ffff,
            0 <= row_height <= 0xffff_ffff,
    ;
    let height: u128 = rows * row_height + GAP as u128 * (rows - 1) + 2 * MARGIN as u128;
    (
        if (width as u64) < MIN_WIDTH {
            MIN_WIDTH
        } else {
            width as u64
        },
        if height < MIN_HEIGHT as u128 {
            MIN_HEIGHT as u128
        } else {
            height
        },
    )
}

/// The row height that fills a window of `inner_height` with `rows` rows.
pub open spec fn row_height_in(inner_height: int, rows: int) -> int {
    larger(
        (inner_height - 2 * MARGIN - GAP * (at_least_one(rows) - 1)) / at_least_one(rows),
        MIN_ROW_HEIGHT as int,
    )
}

/// The row height that fills `inner_height` with `rows` rows — what the
/// user meant by dragging the corner to that size.
pub fn row_height_for(inner_height: u64, rows: u32) -> (r: u64)
    ensures
        r == row_height_in(inner_height as int, rows as int),
{
    let rows: u64 = if rows < 1 { 1 } else { rows as u64 };
    let taken: u64 = 2 * MARGIN + GAP * (rows - 1);
    if inner_height < taken {
        proof {
            let over = inner_height - taken;
            assert(over / rows as int <= 0) by (nonlinear_arith)
                requires
                    over < 0,
                    rows >= 1,
            ;
        }
        return MIN_ROW_HEIGHT;
    }
    let each: u64 = (inner_height - taken) / rows;
    if each < MIN_ROW_HEIGHT {
        MIN_ROW_HEIGHT
    } else {
        each
    }
}

/// How soon the next frame is due, in milliseconds: thirty a second while a
/// row moves, the window's resting pace otherwise.
pub fn repaint_after(rows: &Vec<Row>) -> (ms: u64)
    ensures
        ms == (if exists|i: int|
            0 <= i < rows@.len() && (#[trigger] rows@[i]).state.active() {
            ANIMATED_FRAME_MS
        } else {
            RESTING_FRAME_MS
        }),
{
    let mut i: usize = 0;
    while i < rows.len()
        invariant
            i <= rows@.len(),
            forall|j: int| 0 <= j < i ==> !(#[trigger] rows@[j]).state.active(),
        decreases rows@.len() - i,
    {
        if palette::moves(rows[i].state) {
            assert(rows@[i as int].state.active());
            return ANIMATED_FRAME_MS;
        }
        i = i + 1;
    }
    RESTING_FRAME_MS
}

/// Where one of `count` keys of equal length is along a `span`, gaps between:
/// where it begins, and how long it is.
pub open spec fn slot(span: int, count: int, index: int) -> (int, int) {
    let each = larger((span - GAP * (count - 1)) / count, 1000);
    (index * (each + GAP), each)
}

/// Where key `index` of `count` is along a `span`: how far from its start, and
/// how long. A key is never shorter than a point.
pub fn placed(span: u32, count: u32, index: u32) -> (r: (u128, u64))
    requires
        1 <= count,
    ensures
        (r.0 as int, r.1 as int) == slot(span as int, count as int, index as int),
{
    let gaps: u64 = GAP * (count as u64 - 1);
    let room: i64 = span as i64 - gaps as i64;
    let mut each: u64 = 1000;
    if room > 0 {
        let share: u64 = room as u64 / count as u64;
        if share > 1000 {
            each = share;
        }
    } else {
        proof {
            let short = span as int - GAP * (count as int - 1);
            assert(short / count as int <= 0) by (nonlinear_arith)
                requires
                    short <= 0,
                    count >= 1,
            ;
        }
    }
    assert(0 <= index as int * (each + GAP) <= 0xffff_ffff * 0x1_0000_ffff) by (nonlinear_arith)
        requires
            0 <= index as int <= 0xffff_ffff,
            0 <= each + GAP <= 0x1_0000_ffff,
    ;
    (index as u128 * (each as u128 + GAP as u128), each)
}

/// What one pass of gestures over the monitor asks for. A drag of the corner
/// is a resize whatever else was clicked; a key takes its own click; and only
/// what nothing on top took is the background's — twice clicked it is the way
/// back, dragged it moves the window.
pub fn chosen(focused: Option<Target>, resized: bool, double_clicked: bool, dragged: bool) -> (r:
    Option<Action>)
    ensures
        resized ==> r == Some(Action::Resize),
        !resized && focused is Some ==> (r matches Some(Action::Focus(target)) && target@
            == focused->0@),
        !resized && focused is None && double_clicked ==> r == Some(Action::Leave),
        !resized && focused is None && !double_clicked && dragged ==> r == Some(Action::Move),
        !resized && focused is None && !double_clicked && !dragged ==> r is None,
{
    if resized {
        return Some(Action::Resize);
    }
    match focused {
        Some(target) => Some(Action::Focus(target)),
        None => if double_clicked {
            Some(Action::Leave)
        } else if dragged {
            Some(Action::Move)
        } else {
            None
        },
    }
}

/// What hovering over a row says.
pub fn hint(row: &Row) -> (words: String)
    ensures
        words@ == (if row.off_keyboard {
            "Focus "@ + row.name@ + " (off the keyboard)"@
        } else {
            "Focus "@ + row.name@
        }),
{
    let mut words = "Focus ".to_owned();
    words.push_str(row.name.as_str());
    if row.off_keyboard {
        words.push_str(" (off the keyboard)");
    }
    words
}

/// How a line of a key is set.
#[derive(Debug, Clone, Copy, PartialEq, Eq, Structural)]
pub enum Size {
    /// Spread over as many lines as it takes.
    Spread,
    /// On one line, in the larger type.
    Large,
    /// On one line, in the smaller type.
    Small,
}

/// The lines of a key, top to bottom.
pub open spec fn key_lines(label: Saying) -> Seq<(Seq<char>, Size)> {
    match label {
        Saying::Blank => seq![],
        Saying::Name(name) => seq![(name, Size::Spread)],
        Saying::Status { state, elapsed } => if elapsed.len() == 0 {
            seq![(state, Size::Large)]
        } else {
            seq![(state, Size::Large), (elapsed, Size::Small)]
        },
        Saying::Wait { state, held } => seq![(state, Size::Small), (held, Size::Large)],
        // The triangles the window's own font has; ▲ and ▼ come out as boxes.
        Saying::Up => seq![("⏶"@, Size::Large)],
        Saying::Down => seq![("⏷"@, Size::Large)],
        Saying::Enter => seq![("Enter"@, Size::Large)],
        Saying::Gauge { name, value } => seq![
            (name, Size::Small),
            (
                match value {
                    Some(value) => decimal(value as nat) + "%"@,
                    None => "—"@,
                },
                Size::Large,
            ),
        ],
    }
}

pub open spec fn spelt(lines: Seq<(String, Size)>) -> Seq<(Seq<char>, Size)> {
    Seq::new(lines.len(), |i: int| (lines[i].0@, lines[i].1))
}

/// What a key says, line by line: word over number, or a name alone.
pub fn lines_of(label: &Label) -> (lines: Vec<(String, Size)>)
    ensures
        spelt(lines@) == key_lines(label@),
{
    let mut lines: Vec<(String, Size)> = Vec::new();
    match label {
        Label::Blank => {},
        Label::Name(name) => {
            lines.push((name.clone(), Size::Spread));
        },
        Label::Status { state, elapsed } => {
            lines.push(((*state).to_owned(), Size::Large));
            if !elapsed.as_str().is_empty() {
                lines.push((elapsed.clone(), Size::Small));
            }
        },
        Label::Wait { state, held } => {
            lines.push(((*state).to_owned(), Size::Small));
            lines.push((held.clone(), Size::Large));
        },
        Label::Up => {
            lines.push(("⏶".to_owned(), Size::Large));
        },
        Label::Down => {
            lines.push(("⏷".to_owned(), Size::Large));
        },
        Label::Enter => {
            lines.push(("Enter".to_owned(), Size::Large));
        },
        Label::Gauge { name, value } => {
            lines.push(((*name).to_owned(), Size::Small));
            let shown: String = match value {
                Some(value) => {
                    let mut shown = text::number(*value as u64);
                    shown.push_str("%");
                    shown
                },
                None => "—".to_owned(),
            };
            lines.push((shown, Size::Large));
        },
    }
    assert(spelt(lines@) =~= key_lines(label@));
    lines
}

/// The larger and the smaller type of a key `height` tall: sized to the key,
/// so a shorter row gets smaller type rather than clipped type.
pub fn type_sizes(height: u64) -> (r: (u64, u64))
    requires
        height <= u64::MAX / 3,
    ensures
        r.0 == (if height as int * 3 / 10 < 10_000 {
            10_000
        } else if height as int * 3 / 10 > 20_000 {
            20_000
        } else {
            height as int * 3 / 10
        }),
        r.1 == larger(r.0 as int * 3 / 4, 9_000),
{
    let share: u64 = height * 3 / 10;
    let large: u64 = if share < 10_000 {
        10_000
    } else if share > 20_000 {
        20_000
    } else {
        share
    };
    let small: u64 = large * 3 / 4;
    (large, if small < 9_000 { 9_000 } else { small })
}

/// How grey a key's words are: the deck's ramp, on the screen — as dark as the
/// key is bright.
pub fn ink_grey(ink: Ink) -> (r: u8)
    ensures
        r == match ink {
            Ink::Quiet => 140,
            Ink::Lit(darkness) => 255 - darkness,
        },
{
    match ink {
        Ink::Quiet => 140,
        Ink::Lit(darkness) => 255 - darkness,
    }
}

/// What a key is filled with. The keyboard's off is darkness; on a dark ground
/// the keycap still has to be seen, or a row has no shape.
pub fn keycap(colour: Rgb) -> (r: Rgb)
    ensures
        r == (if colour == palette::black() {
            Rgb { r: 26, g: 26, b: 26 }
        } else {
            colour
        }),
{
    if colour.r == 0 && colour.g == 0 && colour.b == 0 {
        Rgb { r: 26, g: 26, b: 26 }
    } else {
        colour
    }
}

/// **A resize is read back as a row height**: the height a window was given
/// for its rows is the height its rows are found to have. A window of one row
/// that would be shorter than the smallest window is the one exception.
pub proof fn a_resize_is_read_back(rows: u32, row_height: u32)
    requires
        at_least_one(rows as int) * larger(row_height as int, MIN_ROW_HEIGHT as int) + GAP * (
        at_least_one(rows as int) - 1) + 2 * MARGIN >= MIN_HEIGHT,
    ensures
        row_height_in(window_height(rows as int, row_height as int), rows as int) == larger(
            row_height as int,
            MIN_ROW_HEIGHT as int,
        ),
{
    let n = at_least_one(rows as int);
    let h = larger(row_height as int, MIN_ROW_HEIGHT as int);
    vstd::arithmetic::div_mod::lemma_div_multiples_vanish(h, n);
    assert((n * h) / n == h);
}

/// **A monitor never answers**: no key of any row is an answer key, whatever
/// the state.
pub proof fn a_monitor_puts_up_no_answer_keys(
    state: State,
    name: Seq<char>,
    elapsed: Seq<char>,
    gauges: Option<Gauges>,
    reason: Option<Seq<char>>,
    col: int,
)
    ensures
        !(label_at(state, name, elapsed, gauges, reason, col) is Up),
        !(label_at(state, name, elapsed, gauges, reason, col) is Down),
        !(label_at(state, name, elapsed, gauges, reason, col) is Enter),
{
}

/// **A preview stays on the lanes**: it adds and takes away no row, and changes
/// no row of a session off the keyboard.
pub proof fn a_preview_stays_on_the_lanes(desk: Desk, other: Desk, now: u64, elapsed_ms: u64)
    requires
        other == (Desk { preview: other.preview, ..desk }),
    ensures
        board(desk, now, elapsed_ms).len() == board(other, now, elapsed_ms).len(),
        forall|i: int|
            lane_lines(desk, now, elapsed_ms, desk.settings.lane_count as int).len() <= i < board(
                desk,
                now,
                elapsed_ms,
            ).len() ==> (#[trigger] board(desk, now, elapsed_ms)[i]) == board(
                other,
                now,
                elapsed_ms,
            )[i],
{
    a_preview_adds_no_row(desk, other, now, elapsed_ms, desk.settings.lane_count as int);
}

proof fn a_preview_adds_no_row(desk: Desk, other: Desk, now: u64, elapsed_ms: u64, upto: int)
    requires
        other == (Desk { preview: other.preview, ..desk }),
    ensures
        lane_lines(desk, now, elapsed_ms, upto).len() == lane_lines(
            other,
            now,
            elapsed_ms,
            upto,
        ).len(),
    decreases upto,
{
    if upto > 0 {
        a_preview_adds_no_row(desk, other, now, elapsed_ms, upto - 1);
    }
}

/// **A row of the window says what a row of the deck says**: the same words on
/// its five keys, in the same colours — but for a lane that waits, which gets
/// no answer keys here and keeps its numbers.
pub proof fn a_row_says_what_the_deck_says(
    state: State,
    name: Seq<char>,
    elapsed: Seq<char>,
    gauges: Option<Gauges>,
    reason: Option<Seq<char>>,
    col: int,
)
    requires
        0 <= col < 5,
    ensures
        ({
            let words = Words { name, state: Some(state.title()), elapsed, gauges, reason };
            let label = label_at(state, name, elapsed, gauges, reason, col);
            &&& state != State::Waiting ==> label == key_label(Some(state), Some(words), col, 5)
            &&& state == State::Waiting ==> label == key_label(
                Some(State::Running),
                Some(words),
                col,
                5,
            )
        }),
{
}

/// **Every lane somebody sits on has its row**: in the order of the lanes, each
/// with the name, colour and clock of whoever sits there, and it raises that
/// lane.
pub proof fn every_seated_lane_has_its_row(
    desk: Desk,
    now: u64,
    elapsed_ms: u64,
    upto: int,
    lane: usize,
    at: int,
)
    requires
        lane < upto <= usize::MAX,
        0 <= at < desk.sessions.len(),
        desk.sessions[at].lane == Some(lane),
        forall|i: int|
            0 <= i < desk.sessions.len() && i != at ==> (#[trigger] desk.sessions[i]).lane != Some(
                lane,
            ),
    ensures
        exists|row: int|
            0 <= row < lane_lines(desk, now, elapsed_ms, upto).len() && {
                let line = #[trigger] lane_lines(desk, now, elapsed_ms, upto)[row];
                let life = desk.sessions[at];
                &&& line.target == Aim::Lane(lane)
                &&& !line.off_keyboard
                &&& line.name == desk.settings.called(lane as int, life.project())
                &&& line.colour == color_at(desk.settings, lane as int)
                &&& desk.preview is None ==> line.state == life.shows() && line.keys == row_faces(
                    life.shows(),
                    line.colour,
                    line.name,
                    elapsed_text(seconds(life.since, now)),
                    Some(life.gauges),
                    life.failure,
                    elapsed_ms,
                )
                &&& desk.preview matches Some(preview) ==> line.state == preview.state
            },
    decreases upto,
{
    crate::tracker::found_on_its_lane(desk.sessions, lane);
    let all = lane_lines(desk, now, elapsed_ms, upto);
    let before = lane_lines(desk, now, elapsed_ms, upto - 1);
    if lane == upto - 1 {
        assert(sitting(desk.sessions, (upto - 1) as usize) == Some(at));
        let line = all[before.len() as int];
        assert(line.target == Aim::Lane(lane));
    } else {
        every_seated_lane_has_its_row(desk, now, elapsed_ms, upto - 1, lane, at);
        let row = choose|row: int|
            0 <= row < before.len() && (#[trigger] before[row]).target == Aim::Lane(lane)
                && before[row].name == desk.settings.called(
                lane as int,
                desk.sessions[at].project(),
            ) && !before[row].off_keyboard && before[row].colour == color_at(
                desk.settings,
                lane as int,
            ) && (desk.preview is None ==> before[row].state == desk.sessions[at].shows()
                && before[row].keys == row_faces(
                desk.sessions[at].shows(),
                before[row].colour,
                before[row].name,
                elapsed_text(seconds(desk.sessions[at].since, now)),
                Some(desk.sessions[at].gauges),
                desk.sessions[at].failure,
                elapsed_ms,
            )) && (desk.preview matches Some(preview) ==> before[row].state == preview.state);
        assert(all[row] == before[row]);
    }
}

/// **The rows go by their lanes**: each row is a lane under the ones there are
/// that somebody sits on, and a later row a higher lane.
pub proof fn the_rows_go_by_their_lanes(desk: Desk, now: u64, elapsed_ms: u64, upto: int)
    requires
        0 <= upto <= usize::MAX,
    ensures
        ({
            let rows = lane_lines(desk, now, elapsed_ms, upto);
            &&& forall|i: int|
                0 <= i < rows.len() ==> ((#[trigger] rows[i]).target matches Aim::Lane(lane) && lane
                    < upto && !rows[i].off_keyboard)
            &&& forall|i: int, j: int|
                0 <= i < j < rows.len() ==> (#[trigger] rows[i]).target->Lane_0 < (
                #[trigger] rows[j]).target->Lane_0
        }),
    decreases upto,
{
    if upto > 0 {
        the_rows_go_by_their_lanes(desk, now, elapsed_ms, upto - 1);
    }
}

/// **Keys stand side by side**: all of one width, a gap between each and the
/// next, the first at the edge, and the last within the span where there is
/// room for keys at all.
pub proof fn keys_stand_side_by_side(span: int, count: int, index: int)
    requires
        1 <= count,
        0 <= index,
    ensures
        ({
            let (at, wide) = slot(span, count, index);
            let (next, other) = slot(span, count, index + 1);
            let (end, last) = slot(span, count, count - 1);
            &&& slot(span, count, 0).0 == 0
            &&& wide == other && wide >= 1000
            &&& at + wide + 6000 == next
            &&& span >= 6000 * (count - 1) + 1000 * count ==> span - count < end + last <= span
        }),
{
    let each = larger((span - GAP * (count - 1)) / count, 1000);
    assert((index + 1) * (each + GAP) == index * (each + GAP) + each + GAP) by (nonlinear_arith);
    assert(0 * (each + GAP) == 0);
    if span >= 6000 * (count - 1) + 1000 * count {
        let room = span - 6000 * (count - 1);
        assert(room / count >= 1000 && count * (room / count) <= room && room < count * (room
            / count) + count) by (nonlinear_arith)
            requires
                room >= 1000 * count,
                count >= 1,
        ;
        assert((count - 1) * (each + 6000) + each == count * each + 6000 * (count - 1))
            by (nonlinear_arith);
    }
}

/// **A session without a lane is named by its project and grey**, it raises
/// itself, and no preview is shown on it.
pub proof fn a_session_without_a_lane_is_named_by_its_project(life: Life, now: u64, elapsed_ms: u64)
    ensures
        ({
            let line = laneless_line(life, now, elapsed_ms);
            &&& life.project() matches Some(project) ==> line.name == project
            &&& life.project() is None ==> line.name == "unknown project"@
            &&& line.off_keyboard
            &&& line.target == (Aim::Session { source: life.source, id: life.session_id })
            &&& line.colour == (Rgb { r: 150, g: 155, b: 165 })
            &&& line.state == life.shows()
            &&& line.keys.len() == 5
            &&& line.keys[0].label == Saying::Name(line.name)
        }),
{
}

/// **What is said large and what small**: a state over its time, a wait's time
/// under its state, a number under what it counts.
pub proof fn what_is_said_large(state: Seq<char>, more: Seq<char>, value: u8)
    requires
        more.len() > 0,
    ensures
        key_lines(Saying::Status { state, elapsed: more }) == seq![
            (state, Size::Large),
            (more, Size::Small),
        ],
        key_lines(Saying::Status { state, elapsed: Seq::<char>::empty() }) == seq![
            (state, Size::Large),
        ],
        key_lines(Saying::Wait { state, held: more }) == seq![
            (state, Size::Small),
            (more, Size::Large),
        ],
        key_lines(Saying::Gauge { name: state, value: Some(value) }) == seq![
            (state, Size::Small),
            (decimal(value as nat) + "%"@, Size::Large),
        ],
        key_lines(Saying::Gauge { name: state, value: None })[1].0 == "—"@,
        key_lines(Saying::Name(state)) == seq![(state, Size::Spread)],
        key_lines(Saying::Blank).len() == 0,
{
}

/// **The window is as high as its rows**: of whole rows, six between one and
/// the next and six around, in thousandths of a point; no row is lower than 36
/// and no window than 60.
pub proof fn the_window_is_as_high_as_its_rows(rows: int, row_height: int)
    requires
        rows >= 1,
    ensures
        ({
            let high = window_height(rows, row_height);
            let row = if row_height < 36_000 {
                36_000
            } else {
                row_height
            };
            let all = rows * row + 6_000 * (rows - 1) + 12_000;
            &&& high >= 60_000
            &&& high == all || high == 60_000
            &&& high >= all
            &&& window_height(0, row_height) == window_height(1, row_height)
        }),
{
}

/// **A row is as high as the window lets it be**: the rows and what is between
/// and around them fill the window but for less than a row's share.
pub proof fn a_row_is_as_high_as_the_window_lets_it(inner_height: int, rows: int)
    requires
        rows >= 1,
    ensures
        ({
            let row = row_height_in(inner_height, rows);
            let used = rows * row + 6_000 * (rows - 1) + 12_000;
            &&& row >= 36_000
            &&& row > 36_000 ==> used <= inner_height < used + rows
            &&& row == 36_000 ==> inner_height < used + rows
        }),
{
    let room = inner_height - 12_000 - 6_000 * (rows - 1);
    let each = room / rows;
    assert(rows * each <= room < rows * each + rows) by (nonlinear_arith)
        requires
            each == room / rows,
            rows >= 1,
    ;
    if each < 36_000 {
        assert(rows * each + rows <= rows * 36_000) by (nonlinear_arith)
            requires
                each + 1 <= 36_000,
                rows >= 1,
        ;
    }
}

} // verus!
