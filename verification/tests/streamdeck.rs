//! A deck's rows, keys and presses.

use std::collections::VecDeque;

use agent_frow::focus::Key;
use agent_frow::gauges::Gauges;
use agent_frow::keys::Press;
use agent_frow::settings::{Rgb, Settings, ONE};
use agent_frow::state::State;
use agent_frow::surface::palette;
use agent_frow::surface::scene::Scene;
use agent_frow::surface::streamdeck::canvas::{
    blank, draw_key, is_drawable, runs, Canvas, Dot, Ink, Label, Pen, COVERED,
};
use agent_frow::surface::streamdeck::device::{in_order, Deck, Found};
use agent_frow::surface::streamdeck::layout::Letters;
use agent_frow::surface::streamdeck::letters::letters_in;
use agent_frow::surface::streamdeck::live::{chosen, Live, RETRY_MS};
use agent_frow::surface::streamdeck::surface::{
    captions, faces, layout_sentence, paint_changed, percent, press_of, pressed,
    presses, stale, Face, FREE, NEXT_HERE,
};
use agent_frow::table::Table;
use agent_frow::tracker::{KeyboardStatus, Preview, Session, Tracker};

const ROWS: usize = 3;
const COLS: usize = 5;

fn session(state: State, lane: usize, since: u64) -> Session {
    Session {
        source: "codex-win".to_owned(),
        session_id: format!("s{lane}"),
        agent: None,
        cwd: Some("C:\\dev\\agent-frow".to_owned()),
        state,
        since,
        first_seen: since,
        last_event: since,
        events: 1,
        note: String::new(),
        subagents: Table::new(),
        lane: Some(lane),
        wt_session: None,
        ancestors: Vec::new(),
        gauges: Default::default(),
        failure: None,
    }
}

fn tracker(lane_count: usize) -> Tracker {
    let mut settings = Settings::default();
    settings.set_lane_count(lane_count);
    Tracker::new(settings, Table::new())
}

fn found(rows: usize, cols: usize) -> Found {
    Found {
        product_id: 0x006D,
        serial: "AL49".to_owned(),
        model: "Stream Deck OriginalV2".to_owned(),
        keys: rows * cols,
        rows,
        cols,
        size: (72, 72),
    }
}

fn faces_of(
    tracker: &mut Tracker,
    scene: &mut Scene,
    now: u64,
    rows: usize,
    cols: usize,
) -> Vec<Face> {
    scene.tick(tracker, now, 0);
    let frame = scene.current(0).expect("ticked");
    let captions = captions(tracker, now);
    faces(&frame, &captions, rows, cols)
}

fn lane_colour(tracker: &Tracker, lane: usize) -> Rgb {
    tracker.settings.lanes[lane].color
}

/// A deck that remembers what it was told, and can be unplugged.
struct Recorder {
    keys: usize,
    size: (usize, usize),
    /// Every `paint`, in order.
    writes: Vec<(u8, Canvas)>,
    flushes: usize,
    brightness: Option<u8>,
    resets: usize,
    /// What each `poll` answers, front first; empty means the timeout.
    presses: VecDeque<Option<Vec<bool>>>,
    unplugged: bool,
}

impl Recorder {
    fn new(keys: usize) -> Self {
        Recorder {
            keys,
            size: (72, 72),
            writes: Vec::new(),
            flushes: 0,
            brightness: None,
            resets: 0,
            presses: VecDeque::new(),
            unplugged: false,
        }
    }

    fn there(&self) -> Result<(), String> {
        if self.unplugged {
            Err("unplugged".to_owned())
        } else {
            Ok(())
        }
    }
}

impl Deck for Recorder {
    fn keys(&self) -> usize {
        self.keys
    }

    fn key_size(&self) -> (usize, usize) {
        self.size
    }

    fn set_brightness(&mut self, percent: u8) -> Result<(), String> {
        self.there()?;
        self.brightness = Some(percent);
        Ok(())
    }

    fn paint(&mut self, key: u8, canvas: &Canvas) -> Result<(), String> {
        self.there()?;
        self.writes.push((key, canvas.clone()));
        Ok(())
    }

    fn flush(&mut self) -> Result<(), String> {
        self.flushes += 1;
        Ok(())
    }

    fn reset(&mut self) -> Result<(), String> {
        self.resets += 1;
        Ok(())
    }

    fn poll(&mut self, _timeout_ms: u64) -> Result<Option<Vec<bool>>, String> {
        self.there()?;
        Ok(self.presses.pop_front().flatten())
    }
}

/// A pen whose every line covers one pixel in the middle of its rows.
fn pen(size: (usize, usize), face: &Face) -> Pen {
    let letters = Letters {
        height: 1000,
        ascent: 800,
        advances: letters_in(&face.label).into_iter().map(|c| (c, 500)).collect(),
        kerns: Vec::new(),
    };
    let dots = runs(size, &face.label, &letters)
        .iter()
        .map(|run| {
            vec![Dot {
                x: 3,
                y: ((run.band.0 + run.band.1) / 2) as i32,
                coverage: COVERED,
            }]
        })
        .collect();
    Pen { letters, dots }
}

fn pens(size: (usize, usize), shown: &Vec<Option<Face>>, wanted: &Vec<Face>) -> Vec<Pen> {
    stale(shown, wanted)
        .into_iter()
        .map(|key| pen(size, &wanted[key]))
        .collect()
}

fn framed(
    live: &mut Live,
    deck: &mut Recorder,
    tracker: &Tracker,
    scene: &Scene,
) -> Option<KeyboardStatus> {
    let frame = scene.current(0).expect("ticked");
    let drawing = live.prepare(deck, tracker, &frame, 0).unwrap();
    let pens = pens(deck.key_size(), &live.shown, &drawing.wanted);
    assert_eq!(pens.len(), drawing.stale.len());
    live.finish(deck, &drawing.wanted, &pens).unwrap();
    drawing.status
}

fn nothing(keys: usize) -> Vec<Option<Face>> {
    vec![None; keys]
}

fn painted(
    deck: &mut Recorder,
    shown: &mut Vec<Option<Face>>,
    wanted: &Vec<Face>,
) -> Result<usize, String> {
    let pens = pens(deck.key_size(), shown, wanted);
    paint_changed(deck, shown, wanted, &pens)
}

#[test]
fn captions_name_the_lane_and_say_how_long() {
    let mut tracker = tracker(4);
    tracker.sessions.push(session(State::Waiting, 1, 0));
    let captions = captions(&tracker, 80_000);
    assert_eq!(captions.len(), 4);
    assert_eq!(captions[1].name, "agent-frow");
    assert_eq!(captions[1].state, Some("Waiting"));
    assert_eq!(captions[1].elapsed, "1m", "Waiting counts in minutes");
    assert_eq!(captions[0].name, NEXT_HERE, "the lowest free lane");
    assert_eq!(captions[0].state, None);
    assert_eq!(captions[0].elapsed, "");
    assert_eq!(captions[2].name, FREE);
    assert_eq!(captions[3].name, FREE);
}

#[test]
fn a_named_empty_lane_keeps_its_name() {
    let mut tracker = tracker(3);
    tracker.settings.lanes[0].name = "Backend".to_owned();
    let captions = captions(&tracker, 0);
    assert_eq!(captions[0].name, "Backend");
    // A name does not reserve a lane — only a saved agent's preference
    // does — so the next agent still lands on lane 1, and the others
    // are merely free.
    assert_eq!(captions[1].name, FREE);
    assert_eq!(captions[2].name, FREE);
}

#[test]
fn a_preview_captions_every_lane_with_its_state() {
    let mut tracker = tracker(3);
    tracker.sessions.push(session(State::Running, 0, 0));
    tracker.preview = Some(Preview {
        state: State::Error,
        expires_at: u64::MAX,
    });
    let captions = captions(&tracker, 5_000);
    assert!(captions.iter().all(|c| c.state == Some("Error")));
    assert!(captions.iter().all(|c| c.elapsed.is_empty()));
}

#[test]
fn a_press_is_a_rising_edge_only() {
    let up = vec![false; 15];
    let mut down = up.clone();
    down[2] = true;
    assert_eq!(pressed(&up, &down), vec![2]);
    assert_eq!(pressed(&down, &down), Vec::<usize>::new(), "held");
    assert_eq!(pressed(&down, &up), Vec::<usize>::new(), "released");
    assert_eq!(pressed(&vec![], &down), vec![2], "first reading");
}

#[test]
fn a_row_is_a_lane_and_the_last_key_is_status() {
    let mut tracker = tracker(3);
    tracker.sessions.push(session(State::Done, 2, 0));
    let colour = lane_colour(&tracker, 2);
    let mut scene = Scene::new();
    let faces = faces_of(&mut tracker, &mut scene, 80_000, ROWS, COLS);
    assert_eq!(faces.len(), 15);
    let row = &faces[10..15];
    assert_eq!(row[0].colour, colour, "the name key is lit in full");
    assert_eq!(row[0].label, Label::Name("agent-frow".to_owned()));
    for key in &row[1..4] {
        assert_eq!(key.colour, palette::base(colour), "the body rests");
        assert!(
            matches!(key.label, Label::Gauge { value: None, .. }),
            "unknown numbers, dashes: {:?}",
            key.label
        );
    }
    assert_eq!(
        row[4].colour,
        palette::base(colour),
        "the status key rests, Done included"
    );
    assert_eq!(
        row[4].label,
        Label::Status {
            state: "Done",
            elapsed: "1m 20s".to_owned()
        }
    );
    assert!(row.iter().all(|key| key.ink != Ink::Quiet));
    assert_eq!(
        row[0].ink,
        Ink::on(colour, colour),
        "the name key's ink suits its colour"
    );
}

#[test]
fn waiting_puts_up_down_enter_on_the_middle_keys() {
    let mut tracker = tracker(3);
    tracker.sessions.push(session(State::Waiting, 0, 0));
    let colour = lane_colour(&tracker, 0);
    let mut scene = Scene::new();
    let faces = faces_of(&mut tracker, &mut scene, 1_000, ROWS, COLS);
    assert_eq!(
        faces[0].colour, colour,
        "the name key is the marker, in full"
    );
    assert_eq!(faces[1].label, Label::Up);
    assert_eq!(faces[2].label, Label::Down);
    assert_eq!(faces[3].label, Label::Enter);
    assert_eq!(
        faces[4].colour,
        palette::base(colour),
        "the status key does not pulse"
    );
    assert!(
        matches!(
            faces[4].label,
            Label::Wait {
                state: "Waiting",
                ..
            }
        ),
        "the status key leads with how long"
    );

    let narrow = faces_of(&mut tracker, &mut scene, 1_100, 2, 3);
    assert!(
        matches!(narrow[1].label, Label::Gauge { name: "ctx", .. }),
        "no answers on a three-key row — the context instead: {:?}",
        narrow[1].label
    );
}

#[test]
fn an_error_row_is_red_in_the_middle_only() {
    let mut tracker = tracker(3);
    tracker.sessions.push(session(State::Error, 1, 0));
    let colour = lane_colour(&tracker, 1);
    let mut scene = Scene::new();
    let faces = faces_of(&mut tracker, &mut scene, 0, ROWS, COLS);
    let row = &faces[5..10];
    assert_eq!(row[0].colour, colour);
    for key in &row[1..4] {
        assert_eq!(key.colour, palette::dark_red());
    }
    assert_eq!(
        row[4].colour,
        palette::base(colour),
        "the status key is never red"
    );
}

#[test]
fn an_idle_row_is_one_dim_name_key() {
    let mut tracker = tracker(3);
    tracker.sessions.push(session(State::Idle, 0, 0));
    let colour = lane_colour(&tracker, 0);
    let mut scene = Scene::new();
    let faces = faces_of(&mut tracker, &mut scene, 0, ROWS, COLS);
    assert_eq!(faces[0].colour, palette::base(colour));
    assert_eq!(faces[0].ink, Ink::Quiet);
    for key in &faces[1..5] {
        assert_eq!(key.colour, palette::off());
        assert_eq!(key.label, Label::Blank, "the rest is off, words included");
    }
}

#[test]
fn an_empty_lane_says_what_it_is_for_in_grey() {
    let mut tracker = tracker(3);
    let mut scene = Scene::new();
    let faces = faces_of(&mut tracker, &mut scene, 0, ROWS, COLS);
    assert_eq!(faces[0].colour, palette::off());
    assert_eq!(faces[0].label, Label::Name(NEXT_HERE.to_owned()));
    assert_eq!(faces[0].ink, Ink::Quiet);
    assert!(faces[1..5].iter().all(|key| *key == Face::blank()));
}

#[test]
fn rows_past_the_lanes_are_blank() {
    let mut four = tracker(4);
    let mut scene = Scene::new();
    let faces = faces_of(&mut four, &mut scene, 0, ROWS, COLS);
    assert_eq!(faces.len(), 15);
    assert!(
        faces
            .iter()
            .step_by(COLS)
            .all(|key| key.label != Label::Blank),
        "every row of a three-row deck is a lane when there are four"
    );

    let mut three = tracker(3);
    let faces = faces_of(&mut three, &mut scene, 0, 4, 8);
    assert_eq!(faces.len(), 32);
    assert!(
        faces[24..].iter().all(|key| *key == Face::blank()),
        "an XL's fourth row"
    );
    assert_eq!(faces[16].label, Label::Name(FREE.to_owned()));
}

#[test]
fn a_press_maps_to_row_and_role() {
    assert_eq!(press_of(7, 5, 3, true), Some(Press::Answer(1, Key::Down)));
    assert_eq!(press_of(6, 5, 3, true), Some(Press::Answer(1, Key::Up)));
    assert_eq!(press_of(8, 5, 3, true), Some(Press::Answer(1, Key::Enter)));
    assert_eq!(
        press_of(5, 5, 3, true),
        Some(Press::Summon(1)),
        "the name key"
    );
    assert_eq!(
        press_of(9, 5, 3, true),
        Some(Press::Summon(1)),
        "the status key"
    );
    assert_eq!(
        press_of(7, 5, 3, false),
        Some(Press::Summon(1)),
        "not waiting"
    );
    assert_eq!(press_of(12, 5, 2, true), None, "a row past the lanes");
    assert_eq!(
        press_of(1, 3, 1, true),
        Some(Press::Summon(0)),
        "a narrow deck"
    );
}

#[test]
fn the_status_sentence_counts_the_lanes_on_the_deck() {
    let three = layout_sentence(&found(3, 5), 3);
    assert!(three.ends_with(": 3 lanes of 5 keys"), "{three}");
    assert!(!three.contains("serial"), "{three}");
    let six = layout_sentence(&found(3, 5), 6);
    assert!(
        six.ends_with("3 lanes of 5 keys, lanes 4–6 are not on it"),
        "{six}"
    );
    let four = layout_sentence(&found(3, 5), 4);
    assert!(four.ends_with(", lane 4 is not on it"), "{four}");
    let xl = layout_sentence(&found(4, 8), 3);
    assert!(xl.ends_with(": 3 lanes of 8 keys"), "{xl}");
}

#[test]
fn paint_changed_writes_only_changed_keys() {
    let mut tracker = tracker(4);
    tracker.sessions.push(session(State::Done, 2, 0));
    let mut scene = Scene::new();
    let mut deck = Recorder::new(15);
    let mut shown = nothing(15);

    let wanted = faces_of(&mut tracker, &mut scene, 500, ROWS, COLS);
    let written = painted(&mut deck, &mut shown, &wanted).unwrap();
    assert_eq!(written, 15, "a deck just taken is painted whole");
    assert_eq!(deck.flushes, 1);

    let wanted = faces_of(&mut tracker, &mut scene, 900, ROWS, COLS);
    let written = painted(&mut deck, &mut shown, &wanted).unwrap();
    assert_eq!(written, 0, "still the same second, nothing moves");
    assert_eq!(deck.flushes, 1, "and nothing is flushed");

    let wanted = faces_of(&mut tracker, &mut scene, 1_500, ROWS, COLS);
    let written = painted(&mut deck, &mut shown, &wanted).unwrap();
    assert_eq!(written, 1, "the elapsed time on lane 3 ticked over");
    assert_eq!(
        deck.writes.last().unwrap().0,
        14,
        "and only its status key was written"
    );
    assert_eq!(deck.flushes, 2);
}

#[test]
fn a_waiting_row_leads_with_how_long() {
    let mut tracker = tracker(3);
    tracker.sessions.push(session(State::Waiting, 0, 0));
    let mut scene = Scene::new();
    let faces = faces_of(&mut tracker, &mut scene, 80_000, ROWS, COLS);
    assert_eq!(
        faces[4].label,
        Label::Wait {
            state: "Waiting",
            held: "1m".to_owned()
        }
    );
    assert_eq!(faces[1].label, Label::Up, "the answer keys stay");
    assert_eq!(faces[2].label, Label::Down);
    assert_eq!(faces[3].label, Label::Enter);
}

#[test]
fn a_waiting_status_key_is_written_once_a_minute() {
    let mut tracker = tracker(4);
    tracker.sessions.push(session(State::Waiting, 2, 0));
    let mut scene = Scene::new();
    let mut deck = Recorder::new(15);
    let mut shown = nothing(15);

    let wanted = faces_of(&mut tracker, &mut scene, 61_000, ROWS, COLS);
    painted(&mut deck, &mut shown, &wanted).unwrap();
    assert_eq!(
        shown[14].as_ref().unwrap().label,
        Label::Wait {
            state: "Waiting",
            held: "1m".to_owned()
        }
    );

    let before = deck.writes.len();
    let wanted = faces_of(&mut tracker, &mut scene, 61_900, ROWS, COLS);
    painted(&mut deck, &mut shown, &wanted).unwrap();
    assert!(
        deck.writes[before..].iter().all(|(key, _)| *key != 14),
        "inside the minute the status key holds; the pulse may move the others"
    );

    let wanted = faces_of(&mut tracker, &mut scene, 120_000, ROWS, COLS);
    painted(&mut deck, &mut shown, &wanted).unwrap();
    assert!(
        deck.writes[before..].iter().any(|(key, _)| *key == 14),
        "and it turns over at the minute"
    );
    assert_eq!(
        shown[14].as_ref().unwrap().label,
        Label::Wait {
            state: "Waiting",
            held: "2m".to_owned()
        }
    );
}

#[test]
fn the_layout_is_re_reported_when_the_lane_count_changes() {
    let mut tracker = tracker(3);
    let mut scene = Scene::new();
    scene.tick(&mut tracker, 0, 0);
    let mut deck = Recorder::new(15);
    let mut live = Live::new(found(3, 5), deck.keys(), 0);
    let first = framed(&mut live, &mut deck, &tracker, &scene).unwrap();
    assert!(first.connected);
    assert_eq!(first.driven, 15);
    assert!(
        first.detail.ends_with("3 lanes of 5 keys"),
        "{}",
        first.detail
    );
    assert_eq!(deck.writes.len(), 15);
    assert!(
        framed(&mut live, &mut deck, &tracker, &scene).is_none(),
        "nothing new to say"
    );
    assert_eq!(deck.writes.len(), 15, "and nothing new to show");

    tracker.settings.set_lane_count(6);
    scene.tick(&mut tracker, 1, 0);
    let second = framed(&mut live, &mut deck, &tracker, &scene).unwrap();
    assert!(
        second.detail.ends_with("lanes 4–6 are not on it"),
        "{}",
        second.detail
    );
    assert_eq!(second.driven, 15, "the deck still drives every key it has");
}

#[test]
fn a_lane_with_numbers_shows_them_on_the_middle_keys() {
    let mut tracker = tracker(3);
    {
        let mut session = session(State::Running, 0, 0);
        session.gauges = Gauges {
            context_used: Some(42),
            five_hour: Some(10),
            seven_day: None,
        };
        tracker.sessions.push(session);
    }
    let mut scene = Scene::new();
    let faces = faces_of(&mut tracker, &mut scene, 0, ROWS, COLS);
    assert_eq!(
        faces[1].label,
        Label::Gauge {
            name: "ctx",
            value: Some(42)
        }
    );
    assert_eq!(
        faces[2].label,
        Label::Gauge {
            name: "5h",
            value: Some(10)
        }
    );
    assert_eq!(
        faces[3].label,
        Label::Gauge {
            name: "7d",
            value: None
        }
    );
    assert!(matches!(
        faces[4].label,
        Label::Status {
            state: "Running",
            ..
        }
    ));
}

#[test]
fn a_preview_row_has_no_gauges() {
    let mut tracker = tracker(3);
    tracker.preview = Some(Preview {
        state: State::Done,
        expires_at: u64::MAX,
    });
    let mut scene = Scene::new();
    let faces = faces_of(&mut tracker, &mut scene, 0, ROWS, COLS);
    assert!(faces[1..4].iter().all(|key| key.label == Label::Blank));
    assert!(matches!(
        faces[4].label,
        Label::Status { state: "Done", .. }
    ));
}

#[test]
fn an_error_row_says_why_on_the_status_key() {
    let mut limited = tracker(3);
    {
        let mut session = session(State::Error, 0, 0);
        session.failure = Some("rate limit".to_owned());
        limited.sessions.push(session);
    }
    let mut scene = Scene::new();
    let faces = faces_of(&mut limited, &mut scene, 80_000, ROWS, COLS);
    assert_eq!(
        faces[4].label,
        Label::Status {
            state: "Error",
            elapsed: "rate limit".to_owned()
        }
    );
    // Without a reason, the clock as usual.
    let mut plain = tracker(3);
    plain.sessions.push(session(State::Error, 0, 0));
    let faces = faces_of(&mut plain, &mut scene, 80_000, ROWS, COLS);
    assert_eq!(
        faces[4].label,
        Label::Status {
            state: "Error",
            elapsed: "1m 20s".to_owned()
        }
    );
}

#[test]
fn a_narrow_deck_shows_what_fits() {
    let mut tracker = tracker(3);
    {
        let mut session = session(State::Done, 0, 0);
        session.gauges = Gauges {
            context_used: Some(42),
            five_hour: Some(10),
            seven_day: Some(3),
        };
        tracker.sessions.push(session);
    }
    let mut scene = Scene::new();
    let faces = faces_of(&mut tracker, &mut scene, 0, 2, 3);
    assert_eq!(
        faces[1].label,
        Label::Gauge {
            name: "ctx",
            value: Some(42)
        },
        "three columns: the context alone"
    );
    let faces = faces_of(&mut tracker, &mut scene, 0, 4, 8);
    assert!(matches!(faces[3].label, Label::Gauge { name: "7d", .. }));
    assert_eq!(faces[4].label, Label::Blank, "and nothing after the third");
}

#[test]
fn a_key_that_went_unwritten_is_written_again() {
    let mut deck = Recorder::new(15);
    let mut tracker = tracker(3);
    let mut scene = Scene::new();
    let wanted = faces_of(&mut tracker, &mut scene, 0, ROWS, COLS);
    let mut shown = nothing(15);
    deck.unplugged = true;
    assert_eq!(
        painted(&mut deck, &mut shown, &wanted),
        Err("unplugged".to_owned())
    );
    assert_eq!(deck.flushes, 0);
    deck.unplugged = false;
    assert_eq!(painted(&mut deck, &mut shown, &wanted), Ok(15));
    assert_eq!(deck.flushes, 1);
}

#[test]
fn presses_go_by_whether_the_lane_can_be_answered() {
    let mut tracker = tracker(3);
    tracker.sessions.push(session(State::Waiting, 0, 0));
    let up = vec![false; 15];
    let mut down = up.clone();
    down[1] = true;
    down[6] = true;
    let told = presses(&tracker, &pressed(&up, &down), ROWS, COLS);
    assert_eq!(told.len(), 2);
    assert_eq!(told[0], press_of(1, COLS, 3, true).unwrap());
    assert_eq!(told[1], Press::Summon(1), "nobody on lane 2");
}

#[test]
fn a_brightness_is_a_whole_percentage() {
    let mut tuning = Settings::default().tuning;
    tuning.brightness = 0;
    assert_eq!(percent(tuning), 0);
    tuning.brightness = ONE;
    assert_eq!(percent(tuning), 100);
    tuning.brightness = ONE / 2;
    assert_eq!(percent(tuning), 50);
}

#[test]
fn the_fake_records_every_write_and_flush() {
    let mut deck = Recorder::new(15);
    deck.paint(3, &blank((72, 72))).unwrap();
    deck.paint(4, &blank((72, 72))).unwrap();
    deck.flush().unwrap();
    deck.set_brightness(80).unwrap();
    deck.reset().unwrap();
    assert_eq!(deck.writes.len(), 2);
    assert_eq!(deck.writes[1].0, 4);
    assert_eq!(deck.flushes, 1);
    assert_eq!(deck.brightness, Some(80));
    assert_eq!(deck.resets, 1);
    deck.presses.push_back(Some(vec![true; 15]));
    assert_eq!(deck.poll(1).unwrap(), Some(vec![true; 15]));
    assert_eq!(deck.poll(1).unwrap(), None);
}

#[test]
fn a_press_is_heard_once() {
    let mut tracker = tracker(3);
    tracker.sessions.push(session(State::Waiting, 1, 0));
    let mut deck = Recorder::new(15);
    let mut live = Live::new(found(3, 5), 15, 0);
    let mut down = vec![false; 15];
    down[7] = true;
    deck.presses.push_back(Some(down.clone()));
    deck.presses.push_back(Some(down));
    let keys = live.listen(&mut deck).unwrap();
    assert_eq!(keys, [7]);
    assert_eq!(
        live.presses(&tracker, &keys),
        vec![Press::Answer(1, Key::Down)]
    );
    assert!(live.listen(&mut deck).unwrap().is_empty(), "held");
    assert!(live.listen(&mut deck).unwrap().is_empty(), "quiet");
    deck.unplugged = true;
    assert_eq!(
        live.listen(&mut deck),
        Err("unplugged; reconnecting".to_owned())
    );
}

#[test]
fn the_backlight_is_sent_only_when_it_moves() {
    let mut tracker = tracker(3);
    tracker.settings.tuning.brightness = ONE / 2;
    let mut scene = Scene::new();
    scene.tick(&mut tracker, 0, 0);
    let mut deck = Recorder::new(15);
    let mut live = Live::new(found(3, 5), 15, 0);
    framed(&mut live, &mut deck, &tracker, &scene);
    assert_eq!(deck.brightness, Some(50));
    deck.brightness = None;
    framed(&mut live, &mut deck, &tracker, &scene);
    assert_eq!(deck.brightness, None);

    let mut gone = Live::new(found(3, 5), 15, 0);
    deck.unplugged = true;
    let frame = scene.current(0).unwrap();
    assert_eq!(
        gone.prepare(&mut deck, &tracker, &frame, 0).err().as_deref(),
        Some("unplugged")
    );
    assert_eq!(gone.brightness, None);
}

#[test]
fn the_app_is_looked_for_now_and_then() {
    let mut live = Live::new(found(3, 5), 15, 5);
    assert!(!live.check_due(5));
    assert!(live.check_due(5 + RETRY_MS));
    assert!(!live.check_due(6 + RETRY_MS));
}

#[test]
fn the_first_deck_by_serial_is_taken() {
    let numbered = |serial: &str, model: &str| Found {
        serial: serial.to_owned(),
        model: model.to_owned(),
        ..found(3, 5)
    };
    let decks = in_order(vec![
        numbered("C", "one"),
        numbered("A", "two"),
        numbered("C", "three"),
        numbered("B", "four"),
    ]);
    let models: Vec<&str> = decks.iter().map(|deck| deck.model.as_str()).collect();
    assert_eq!(models, ["two", "four", "one", "three"]);
    assert_eq!(chosen(false, &decks), Ok(0));
    assert_eq!(
        chosen(false, &Vec::new()),
        Err("no Stream Deck on USB".to_owned())
    );
    assert!(chosen(true, &decks).is_err());
}

#[test]
fn a_key_is_painted_with_the_picture_of_its_face() {
    let mut tracker = tracker(3);
    tracker.sessions.push(session(State::Waiting, 0, 0));
    let mut scene = Scene::new();
    let wanted = faces_of(&mut tracker, &mut scene, 0, ROWS, COLS);
    let mut deck = Recorder::new(15);
    deck.size = (96, 96);
    let mut shown = nothing(15);
    // One key is up to date already.
    shown[1] = Some(wanted[1].clone());
    assert_eq!(painted(&mut deck, &mut shown, &wanted), Ok(14));
    let keys: Vec<u8> = deck.writes.iter().map(|write| write.0).collect();
    assert_eq!(keys, (0..15).filter(|key| *key != 1).collect::<Vec<u8>>());
    for (key, canvas) in &deck.writes {
        let face = &wanted[usize::from(*key)];
        let expected = draw_key(
            deck.size,
            face.colour,
            &face.label,
            face.ink,
            &pen(deck.size, face),
        );
        assert_eq!((canvas.width, canvas.height), (96, 96));
        assert_eq!(canvas.rgb, expected.rgb);
    }
    let first = &deck.writes[0].1;
    let colour = wanted[0].colour;
    assert_eq!(first.pixel(0, 0), [colour.r, colour.g, colour.b]);
    assert!(
        (0..96).any(|y| first.pixel(3, y) != first.pixel(0, 0)),
        "a word is on it"
    );
    assert!(shown.iter().zip(&wanted).all(|(had, face)| had.as_ref() == Some(face)));
}

#[test]
fn a_key_has_to_be_large_enough_for_an_arrow() {
    assert!(is_drawable((72, 72)));
    assert!(is_drawable((3, 3)));
    assert!(!is_drawable((2, 72)));
    assert!(!is_drawable((72, 0)));
    assert!(!is_drawable((usize::MAX, 72)));
}

#[test]
fn a_label_is_made_of_its_own_letters() {
    assert!(letters_in(&Label::Blank).is_empty());
    assert_eq!(letters_in(&Label::Enter), ['E', 'n', 't', 'e', 'r']);
    assert_eq!(
        letters_in(&Label::Name("a-ba".to_owned())),
        ['a', '-', 'b', ' ']
    );
    let gauge = |value| Label::Gauge { name: "ctx", value };
    assert_eq!(letters_in(&gauge(Some(11))), ['c', 't', 'x', '1', '%']);
    assert_eq!(letters_in(&gauge(None)), ['c', 't', 'x', '\u{2014}']);
}
