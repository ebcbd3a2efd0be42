//! One keyboard from handshake to hand-back, against one in software.

use agent_frow::settings::{Rgb, KEYS};
use agent_frow::surface::keychron::hid::{Found, Transport};
use agent_frow::surface::keychron::protocol::{
    EffectSlot, Hsv, Report, EFFECT_MIXED, EFFECT_OFF, EFFECT_PER_KEY, PER_KEY_SOLID,
};
use agent_frow::surface::keychron::session::{runs, Board, Snapshot, ULTRA, V0_ULTRA};
use agent_frow::surface::keychron::surface::{
    adopt, describe, describe_board, describe_state, is_numpad, model_of, not_taken,
};
use agent_frow::surface::keychron_v0::surface::restorable;

pub const LEDS: usize = 87;

#[derive(Debug, Clone, PartialEq, Eq)]
pub struct State {
    pub effect: u8,
    pub brightness: u8,
    pub speed: u8,
    pub hue: u8,
    pub sat: u8,
    pub per_key_type: u8,
    pub per_key: Vec<Hsv>,
    pub regions: Vec<u8>,
    pub lists: [[EffectSlot; 5]; 2],
}

pub struct ScriptedKeyboard {
    pub state: State,
    /// Every report received, for asserting how many a frame cost.
    pub packets: usize,
    pub sets: usize,
    row_map: fn(u8) -> Vec<u8>,
}

impl Default for ScriptedKeyboard {
    fn default() -> Self {
        Self::new()
    }
}

fn ultra_row_map(row: u8) -> Vec<u8> {
    if row == 0 {
        vec![0, 1, 2, 3, 4, 5, 6, 7, 8, 9, 10, 11, 12, 0xFF, 13, 14, 15]
    } else {
        vec![0xFF; 17]
    }
}

/// The V0 Ultra's matrix: the knob holds row 0 column 0 with no LED; the
/// M column is column 0 of every row below; two gaps where tall keys sit.
fn v0_row_map(row: u8) -> Vec<u8> {
    match row {
        0 => vec![0xFF, 0, 1, 2, 3],
        1 => vec![4, 5, 6, 7, 8],
        2 => vec![9, 10, 11, 12, 13],
        3 => vec![14, 15, 16, 17, 0xFF],
        4 => vec![18, 19, 20, 21, 22],
        5 => vec![23, 24, 0xFF, 25, 0xFF],
        _ => vec![0xFF; 5],
    }
}

impl ScriptedKeyboard {
    /// Fresh from the factory, lighting off — as the owner's arrived.
    pub fn new() -> Self {
        Self::with(LEDS, ultra_row_map)
    }

    /// A V0 Ultra in software: 26 LEDs behind the numpad matrix.
    pub fn v0() -> Self {
        Self::with(26, v0_row_map)
    }

    fn with(leds: usize, row_map: fn(u8) -> Vec<u8>) -> Self {
        let mut lists = [[EffectSlot::none(); 5]; 2];
        lists[0][0] = EffectSlot {
            effect: 5,
            hue: 0,
            sat: 255,
            speed: 127,
            time_ms: 5000,
        };
        lists[1][0] = EffectSlot {
            effect: 2,
            hue: 0,
            sat: 255,
            speed: 127,
            time_ms: 5000,
        };
        Self {
            state: State {
                effect: 0,
                brightness: 255,
                speed: 127,
                hue: 0,
                sat: 255,
                per_key_type: 0,
                per_key: vec![
                    Hsv {
                        h: 43,
                        s: 255,
                        v: 255
                    };
                    leds
                ],
                regions: vec![0; leds],
                lists,
            },
            packets: 0,
            sets: 0,
            row_map,
        }
    }
}

impl Transport for ScriptedKeyboard {
    fn exchange(&mut self, report: &Report) -> Result<Report, String> {
        self.packets += 1;
        let mut reply = *report;
        let s = &mut self.state;
        let leds = s.per_key.len();
        match report[0] {
            0x07 => {
                self.sets += 1;
                match report[2] {
                    0x01 => s.brightness = report[3],
                    0x02 => s.effect = report[3],
                    0x03 => s.speed = report[3],
                    0x04 => {
                        s.hue = report[3];
                        s.sat = report[4];
                    }
                    _ => {}
                }
            }
            0x08 => match report[2] {
                0x01 => reply[3] = s.brightness,
                0x02 => reply[3] = s.effect,
                0x03 => reply[3] = s.speed,
                0x04 => {
                    reply[3] = s.hue;
                    reply[4] = s.sat;
                }
                _ => {}
            },
            0xA1 => {
                let text = b"v1.0.3-test";
                reply[1..1 + text.len()].copy_from_slice(text);
            }
            0xA8 => {
                let mut ok = true;
                match report[1] {
                    0x01 => reply[3..5].copy_from_slice(&1u16.to_le_bytes()),
                    0x05 => reply[3] = leds as u8,
                    0x06 => {
                        let map = (self.row_map)(report[2]);
                        reply[3..3 + map.len()].copy_from_slice(&map);
                    }
                    0x07 => reply[3] = s.per_key_type,
                    0x08 => {
                        self.sets += 1;
                        s.per_key_type = report[2];
                    }
                    0x09 => {
                        let (start, count) = (report[2] as usize, report[3] as usize);
                        ok = count <= 9 && start + count <= leds;
                        if ok {
                            for i in 0..count {
                                let hsv = s.per_key[start + i];
                                reply[3 + 3 * i..6 + 3 * i]
                                    .copy_from_slice(&[hsv.h, hsv.s, hsv.v]);
                            }
                        }
                    }
                    0x0A => {
                        self.sets += 1;
                        let (start, count) = (report[2] as usize, report[3] as usize);
                        ok = count <= 9 && start + count <= leds;
                        if ok {
                            for i in 0..count {
                                s.per_key[start + i] = Hsv {
                                    h: report[4 + 3 * i],
                                    s: report[5 + 3 * i],
                                    v: report[6 + 3 * i],
                                };
                            }
                        }
                    }
                    0x0C => {
                        let (start, count) = (report[2] as usize, report[3] as usize);
                        ok = count <= 29 && start + count <= leds;
                        if ok {
                            reply[3..3 + count]
                                .copy_from_slice(&s.regions[start..start + count]);
                        }
                    }
                    0x0D => {
                        self.sets += 1;
                        let (start, count) = (report[2] as usize, report[3] as usize);
                        ok = count <= 28
                            && start + count <= leds
                            && report[4..4 + count].iter().all(|r| *r < 2);
                        if ok {
                            s.regions[start..start + count]
                                .copy_from_slice(&report[4..4 + count]);
                        }
                    }
                    0x0E => {
                        let (region, start, count) =
                            (report[2] as usize, report[3] as usize, report[4] as usize);
                        ok = count <= 3 && region < 2 && start + count <= 5;
                        if ok {
                            for i in 0..count {
                                let slot = s.lists[region][start + i];
                                let at = 3 + 8 * i;
                                reply[at..at + 4].copy_from_slice(&[
                                    slot.effect,
                                    slot.hue,
                                    slot.sat,
                                    slot.speed,
                                ]);
                                reply[at + 4..at + 8]
                                    .copy_from_slice(&slot.time_ms.to_le_bytes());
                            }
                        }
                    }
                    0x0F => {
                        self.sets += 1;
                        let (region, start, count) =
                            (report[2] as usize, report[3] as usize, report[4] as usize);
                        ok = count <= 3 && region < 2 && start + count <= 5;
                        if ok {
                            for i in 0..count {
                                let at = 5 + 8 * i;
                                s.lists[region][start + i] = EffectSlot {
                                    effect: report[at],
                                    hue: report[at + 1],
                                    sat: report[at + 2],
                                    speed: report[at + 3],
                                    time_ms: u32::from_le_bytes([
                                        report[at + 4],
                                        report[at + 5],
                                        report[at + 6],
                                        report[at + 7],
                                    ]),
                                };
                            }
                        }
                    }
                    _ => {
                        reply[0] = 0xFF;
                        ok = false;
                    }
                }
                reply[2] = u8::from(!ok);
            }
            _ => {}
        }
        Ok(reply)
    }
}

fn board() -> Board<ScriptedKeyboard> {
    Board::connect(ScriptedKeyboard::new()).unwrap()
}

#[test]
fn the_handshake_learns_the_board_rather_than_assuming_it() {
    let board = board();
    assert_eq!(board.led_count, 87);
    assert_eq!(board.leds, (1..=12).collect::<Vec<u8>>());
    assert_eq!(board.firmware, "v1.0.3-test");
    assert_eq!(board.available(), (0..12).collect::<Vec<usize>>());
}

#[test]
fn the_board_comes_back_exactly_as_it_was_found() {
    let mut board = board();
    let before = board.transport.state.clone();
    let snapshot = board.snapshot().unwrap();
    board.take_over(&snapshot).unwrap();
    assert_ne!(board.transport.state, before, "something was changed");
    assert_eq!(board.transport.state.effect, EFFECT_MIXED);
    board
        .paint(&vec![(0, Rgb::new(255, 0, 0)), (11, Rgb::new(0, 0, 255))])
        .unwrap();
    board.restore(&snapshot).unwrap();
    assert_eq!(board.transport.state, before);
}

#[test]
fn taking_over_owns_the_f_row_and_leaves_the_rest_to_the_user() {
    let mut board = board();
    board.transport.state.effect = 7;
    board.transport.state.hue = 40;
    let snapshot = board.snapshot().unwrap();
    board.take_over(&snapshot).unwrap();
    let state = &board.transport.state;
    for led in 0..LEDS as u8 {
        let expected = u8::from((1..=12).contains(&led));
        assert_eq!(state.regions[led as usize], expected, "led {led}");
    }
    assert_eq!(state.lists[1][0].effect, EFFECT_PER_KEY);
    assert_eq!(
        state.lists[0][0].effect, 7,
        "the user's effect keeps running"
    );
    assert_eq!(state.lists[0][0].hue, 40);
    assert_eq!(
        state.lists[0][1],
        EffectSlot::none(),
        "and rotates with nothing"
    );
    assert_eq!(state.per_key_type, PER_KEY_SOLID);
    assert_eq!(
        state.per_key[50],
        Hsv {
            h: 43,
            s: 255,
            v: 255
        },
        "a live ambient effect keeps every stored colour"
    );
}

#[test]
fn a_board_with_the_lighting_off_runs_black_per_key_everywhere() {
    let black = Hsv { h: 0, s: 0, v: 0 };
    let mut board = board();
    let before = board.transport.state.clone();
    let snapshot = board.snapshot().unwrap();
    assert_eq!(snapshot.effect, EFFECT_OFF);
    assert_eq!(
        snapshot.colours.len(),
        LEDS,
        "the snapshot covers every stored colour take-over overwrites"
    );
    board.take_over(&snapshot).unwrap();
    let state = &board.transport.state;
    assert_eq!(
        state.lists[0][0].effect, EFFECT_PER_KEY,
        "effect none would end the frame after the board's first slice, \
         leaving later LEDs — Caps Lock among them — never repainted"
    );
    for led in 0..LEDS as u8 {
        if (1..=12).contains(&led) {
            assert_ne!(state.per_key[led as usize], black, "F-row led {led}");
        } else {
            assert_eq!(state.per_key[led as usize], black, "led {led}");
        }
    }
    board.restore(&snapshot).unwrap();
    assert_eq!(
        board.transport.state, before,
        "every colour, and the off effect, come back"
    );

    // The user's own mixed setup with nothing on region 0 is the same case.
    let mut mixed = Board::connect(ScriptedKeyboard::new()).unwrap();
    mixed.transport.state.effect = EFFECT_MIXED;
    mixed.transport.state.lists[0] = [EffectSlot::none(); 5];
    let snapshot = mixed.snapshot().unwrap();
    mixed.take_over(&snapshot).unwrap();
    assert_eq!(mixed.transport.state.lists[0][0].effect, EFFECT_PER_KEY);
    assert_eq!(mixed.transport.state.per_key[50], black);
}

#[test]
fn a_reenumerated_board_is_recognised_as_already_ours() {
    let mut board = board();
    assert!(!board.is_ours().unwrap());
    let snapshot = board.snapshot().unwrap();
    board.take_over(&snapshot).unwrap();
    assert!(board.is_ours().unwrap());
    // The same keyboard on a fresh handshake — after a cable wiggle.
    let state = board.transport.state.clone();
    let mut again = ScriptedKeyboard::new();
    again.state = state;
    let mut board = Board::connect(again).unwrap();
    assert!(board.is_ours().unwrap());
}

#[test]
fn a_frame_costs_only_what_changed() {
    let mut board = board();
    let snapshot = board.snapshot().unwrap();
    board.take_over(&snapshot).unwrap();
    let full: Vec<(usize, Rgb)> = (0..12).map(|key| (key, Rgb::new(10, 20, 30))).collect();
    board.transport.packets = 0;
    board.paint(&full).unwrap();
    assert_eq!(board.transport.packets, 2, "twelve LEDs, nine per packet");
    board.transport.packets = 0;
    board.paint(&full).unwrap();
    assert_eq!(board.transport.packets, 0, "nothing changed");
    let mut one = full.clone();
    one[5].1 = Rgb::new(200, 0, 0);
    board.transport.packets = 0;
    board.paint(&one).unwrap();
    assert_eq!(board.transport.packets, 1, "one key, one packet");
    assert_eq!(
        board.transport.state.per_key[6],
        Hsv::from(Rgb::new(200, 0, 0))
    );
}

#[test]
fn a_snapshot_survives_the_file() {
    let mut board = board();
    board.transport.state.regions[3] = 1;
    let snapshot = board.snapshot().unwrap();
    assert_eq!(Snapshot::parse(&snapshot.to_json()).unwrap(), snapshot);
    assert!(Snapshot::parse("{}").is_err());
    assert!(Snapshot::parse("nope").is_err());
}

#[test]
fn runs_follow_the_packet_shape() {
    assert_eq!(runs(&vec![1, 2, 3, 5, 6], 9), vec![vec![1, 2, 3], vec![5, 6]]);
    assert_eq!(
        runs(&(1..=12).collect::<Vec<u8>>(), 9),
        vec![(1..=9).collect::<Vec<u8>>(), vec![10, 11, 12]]
    );
    assert!(runs(&vec![], 9).is_empty());
}

#[test]
fn the_v0_handshake_finds_the_nine() {
    let board = Board::connect_with(ScriptedKeyboard::v0(), &V0_ULTRA).unwrap();
    assert_eq!(board.led_count, 26);
    assert_eq!(board.leds, vec![0, 1, 2, 3, 4, 9, 14, 18, 23]);
    assert_eq!(board.available(), (0..9).collect::<Vec<usize>>());
}

#[test]
fn a_board_that_is_turned_away_stays_as_it_was() {
    let mut board = Board::connect(ScriptedKeyboard::new()).unwrap();
    let (leds, firmware, painted) =
        (board.leds.clone(), board.firmware.clone(), board.painted.clone());
    let refused = board.greet(&V0_ULTRA).err();
    assert!(refused.is_some_and(|error| error.contains("different Keychron")));
    assert_eq!(board.leds, leds);
    assert_eq!(board.firmware, firmware);
    assert_eq!(board.painted, painted);
    assert_eq!(board.led_count, 87);
    assert_eq!(board.greet(&ULTRA), Ok(()));
    assert_eq!(board.leds, leds);
}

#[test]
fn an_ultra_is_not_a_v0_and_a_v0_is_still_an_ultra_row() {
    // The V0 geometry refuses the 87-LED board outright — that is how the
    // two surfaces keep off each other's keyboards.
    let refused = Board::connect_with(ScriptedKeyboard::new(), &V0_ULTRA).err();
    assert!(
        refused
            .as_deref()
            .is_some_and(|error| error.contains("different Keychron")),
        "{refused:?}"
    );
    // The Ultra geometry accepts any LED count (Ultra models vary), and on
    // a V0 it happily reads twelve nonsense entries out of the padded row
    // reply — which is exactly why the surfaces need the claim registry:
    // an Ultra thread must never get to handshake a V0 at all.
    let confused = Board::connect_with(ScriptedKeyboard::v0(), &ULTRA).unwrap();
    assert_eq!(confused.leds.len(), KEYS, "it reads *something* row-shaped");
    assert_ne!(
        confused.leds,
        vec![0, 1, 2, 3, 4, 9, 14, 18, 23],
        "and it is not the V0's nine"
    );
}

#[test]
fn a_v0_owns_its_nine_scattered_leds_and_comes_back_exact() {
    let mut board = Board::connect_with(ScriptedKeyboard::v0(), &V0_ULTRA).unwrap();
    board.transport.state.effect = 7;
    board.transport.state.hue = 40;
    let before = board.transport.state.clone();
    let snapshot = board.snapshot().unwrap();
    board.take_over(&snapshot).unwrap();
    let ours = [0u8, 1, 2, 3, 4, 9, 14, 18, 23];
    for led in 0..26u8 {
        let expected = u8::from(ours.contains(&led));
        assert_eq!(
            board.transport.state.regions[led as usize], expected,
            "led {led}"
        );
    }
    assert_eq!(board.transport.state.lists[0][0].effect, 7);
    board
        .paint(&vec![(0, Rgb::new(255, 0, 0)), (8, Rgb::new(0, 0, 255))])
        .unwrap();
    assert_eq!(
        board.transport.state.per_key[23],
        Hsv::from(Rgb::new(0, 0, 255)),
        "key 8 is M5, LED 23"
    );
    board.restore(&snapshot).unwrap();
    assert_eq!(board.transport.state, before);
    assert!(board.is_ours().is_ok_and(|ours| !ours));
}

#[test]
fn a_board_is_adopted_once_and_goes_back_to_what_it_was() {
    let mut board = board();
    let before = board.transport.state.clone();
    let first = adopt(&mut board, None).unwrap();
    assert_eq!(board.painted, vec![None; KEYS]);
    assert!(board.is_ours().unwrap());
    // Adopted again after a cable wiggle, it still goes back to the first
    // look: what it shows now is the app's own work.
    let state = board.transport.state.clone();
    let mut again = ScriptedKeyboard::new();
    again.state = state;
    let mut board = Board::connect(again).unwrap();
    let second = adopt(&mut board, Some(&first)).unwrap();
    assert_eq!(second, first);
    board.restore(&second).unwrap();
    assert_eq!(board.transport.state, before);
    // A board that is not ours is read, whatever is remembered of another.
    board.transport.state.hue = 99;
    let third = adopt(&mut board, Some(&first)).unwrap();
    assert_eq!(third.hue, 99);
}

#[test]
fn a_silent_board_is_not_adopted() {
    struct Silent;
    impl Transport for Silent {
        fn exchange(&mut self, _report: &Report) -> Result<Report, String> {
            Err("no echo".to_owned())
        }
    }
    assert!(Board::connect(Silent).is_err());
    let mut board = Board {
        transport: Silent,
        firmware: String::new(),
        led_count: 87,
        leds: (1..=12).collect(),
        painted: vec![None; 12],
    };
    assert!(adopt(&mut board, None).is_err());
}

#[test]
fn a_snapshot_restores_only_a_board_of_its_size() {
    let ultra = board().snapshot().unwrap();
    assert!(!restorable(&ultra));
    let mut numpad = Board::connect_with(ScriptedKeyboard::v0(), &V0_ULTRA).unwrap();
    assert!(restorable(&numpad.snapshot().unwrap()));
    assert!(is_numpad(26));
    assert!(!is_numpad(87));
}

#[test]
fn what_is_said_of_a_board() {
    let cable = Found {
        product_id: 0x0A30,
        product: "Keychron V3 Ultra".to_owned(),
        path: "p".to_owned(),
    };
    assert_eq!(model_of(&cable), "Keychron V3 Ultra over USB");
    assert_eq!(
        describe(&cable),
        "Keychron V3 Ultra over USB (pid 0A30)"
    );
    let receiver = Found {
        product_id: 1,
        product: "Keychron Ultra-Link 8K".to_owned(),
        path: "p".to_owned(),
    };
    assert_eq!(model_of(&receiver), "Keychron Ultra-Link 8K over 2.4 GHz");
    assert_eq!(
        describe_board("v1.0.3", 87, &vec![1, 2]),
        "  firmware v1.0.3, 87 LEDs, F-row at [1, 2]"
    );
    assert_eq!(
        describe_state(&board().snapshot().unwrap()),
        "  effect 0 (0 off, 23 per-key, 24 mixed), brightness 255, per-key type 0"
    );
    assert_eq!(not_taken(false), "no Ultra keyboard detected");
    assert_eq!(not_taken(true), "not responding — retrying");
}

#[test]
fn a_key_past_the_leds_costs_nothing() {
    let mut board = board();
    board.transport.packets = 0;
    board.paint(&vec![(12, Rgb::new(1, 2, 3)), (400, Rgb::new(1, 2, 3))]).unwrap();
    assert_eq!(board.transport.packets, 0);
    board.paint(&vec![(400, Rgb::new(1, 2, 3)), (0, Rgb::new(9, 9, 9))]).unwrap();
    assert_eq!(board.transport.packets, 1);
}

#[test]
fn a_dark_board_is_stored_black_outside_our_keys() {
    let mut board = board();
    board.transport.state.effect = 0;
    let snapshot = board.snapshot().unwrap();
    board.take_over(&snapshot).unwrap();
    let ours = board.leds.clone();
    for (led, colour) in board.transport.state.per_key.iter().enumerate() {
        if !ours.contains(&(led as u8)) {
            assert_eq!((colour.h, colour.s, colour.v), (0, 0, 0), "LED {led}");
        }
    }
}

#[test]
fn a_run_is_never_empty() {
    assert_eq!(runs(&vec![1, 2, 4], 0), vec![vec![1], vec![2], vec![4]]);
}
