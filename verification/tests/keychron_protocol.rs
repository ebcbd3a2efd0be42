//! The bytes a Keychron understands.

use agent_frow::settings::Rgb;
use agent_frow::surface::keychron::hid::is_echo;
use agent_frow::surface::keychron::protocol::{
    f_row, Command, EffectSlot, Hsv, Region, Reply, REPORT_LEN,
};

fn bytes(command: &Command) -> Vec<u8> {
    let report = command.encode().unwrap();
    // Trailing zeros are padding; compare what the command wrote.
    let end = report.iter().rposition(|b| *b != 0).map_or(0, |i| i + 1);
    report[..end].to_vec()
}

#[test]
fn packets_match_the_firmware_byte_for_byte() {
    assert_eq!(bytes(&Command::GetEffect), [0x08, 0x03, 0x02]);
    assert_eq!(bytes(&Command::SetEffect(24)), [0x07, 0x03, 0x02, 24]);
    assert_eq!(
        bytes(&Command::SetColour { hue: 5, sat: 9 }),
        [0x07, 0x03, 0x04, 5, 9]
    );
    assert_eq!(bytes(&Command::FirmwareVersion), [0xA1]);
    assert_eq!(bytes(&Command::LedCount), [0xA8, 0x05]);
    assert_eq!(
        bytes(&Command::RowMap(0)),
        [0xA8, 0x06, 0, 0xFF, 0xFF, 0xFF]
    );
    assert_eq!(bytes(&Command::SetPerKeyType(0)), [0xA8, 0x08]);
    assert_eq!(
        bytes(&Command::SetColours {
            start: 1,
            colours: vec![Hsv { h: 1, s: 2, v: 3 }, Hsv { h: 4, s: 5, v: 6 }],
        }),
        [0xA8, 0x0A, 1, 2, 1, 2, 3, 4, 5, 6]
    );
    assert_eq!(
        bytes(&Command::SetRegions {
            start: 1,
            regions: vec![Region::OURS, Region::AMBIENT, Region::OURS],
        }),
        [0xA8, 0x0D, 1, 3, 1, 0, 1]
    );
    assert_eq!(
        bytes(&Command::SetEffectList {
            region: Region::OURS,
            slots: vec![EffectSlot {
                effect: 23,
                hue: 0,
                sat: 255,
                speed: 128,
                time_ms: 5000,
            }],
        }),
        [0xA8, 0x0F, 1, 0, 1, 23, 0, 255, 128, 0x88, 0x13]
    );
    assert_eq!(
        bytes(&Command::GetEffectList(Region::AMBIENT)),
        [0xA8, 0x0E, 0, 0, 3]
    );
}

#[test]
fn the_firmware_limits_are_refused_before_the_wire() {
    assert!(
        Command::SetColours {
            start: 0,
            colours: vec![Hsv::default(); 10]
        }
        .encode()
        .is_err()
    );
    assert!(
        Command::SetRegions {
            start: 0,
            regions: vec![Region::AMBIENT; 29]
        }
        .encode()
        .is_err()
    );
    assert!(
        Command::GetRegions {
            start: 0,
            count: 30
        }
        .encode()
        .is_err()
    );
    assert!(
        Command::SetEffectList {
            region: Region::OURS,
            slots: vec![EffectSlot::none(); 4]
        }
        .encode()
        .is_err()
    );
}

#[test]
fn nothing_here_can_write_flash() {
    // VIA's custom_save and Keychron's per-key save. There is no variant
    // for either, and this pins it: every set command is RAM only.
    let every = [
        Command::GetBrightness,
        Command::GetEffect,
        Command::GetSpeed,
        Command::GetColour,
        Command::SetBrightness(1),
        Command::SetEffect(1),
        Command::SetSpeed(1),
        Command::SetColour { hue: 1, sat: 1 },
        Command::FirmwareVersion,
        Command::ProtocolVersion,
        Command::LedCount,
        Command::RowMap(0),
        Command::GetPerKeyType,
        Command::SetPerKeyType(0),
        Command::GetColours { start: 0, count: 1 },
        Command::SetColours {
            start: 0,
            colours: vec![Hsv::default()],
        },
        Command::GetRegions { start: 0, count: 1 },
        Command::SetRegions {
            start: 0,
            regions: vec![Region::OURS],
        },
        Command::GetEffectList(Region::OURS),
        Command::SetEffectList {
            region: Region::OURS,
            slots: vec![],
        },
    ];
    for command in every {
        let report = command.encode().unwrap();
        assert_ne!(
            &report[..3],
            &[0x07, 0x03, 0x09],
            "{command:?} is custom_save"
        );
        assert_ne!(&report[..2], &[0xA8, 0x02], "{command:?} is per-key save");
    }
}

#[test]
fn a_region_can_only_be_one_of_the_two() {
    assert_eq!(Region::from_id(0), Some(Region::AMBIENT));
    assert_eq!(Region::from_id(1), Some(Region::OURS));
    assert_eq!(Region::from_id(2), None, "the firmware's out-of-bounds bug");
}

#[test]
fn replies_are_checked_against_the_question() {
    let mut reply = [0u8; REPORT_LEN];
    reply[..4].copy_from_slice(&[0xA8, 0x05, 0x00, 87]);
    assert_eq!(Command::LedCount.decode(&reply).unwrap(), Reply::Byte(87));
    reply[2] = 1;
    assert!(Command::LedCount.decode(&reply).is_err(), "refused");
    reply[2] = 0;
    assert!(
        Command::ProtocolVersion.decode(&reply).is_err(),
        "wrong sub"
    );
    reply[0] = 0x08;
    assert!(Command::LedCount.decode(&reply).is_err(), "wrong command");

    // The firmware string overwrites byte 1, so only byte 0 must echo.
    let mut reply = [0u8; REPORT_LEN];
    reply[0] = 0xA1;
    reply[1..7].copy_from_slice(b"v1.0.3");
    assert_eq!(
        Command::FirmwareVersion.decode(&reply).unwrap(),
        Reply::Text("v1.0.3".to_owned())
    );

    let mut reply = [0u8; REPORT_LEN];
    reply[..5].copy_from_slice(&[0x08, 0x03, 0x04, 170, 200]);
    assert_eq!(
        Command::GetColour.decode(&reply).unwrap(),
        Reply::Colour { hue: 170, sat: 200 }
    );
}

#[test]
fn the_row_map_reads_as_the_v3_ultra_reports_it() {
    let mut reply = [0u8; REPORT_LEN];
    reply[..3].copy_from_slice(&[0xA8, 0x06, 0]);
    let row0 = [0, 1, 2, 3, 4, 5, 6, 7, 8, 9, 10, 11, 12, 0xFF, 13, 14, 15];
    reply[3..3 + row0.len()].copy_from_slice(&row0);
    let Reply::RowMap(map) = Command::RowMap(0).decode(&reply).unwrap() else {
        panic!()
    };
    assert_eq!(map[13], None, "the gap before Print Screen");
    assert_eq!(f_row(&map), (1..=12).collect::<Vec<u8>>());
}

#[test]
fn effect_lists_decode_in_eight_byte_records() {
    let mut reply = [0u8; REPORT_LEN];
    reply[..3].copy_from_slice(&[0xA8, 0x0E, 0]);
    reply[3..11].copy_from_slice(&[5, 0, 255, 127, 0x88, 0x13, 0, 0]);
    let Reply::EffectList(slots) = Command::GetEffectList(Region::AMBIENT)
        .decode(&reply)
        .unwrap()
    else {
        panic!()
    };
    assert_eq!(slots.len(), 3);
    assert_eq!(
        slots[0],
        EffectSlot {
            effect: 5,
            hue: 0,
            sat: 255,
            speed: 127,
            time_ms: 5000
        }
    );
    assert_eq!(slots[1], EffectSlot::none());
}

#[test]
fn hsv_matches_the_firmware_wheel() {
    assert_eq!(
        Hsv::from(Rgb::new(255, 0, 0)),
        Hsv {
            h: 0,
            s: 255,
            v: 255
        }
    );
    assert_eq!(
        Hsv::from(Rgb::new(0, 255, 0)),
        Hsv {
            h: 85,
            s: 255,
            v: 255
        }
    );
    assert_eq!(
        Hsv::from(Rgb::new(0, 0, 255)),
        Hsv {
            h: 170,
            s: 255,
            v: 255
        }
    );
    assert_eq!(
        Hsv::from(Rgb::new(0, 0, 0)),
        Hsv { h: 0, s: 0, v: 0 },
        "black is value 0"
    );
    assert_eq!(
        Hsv::from(Rgb::new(255, 255, 255)).s,
        0,
        "white has no saturation"
    );
    // Dimming keeps the hue and drops only the value: what the palette's
    // brightness scaling relies on.
    let full = Hsv::from(Rgb::new(80, 170, 255));
    let dim = Hsv::from(Rgb::new(16, 34, 51));
    assert_eq!(full.h, dim.h);
    assert!(full.v > dim.v);
}

#[test]
fn a_push_is_not_an_echo() {
    let mut sent = [0u8; REPORT_LEN];
    sent[..2].copy_from_slice(&[0xA8, 0x0A]);
    let mut layer_change = [0u8; REPORT_LEN];
    layer_change[0] = 0xA3;
    assert!(!is_echo(&sent, &layer_change));
    let mut other_sub = sent;
    other_sub[1] = 0x09;
    assert!(!is_echo(&sent, &other_sub));
    assert!(is_echo(&sent, &sent));
    // Outside the A8 group only the command byte is stable: the firmware
    // string overwrites byte 1 of an A1 reply.
    let mut version = [0u8; REPORT_LEN];
    version[0] = 0xA1;
    let mut reply = version;
    reply[1] = b'v';
    assert!(is_echo(&version, &reply));
}

#[test]
fn a_firmware_string_that_is_no_text_is_read_as_well_as_it_can_be() {
    let mut reply = [0u8; REPORT_LEN];
    reply[0] = 0xA1;
    reply[1..5].copy_from_slice(&[b'v', 0xFF, b'1', 0]);
    assert_eq!(
        Command::FirmwareVersion.decode(&reply).unwrap(),
        Reply::Text("v\u{FFFD}1".to_owned())
    );
}
