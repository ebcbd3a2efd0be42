//! A Corsair keyboard's F-row.

use agent_frow::settings::KEYS;
use agent_frow::surface::corsair::palette::our_led_ids;
use agent_frow::surface::corsair::surface::{
    available, c_string, candidates, luid, no_library, not_accepted, not_loaded,
};

#[test]
fn key_index_maps_onto_the_contiguous_f_row_luids() {
    assert_eq!(luid(0), 2, "CLK_F1");
    assert_eq!(luid(KEYS - 1), 13, "CLK_F12");
    assert_eq!(our_led_ids(), (2..=13).collect::<Vec<u32>>());
}

#[test]
fn only_keys_that_are_reported_are_available() {
    assert_eq!(available(&vec![1, 3, 13, 40]), vec![1, 11]);
    assert!(available(&vec![]).is_empty());
    assert_eq!(available(&(0..100).collect()), (0..12).collect::<Vec<usize>>());
}

#[test]
fn a_c_string_ends_at_its_first_zero() {
    assert_eq!(c_string(&b"K70\0junk".to_vec()), "K70");
    assert_eq!(c_string(&b"whole".to_vec()), "whole");
    assert_eq!(c_string(&vec![b'K', 0xff]), "K\u{fffd}");
    assert!(c_string(&vec![0, 1]).is_empty());
}

#[test]
fn a_dark_row_says_why() {
    assert_eq!(
        no_library("not found", "iCUESDK.dll"),
        "not found. Install the app so iCUESDK.dll sits beside it."
    );
    assert_eq!(
        not_accepted(),
        "iCUE did not accept the connection within 8s — is third-party control enabled?"
    );
}

#[test]
fn the_library_is_looked_for_beside_the_program_first() {
    assert_eq!(
        candidates(Some("C:\\build"), Some("C:\\Users\\j\\agent-frow")),
        [
            "C:\\build\\iCUESDK.x64_2019.dll",
            "C:\\Users\\j\\agent-frow\\iCUESDK.x64_2019.dll",
            "iCUESDK.x64_2019.dll",
        ]
    );
    assert_eq!(candidates(None, None), ["iCUESDK.x64_2019.dll"]);
    let tried = vec![
        ("a.dll".to_owned(), "not found".to_owned()),
        ("b.dll".to_owned(), "too old".to_owned()),
    ];
    assert_eq!(
        not_loaded(&tried),
        "could not load iCUESDK.x64_2019.dll: tried a.dll (not found), b.dll (too old)"
    );
}
