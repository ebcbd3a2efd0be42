//! What a device's thread does next.

use agent_frow::surface::pace::{Pace, Turn};

#[test]
fn a_device_is_looked_for_then_painted() {
    let mut pace = Pace::start(1000);
    assert_eq!(pace.turn(true, 1000), Turn::Connect);
    pace.failed(1000, 10_000);
    assert_eq!(pace.turn(true, 5_000), Turn::Rest, "not yet");
    assert_eq!(pace.turn(true, 11_000), Turn::Connect);
    pace.connected();
    assert_eq!(pace.turn(true, 11_001), Turn::Paint);
    pace.failed(12_000, 10_000);
    assert_eq!(pace.turn(true, 12_001), Turn::Rest);
}

#[test]
fn an_unticked_device_is_handed_back_once_and_left_alone() {
    let mut pace = Pace::start(0);
    pace.turn(true, 0);
    pace.connected();
    assert_eq!(pace.turn(false, 1), Turn::LetGo { held: true });
    assert_eq!(pace.turn(false, 2), Turn::Rest);
    // Ticked again it is looked for at once.
    assert_eq!(pace.turn(true, 3), Turn::Connect);
    pace.failed(3, 10_000);
    assert_eq!(pace.turn(false, 4), Turn::LetGo { held: false });
    assert_eq!(pace.turn(true, 5), Turn::Connect);
}
