use tarish::connection::WifiGroup;
use tarish::transfers::{link_released, Arm, Poll, TransferState};

fn group(ssid: &str) -> WifiGroup {
    WifiGroup {
        ssid: ssid.to_string(),
        passphrase: "p".to_string(),
        go_address: "192.168.49.1".to_string(),
        frequency: 5745,
    }
}

fn state() -> TransferState<u32> {
    TransferState::new()
}

#[test]
fn one_transfer_at_a_time() {
    let mut t = state();
    assert_eq!(t.try_begin(false, 0), Some(1));
    assert_eq!(t.try_begin(true, 10), None);
    assert_eq!(t.current(), 1);
    t.finish(1);
    assert_eq!(t.current(), 0);
    assert_eq!(t.try_begin(true, 20), Some(2));
    assert!(t.current_needs_awdl());
}

#[test]
fn a_dead_transfer_is_reclaimed() {
    let mut t = state();
    assert_eq!(t.try_begin(false, 0), Some(1));
    assert_eq!(t.try_begin(false, 180_000), None);
    t.touch(100_000);
    assert!(!t.is_stale(280_000));
    assert!(t.is_stale(280_001));
    assert_eq!(t.try_begin(false, 280_001), Some(2));
    assert_eq!(t.current(), 2);
}

#[test]
fn a_late_cancel_stops_nothing() {
    let mut t = state();
    t.try_begin(false, 0);
    t.finish(1);
    t.try_begin(false, 0);
    t.cancel(1);
    assert!(!t.is_cancelled(2));
    assert!(t.is_cancelled(1));
    t.cancel(0);
    assert!(!t.is_cancelled(0));
}

#[test]
fn airdrop_keeps_the_radio() {
    let mut t = state();
    t.try_begin(true, 0);
    assert!(t.airdrop_busy());
    assert_eq!(t.arm_wifi_direct(None, 0), Arm::Wait);
    assert_eq!(t.arm_wifi_direct(Some(0), 14_999), Arm::Wait);
    assert_eq!(t.arm_wifi_direct(Some(0), 15_000), Arm::Refused);
    assert!(!t.wifi_direct_active());
    t.finish(1);
    assert_eq!(t.arm_wifi_direct(Some(0), 14_000), Arm::Taken);
    assert_eq!(t.arm_wifi_direct(None, 14_100), Arm::Held);
    assert!(t.wifi_direct_active());
    // The end of a transfer gives the radio back.
    t.finish(7);
    assert!(!t.wifi_direct_active());
}

#[test]
fn a_pin_is_confirmed_once() {
    let mut t = state();
    t.set_pin(5, "1234".to_string());
    assert!(!t.confirm_pin(5, "4321"));
    assert!(!t.confirm_pin(6, "1234"));
    assert!(matches!(t.await_pin(5, 1_000, 0), Poll::Wait(500)));
    assert!(matches!(t.await_pin(5, 1_000, 800), Poll::Wait(200)));
    assert!(t.confirm_pin(5, "1234"));
    assert!(matches!(t.await_pin(5, 1_000, 0), Poll::Done(true)));
    assert!(matches!(t.await_pin(5, 1_000, 1_001), Poll::Done(false)));
    t.cancel(5);
    assert!(matches!(t.await_pin(5, 1_000, 0), Poll::Done(false)));
    t.confirm_pin(5, "1234");
    t.clear_pin(5);
    assert!(!t.confirm_pin(5, "1234"));
    assert!(t.pin_ok.is_none());
}

#[test]
fn an_unasked_group_is_no_answer() {
    let mut t = state();
    t.provide_group(3, Some(group("a")));
    assert!(matches!(t.await_group(3, 1_000, 0), Poll::Wait(500)));
    t.want_group(3);
    t.provide_group(3, Some(group("b")));
    assert!(matches!(t.await_group(4, 1_000, 0), Poll::Wait(500)));
    match t.await_group(3, 1_000, 0) {
        Poll::Done(Some(g)) => assert_eq!(g.ssid, "b"),
        _ => panic!("no group"),
    }
    t.provide_group(3, None);
    assert!(matches!(t.await_group(3, 1_000, 0), Poll::Done(None)));
    t.stop_wanting_group();
    t.provide_group(3, Some(group("c")));
    assert!(matches!(t.await_group(3, 1_000, 2_000), Poll::Done(None)));
}

#[test]
fn an_upgrade_belongs_to_its_transfer() {
    let mut t = state();
    t.provide_upgrade(3, Some(77));
    assert!(matches!(t.await_upgrade(4, 1_000, 0), Poll::Wait(500)));
    assert!(matches!(t.await_upgrade(3, 1_000, 0), Poll::Done(Some(77))));
    assert!(matches!(t.await_upgrade(3, 1_000, 1_001), Poll::Done(None)));
    t.provide_upgrade(3, Some(78));
    t.finish(3);
    assert!(t.upgrade.is_none());
    t.provide_upgrade(3, None);
    assert!(matches!(t.await_upgrade(3, 1_000, 0), Poll::Done(None)));
    t.provide_upgrade(3, Some(79));
    t.clear_upgrade(4);
    assert!(t.upgrade.is_some());
    t.clear_upgrade(3);
    assert!(t.upgrade.is_none());
}

#[test]
fn silence_is_no() {
    let mut t = state();
    t.answer(1, true);
    // Somebody else's answer is used up.
    assert!(matches!(t.await_answer(2, 60_000, 1_000), Poll::Wait(59_000)));
    assert!(t.decision.is_none());
    t.answer(2, true);
    assert!(matches!(t.await_answer(2, 60_000, 1_000), Poll::Done(Some(true))));
    t.answer(2, false);
    assert!(matches!(t.await_answer(2, 60_000, 1_000), Poll::Done(Some(false))));
    assert!(matches!(t.await_answer(2, 60_000, 60_001), Poll::Done(None)));
}

#[test]
fn the_link_is_released_when_the_property_says_so() {
    assert!(link_released(&None));
    assert!(link_released(&Some(" 0 ".to_string())));
    assert!(!link_released(&Some("1".to_string())));
}

#[test]
fn a_late_end_leaves_the_running_transfer_alone() {
    let mut t = state();
    t.try_begin(false, 0);
    // The first is presumed dead, and a second takes its place and the radio.
    assert_eq!(t.try_begin(false, 200_000), Some(2));
    assert_eq!(t.arm_wifi_direct(None, 200_000), Arm::Taken);
    t.finish(1);
    assert!(t.wifi_direct_active());
    assert_eq!(t.last_activity, Some(200_000));
    assert_eq!(t.current(), 2);
    t.finish(2);
    assert!(!t.wifi_direct_active());
    assert_eq!(t.last_activity, None);
}

#[test]
fn only_an_offer_is_accepted() {
    let mut t = state();
    assert_eq!(t.try_offer(0), Some(1));
    assert_eq!(t.accepted_offer(), 0);
    t.answer(1, false);
    assert!(matches!(t.await_answer(1, 10, 0), Poll::Done(Some(false))));
    assert_eq!(t.accepted_offer(), 0);
    t.answer(9, true);
    assert!(matches!(t.await_answer(1, 10, 0), Poll::Wait(10)));
    assert_eq!(t.accepted_offer(), 0);
    t.answer(1, true);
    assert!(matches!(t.await_answer(1, 10, 0), Poll::Done(Some(true))));
    assert_eq!(t.accepted_offer(), 1);
    t.finish(1);
    assert_eq!(t.accepted_offer(), 0);
    // A yes to a Quick Share transfer is none to an upload over AirDrop.
    assert_eq!(t.try_begin(false, 0), Some(2));
    t.answer(2, true);
    assert!(matches!(t.await_answer(2, 10, 0), Poll::Done(Some(true))));
    assert_eq!(t.accepted_offer(), 0);
}
