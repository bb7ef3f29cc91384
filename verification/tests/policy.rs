use tarish::policy::{
    allows_receive, allows_send, denied_policy, initial_visibility, Expiry, Policy, Refusal,
    Service, MODE_BOTH, MODE_OFF, MODE_RECEIVE, MODE_SEND,
};

fn permissive() -> Policy {
    Policy { airdrop: MODE_BOTH, quickshare: MODE_BOTH, ..denied_policy() }
}

#[test]
fn modes_are_told_apart() {
    assert!(allows_receive(MODE_RECEIVE) && allows_receive(MODE_BOTH));
    assert!(!allows_receive(MODE_OFF) && !allows_receive(MODE_SEND));
    assert!(allows_send(MODE_SEND) && allows_send(MODE_BOTH));
    assert!(!allows_send(MODE_OFF) && !allows_send(MODE_RECEIVE));
    assert!(!allows_send(4));
}

#[test]
fn visibility_at_start_is_off() {
    assert!(!initial_visibility(&None));
    assert!(!initial_visibility(&Some("0".to_string())));
    assert!(initial_visibility(&Some("1".to_string())));
    assert!(initial_visibility(&Some("TRUE".to_string())));
}

#[test]
fn a_daemon_that_heard_nothing_shows_nothing() {
    let mut s = Service::new(false);
    assert_eq!(s.set_discoverable(true, 0), Err(Refusal::PermissionDenied));
    assert!(!s.discoverable);
    assert_eq!(s.set_discoverable(false, 0), Ok(None));
    assert_eq!(s.airdrop_mode(), MODE_OFF);
    assert_eq!(s.quickshare_mode(), MODE_OFF);
}

#[test]
fn the_newest_request_for_visibility_counts() {
    let mut s = Service::new(false);
    assert!(s.set_policy(permissive()).is_none());
    let first = s.set_discoverable(true, 60).unwrap().unwrap();
    assert_eq!(first, Expiry { generation: 1, seconds: 60 });
    let second = s.set_discoverable(true, 30).unwrap().unwrap();
    assert!(!s.visibility_expired(first.generation));
    assert!(s.discoverable);
    assert!(s.visibility_expired(second.generation));
    assert!(!s.discoverable);
    assert_eq!(s.set_discoverable(true, 0), Ok(None));
}

#[test]
fn a_withdrawn_policy_hides_the_device() {
    let mut s = Service::new(false);
    s.set_policy(permissive());
    s.set_discoverable(true, 0).unwrap();
    let name = s.set_policy(Policy {
        airdrop: MODE_SEND,
        device_name: " Kiosk  1 ".to_string(),
        require_confirmation: false,
        require_pin: false,
        ..denied_policy()
    });
    assert_eq!(name, Some("Kiosk 1".to_string()));
    assert!(!s.discoverable);
    assert!(s.auto_accept);
    assert!(!s.require_pin);
    assert_eq!(s.get_policy().airdrop, MODE_SEND);
}

#[test]
fn a_managed_name_is_not_changed() {
    let mut s = Service::new(false);
    assert_eq!(s.set_device_name("  Ada "), Ok("Ada".to_string()));
    assert_eq!(s.set_device_name("..."), Ok(String::new()));
    s.set_policy(Policy { device_name_managed: true, ..denied_policy() });
    assert_eq!(s.set_device_name("Ada"), Err(Refusal::PermissionDenied));
}

#[test]
fn the_band_is_remembered() {
    let mut s = Service::new(false);
    assert_eq!(s.learn_band(0), Some(0));
    assert_eq!(s.learn_band(5520), Some(5520));
    // Only then is the radio asked for.
    assert!(!s.active);
    s.set_active(true);
    assert!(s.active);
    assert_eq!(s.learn_band(0), None);
    assert_eq!(s.sta_freq, 5520);
    assert_eq!(s.learn_band(9000), None);
    assert_eq!(s.learn_band(2437), Some(2437));
    assert_eq!(s.learn_band(-5), Some(-1));
    assert_eq!(s.learn_band(0), Some(0));
}

#[test]
fn a_daemon_starts_with_everything_denied() {
    let s = Service::new(false);
    assert_eq!(format!("{:?}", s.policy), format!("{:?}", denied_policy()));
}
