use tarish::radio::{live_value, Inputs, Radio};

fn idle() -> Inputs {
    Inputs {
        permitted: true,
        active: false,
        transfer: false,
        airdrop: false,
        discoverable: false,
        yielded: false,
        live: Some(false),
    }
}

#[test]
fn the_property_is_read_as_a_wish() {
    assert_eq!(live_value(&None), None);
    assert_eq!(live_value(&Some("0 ".to_string())), Some(false));
    assert_eq!(live_value(&Some("1".to_string())), Some(true));
}

#[test]
fn the_link_lingers_after_use() {
    let mut r = Radio::new();
    // At boot nothing lingers, but the wish is written once.
    assert_eq!(r.look(idle(), 0), Some(false));
    r.wrote(false);
    assert_eq!(r.look(idle(), 500), None);
    let busy = Inputs { active: true, ..idle() };
    assert_eq!(r.look(busy, 1_000), Some(true));
    r.wrote(true);
    let after = Inputs { live: Some(true), ..idle() };
    assert_eq!(r.look(after, 2_000), None);
    assert_eq!(r.look(after, 31_999), None);
    assert_eq!(r.look(after, 32_000), Some(false));
}

#[test]
fn a_prohibition_does_not_linger() {
    let mut r = Radio::new();
    let busy = Inputs { active: true, ..idle() };
    assert_eq!(r.look(busy, 0), Some(true));
    r.wrote(true);
    let forbidden = Inputs { permitted: false, active: true, live: Some(true), ..idle() };
    assert_eq!(r.look(forbidden, 500), Some(false));
    let yielded = Inputs { yielded: true, active: true, live: Some(true), ..idle() };
    assert_eq!(r.look(yielded, 500), Some(false));
}

#[test]
fn failed_writes_back_off() {
    let mut r = Radio::new();
    assert_eq!(r.look(idle(), 0), Some(false));
    r.failed(0);
    assert_eq!(r.next_try, Some(10_000));
    assert_eq!(r.look(idle(), 9_999), None);
    assert_eq!(r.look(idle(), 10_000), Some(false));
    for _ in 0..9 {
        r.failed(10_000);
    }
    assert_eq!(r.next_try, Some(70_000));
}
