use tarish::dns::{parse, query};
use tarish::mdns::{
    goodbye_wait, instance_name, link_local_of, reverse_name, stable_instance, Browser, Source, AIRDROP_PORT,
    AIRDROP_SERVICE,
};

fn addr(last: u8) -> [u8; 16] {
    let mut a = [0u8; 16];
    a[0] = 0xfe;
    a[1] = 0x80;
    a[15] = last;
    a
}

#[test]
fn identities_are_kept() {
    let (i, s) = stable_instance(Some(" ABCDEF012345\n"), Some([1; 6]), None);
    assert_eq!((i.as_str(), s), ("abcdef012345", Source::Stored));
    let (i, s) = stable_instance(Some("bad"), Some([0, 1, 0xab, 3, 4, 5]), None);
    assert_eq!((i.as_str(), s), ("0001ab030405", Source::Minted));
    let (i, s) = stable_instance(None, None, Some("aa:bb:cc:dd:ee:0F"));
    assert_eq!((i.as_str(), s), ("aabbccddee0f", Source::Interface));
    assert_eq!(instance_name(None), "000000000000");
    assert_eq!(instance_name(Some("aa:bb")), "000000000000");
}

#[test]
fn the_link_local_address_is_found() {
    let table = "00000000000000000000000000000001 01 80 10 80       lo\n\
                 20010db8000000000000000000000001 05 40 00 80   tlink0\n\
                 fe80000000000000000000000000beef 05 40 20 80   tlink0\n";
    let mut want = addr(0xef);
    want[14] = 0xbe;
    assert_eq!(link_local_of(table, "tlink0"), Some(want));
    assert_eq!(link_local_of(table, "wlan0"), None);
    assert_eq!(link_local_of("", "tlink0"), None);
}

#[test]
fn addresses_are_reversed() {
    let r = reverse_name(&addr(0x1f));
    assert!(r.starts_with("F.1.0.0."));
    assert!(r.ends_with("0.8.E.F.ip6.arpa"));
    assert_eq!(r.len(), 32 * 2 + "ip6.arpa".len());
}

#[test]
fn what_one_announces_another_finds() {
    let mut a = Browser::new("aaaaaaaaaaaa".to_string(), true);
    let mut b = Browser::new("bbbbbbbbbbbb".to_string(), true);
    assert!(b.poll(&a.advertise(Some(addr(1))).unwrap(), 5, "bbbbbbbbbbbb", Some(addr(2))).is_none());
    let found = b.peers(Some(addr(2)));
    assert_eq!(found.len(), 1);
    assert_eq!(found[0].instance, format!("aaaaaaaaaaaa.{AIRDROP_SERVICE}"));
    assert_eq!(found[0].short_id(), "aaaaaaaaaaaa");
    assert_eq!((found[0].port, found[0].addr), (AIRDROP_PORT, Some(addr(1))));
    // A goodbye is not a greeting.
    assert!(a.stop_advertising(Some(addr(1))).is_some());
    b.expire(45_004, 45_000);
    assert_eq!(b.peers(None).len(), 1);
    b.expire(45_005, 45_000);
    assert!(b.peers(None).is_empty());
}

#[test]
fn nobody_is_their_own_peer() {
    let mut a = Browser::new("aaaaaaaaaaaa".to_string(), true);
    let packet = a.advertise(Some(addr(1))).unwrap();
    a.poll(&packet, 5, "aaaaaaaaaaaa", Some(addr(1)));
    assert!(a.peers(Some(addr(1))).is_empty());
}

#[test]
fn only_an_advertiser_answers() {
    let mut a = Browser::new("aaaaaaaaaaaa".to_string(), true);
    let q = query(AIRDROP_SERVICE);
    assert_eq!(a.query(), q);
    assert!(a.poll(&q, 0, "aaaaaaaaaaaa", Some(addr(1))).is_none());
    a.advertise(Some(addr(1)));
    let answer = a.poll(&q, 0, "aaaaaaaaaaaa", Some(addr(1))).unwrap();
    assert_eq!(parse(&answer).unwrap().records.len(), a.records_with_ttl(Some(addr(1)), 120).len());
    assert_eq!(a.instance(), "aaaaaaaaaaaa");
    a.forget_peers();
    assert!(a.peers(None).is_empty());
    let mut mute = Browser::new("cccccccccccc".to_string(), false);
    assert!(mute.advertise(Some(addr(1))).is_none());
}

#[test]
fn a_goodbye_is_said_three_times() {
    assert_eq!(goodbye_wait(0), Some(0));
    assert_eq!(goodbye_wait(1), Some(100));
    assert_eq!(goodbye_wait(2), Some(100));
    assert_eq!(goodbye_wait(3), None);
}
