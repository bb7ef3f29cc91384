use tarish::address::{is_plausible_peer, same_bytes, Address};

fn v4(s: &str) -> [u8; 4] {
    let parts: Vec<u8> = s.split('.').map(|p| p.parse().unwrap()).collect();
    parts.try_into().unwrap()
}

fn groups(s: &str) -> Vec<u8> {
    let mut out: Vec<u8> = Vec::new();
    for part in s.split(':').filter(|p| !p.is_empty()) {
        if part.contains('.') {
            out.extend_from_slice(&v4(part));
        } else {
            out.extend_from_slice(&u16::from_str_radix(part, 16).unwrap().to_be_bytes());
        }
    }
    out
}

fn ip(s: &str) -> Address {
    match s.split_once("::") {
        None => Address::V4(v4(s)),
        Some((front, back)) => {
            let (front, back) = (groups(front), groups(back));
            let mut all: [u8; 16] = [0; 16];
            all[..front.len()].copy_from_slice(&front);
            all[16 - back.len()..].copy_from_slice(&back);
            Address::V6(all)
        }
    }
}

#[test]
fn accepts_a_wifi_direct_group_owner_and_ordinary_lans() {
    // The single most common real answer: Android's Wi-Fi Direct group owner.
    assert!(is_plausible_peer(ip("192.168.49.1")));
    assert!(is_plausible_peer(ip("192.168.1.42")));
    assert!(is_plausible_peer(ip("10.0.0.7")));
    assert!(is_plausible_peer(ip("172.16.5.5")));
    assert!(is_plausible_peer(ip("fd00::1"))); // unique-local v6
}

#[test]
fn refuses_pointing_the_daemon_at_this_device() {
    assert!(!is_plausible_peer(ip("127.0.0.1")));
    assert!(!is_plausible_peer(ip("127.0.0.53")));
    assert!(!is_plausible_peer(ip("::1")));
    assert!(!is_plausible_peer(ip("0.0.0.0")));
    assert!(!is_plausible_peer(ip("::")));
}

#[test]
fn refuses_the_public_internet() {
    assert!(!is_plausible_peer(ip("8.8.8.8")));
    assert!(!is_plausible_peer(ip("1.1.1.1")));
    assert!(!is_plausible_peer(ip("2001:4860:4860::8888")));
    // 172.32/16 is outside the 172.16/12 private block: an easy off-by-one.
    assert!(!is_plausible_peer(ip("172.32.0.1")));
    // Carrier-grade NAT is not our LAN either.
    assert!(!is_plausible_peer(ip("100.64.0.1")));
}

#[test]
fn refuses_multicast_broadcast_and_link_local() {
    assert!(!is_plausible_peer(ip("224.0.0.251")));
    assert!(!is_plausible_peer(ip("255.255.255.255")));
    assert!(!is_plausible_peer(ip("169.254.1.1")));
    assert!(!is_plausible_peer(ip("ff02::fb")));
    assert!(!is_plausible_peer(ip("fe80::1")));
}

/// The v6 branch must not become a way to smuggle a public v4 target.
#[test]
fn refuses_ipv4_mapped_public_addresses() {
    assert!(!is_plausible_peer(ip("::ffff:8.8.8.8")));
    assert!(!is_plausible_peer(ip("::ffff:127.0.0.1")));
    // ...but a mapped private address is still a plausible peer.
    assert!(is_plausible_peer(ip("::ffff:192.168.49.1")));
}

#[test]
fn an_address_is_four_bytes_or_sixteen() {
    assert!(matches!(Address::from_bytes(&[10, 0, 0, 1]), Some(Address::V4([10, 0, 0, 1]))));
    assert!(matches!(Address::from_bytes(&[1; 16]), Some(Address::V6([1, ..]))));
    assert!(Address::from_bytes(&[1; 5]).is_none());
    assert!(Address::from_bytes(&[]).is_none());
    assert!(same_bytes(&[7; 16], &[7; 16]));
    assert!(!same_bytes(&[7; 16], &[8; 16]));
}
