use tarish::discovery::QsPeer;
use tarish::mdns::Peer;
use tarish::peers::{
    get_peers, lan_line, lan_route, resolve, Advertisement, BlePeers, Names, PROTOCOL_AIRDROP,
    PROTOCOL_QUICKSHARE,
};

fn addr(last: u8) -> [u8; 16] {
    let mut a = [0u8; 16];
    a[0] = 0xfe;
    a[1] = 0x80;
    a[15] = last;
    a
}

fn peer(instance: &str, last: Option<u8>, port: u16, last_seen: u64) -> Peer {
    Peer {
        instance: format!("{instance}._airdrop._tcp.local"),
        host: String::new(),
        port,
        addr: last.map(addr),
        last_seen,
    }
}

fn ad(id: &str, name: Option<&str>, mac: Option<&str>, verified: bool) -> Advertisement {
    Advertisement {
        endpoint_id: id.to_string(),
        device_name: name.map(str::to_string),
        bluetooth_mac: mac.map(str::to_string),
        verified,
        psm: Some(0x81),
    }
}

fn lan(id: &str, name: Option<&str>, addr: Option<[u8; 4]>, port: u16) -> QsPeer {
    QsPeer {
        endpoint_id: id.to_string(),
        instance: "i".to_string(),
        host: "h.local".to_string(),
        port,
        addr,
        name: name.map(str::to_string),
        last_seen: 0,
    }
}

#[test]
fn names_are_learned_by_address() {
    let mut n = Names::new();
    assert_eq!(n.name_at(&addr(1)), None);
    n.learn(addr(1), "Mac".to_string());
    n.learn(addr(2), "Pad".to_string());
    n.learn(addr(1), "Macbook".to_string());
    assert_eq!(n.name_at(&addr(1)), Some("Macbook".to_string()));
    assert_eq!(n.name_at(&addr(2)), Some("Pad".to_string()));
    n.forget_all();
    assert_eq!(n.name_at(&addr(2)), None);
}

#[test]
fn the_list_has_one_row_for_each_device() {
    let mut names = Names::new();
    names.learn(addr(1), "Mac".to_string());
    names.learn(addr(2), "Mac".to_string());
    let peers = vec![
        peer("bbb", Some(3), 1, 5),
        peer("old", Some(1), 1, 10),
        peer("new", Some(2), 1, 20),
        peer("aaa", None, 0, 5),
    ];
    let mut ble = BlePeers::new();
    let rows = get_peers(&peers, &names, &mut ble, 0);
    let shown: Vec<(&str, &str)> =
        rows.iter().map(|r| (r.name.as_str(), r.id.as_str())).collect();
    // In order of names, the newest of the two rows of one device.
    assert_eq!(
        shown,
        vec![
            ("Mac", "new._airdrop._tcp.local"),
            ("aaa", "aaa._airdrop._tcp.local"),
            ("bbb", "bbb._airdrop._tcp.local"),
        ]
    );
    assert!(rows.iter().all(|r| r.protocol == PROTOCOL_AIRDROP && r.psm == 0));
}

#[test]
fn bluetooth_rows_follow_and_expire() {
    let mut ble = BlePeers::new();
    ble.report("11:11", ad("ZZZZ", None, Some("aa"), false), 0);
    ble.report("22:22", ad("AAAA", Some("Phone"), None, true), 10_000);
    // Neither reachable nor verified: not listed.
    ble.report("33:33", ad("BBBB", None, None, false), 10_000);
    let rows = get_peers(&vec![peer("zz", Some(1), 1, 0)], &Names::new(), &mut ble, 19_999);
    let shown: Vec<(&str, i32, &str, &str, i32)> = rows
        .iter()
        .map(|r| {
            let b = r.bluetooth_mac.as_str();
            (r.name.as_str(), r.protocol, b, r.ble_address.as_str(), r.psm)
        })
        .collect();
    assert_eq!(
        shown,
        vec![
            ("zz", PROTOCOL_AIRDROP, "", "", 0),
            ("Phone", PROTOCOL_QUICKSHARE, "", "22:22", 0x81),
            ("ZZZZ", PROTOCOL_QUICKSHARE, "aa", "11:11", 0x81),
        ]
    );
    let later = get_peers(&vec![], &Names::new(), &mut ble, 20_000);
    assert_eq!(later.len(), 1);
    assert_eq!(later[0].id, "AAAA");
}

#[test]
fn a_rotated_device_keeps_one_row() {
    let mut ble = BlePeers::new();
    ble.report("11:11", ad("AAAA", None, Some("mac"), true), 0);
    ble.report("22:22", ad("BBBB", None, Some("mac"), true), 100);
    ble.report("33:33", ad("CCCC", None, Some("other"), true), 100);
    assert_eq!(ble.peers.len(), 2);
    assert_eq!(ble.peers[0].id, "BBBB");
    ble.report("44:44", ad("CCCC", None, None, true), 200);
    assert_eq!(ble.peers.len(), 2);
    assert_eq!(ble.peers[1].ble_address, "44:44");
    assert_eq!(ble.peers[1].mac, None);
}

#[test]
fn a_row_leads_back_to_its_device() {
    let peers = vec![peer("aaa", Some(1), 8770, 0), peer("bbb", None, 8770, 0), peer("ccc", Some(3), 0, 0)];
    let t = resolve(&peers, "aaa", Some(addr(9)), Some(4)).unwrap();
    assert_eq!((t.addr, t.port, t.scope), (addr(1), 8770, 4));
    assert!(resolve(&peers, "aaa._airdrop._tcp.local", None, Some(4)).is_some());
    assert!(resolve(&peers, "zzz", None, Some(4)).is_none());
    // No address, no port, no interface, and ourselves.
    assert!(resolve(&peers, "bbb", None, Some(4)).is_none());
    assert!(resolve(&peers, "ccc", None, Some(4)).is_none());
    assert!(resolve(&peers, "aaa", None, None).is_none());
    assert!(resolve(&peers, "aaa", Some(addr(1)), Some(4)).is_none());
}

#[test]
fn a_lan_route_needs_an_address_and_a_port() {
    let table = vec![
        lan("AAAA", None, None, 1),
        lan("BBBB", None, Some([192, 168, 0, 99]), 56189),
        lan("CCCC", None, Some([10, 0, 0, 1]), 0),
    ];
    assert_eq!(lan_route(&table, "BBBB"), Some(([192, 168, 0, 99], 56189)));
    assert_eq!(lan_route(&table, "AAAA"), None);
    assert_eq!(lan_route(&table, "CCCC"), None);
    assert_eq!(lan_route(&table, "DDDD"), None);
}

#[test]
fn a_lan_peer_is_told_in_one_line() {
    let p = lan("MTOI", Some("K-N6"), Some([192, 168, 0, 99]), 56189);
    assert_eq!(lan_line(&p), "MTOI|K-N6|192.168.0.99:56189");
    assert_eq!(lan_line(&lan("MTOI", None, None, 0)), "MTOI||h.local:0");
}
