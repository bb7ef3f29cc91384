use tarish::dns::{
    encode_name, nsec_rdata, parse, query, record, response, txt_rdata, Reader, TYPE_AAAA,
    TYPE_PTR, TYPE_SRV, TYPE_TXT,
};

#[test]
fn names_become_labels() {
    assert_eq!(encode_name("a.local"), b"\x01a\x05local\0");
    assert_eq!(encode_name(""), b"\0");
}

#[test]
fn a_reader_stops_at_the_end() {
    let mut r = Reader::new(&[1, 0, 2, 0, 0, 0, 3, 9]);
    assert_eq!(r.u8(), Some(1));
    assert_eq!(r.u16(), Some(2));
    assert_eq!(r.u32(), Some(3));
    assert_eq!(r.bytes(2), None);
    assert_eq!(r.bytes(1), Some(&[9u8][..]));
    assert_eq!(r.u8(), None);
}

#[test]
fn a_query_is_read_back() {
    let q = query("_airdrop._tcp.local");
    assert_eq!(&q[..12], &[0, 0, 0, 0, 0, 1, 0, 0, 0, 0, 0, 0]);
    let m = parse(&q).unwrap();
    assert_eq!(m.questions.len(), 1);
    assert_eq!(m.questions[0].name, "_airdrop._tcp.local");
    assert_eq!(m.questions[0].qtype, TYPE_PTR);
    assert!(m.records.is_empty());
}

#[test]
fn a_response_is_read_back() {
    let txt = txt_rdata(&["flags=489", "n=x"]);
    assert_eq!(txt, b"\x09flags=489\x03n=x");
    assert_eq!(txt_rdata(&[]), vec![0]);
    let answers = vec![
        record("x.local", TYPE_AAAA, 120, &[7; 16], true),
        record("y.local", TYPE_TXT, 0, &txt, false),
    ];
    let p = response(&answers);
    assert_eq!(&p[..12], &[0, 0, 0x84, 0, 0, 0, 0, 2, 0, 0, 0, 0]);
    let m = parse(&p).unwrap();
    assert_eq!(m.records.len(), 2);
    assert_eq!((m.records[0].name.as_str(), m.records[0].rtype), ("x.local", TYPE_AAAA));
    assert_eq!(m.records[0].rdata, vec![7; 16]);
    assert_eq!(m.records[1].rdata, txt);
}

#[test]
fn pointers_are_followed_but_not_forever() {
    // One record whose name points back to the question's.
    let mut p = query("a.local");
    p[7] = 1;
    p.extend_from_slice(&[0xc0, 12, 0, 33, 0, 1, 0, 0, 0, 9, 0, 2, 1, 2]);
    let m = parse(&p).unwrap();
    assert_eq!((m.records[0].name.as_str(), m.records[0].rtype), ("a.local", TYPE_SRV));
    // A pointer to itself.
    let mut r = Reader::new(&[0xc0, 0]);
    assert_eq!(r.name(), None);
    let mut r = Reader::new(&[3, b'a', b'b']);
    assert_eq!(r.name(), None);
}

#[test]
fn what_is_no_packet_is_refused() {
    assert!(parse(&[]).is_none());
    assert!(parse(&[0; 11]).is_none());
    assert!(parse(&query("a.local")[..20]).is_none());
}

#[test]
fn denial_names_the_types_there_are() {
    let n = nsec_rdata("a.local", &[TYPE_TXT, TYPE_SRV]);
    assert_eq!(&n[..9], b"\x01a\x05local\0");
    assert_eq!(&n[9..], &[0, 5, 0, 0, 0x80, 0, 0x40]);
}
