use tarish::mux::{
    data_packet, introduction_packet, packet_acknowledgement, read_data_packet, request_packet,
    MuxError, MuxFrame, MuxReader, OpenAction, OpenEvent, Opening, Packet,
};

#[test]
fn packets_are_spelled_out() {
    assert_eq!(request_packet(), vec![3, 0xfc, 0x9f, 0x5e]);
    assert_eq!(
        introduction_packet(),
        vec![0, 0, 0, 0x08, 1, 0x12, 7, 0x0a, 3, 0xfc, 0x9f, 0x5e, 0x10, 2]
    );
    assert_eq!(
        packet_acknowledgement(300),
        vec![0, 0, 0, 0x08, 3, 0x22, 8, 0x0a, 3, 0xfc, 0x9f, 0x5e, 0x10, 0xac, 2]
    );
    assert_eq!(data_packet(&[7, 8]), vec![0xfc, 0x9f, 0x5e, 0, 0, 0, 2, 7, 8]);
}

#[test]
fn a_wrapped_frame_is_read_back() {
    match read_data_packet(&data_packet(b"hello")) {
        Packet::Frame(9, f) => assert_eq!(f, b"hello"),
        other => panic!("{other:?}"),
    }
}

#[test]
fn other_packets_are_passed_over() {
    assert!(matches!(read_data_packet(&[1, 2]), Packet::NotOurs));
    assert!(matches!(read_data_packet(&[0, 0, 0, 8, 1]), Packet::NotOurs));
    assert!(matches!(read_data_packet(&[1, 2, 3, 0, 0, 0, 0]), Packet::NotOurs));
    assert!(matches!(read_data_packet(&[0xfc, 0x9f, 0x5e, 0, 0]), Packet::Empty(2)));
    assert!(matches!(read_data_packet(&[0xfc, 0x9f, 0x5e, 0, 0, 0, 5, 1]), Packet::Broken(5)));
}

#[test]
fn a_socket_opens_after_two_handshakes() {
    let mut o = Opening::new();
    assert!(matches!(o.step(OpenEvent::Packet(vec![23, 1])), OpenAction::Introduce));
    assert!(matches!(o.step(OpenEvent::Packet(vec![0, 0, 0, 8])), OpenAction::Read));
    match o.step(OpenEvent::Packet(data_packet(b"x"))) {
        OpenAction::AcknowledgeParse(5, f) => assert_eq!(f, b"x"),
        _ => panic!("no frame"),
    }
    assert!(matches!(o.step(OpenEvent::Parsed(MuxFrame::Other)), OpenAction::Read));
    o.step(OpenEvent::Packet(data_packet(b"y")));
    assert!(matches!(o.step(OpenEvent::Parsed(MuxFrame::Accepted)), OpenAction::Open));
    assert!(matches!(o.step(OpenEvent::Packet(vec![])), OpenAction::Nothing));
}

#[test]
fn a_peer_may_refuse_in_many_ways() {
    let first = |p: Vec<u8>| Opening::new().step(OpenEvent::Packet(p));
    assert!(matches!(first(vec![24]), OpenAction::Fail(MuxError::NoDataConnection)));
    assert!(matches!(first(vec![]), OpenAction::Fail(MuxError::NoDataConnection)));
    assert!(matches!(first(vec![23; 65]), OpenAction::Fail(MuxError::NotThisProtocol)));
    let ready = || {
        let mut o = Opening::new();
        o.step(OpenEvent::Packet(vec![23]));
        o
    };
    let mut o = ready();
    o.step(OpenEvent::Packet(data_packet(b"x")));
    assert!(matches!(
        o.step(OpenEvent::Parsed(MuxFrame::Refused)),
        OpenAction::Fail(MuxError::Refused)
    ));
    let mut o = ready();
    o.step(OpenEvent::Packet(data_packet(b"x")));
    assert!(matches!(
        o.step(OpenEvent::Parsed(MuxFrame::Disconnection)),
        OpenAction::Fail(MuxError::ClosedDuringSetup)
    ));
    let mut o = ready();
    assert!(matches!(
        o.step(OpenEvent::Packet(vec![0xfc, 0x9f, 0x5e, 0, 0, 0, 9])),
        OpenAction::AcknowledgeFail(4, MuxError::Broken)
    ));
}

#[test]
fn patience_ends_after_eight_packets() {
    let mut o = Opening::new();
    o.step(OpenEvent::Packet(vec![23]));
    for _ in 0..7 {
        assert!(matches!(o.step(OpenEvent::Packet(vec![9])), OpenAction::Read));
    }
    assert!(matches!(
        o.step(OpenEvent::Packet(vec![0xfc, 0x9f, 0x5e])),
        OpenAction::AcknowledgeFail(0, MuxError::NeverAccepted)
    ));
}

#[test]
fn the_stream_keeps_its_order() {
    let mut r = MuxReader::new();
    assert!(r.wants());
    r.absorb(MuxFrame::Data(vec![1, 2, 3]));
    r.absorb(MuxFrame::Other);
    assert!(!r.wants());
    assert_eq!(r.take(2), vec![1, 2]);
    r.absorb(MuxFrame::Data(vec![4]));
    assert_eq!(r.take(10), vec![3, 4]);
    r.absorb(MuxFrame::Disconnection);
    assert!(!r.wants());
    assert!(r.take(10).is_empty());
}
