use std::collections::VecDeque;
use tarish::address::Address;
use tarish::connection::{
    next_within, peer_name, stays_registered, wrap_bytes, Action, Announced, Delivery, Effect,
    Event, Greeted, Greeting, GreetingError, Input, Look, Received, Serve, WifiGroup,
};
use tarish::handover::{
    acquire, is_slow, Adoption, GroupOffer, HostAction, HostEvent, JoinAction, JoinEvent, LanPath,
    Medium, OldFrame, Way, WifiPath,
};
use tarish::outbound;
use tarish::outbound::{
    attachments, finish_cleanly, i64_of, id_of, keep_draining, random_i64, read_answer,
    request_info, wait_for_upgrade, Answer, Closing, FileAction, FileEvent, FileSend, FileStream,
    Heard, OutFile, Wait, CHUNK,
};

fn effects(v: Vec<Effect>) -> VecDeque<Effect> {
    v.into_iter().collect()
}

fn announced(id: i64, name: &str) -> Announced {
    Announced { payload_id: id, name: name.to_string() }
}

#[test]
fn keys_need_the_whole_greeting() {
    let g = Greeting::Request
        .on(Greeted::ConnectionRequest)
        .and_then(|g| g.on(Greeted::Handshake))
        .and_then(|g| g.on(Greeted::Handshake))
        .and_then(|g| g.on(Greeted::Response { accepted: true }));
    assert!(matches!(g, Ok(Greeting::Keys)));
    assert!(matches!(
        Greeting::Request.on(Greeted::Handshake),
        Err(GreetingError::ExpectedRequest)
    ));
    assert!(matches!(
        Greeting::ClientInit.on(Greeted::Other),
        Err(GreetingError::ExpectedHandshake)
    ));
    assert!(matches!(
        Greeting::Response.on(Greeted::Response { accepted: false }),
        Err(GreetingError::Declined)
    ));
    assert!(matches!(
        Greeting::Response.on(Greeted::Handshake),
        Err(GreetingError::ExpectedResponse)
    ));
}

#[test]
fn a_peer_is_called_something() {
    assert_eq!(peer_name(Some("Ada".to_string()), "x"), "Ada");
    assert_eq!(peer_name(None, "x"), "x");
    assert!(!peer_name(None, "").is_empty());
}

#[test]
fn an_agreed_file_is_written() {
    let mut s = Serve::new(false, 9, effects(vec![]));
    let acts = s.step(Event::Proceed);
    assert!(matches!(acts[..], [Action::CheckCancelled]));
    assert!(matches!(s.step(Event::CancelChecked(false))[..], [Action::Read]));
    assert!(matches!(s.step(Event::Frame(Received::Sharing))[..], [Action::Tell(Input::Frame)]));
    s.step(Event::Effects(effects(vec![Effect::AskUser {
        files: vec![announced(5, "a.jpg")],
        total_size: 3,
    }])));
    let acts = s.step(Event::Proceed);
    assert!(matches!(&acts[..], [Action::Ask { transfer_id: 9, total: 3, .. }]));
    assert!(matches!(s.step(Event::Answer(true)).last(), Some(Action::Tell(Input::UserAccepted))));
    s.step(Event::Effects(effects(vec![Effect::BeginReceiving(vec![announced(5, "a.jpg")])])));
    assert!(matches!(s.step(Event::Proceed)[..], [Action::CheckCancelled]));
    // What the sharing machine wants comes before the next frame.
    assert!(s.step(Event::CancelChecked(false)).is_empty());
    assert!(s.step(Event::Proceed).is_empty());
    assert!(matches!(s.step(Event::Proceed)[..], [Action::CheckCancelled]));
    assert!(matches!(s.step(Event::CancelChecked(false))[..], [Action::Read]));
    let acts = s.step(Event::Frame(Received::FileChunk {
        id: 5,
        len: 3,
        last: false,
        file_name: String::new(),
    }));
    assert!(matches!(&acts[0], Action::Create { id: 5, name } if name == "a.jpg"));
    assert!(acts.iter().any(|a| matches!(a, Action::Write { id: 5 })));
    assert_eq!(s.written(), &vec!["a.jpg".to_string()]);
}

#[test]
fn an_unannounced_file_ends_it() {
    let mut s = Serve::new(false, 9, effects(vec![]));
    s.step(Event::Proceed);
    s.step(Event::CancelChecked(false));
    let acts = s.step(Event::Frame(Received::FileChunk {
        id: 5,
        len: 3,
        last: false,
        file_name: "x".to_string(),
    }));
    assert!(acts.iter().any(|a| matches!(a, Action::EndUnannounced { id: 5 })));
    assert!(!acts.iter().any(|a| matches!(a, Action::Create { .. })));
}

#[test]
fn a_sharing_frame_goes_as_two_parts() {
    let parts = wrap_bytes(b"abc");
    assert_eq!(parts.len(), 2);
    assert_eq!((parts[0].offset, parts[0].last), (0, false));
    assert_eq!(parts[0].body, b"abc");
    assert_eq!((parts[1].offset, parts[1].last, parts[1].total_size), (3, true, 3));
    assert!(parts[1].body.is_empty());
}

#[test]
fn only_the_dead_are_forgotten() {
    assert!(stays_registered(Delivery::Delivered));
    assert!(stays_registered(Delivery::Failed));
    assert!(!stays_registered(Delivery::Dead));
    assert_eq!(next_within(true, 0, 9), Look::Take);
    assert_eq!(next_within(false, 10, 4), Look::Wait(6));
    assert_eq!(next_within(false, 10, 11), Look::GiveUp);
}

fn group() -> WifiGroup {
    WifiGroup {
        ssid: "DIRECT-x".to_string(),
        passphrase: "pass".to_string(),
        go_address: "192.168.49.1".to_string(),
        frequency: 5745,
    }
}

#[test]
fn a_host_takes_the_sender_across() {
    assert!(is_slow(Medium::Bluetooth));
    assert!(!is_slow(Medium::WifiLan));
    let mut o = GroupOffer::new();
    assert!(matches!(o.step(HostEvent::Listening(Some(77)), 0)[..], [HostAction::StandUpGroup]));
    let acts = o.step(HostEvent::Group(Some(group())), 0);
    assert!(matches!(&acts[0], HostAction::OfferPath(p) if p.port == 77 && p.ssid == "DIRECT-x"));
    o.step(HostEvent::Joined(true), 0);
    let acts = o.step(HostEvent::Introduced(Some(true)), 0);
    assert!(acts.iter().any(|a| matches!(a, HostAction::AckIntroduction)));
    assert!(acts.iter().any(|a| matches!(a, HostAction::SendLastWrite)));
    o.step(HostEvent::Old(Some(OldFrame::Other(vec![1]))), 0);
    let acts = o.step(HostEvent::Old(Some(OldFrame::SafeToClose)), 0);
    assert!(matches!(acts.last(), Some(HostAction::Swap)));
    assert_eq!(o.into_deferred().len(), 1);
}

#[test]
fn a_joiner_releases_once() {
    let mut a = Adoption::new(false);
    let acts = a.step(JoinEvent::Acquired(true), 0);
    assert!(matches!(acts[..], [JoinAction::Introduce, JoinAction::SendLastWrite, JoinAction::ReadOld { .. }]));
    let acts = a.step(JoinEvent::Old(Some(OldFrame::LastWrite)), 1);
    assert!(matches!(acts[0], JoinAction::SendSafeToClose));
    let acts = a.step(JoinEvent::Old(Some(OldFrame::SafeToClose)), 2);
    assert!(matches!(acts[..], [JoinAction::Swap]));
    let mut b = Adoption::new(true);
    b.step(JoinEvent::Acquired(true), 0);
    assert!(matches!(b.step(JoinEvent::Acknowledged(None), 0)[..], [JoinAction::Fail]));
    let mut c = Adoption::new(true);
    assert!(matches!(c.step(JoinEvent::Acquired(false), 0)[..], [JoinAction::Decline]));
}

#[test]
fn an_offer_is_taken_or_declined() {
    let wifi = |port: i32, gateway: &str| WifiPath {
        ssid: "s".to_string(),
        password: "p".to_string(),
        port,
        gateway: gateway.to_string(),
        frequency: 0,
    };
    assert!(matches!(
        acquire(Some(wifi(80, "0.0.0.0")), None),
        Way::Join { port: 80, gateway, .. } if gateway.is_empty()
    ));
    assert!(matches!(acquire(Some(wifi(70_000, "")), None), Way::Decline));
    let lan = |ip: &[u8], port: i32| Some(LanPath { ip: ip.to_vec(), port });
    assert!(matches!(
        acquire(None, lan(&[192, 168, 49, 1], 5)),
        Way::Dial { ip: Address::V4([192, 168, 49, 1]), port: 5 }
    ));
    assert!(matches!(acquire(None, lan(&[8, 8, 8, 8], 5)), Way::Decline));
    assert!(matches!(acquire(None, lan(&[10, 0, 0], 5)), Way::Decline));
    assert!(matches!(acquire(None, lan(&[10, 0, 0, 1], -1)), Way::Decline));
    assert!(matches!(acquire(None, None), Way::Decline));
}

#[test]
fn a_slow_send_asks_for_more_and_for_the_pin() {
    let mut s = outbound::Send::new(true, true, 5, effects(vec![Effect::Send(vec![1])]));
    let acts = s.step(outbound::Event::Proceed, 0);
    assert!(matches!(&acts[..], [outbound::Action::SendPayload { payload_id: 2, .. }]));
    let acts = s.step(outbound::Event::Proceed, 0);
    assert!(matches!(acts[..], [outbound::Action::AskUpgrade, outbound::Action::ConfirmPin]));
    assert!(matches!(s.step(outbound::Event::Pin(true), 0)[..], [outbound::Action::CheckCancelled]));
    assert!(matches!(s.step(outbound::Event::CancelChecked(false), 0)[..], [outbound::Action::Read]));
    let acts = s.step(outbound::Event::Frame(Heard::KeepAlive { ack: false, seq_num: 4 }), 0);
    assert!(matches!(acts[..], [outbound::Action::SendKeepAlive { seq_num: 4 }]));
    s.step(outbound::Event::Effects(effects(vec![Effect::BeginSending])), 0);
    let acts = s.step(outbound::Event::Proceed, 0);
    assert!(matches!(acts[..], [outbound::Action::WaitForUpgrade { .. }]));
    assert!(matches!(s.step(outbound::Event::Waited(VecDeque::new()), 0)[..], [outbound::Action::SendFiles]));
    assert_eq!(s.total(), 5);
    assert!(s.has_room());
}

#[test]
fn an_unconfirmed_pin_ends_a_send() {
    let mut s = outbound::Send::new(false, false, 5, effects(vec![]));
    assert!(matches!(s.step(outbound::Event::Proceed, 0)[..], [outbound::Action::ConfirmPin]));
    assert!(matches!(
        s.step(outbound::Event::Pin(false), 0)[..],
        [outbound::Action::Goodbye { .. }, outbound::Action::End(false)]
    ));
    assert!(matches!(
        s.step(outbound::Event::Closed { done: true }, 0)[..],
        [outbound::Action::End(true)]
    ));
}

#[test]
fn a_file_is_streamed_in_order() {
    let mut f = FileStream::new(5);
    let a = f.chunk(vec![1, 2, 3]).unwrap();
    assert_eq!((a.offset, a.last, a.total_size), (0, false, 5));
    let b = f.chunk(vec![4, 5]).unwrap();
    assert_eq!(b.offset, 3);
    assert_eq!(f.position(), 5);
    assert!(!f.falls_short());
    let end = f.end();
    assert!(end.last && end.body.is_empty());
    assert_eq!(end.offset, 5);
    assert!(FileStream::new(1).falls_short());
}

#[test]
fn an_introduction_announces_the_ids_it_uses() {
    let files = vec![OutFile { name: "a".to_string(), mime: "m".to_string(), size: 7 }];
    let a = attachments(&files, &vec![42]);
    assert_eq!((a[0].payload_id, a[0].id, a[0].size), (42, 42, 7));
    assert_eq!(i64_of(&vec![0xff; 8]), -1);
    assert_eq!(i64_of(&vec![0, 0, 0, 0, 0, 0, 1, 0]), 256);
    assert_eq!(id_of(Some(vec![0, 0, 0, 0, 0, 0, 1, 0])), Some(256));
    assert_eq!(id_of(None), None);
    assert_ne!(random_i64(), random_i64());
    let info = request_info([7; 16], "Ada");
    let back = tarish::endpoint::EndpointInfo::parse(&info).unwrap();
    assert_eq!((back.version, back.device_name.as_deref()), (1, Some("Ada")));
}

#[test]
fn a_send_waits_and_closes_the_way_the_peer_wants() {
    assert!(matches!(wait_for_upgrade(10, 11, false), Wait::Stop));
    assert!(matches!(wait_for_upgrade(10, 5, true), Wait::Stop));
    assert!(matches!(wait_for_upgrade(10, 5, false), Wait::Read { .. }));
    assert!(keep_draining(Some(1), 0, 10));
    assert!(!keep_draining(Some(0), 0, 10));
    assert!(!keep_draining(None, 0, 10));
    assert!(!keep_draining(Some(1), 10, 10));
    assert!(finish_cleanly(true, true).iter().any(|c| matches!(c, Closing::Disconnect)));
    assert!(matches!(read_answer(Some((true, 0))), Answer::Accepted { safe_disconnect: false }));
    assert!(matches!(read_answer(Some((true, 1))), Answer::Accepted { safe_disconnect: true }));
    assert!(matches!(read_answer(Some((false, 1))), Answer::Declined));
    assert!(matches!(read_answer(None), Answer::NotAResponse));
}

#[test]
fn a_session_ends_in_order() {
    let all = finish_cleanly(true, true);
    assert_eq!(
        all,
        vec![
            Closing::Drain { within: 30_000 },
            Closing::Disconnect,
            Closing::Linger { for_ms: 1_500 },
        ]
    );
    assert_eq!(finish_cleanly(false, false), vec![Closing::Linger { for_ms: 1_500 }]);
}

#[test]
fn one_transfer_keeps_its_id_to_the_end() {
    let mut s = Serve::new(
        false,
        9,
        effects(vec![
            Effect::AskUser { files: vec![announced(5, "a.jpg")], total_size: -1 },
            Effect::BeginReceiving(vec![announced(5, "a.jpg")]),
        ]),
    );
    assert!(matches!(s.step(Event::Proceed)[..], [Action::Ask { transfer_id: 9, total: 0, .. }]));
    s.step(Event::Answer(true));
    // The batch is gone through before anything is read.
    assert!(s.step(Event::Proceed).is_empty());
    assert!(matches!(s.step(Event::Proceed)[..], [Action::CheckCancelled]));
    assert!(s.written().is_empty());
    s.step(Event::Frame(Received::FileChunk {
        id: 5,
        len: 3,
        last: false,
        file_name: String::new(),
    }));
    s.step(Event::Frame(Received::FileChunk {
        id: 5,
        len: 2,
        last: true,
        file_name: String::new(),
    }));
    assert_eq!(s.written(), &vec!["a.jpg".to_string()]);
    s.step(Event::Effects(effects(vec![Effect::Cancelled])));
    assert!(matches!(
        s.step(Event::Proceed)[..],
        [
            Action::CloseAll,
            Action::Discard,
            Action::Finish { transfer_id: 9 },
            Action::EndCancelled
        ]
    ));
}

#[test]
fn no_file_without_a_yes() {
    let chunk = |id: i64| {
        Event::Frame(Received::FileChunk { id, len: 1, last: true, file_name: String::new() })
    };
    for answer in [None, Some(false), Some(true)] {
        let mut s = Serve::new(
            false,
            9,
            effects(vec![
                Effect::AskUser { files: vec![announced(5, "a.jpg")], total_size: 1 },
                Effect::BeginReceiving(vec![announced(5, "a.jpg"), announced(6, "b.jpg")]),
            ]),
        );
        s.step(Event::Proceed);
        if let Some(yes) = answer {
            s.step(Event::Answer(yes));
        }
        s.step(Event::Proceed);
        let acts = s.step(chunk(5));
        assert_eq!(acts.iter().any(|a| matches!(a, Action::Create { .. })), answer == Some(true));
        // Never shown, or complete.
        assert!(matches!(s.step(chunk(6))[..], [Action::EndUnannounced { id: 6 }]));
        assert!(matches!(s.step(chunk(5))[..], [Action::EndUnannounced { id: 5 }]));
    }
}

/// Send some data read in steps: the offset, length and flag of each frame, what was reported,
/// and the data put together again.
fn sent(data: &[u8], step: usize) -> (Vec<(i64, usize, bool)>, Vec<u64>, Vec<u8>) {
    let mut s = FileSend::new(data.len() as i64, 10, 99);
    let (mut frames, mut reports, mut whole, mut at) = (vec![], vec![], vec![], 0);
    let mut event = FileEvent::CancelChecked(false);
    loop {
        assert!(s.has_room(&event));
        let acts = s.step(event);
        event = FileEvent::CancelChecked(false);
        for a in acts {
            match a {
                FileAction::CheckCancelled => {}
                FileAction::Read { want } => {
                    let n = want.min(step).min(data.len() - at);
                    event = FileEvent::Data(data[at..at + n].to_vec());
                    at += n;
                }
                FileAction::Send(p) => {
                    assert_eq!(p.total_size, data.len() as i64);
                    frames.push((p.offset, p.body.len(), p.last));
                    whole.extend_from_slice(&p.body);
                }
                FileAction::Report { done, total } => {
                    assert_eq!(total, 99);
                    reports.push(done);
                }
                FileAction::Stop => panic!("nobody cancelled"),
                FileAction::Finished => {
                    assert_eq!(s.done(), 10 + data.len() as u64);
                    assert_eq!(s.position(), data.len() as i64);
                    assert!(!s.falls_short());
                    return (frames, reports, whole);
                }
            }
        }
    }
}

#[test]
fn a_file_goes_out_in_full_chunks() {
    let data: Vec<u8> = (0..2 * CHUNK + 5).map(|i| (i / 3) as u8).collect();
    for step in [70_000, CHUNK, 3 * CHUNK] {
        let (frames, reports, whole) = sent(&data, step);
        let n = CHUNK as i64;
        assert_eq!(
            frames,
            vec![(0, CHUNK, false), (n, CHUNK, false), (2 * n, 5, false), (2 * n + 5, 0, true)]
        );
        let n = CHUNK as u64;
        assert_eq!(reports, vec![10 + n, 10 + 2 * n, 15 + 2 * n]);
        assert!(whole == data);
    }
    // One that ends with a chunk, and one of no bytes.
    let (frames, reports, _) = sent(&data[..CHUNK], 100_000);
    assert_eq!(frames, vec![(0, CHUNK, false), (CHUNK as i64, 0, true)]);
    assert_eq!(reports, vec![10 + CHUNK as u64]);
    let (frames, reports, _) = sent(&[], 1);
    assert_eq!(frames, vec![(0, 0, true)]);
    assert!(reports.is_empty());
}

#[test]
fn a_cancel_is_noticed_before_a_chunk() {
    let mut s = FileSend::new(9, 0, 9);
    assert!(matches!(s.step(FileEvent::CancelChecked(true))[..], [FileAction::Stop]));
    let acts = s.step(FileEvent::CancelChecked(false));
    assert!(matches!(acts[..], [FileAction::Read { want: CHUNK }]));
    let acts = s.step(FileEvent::Data(vec![1, 2]));
    assert!(matches!(acts[..], [FileAction::Read { want }] if want == CHUNK - 2));
    let acts = s.step(FileEvent::Data(vec![0; CHUNK - 2]));
    assert!(matches!(acts.last(), Some(FileAction::CheckCancelled)));
    assert!(!s.has_room(&FileEvent::Data(vec![0; CHUNK + 1])));
    s.step(FileEvent::CancelChecked(false));
    s.step(FileEvent::Data(vec![]));
    assert!(s.falls_short());
}

#[test]
fn a_yes_is_for_the_question_it_answers() {
    let ask = |id: i64| Effect::AskUser { files: vec![announced(id, "a")], total_size: 1 };
    let both = Effect::BeginReceiving(vec![announced(5, "a"), announced(6, "b")]);
    let mut s = Serve::new(false, 9, effects(vec![ask(5), ask(6), both]));
    s.step(Event::Proceed);
    s.step(Event::Answer(false));
    s.step(Event::Proceed);
    s.step(Event::Answer(true));
    s.step(Event::Proceed);
    let chunk = |id: i64| {
        Event::Frame(Received::FileChunk { id, len: 1, last: false, file_name: String::new() })
    };
    assert!(matches!(s.step(chunk(5))[..], [Action::EndUnannounced { id: 5 }]));
    assert!(matches!(s.step(chunk(6))[0], Action::Create { id: 6, .. }));
}
