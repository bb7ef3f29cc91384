use tarish::browse::{
    rebind_wait, Action, Discovery, Event, ListenAction, ListenEvent, Listener, QsAction,
    QsDiscovery, QsEvent,
};
use tarish::mdns::Peer;
use tarish::policy::{MODE_BOTH, MODE_SEND};

fn addr(last: u8) -> [u8; 16] {
    let mut a = [0u8; 16];
    a[15] = last;
    a
}

fn peer(instance: &str, port: u16, a: Option<[u8; 16]>) -> Peer {
    Peer { instance: instance.to_string(), host: String::new(), port, addr: a, last_seen: 0 }
}

fn ask(want: bool) -> Event {
    Event::Asked { reset: false, want, refresh: false, query: false }
}

/// Up to the flags, on an interface that has not changed.
fn to_flags(d: &mut Discovery) {
    assert!(matches!(d.step(Event::Start(3))[..], [Action::ReadAddress]));
    assert!(matches!(d.step(Event::Addressed(Some(addr(1))))[..], [Action::ReadTable]));
    assert!(matches!(d.step(Event::Peers(vec![]))[..], [Action::ReadFlags]));
}

#[test]
fn a_pass_queries_polls_and_publishes() {
    let mut d = Discovery::new(3, Some(addr(1)));
    to_flags(&mut d);
    assert!(matches!(d.step(ask(false))[..], [Action::Query]));
    assert!(matches!(
        d.step(Event::Queried(true))[..],
        [Action::Poll, Action::Expire(45_000), Action::Publish, Action::Sleep(500)]
    ));
    // The next query is due four seconds later.
    for _ in 0..7 {
        to_flags(&mut d);
        assert!(matches!(d.step(ask(false))[0], Action::Poll));
    }
    to_flags(&mut d);
    assert!(matches!(d.step(ask(false))[..], [Action::Query]));
}

#[test]
fn a_lost_interface_idles_the_loop() {
    let mut d = Discovery::new(3, Some(addr(1)));
    assert!(matches!(d.step(Event::Start(0))[..], [Action::ClearPeers, Action::Sleep(2_000)]));
    assert!(matches!(d.step(Event::Start(0))[..], [Action::Sleep(2_000)]));
    assert!(matches!(d.step(Event::Start(4))[..], [Action::Open]));
    assert!(matches!(d.step(Event::NotOpened)[..], [Action::Sleep(500)]));
    assert!(matches!(d.step(Event::Start(4))[..], [Action::Open]));
    assert!(matches!(d.step(Event::Opened(Some(addr(2))))[..], [Action::ReadAddress]));
    assert_eq!(d.bound_idx, 4);
}

#[test]
fn a_new_address_binds_anew() {
    let mut d = Discovery::new(3, Some(addr(1)));
    d.advertising = true;
    d.step(Event::Start(3));
    assert!(matches!(d.step(Event::Addressed(Some(addr(2))))[..], [Action::Reopen]));
    assert!(matches!(d.step(Event::Reopened(true))[..], [Action::ReadTable]));
    assert_eq!(d.bound_addr, Some(addr(2)));
    assert!(!d.advertising);
    let mut e = Discovery::new(3, Some(addr(1)));
    e.step(Event::Start(3));
    // No address is no news.
    assert!(matches!(e.step(Event::Addressed(None))[..], [Action::ReadTable]));
}

#[test]
fn visibility_is_followed_in_one_pass() {
    let mut d = Discovery::new(3, Some(addr(1)));
    to_flags(&mut d);
    assert!(matches!(d.step(ask(true))[..], [Action::Advertise]));
    assert!(matches!(d.step(Event::Advertised(true))[..], [Action::Query]));
    d.step(Event::Queried(true));
    assert!(d.advertising);
    to_flags(&mut d);
    assert!(matches!(d.step(ask(true))[0], Action::Poll));
    // Announced again after a second.
    to_flags(&mut d);
    assert!(matches!(d.step(ask(true))[0], Action::Announce));
    to_flags(&mut d);
    assert!(matches!(d.step(ask(false))[0], Action::Withdraw));
    assert!(!d.advertising);
}

#[test]
fn a_new_identity_withdraws_the_old_one() {
    let mut d = Discovery::new(3, Some(addr(1)));
    d.advertising = true;
    to_flags(&mut d);
    let acts = d.step(Event::Asked { reset: true, want: true, refresh: false, query: false });
    assert!(matches!(acts[..], [Action::Withdraw, Action::NewIdentity, Action::Advertise]));
    // A failed announcement is tried again in the next pass.
    d.step(Event::Advertised(false));
    assert!(!d.advertising);
}

#[test]
fn each_peer_is_probed_once() {
    let mut d = Discovery::new(3, Some(addr(1)));
    let table = || {
        vec![
            peer("a", 1, Some(addr(5))),
            peer("b", 0, Some(addr(6))),
            peer("c", 1, None),
            peer("a", 1, Some(addr(5))),
        ]
    };
    d.step(Event::Start(3));
    d.step(Event::Addressed(None));
    let acts = d.step(Event::Peers(table()));
    assert_eq!(acts.len(), 2);
    assert!(matches!(&acts[0], Action::Probe { instance, port: 1, .. } if instance == "a"));
    d.step(Event::Asked { reset: false, want: false, refresh: false, query: false });
    d.step(Event::Queried(true));
    d.step(Event::Start(3));
    d.step(Event::Addressed(None));
    assert_eq!(d.step(Event::Peers(table())).len(), 1);
    // A refresh forgets whom it asked.
    let acts = d.step(Event::Asked { reset: false, want: false, refresh: true, query: false });
    assert!(matches!(acts[0], Action::Forget));
    assert!(d.probed.is_empty());
}

#[test]
fn three_failed_queries_bind_anew() {
    let mut d = Discovery::new(3, Some(addr(1)));
    for i in 0..3 {
        to_flags(&mut d);
        d.step(Event::Asked { reset: false, want: false, refresh: false, query: true });
        let acts = d.step(Event::Queried(false));
        if i < 2 {
            assert!(matches!(acts[0], Action::Poll));
        } else {
            assert!(matches!(acts[..], [Action::Rebind]));
        }
    }
    assert!(matches!(d.step(Event::Rebound(9))[0], Action::Poll));
    assert_eq!((d.bound_idx, d.failures), (9, 0));
}

#[test]
fn an_event_out_of_turn_does_nothing() {
    let mut d = Discovery::new(3, None);
    assert!(d.step(Event::Queried(true)).is_empty());
    assert!(d.step(Event::NotRebound).is_empty());
}

#[test]
fn quick_share_advertises_what_is_listened_on() {
    let mut q = QsDiscovery::new();
    assert_eq!(q.step(QsEvent::Opened(false)), vec![QsAction::Sleep(10_000), QsAction::OpenBrowser]);
    assert_eq!(q.step(QsEvent::Opened(true)), vec![QsAction::ReadPort]);
    assert_eq!(q.step(QsEvent::Listening(0)), vec![QsAction::Query]);
    let rest = vec![
        QsAction::Poll,
        QsAction::Expire(60_000),
        QsAction::Publish,
        QsAction::Sleep(500),
        QsAction::ReadPort,
    ];
    assert_eq!(q.step(QsEvent::Queried(true)), rest);
    assert_eq!(q.step(QsEvent::Listening(4321)), vec![QsAction::OpenResponder(4321)]);
    let acts = q.step(QsEvent::Responder(true));
    assert_eq!(&acts[..2], &[QsAction::Answer, QsAction::Announce]);
    // Announced every thirty seconds, answered in every pass.
    let acts = q.step(QsEvent::Listening(4321));
    assert_eq!(acts[0], QsAction::Answer);
    assert_ne!(acts[1], QsAction::Announce);
}

#[test]
fn a_failed_query_opens_everything_again() {
    let mut q = QsDiscovery::new();
    q.step(QsEvent::Opened(true));
    q.step(QsEvent::Listening(0));
    assert_eq!(q.step(QsEvent::Queried(false)), vec![QsAction::Sleep(10_000), QsAction::OpenBrowser]);
    assert!(!q.responder);
}

#[test]
fn the_listener_asks_the_policy_each_time() {
    let mut l = Listener::new();
    assert_eq!(
        l.step(ListenEvent::Bound(None)),
        vec![ListenAction::Sleep(10_000), ListenAction::Bind]
    );
    assert_eq!(
        l.step(ListenEvent::Bound(Some(7))),
        vec![ListenAction::PublishPort(7), ListenAction::Accept]
    );
    assert_eq!(
        l.step(ListenEvent::Accepted(MODE_SEND)),
        vec![ListenAction::Refuse, ListenAction::Accept]
    );
    assert_eq!(
        l.step(ListenEvent::Accepted(MODE_BOTH)),
        vec![ListenAction::Serve, ListenAction::Accept]
    );
    assert_eq!(l.step(ListenEvent::AcceptFailed), vec![ListenAction::Bind]);
    assert!(l.step(ListenEvent::Accepted(MODE_BOTH)).is_empty());
}

#[test]
fn the_server_binds_again_soon_or_late() {
    assert_eq!(rebind_wait(true), 500);
    assert_eq!(rebind_wait(false), 5_000);
}
