use tarish::connection::{ServeOutcome, WifiGroup};
use tarish::httpd::{after_ask, Plan, Request, Route};
use tarish::policy::{Refusal, MODE_BOTH, MODE_OFF, MODE_RECEIVE, MODE_SEND};
use tarish::send::Target;
use tarish::sharing::{
    accepted, advertised_mac, airdrop_ending, answered_group, begin_airdrop, begin_lan,
    begin_offer, begin_quickshare, begin_receive, decide, host_group, item_name, join_network, lan_mediums, lan_target,
    link_up, link_version, may_form_group, offered_total, prompt, report_outcome, serve_status, settled,
    Ending, Fault, GroupStep, Inflow, Joining, Prompt, STATUS_CANCELLED, STATUS_DECLINED,
    STATUS_FAILED, STATUS_OK,
};
use tarish::transfers::{Arm, Poll, TransferState};

fn target() -> Option<Target> {
    Some(Target { addr: [0; 16], port: 8770, scope: 3 })
}

fn state() -> TransferState<u32> {
    TransferState::new()
}

#[test]
fn an_airdrop_send_is_granted_or_turned_away() {
    let mut t = state();
    let go = |t: &mut TransferState<u32>, mode, files, names, to: &Option<Target>, taken| {
        begin_airdrop(t, mode, files, names, to, taken, 0)
    };
    let no = Err(Refusal::IllegalArgument);
    assert_eq!(go(&mut t, MODE_RECEIVE, 1, 1, &target(), true), Err(Refusal::PermissionDenied));
    assert_eq!(go(&mut t, MODE_SEND, 2, 1, &target(), true), no);
    assert_eq!(go(&mut t, MODE_SEND, 1, 1, &None, true), no);
    assert_eq!(go(&mut t, MODE_SEND, 1, 1, &target(), false), no);
    assert_eq!(t.current(), 0);
    assert_eq!(go(&mut t, MODE_SEND, 1, 1, &target(), true), Ok(1));
    assert!(t.airdrop_busy());
    assert_eq!(go(&mut t, MODE_SEND, 1, 1, &target(), true), Err(Refusal::WouldBlock));
}

#[test]
fn a_quick_share_send_is_granted_or_turned_away() {
    let mut t = state();
    assert_eq!(
        begin_quickshare(&mut t, MODE_OFF, 1, 1, true, 0),
        Err(Refusal::PermissionDenied)
    );
    assert_eq!(begin_quickshare(&mut t, MODE_BOTH, 1, 2, true, 0), Err(Refusal::BadValue));
    assert_eq!(begin_quickshare(&mut t, MODE_BOTH, 1, 1, false, 0), Err(Refusal::BadValue));
    assert_eq!(begin_quickshare(&mut t, MODE_BOTH, 1, 1, true, 0), Ok(1));
    assert_eq!(begin_quickshare(&mut t, MODE_BOTH, 1, 1, true, 0), Err(Refusal::WouldBlock));
    assert!(!t.airdrop_busy());
}

#[test]
fn a_lan_send_falls_back_to_bluetooth() {
    let route = Some(([10, 0, 0, 7], 99));
    assert_eq!(lan_target(MODE_RECEIVE, 1, 1, route), Err(Refusal::PermissionDenied));
    assert_eq!(lan_target(MODE_SEND, 1, 0, route), Err(Refusal::BadValue));
    assert_eq!(lan_target(MODE_SEND, 1, 1, None), Ok(None));
    assert_eq!(lan_target(MODE_SEND, 1, 1, route), Ok(route));
    let mut t = state();
    assert_eq!(begin_lan(&mut t, false, true, 0), Ok(0));
    assert_eq!(begin_lan(&mut t, true, false, 0), Err(Refusal::BadValue));
    assert_eq!(begin_lan(&mut t, true, true, 0), Ok(1));
    assert_eq!(begin_lan(&mut t, true, true, 0), Err(Refusal::WouldBlock));
    assert_eq!(lan_mediums(), vec![5]);
}

#[test]
fn receiving_is_granted_or_passed_over() {
    let mut t = state();
    assert_eq!(begin_receive(&mut t, MODE_SEND, true, 0), Err(Refusal::PermissionDenied));
    assert_eq!(begin_receive(&mut t, MODE_RECEIVE, false, 0), Ok(0));
    assert_eq!(begin_receive(&mut t, MODE_RECEIVE, true, 0), Ok(1));
    assert_eq!(begin_receive(&mut t, MODE_RECEIVE, true, 0), Ok(0));
}

#[test]
fn one_offer_at_a_time() {
    let mut t = state();
    assert!(matches!(begin_offer(&mut t, 0), Ok(1)));
    assert!(t.current_needs_awdl());
    match begin_offer(&mut t, 0) {
        Err(r) => {
            assert_eq!(r.status, 401);
            assert!(!r.keep_alive);
        }
        Ok(_) => panic!("a second offer was registered"),
    }
    assert_eq!(settled(&mut t, 1, false), None);
    assert_eq!(t.decision, None);
    assert_eq!(settled(&mut t, 1, true), Some(true));
    assert_eq!(t.decision, Some((1, true)));
}

#[test]
fn only_a_receiver_advertises() {
    assert_eq!(advertised_mac(MODE_SEND, "01:02:03:04:05:06"), None);
    assert_eq!(advertised_mac(MODE_BOTH, "01:02:03:04:05:06"), Some([1, 2, 3, 4, 5, 6]));
    assert_eq!(advertised_mac(MODE_BOTH, "nope"), None);
}

#[test]
fn a_name_becomes_a_leaf() {
    assert_eq!(item_name("/sdcard/DCIM/a.jpg"), "a.jpg");
    assert_eq!(item_name(".."), "file");
}

#[test]
fn endings_are_called_by_their_names() {
    assert_eq!(airdrop_ending(None), Ending { status: STATUS_OK, forget: false });
    assert_eq!(
        airdrop_ending(Some(Fault::Denied)),
        Ending { status: STATUS_DECLINED, forget: false }
    );
    for gone in [Fault::ConnectionRefused, Fault::ConnectionReset, Fault::TimedOut] {
        assert_eq!(airdrop_ending(Some(gone)), Ending { status: STATUS_FAILED, forget: true });
    }
    assert_eq!(
        airdrop_ending(Some(Fault::Other)),
        Ending { status: STATUS_FAILED, forget: false }
    );
    assert_eq!(report_outcome(Some(true), false), STATUS_OK);
    assert_eq!(report_outcome(Some(false), true), STATUS_FAILED);
    assert_eq!(report_outcome(Some(false), false), STATUS_DECLINED);
    assert_eq!(report_outcome(None, false), STATUS_FAILED);
    assert_eq!(serve_status(&Some(ServeOutcome::Received(vec!["a".to_string()]))), STATUS_OK);
    assert_eq!(serve_status(&Some(ServeOutcome::Received(vec![]))), STATUS_DECLINED);
    assert_eq!(serve_status(&Some(ServeOutcome::Cancelled)), STATUS_CANCELLED);
    assert_eq!(serve_status(&None), STATUS_FAILED);
}

#[test]
fn nobody_accepts_on_a_persons_behalf() {
    assert_eq!(prompt(true, 0), Prompt::Accept);
    assert_eq!(prompt(false, 0), Prompt::Refuse);
    assert_eq!(prompt(false, 2), Prompt::Ask);
    assert!(accepted(Some(true)));
    assert!(!accepted(Some(false)));
    assert!(!accepted(None));
}

#[test]
fn sizes_below_zero_count_for_nothing() {
    assert_eq!(offered_total(&vec![5, -3, 7]), Some(12));
    assert_eq!(offered_total(&vec![]), Some(0));
    assert_eq!(offered_total(&vec![i64::MAX, 0, 1]), None);
    assert_eq!(offered_total(&vec![i64::MAX, -1]), Some(i64::MAX));
}

#[test]
fn a_cancel_removes_what_was_created() {
    let mut f = Inflow::new();
    f.note("a".to_string());
    f.note("b".to_string());
    assert_eq!(f.discard(), vec!["a".to_string(), "b".to_string()]);
    assert!(f.discard().is_empty());
}

#[test]
fn a_group_needs_the_radio() {
    assert_eq!(may_form_group(Arm::Held), Some(true));
    assert_eq!(may_form_group(Arm::Taken), Some(true));
    assert_eq!(may_form_group(Arm::Refused), Some(false));
    assert_eq!(may_form_group(Arm::Wait), None);
    assert_eq!(join_network(0, true), Joining::StayPut);
    assert_eq!(join_network(1, true), Joining::TakeRadio);
    assert_eq!(join_network(1, false), Joining::AskClients);
}

#[test]
fn a_group_is_asked_for_until_it_is_there() {
    let g = |ssid: &str| WifiGroup {
        ssid: ssid.to_string(),
        passphrase: String::new(),
        go_address: String::new(),
        frequency: 0,
    };
    assert!(answered_group(g("")).is_none());
    assert_eq!(answered_group(g("DIRECT-x")).unwrap().ssid, "DIRECT-x");
    assert!(matches!(host_group(30_000, 0, None), GroupStep::Ask(2_000)));
    assert!(matches!(host_group(30_000, 30_000, None), GroupStep::Done(None)));
    assert!(matches!(host_group(30_000, 30_000, Some(g("a"))), GroupStep::Done(Some(_))));
}

#[test]
fn the_link_is_up_if_the_kernel_says_anything() {
    assert!(link_up(&Some("up\n".to_string())));
    assert!(!link_up(&Some(" \n".to_string())));
    assert!(!link_up(&None));
    assert_eq!(link_version(Some("1.2".to_string())), "1.2");
    assert_eq!(link_version(None), "unknown");
}

#[test]
fn a_declined_offer_takes_no_bytes() {
    let mut t = state();
    let id = match begin_offer(&mut t, 0) {
        Ok(id) => id,
        Err(_) => panic!("nothing is running"),
    };
    let (reply, over) = after_ask(Some(false), true);
    assert_eq!((reply.status, over), (401, true));
    t.finish(id);
    assert!(turned_away(&t));
}

fn turned_away(t: &TransferState<u32>) -> bool {
    let upload = Request { route: Route::Upload, keep_alive: true, body: None };
    matches!(decide(t, upload, false, true), Plan::Answer(r) if r.status == 401)
}

#[test]
fn nobody_walks_past_the_prompt() {
    // Nothing is running.
    let mut t = state();
    assert!(turned_away(&t));
    // Quick Share is.
    assert_eq!(begin_receive(&mut t, MODE_BOTH, true, 0), Ok(1));
    assert!(turned_away(&t));
    t.finish(1);
    // We are sending.
    assert_eq!(begin_airdrop(&mut t, MODE_BOTH, 1, 1, &target(), true, 0), Ok(2));
    assert!(turned_away(&t));
    t.finish(2);
    // An offer is on screen, and then said yes to.
    assert!(matches!(begin_offer(&mut t, 0), Ok(3)));
    assert!(turned_away(&t));
    t.answer(3, true);
    assert!(turned_away(&t));
    assert!(matches!(t.await_answer(3, 10, 0), Poll::Done(Some(true))));
    let upload = Request { route: Route::Upload, keep_alive: true, body: None };
    assert_eq!(decide(&t, upload, false, false), Plan::Receive { id: 3 });
    t.finish(3);
    assert!(turned_away(&t));
    // The policy asks nobody.
    assert!(matches!(begin_offer(&mut t, 0), Ok(4)));
    assert_eq!(settled(&mut t, 4, true), Some(true));
    assert_eq!(decide(&t, upload, false, true), Plan::Receive { id: 4 });
}
