use tarish::httpd::{describe_offer, discover_body};
use tarish::plist::parse;
use tarish::send::{
    ask_body, discover, discover_request, entry, entry_name, uti_for, AirDrop, Item, Outcome, SendAction,
    SendEvent,
};

fn items(sizes: &[u64]) -> Vec<Item> {
    sizes
        .iter()
        .enumerate()
        .map(|(i, s)| Item { name: format!("f{i}.jpg"), size: *s })
        .collect()
}

#[test]
fn a_peer_is_asked_for_its_name() {
    assert!(parse(&discover_request()).is_some());
    assert_eq!(discover(200, &discover_body("Ada", "Pixel")), Some("Ada".to_string()));
    assert_eq!(discover(401, &discover_body("Ada", "Pixel")), None);
    assert_eq!(discover(200, b"junk"), None);
}

#[test]
fn types_have_identifiers() {
    assert_eq!(uti_for("a.JPEG"), "public.jpeg");
    assert_eq!(uti_for("a.mov"), "com.apple.quicktime-movie");
    assert_eq!(uti_for("jpg"), "public.data");
    assert_eq!(uti_for("a.xyz"), "public.data");
    assert_eq!(entry_name("a.jpg"), "./a.jpg");
}

#[test]
fn an_offer_is_understood_by_a_receiver() {
    let body = ask_body(&items(&[1, 2]), "Ada", "Pixel");
    let (who, files) = describe_offer(&body);
    assert_eq!(who, "Ada");
    assert_eq!(files, vec!["f0.jpg".to_string(), "f1.jpg".to_string()]);
}

#[test]
fn files_go_in_turn_after_a_yes() {
    let mut a = AirDrop::new(&items(&[5, 7]));
    assert_eq!(a.step(SendEvent::Begin), vec![SendAction::Ask]);
    assert_eq!(
        a.step(SendEvent::Replied(200)),
        vec![SendAction::BeginUpload { total: 12 }, SendAction::CheckCancelled]
    );
    assert_eq!(a.step(SendEvent::CancelChecked(false)), vec![SendAction::Append { index: 0 }]);
    assert_eq!(
        a.step(SendEvent::Appended(5)),
        vec![SendAction::Report { done: 5, total: 12 }, SendAction::CheckCancelled]
    );
    assert_eq!(a.step(SendEvent::CancelChecked(false)), vec![SendAction::Append { index: 1 }]);
    assert_eq!(
        a.step(SendEvent::Appended(7)),
        vec![SendAction::Report { done: 12, total: 12 }, SendAction::EndUpload]
    );
    assert_eq!(a.step(SendEvent::Replied(200)), vec![SendAction::End(Outcome::Sent)]);
}

#[test]
fn a_send_may_end_early() {
    let mut none = AirDrop::new(&vec![]);
    assert_eq!(none.step(SendEvent::Begin), vec![SendAction::End(Outcome::NothingToSend)]);
    let mut no = AirDrop::new(&items(&[5]));
    no.step(SendEvent::Begin);
    assert_eq!(no.step(SendEvent::Replied(401)), vec![SendAction::End(Outcome::Declined(401))]);
    let mut stop = AirDrop::new(&items(&[5]));
    stop.step(SendEvent::Begin);
    stop.step(SendEvent::Replied(200));
    assert_eq!(stop.step(SendEvent::CancelChecked(true)), vec![SendAction::End(Outcome::Cancelled)]);
    let mut late = AirDrop::new(&items(&[5]));
    late.step(SendEvent::Begin);
    late.step(SendEvent::Replied(200));
    late.step(SendEvent::CancelChecked(false));
    late.step(SendEvent::Appended(5));
    assert_eq!(late.step(SendEvent::Replied(500)), vec![SendAction::End(Outcome::Rejected(500))]);
}

#[test]
fn a_file_is_packed_as_a_plain_one() {
    let e = entry("a.jpg", 7);
    assert_eq!((e.name.as_str(), e.size, e.mode), ("./a.jpg", 7, 0o100644));
}
