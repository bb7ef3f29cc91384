use tarish::ctl::{change_policy, message, parse_args, Change, Command, CtlError};
use tarish::policy::{denied_policy, Policy};

fn args(line: &str) -> Vec<String> {
    line.split_whitespace().map(str::to_string).collect()
}

fn error(line: &str) -> CtlError {
    parse_args(&args(line)).unwrap_err()
}

#[test]
fn commands_are_read() {
    assert!(matches!(parse_args(&args("peers")), Ok(Command::Peers)));
    assert!(matches!(parse_args(&args("name")), Ok(Command::GetName)));
    assert!(matches!(parse_args(&args("name Ada")), Ok(Command::SetName(n)) if n == "Ada"));
    assert!(matches!(
        parse_args(&args("discoverable on 60")),
        Ok(Command::Discoverable { on: true, seconds: 60 })
    ));
    assert!(matches!(
        parse_args(&args("discoverable off x")),
        Ok(Command::Discoverable { on: false, seconds: 0 })
    ));
    match parse_args(&args("send-lan AAAA a b")) {
        Ok(Command::Send { lan: true, peer, paths }) => {
            assert_eq!(peer, "AAAA");
            assert_eq!(paths, vec!["a".to_string(), "b".to_string()]);
        }
        other => panic!("{other:?}"),
    }
    assert!(matches!(parse_args(&args("send AAAA a")), Ok(Command::Send { lan: false, .. })));
    assert!(matches!(
        parse_args(&args("accept 7")),
        Ok(Command::Respond { id: 7, accept: true })
    ));
    assert!(matches!(
        parse_args(&args("decline -9223372036854775808")),
        Ok(Command::Respond { id: i64::MIN, accept: false })
    ));
    assert!(matches!(parse_args(&args("pin 7 12")), Ok(Command::Pin { id: 7, code }) if code == "12"));
    assert!(matches!(parse_args(&args("cancel 7")), Ok(Command::Cancel(7))));
    assert!(matches!(parse_args(&args("received")), Ok(Command::Received)));
    assert!(matches!(parse_args(&args("refresh")), Ok(Command::Refresh)));
    assert!(matches!(parse_args(&args("app send A b")), Ok(Command::App(l)) if l == "send A b"));
    assert!(matches!(parse_args(&args("policy")), Ok(Command::ShowPolicy)));
}

#[test]
fn mistakes_are_told() {
    assert_eq!(error(""), CtlError::Usage);
    assert_eq!(error("dance"), CtlError::Usage);
    assert_eq!(error("send"), CtlError::SendNeedsPeer);
    assert_eq!(error("send AAAA"), CtlError::SendNeedsFile);
    assert_eq!(error("cancel"), CtlError::NeedsTransferId);
    assert_eq!(error("accept seven"), CtlError::BadId);
    assert_eq!(error("pin 7"), CtlError::NeedsPin);
    assert_eq!(error("app"), CtlError::AppUsage);
    assert_eq!(error("policy pin"), CtlError::Usage);
    assert_eq!(error("policy colour on"), CtlError::Usage);
    assert_eq!(error("policy mode 4"), CtlError::BadMode);
    assert_eq!(error("policy mode -1"), CtlError::BadMode);
    assert_eq!(message(CtlError::BadId), "bad id");
    assert_eq!(message(CtlError::SendNeedsPeer), "send needs a peer id");
}

#[test]
fn policy_changes_are_read() {
    let change = |line: &str| match parse_args(&args(line)) {
        Ok(Command::ChangePolicy(c)) => c,
        other => panic!("{other:?}"),
    };
    assert_eq!(change("policy pin on"), Change::Pin(true));
    assert_eq!(change("policy confirm off"), Change::Confirm(false));
    assert_eq!(change("policy mode 3"), Change::Mode(3));
    assert_eq!(change("policy airdrop 0"), Change::Airdrop(0));
    assert_eq!(change("policy quickshare 2"), Change::Quickshare(2));
}

#[test]
fn a_change_leaves_the_rest_alone() {
    let p = || Policy {
        airdrop: 1,
        quickshare: 2,
        device_name: "Ada".to_string(),
        airdrop_managed: true,
        ..denied_policy()
    };
    let q = change_policy(p(), Change::Pin(false));
    assert_eq!((q.airdrop, q.quickshare, q.require_pin), (1, 2, false));
    assert_eq!(q.device_name, "Ada");
    assert!(q.airdrop_managed && q.require_confirmation);
    let q = change_policy(p(), Change::Mode(3));
    assert_eq!((q.airdrop, q.quickshare, q.require_pin), (3, 3, true));
    let q = change_policy(p(), Change::Airdrop(0));
    assert_eq!((q.airdrop, q.quickshare), (0, 2));
    let q = change_policy(p(), Change::Quickshare(0));
    assert_eq!((q.airdrop, q.quickshare), (1, 0));
    assert!(!change_policy(p(), Change::Confirm(false)).require_confirmation);
}
