use tarish::address::Address;
use tarish::http::BodyPlan;
use tarish::httpd::{
    accept_body, after_ask, after_stream, after_upload, checks_interface, describe_offer, discover_body, exact_want,
    extract, handle, iface_changed, inbox_path, is_ourselves, keep_looking, non_clobbering, random_hex,
    read_request, received_files, safe_leaf, try_again, unique_path, Content, Created, Plan,
    Reply, Request, Route, Upload, UploadEnd, UploadPlan, INBOX, PROGRESS_STEP,
};
use tarish::plist::{dict, encode, parse, Value};

fn request(route: Route) -> Request {
    Request { route, keep_alive: true, body: Some(BodyPlan::Exact(0)) }
}

fn status(p: Plan) -> u16 {
    match p {
        Plan::Answer(r) => r.status,
        _ => 0,
    }
}

#[test]
fn requests_are_routed() {
    let route = |line: &str| read_request(&format!("{line} HTTP/1.1\r\n\r\n")).route;
    assert_eq!(route("HEAD /"), Route::Probe);
    assert_eq!(route("POST /Discover"), Route::Discover);
    assert_eq!(route("POST /Ask"), Route::Ask);
    assert_eq!(route("POST /Upload"), Route::Upload);
    assert_eq!(route("GET /Ask"), Route::Unknown);
    assert!(read_request("POST /Upload HTTP/1.1\r\nContent-Length: 5\r\n\r\n").body.is_none());
}

#[test]
fn the_invisible_say_nothing() {
    for r in [Route::Probe, Route::Discover, Route::Ask] {
        assert_eq!(status(handle(request(r), false, false, 7)), 401);
    }
    assert_eq!(status(handle(request(Route::Unknown), false, true, 0)), 401);
    assert_eq!(handle(request(Route::Ask), false, true, 0), Plan::Ask);
    assert_eq!(
        handle(request(Route::Discover), false, true, 0),
        Plan::Answer(Reply { status: 200, content: Content::Discover, keep_alive: true })
    );
    assert_eq!(status(handle(request(Route::Probe), true, true, 0)), 413);
}

#[test]
fn an_upload_needs_an_accepted_offer() {
    assert_eq!(status(handle(request(Route::Upload), false, true, 0)), 401);
    assert_eq!(handle(request(Route::Upload), false, false, 9), Plan::Receive { id: 9 });
    assert_eq!(after_ask(Some(true), true).0.content, Content::Accept);
    assert!(!after_ask(Some(true), true).1);
    assert_eq!(after_ask(Some(false), true).0.status, 401);
    assert!(after_ask(None, true).1);
    assert_eq!(after_upload(true, true).0.status, 200);
    assert_eq!(after_upload(false, true).0.status, 500);
    assert!(after_upload(false, true).1);
}

#[test]
fn bodies_say_who_we_are() {
    let d = parse(&discover_body("Ada", "Pixel")).unwrap();
    assert_eq!(d.get("ReceiverComputerName").unwrap().as_str(), Some("Ada"));
    assert_eq!(d.get("ReceiverModelName").unwrap().as_str(), Some("Pixel"));
    let a = parse(&accept_body("Ada", "Pixel")).unwrap();
    assert_eq!(a.get("ReceiverComputerName").unwrap().as_str(), Some("Ada"));
}

#[test]
fn an_offer_is_described() {
    let file = |name: &str| Value::Dict(vec![("FileName".to_string(), Value::Str(name.to_string()))]);
    let body = dict(&[
        ("SenderComputerName", Value::Str("Mac".to_string())),
        ("Files", Value::Array(vec![file("a.jpg"), file("dir/b.jpg")])),
    ]);
    let (who, files) = describe_offer(&body);
    assert_eq!(who, "Mac");
    assert_eq!(files, vec!["a.jpg".to_string(), "b.jpg".to_string()]);
    assert_eq!(describe_offer(b"junk"), (String::new(), vec![]));
    assert_eq!(describe_offer(&encode(&Value::Bool(true))), (String::new(), vec![]));
}

#[test]
fn uploads_report_now_and_then() {
    let mut u = Upload::new("POST /Upload HTTP/1.1\r\nTotalBytes: 1000000\r\nTransfer-Encoding: chunked\r\n\r\n");
    assert_eq!(u.plan, UploadPlan::Chunked);
    assert_eq!(u.total, 1_000_000);
    assert!(!u.progress(PROGRESS_STEP - 1));
    assert!(u.progress(PROGRESS_STEP));
    assert!(!u.progress(PROGRESS_STEP + 1));
    assert_eq!(u.final_total(5), 1_000_000);
    let v = Upload::new("POST /Upload HTTP/1.1\r\nContent-Length: 9\r\n\r\n");
    assert_eq!(v.plan, UploadPlan::Exact(9));
    assert_eq!(v.final_total(5), 5);
}

#[test]
fn names_are_reduced_to_leaves() {
    assert_eq!(safe_leaf("../../etc/passwd"), Some("passwd".to_string()));
    assert_eq!(safe_leaf("C:\\x\\y.txt"), Some("y.txt".to_string()));
    assert_eq!(safe_leaf(".."), None);
    assert_eq!(safe_leaf("a/"), None);
    assert_eq!(safe_leaf(""), None);
}

#[test]
fn nothing_is_overwritten() {
    assert_eq!(non_clobbering("/in", "a.tar.gz", 0), "/in/a.tar.gz");
    assert_eq!(non_clobbering("/in", "a.tar.gz", 2), "/in/a.tar (2).gz");
    assert_eq!(non_clobbering("/in", "noext", 1), "/in/noext (1)");
    assert_eq!(non_clobbering("/in", ".hidden", 1), "/in/.hidden (1)");
    assert!(keep_looking(true, 0));
    assert!(keep_looking(true, 9998));
    assert!(!keep_looking(true, 9999));
    assert!(!keep_looking(false, 0));
}

#[test]
fn the_inbox_is_not_left() {
    assert_eq!(inbox_path("a.jpg"), Some(format!("{INBOX}/a.jpg")));
    assert_eq!(inbox_path("/x/../a.jpg"), Some(format!("{INBOX}/a.jpg")));
    assert_eq!(inbox_path("x.cpio"), None);
    assert_eq!(inbox_path(".."), None);
}

#[test]
fn waiting_files_are_listed_in_order() {
    let names: Vec<String> =
        ["b", "x.cpio", "a"].iter().map(|s| s.to_string()).collect();
    assert_eq!(received_files(&names), vec!["a".to_string(), "b".to_string()]);
}

#[test]
fn temporary_names_are_random() {
    assert_eq!(random_hex(Some([0, 1, 2, 3, 4, 5, 6, 0xff])), "00010203040506ff");
    assert_eq!(random_hex(None), "getrandom-failed");
    assert_eq!(unique_path("/in", Some([0; 8]), "cpio"), "/in/0000000000000000.cpio");
    assert!(try_again(Created::Exists, 7));
    assert!(!try_again(Created::Exists, 8));
    assert!(!try_again(Created::Failed, 0));
    assert!(!try_again(Created::Yes, 0));
}

#[test]
fn members_become_files_or_not() {
    assert_eq!(extract("./a.jpg", 5, 0o100644), Some("a.jpg".to_string()));
    assert_eq!(extract("./a.jpg", 0, 0o100644), None);
    assert_eq!(extract("./dir", 5, 0o040755), None);
    assert_eq!(extract("./._a.jpg", 5, 0o100644), None);
    assert_eq!(extract(".", 5, 0o100644), None);
}

#[test]
fn the_interface_is_watched() {
    let a = [1u8; 16];
    let b = [2u8; 16];
    assert!(!iface_changed(a, 3, Some(a), Some(3)));
    assert!(iface_changed(a, 3, Some(b), Some(3)));
    assert!(iface_changed(a, 3, Some(a), Some(4)));
    assert!(iface_changed(a, 3, None, Some(3)));
    assert!(iface_changed(a, 3, Some(a), None));
    assert!(is_ourselves(Address::V6(a), a));
    assert!(!is_ourselves(Address::V6(b), a));
    assert!(!is_ourselves(Address::V4([1; 4]), a));
    assert!(checks_interface(0));
    assert!(!checks_interface(1));
}

#[test]
fn an_upload_is_kept_only_when_it_could_not_be_unpacked() {
    let end = |remove, announce, stored| UploadEnd { remove, announce, stored };
    assert_eq!(after_stream(true, None), end(true, None, false));
    assert_eq!(after_stream(true, Some(3)), end(true, None, false));
    assert_eq!(after_stream(false, Some(3)), end(true, Some(3), true));
    assert_eq!(after_stream(false, None), end(false, None, true));
}

#[test]
fn no_more_is_read_than_was_promised() {
    assert_eq!(exact_want(0, 0), 0);
    assert_eq!(exact_want(0, 10_000), 8192);
    assert_eq!(exact_want(8192, 10_000), 1808);
    assert_eq!(exact_want(10_000, 10_000), 0);
    assert_eq!(exact_want(11_000, 10_000), 0);
    assert_eq!(exact_want(0, u64::MAX), 8192);
}
