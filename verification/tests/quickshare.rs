use tarish::discovery::{metadata_of, name_from_txt, random_metadata, QsBrowser, QsResponder};
use tarish::dns::{parse, query};
use tarish::endpoint::{DeviceType, EndpointInfo, SERVICE_TYPE};
use tarish::quickshare::{
    base64_any_decode, base64url_decode, base64url_encode, describe_identity, endpoint_id_from_instance,
    endpoint_id_of, instance_name,
};

#[test]
fn base64_is_url_safe_and_unpadded() {
    assert_eq!(base64url_encode(&[0xfb, 0xff]), "-_8");
    assert_eq!(base64url_encode(b"foobar"), "Zm9vYmFy");
    assert_eq!(base64url_decode("-_8"), Some(vec![0xfb, 0xff]));
    assert_eq!(base64url_decode("Zm9vYg"), Some(b"foob".to_vec()));
    assert_eq!(base64url_decode("Zm9v!"), None);
    assert_eq!(base64_any_decode(b"+/8="), Some(vec![0xfb, 0xff]));
    assert_eq!(base64_any_decode(b"-_8"), Some(vec![0xfb, 0xff]));
}

#[test]
fn an_instance_carries_its_endpoint() {
    let i = instance_name(b"MTOI");
    assert_eq!(i, "I01UT0n8n14AAA");
    assert_eq!(endpoint_id_from_instance(&format!("{i}.{SERVICE_TYPE}")), Some(*b"MTOI"));
    // The reserved bytes may be missing, the hash may not.
    assert_eq!(endpoint_id_from_instance("I01UT0n8n14"), Some(*b"MTOI"));
    assert_eq!(endpoint_id_from_instance("I01UT0n8nw"), None);
    assert_eq!(endpoint_id_from_instance("IU1UT0n8n14AAA"), None);
    assert_eq!(endpoint_id_from_instance("nonsense"), None);
    assert_eq!(endpoint_id_of([0, 61, 62, 255]), *b"A9AH");
    assert_eq!(
        describe_identity(b"MTOI", "Ada"),
        format!("endpoint MTOI -> {i}.{SERVICE_TYPE} (21 bytes of endpoint info)")
    );
}

#[test]
fn endpoint_info_is_read_back() {
    let info = EndpointInfo {
        version: 1,
        hidden: false,
        device_type: DeviceType::Laptop,
        metadata: [9; 16],
        device_name: Some("Ada".to_string()),
    };
    let b = info.encode();
    assert_eq!(b.len(), 1 + 16 + 1 + 3);
    let back = EndpointInfo::parse(&b).unwrap();
    assert_eq!((back.version, back.hidden, back.device_type), (1, false, DeviceType::Laptop));
    assert_eq!(back.device_name.as_deref(), Some("Ada"));
    assert_eq!(back.metadata, [9; 16]);
    assert!(EndpointInfo::parse(&b[..10]).is_none());
}

#[test]
fn a_hidden_endpoint_has_no_name() {
    let info = EndpointInfo {
        version: 1,
        hidden: true,
        device_type: DeviceType::Phone,
        metadata: [0; 16],
        device_name: Some("Ada".to_string()),
    };
    let b = info.encode();
    assert_eq!(b.len(), 17);
    let back = EndpointInfo::parse(&b).unwrap();
    assert!(back.hidden && back.device_name.is_none());
}

#[test]
fn device_types_have_numbers() {
    for n in 0..=6u8 {
        assert_eq!(DeviceType::from_raw(n).raw(), n);
    }
    assert_eq!(DeviceType::from_raw(7), DeviceType::from_raw(0));
}

#[test]
fn what_is_announced_is_found() {
    let r = QsResponder::with_metadata(b"MTOI", [3; 16], "Ada's phone", [192, 168, 0, 99], 56189);
    let mut b = QsBrowser::new();
    b.poll(&r.announce(), 1_000);
    let found = b.peers();
    assert_eq!(found.len(), 1);
    assert_eq!(found[0].endpoint_id, "MTOI");
    assert_eq!(found[0].name.as_deref(), Some("Ada's phone"));
    assert_eq!(found[0].addr, Some([192, 168, 0, 99]));
    assert_eq!(found[0].port, 56189);
    b.expire(60_999, 60_000);
    assert_eq!(b.peers().len(), 1);
    b.expire(61_000, 60_000);
    assert!(b.peers().is_empty());
}

#[test]
fn a_responder_answers_questions_about_itself() {
    let r = QsResponder::with_metadata(b"MTOI", [3; 16], "Ada", [10, 0, 0, 1], 1);
    assert_eq!(r.poll(&query(SERVICE_TYPE)), Some(r.announce()));
    assert_eq!(r.poll(&query("_other._tcp.local")), None);
    // Its own announcement is no question.
    assert_eq!(r.poll(&r.announce()), None);
    assert_eq!(parse(&r.announce()).unwrap().records.len(), 4);
    let fresh = QsResponder::new(b"MTOI", "Ada", [10, 0, 0, 1], 1);
    assert_eq!(fresh.poll(&query(SERVICE_TYPE)), Some(fresh.announce()));
    assert_ne!(random_metadata(), random_metadata());
}

#[test]
fn metadata_is_the_random_bytes_or_zeros() {
    let bytes: [u8; 16] = [1, 2, 3, 4, 5, 6, 7, 8, 9, 10, 11, 12, 13, 14, 15, 16];
    assert_eq!(metadata_of(Some(bytes.to_vec())), bytes);
    assert_eq!(metadata_of(None), [0; 16]);
}

#[test]
fn names_stand_in_the_text_record() {
    assert_eq!(name_from_txt(b""), None);
    assert_eq!(name_from_txt(b"\x03x=y"), None);
}

#[test]
fn a_browser_asks_for_its_service() {
    assert_eq!(QsBrowser::new().query(), query(SERVICE_TYPE));
    let mut b = QsBrowser::new();
    b.poll(&[1, 2, 3], 0);
    assert!(b.peers().is_empty());
}
