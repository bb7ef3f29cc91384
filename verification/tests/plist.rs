use tarish::plist::{dict, encode, parse, Val, Value};

#[test]
fn documents_are_read_back() {
    let v = Value::Dict(vec![
        ("Name".to_string(), Value::Str("Mac".to_string())),
        ("Wide".to_string(), Value::Str("ä😀".to_string())),
        ("Flag".to_string(), Value::Bool(true)),
        ("Data".to_string(), Value::Data(vec![1, 2, 3])),
        (
            "List".to_string(),
            Value::Array(vec![Value::Bool(false), Value::Str("x".repeat(20))]),
        ),
    ]);
    let bytes = encode(&v);
    assert_eq!(&bytes[..8], b"bplist00");
    let d = parse(&bytes).unwrap();
    assert_eq!(d.get("Name").unwrap().as_str(), Some("Mac"));
    assert_eq!(d.get("Wide").unwrap().as_str(), Some("ä😀"));
    assert!(matches!(d.get("Flag"), Some(Val::Bool(true))));
    assert!(matches!(d.get("Data"), Some(Val::Data(b)) if b == &vec![1, 2, 3]));
    match d.get("List") {
        Some(Val::Array(items)) => {
            assert!(matches!(items[0], Val::Bool(false)));
            assert_eq!(items[1].as_str(), Some("x".repeat(20).as_str()));
        }
        _ => panic!("no list"),
    }
    assert!(d.get("Other").is_none());
}

#[test]
fn an_empty_dictionary_is_forty_two_bytes() {
    let bytes = dict(&[]);
    assert_eq!(bytes.len(), 42);
    assert!(matches!(parse(&bytes), Some(Val::Dict(p)) if p.is_empty()));
}

#[test]
fn integers_are_read() {
    let mut b = b"bplist00".to_vec();
    b.extend_from_slice(&[0x11, 0x01, 0x02]);
    b.push(8);
    b.extend_from_slice(&[0, 0, 0, 0, 0, 0, 1, 1]);
    b.extend_from_slice(&1u64.to_be_bytes());
    b.extend_from_slice(&0u64.to_be_bytes());
    b.extend_from_slice(&11u64.to_be_bytes());
    assert!(matches!(parse(&b), Some(Val::Int(0x102))));
}

#[test]
fn what_points_outside_itself_is_refused() {
    let mut b = encode(&Value::Str("abc".to_string()));
    assert!(parse(&b).is_some());
    let n = b.len();
    b[n - 1] = 200;
    assert!(parse(&b).is_none());
    assert!(parse(b"bplist00").is_none());
    assert!(parse(&[0; 64]).is_none());
    // An array that holds itself.
    let mut c = b"bplist00".to_vec();
    c.extend_from_slice(&[0xa1, 0]);
    c.push(8);
    c.extend_from_slice(&[0, 0, 0, 0, 0, 0, 1, 1]);
    c.extend_from_slice(&1u64.to_be_bytes());
    c.extend_from_slice(&0u64.to_be_bytes());
    c.extend_from_slice(&10u64.to_be_bytes());
    assert!(parse(&c).is_none());
}

fn nested(levels: usize) -> Value {
    let mut v = Value::Bool(true);
    for _ in 0..levels {
        v = Value::Array(vec![v]);
    }
    v
}

#[test]
fn a_document_nests_so_deep_and_no_deeper() {
    assert!(parse(&encode(&nested(16))).is_some());
    assert!(parse(&encode(&nested(17))).is_none());
}
