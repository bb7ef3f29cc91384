use tarish::http::{
    chunk, chunk_end, chunked, first_words, header, keep_alive, number, read_body, read_response,
    request, respond, upload_head, BodyPlan, ChunkDecoder, ChunkStream, HeadReader, HeadStep, MAX_BODY,
    MAX_HEAD, MAX_REPLY,
};

const ASK: &str = "POST /Ask HTTP/1.1\r\nHost: x\r\nContent-Length: 12\r\n\
                   Connection: Keep-Alive\r\nX:  a b \r\n\r\n";

#[test]
fn a_head_ends_with_a_blank_line() {
    let mut r = HeadReader::new();
    let mut last = HeadStep::More;
    for b in ASK.bytes() {
        assert_eq!(last, HeadStep::More);
        last = r.push(b);
    }
    assert_eq!(last, HeadStep::Complete);
    assert_eq!(r.text(), ASK);
}

#[test]
fn a_head_without_an_end_is_too_large() {
    let mut r = HeadReader::new();
    for _ in 1..MAX_HEAD {
        assert_eq!(r.push(b'a'), HeadStep::More);
    }
    assert_eq!(r.push(b'a'), HeadStep::TooLarge);
}

#[test]
fn headers_are_found_in_any_case() {
    assert_eq!(header(ASK, "content-length"), Some("12".to_string()));
    assert_eq!(header(ASK, "x"), Some("a b".to_string()));
    assert_eq!(header(ASK, "missing"), None);
    assert_eq!(first_words(ASK), ("POST".to_string(), "/Ask".to_string()));
    assert_eq!(first_words(""), (String::new(), String::new()));
    assert_eq!(number(ASK, "content-length", 11), None);
    assert_eq!(number(ASK, "content-length", 12), Some(12));
    assert!(keep_alive(ASK));
    assert!(!keep_alive("POST / HTTP/1.1\r\n\r\n"));
}

#[test]
fn bodies_are_chunked_or_counted() {
    let te = "POST / HTTP/1.1\r\nTransfer-Encoding: Chunked\r\n\r\n";
    assert!(chunked(te));
    assert_eq!(read_body(te), BodyPlan::Chunked);
    assert_eq!(read_body(ASK), BodyPlan::Exact(12));
    assert_eq!(read_body("POST / HTTP/1.1\r\n\r\n"), BodyPlan::Exact(0));
    let big = format!("POST / HTTP/1.1\r\nContent-Length: {}\r\n\r\n", MAX_BODY + 1);
    assert_eq!(read_body(&big), BodyPlan::TooLarge);
}

#[test]
fn chunks_are_put_together_wherever_they_are_cut() {
    assert_eq!(chunk(b"hello world, hello"), b"12\r\nhello world, hello\r\n");
    assert!(chunk(b"").is_empty());
    assert_eq!(chunk_end(), b"0\r\n\r\n");
    let mut all = chunk(b"hello ");
    all.extend_from_slice(&chunk(b"world"));
    all.extend_from_slice(&chunk_end());
    for cut in 0..all.len() {
        let mut d = ChunkDecoder::new(None);
        d.feed(&all[..cut]);
        d.feed(&all[cut..]);
        assert_eq!(d.take(), b"hello world");
        assert_eq!(d.wants(), 0);
        assert_eq!(d.received(), 11);
        assert!(!d.desynced());
    }
}

#[test]
fn a_chunked_body_may_be_too_large() {
    let mut d = ChunkDecoder::new(Some(4));
    d.feed(b"5\r\nhello\r\n");
    assert!(d.desynced());
    assert_eq!(d.wants(), 0);
}

#[test]
fn responses_are_understood() {
    let r = respond(200, b"abc", true);
    assert_eq!(
        r,
        b"HTTP/1.1 200 OK\r\nConnection: keep-alive\r\nContent-Length: 3\r\n\
          Content-Type: application/octet-stream\r\n\r\nabc"
    );
    let none = respond(401, b"", false);
    assert_eq!(
        none,
        b"HTTP/1.1 401 Unauthorized\r\nConnection: close\r\nContent-Length: 0\r\n\r\n"
    );
    assert!(respond(413, b"", false).starts_with(b"HTTP/1.1 413 Payload Too Large\r\n"));
    let head = String::from_utf8(r[..r.len() - 3].to_vec()).unwrap();
    assert_eq!(read_response(&head), (200, 3));
    assert_eq!(read_response("HTTP/1.1 500 No\r\nContent-Length: 9999999\r\n\r\n"), (500, MAX_REPLY));
    assert_eq!(read_response("what"), (0, 0));
}

#[test]
fn requests_are_understood() {
    let r = request("/Ask", b"xy", true);
    let head = String::from_utf8(r[..r.len() - 2].to_vec()).unwrap();
    assert_eq!(first_words(&head), ("POST".to_string(), "/Ask".to_string()));
    assert_eq!(read_body(&head), BodyPlan::Exact(2));
    assert!(keep_alive(&head));
    let up = String::from_utf8(upload_head(77)).unwrap();
    assert!(chunked(&up));
    assert_eq!(number(&up, "totalbytes", u64::MAX), Some(77));
}

#[test]
fn streaming_gives_what_buffering_does() {
    let body: Vec<u8> = (0..100u8).collect();
    let mut all = Vec::new();
    for part in body.chunks(30) {
        all.extend_from_slice(&chunk(part));
    }
    all.extend_from_slice(&chunk_end());
    let mut kept = ChunkDecoder::new(Some(1000));
    kept.feed(&all);
    assert_eq!(kept.take(), body);
    for step in [1, 5, 33, 1000] {
        let mut s = ChunkStream::new();
        let (mut out, mut totals) = (Vec::new(), Vec::new());
        for part in all.chunks(step) {
            let data = s.stream_chunked(part);
            if !data.is_empty() {
                totals.push(s.received());
            }
            out.extend_from_slice(&data);
        }
        assert_eq!(out, body);
        assert_eq!(s.wants(), 0);
        assert_eq!(s.sniff(), &body[..16].to_vec());
        assert!(totals.windows(2).all(|w| w[0] < w[1]));
        assert_eq!(totals.last(), Some(&100));
    }
    // A sign is no digit.
    let mut signed = ChunkDecoder::new(None);
    signed.feed(b"+3\r\nabc\r\n0\r\n\r\n");
    assert_eq!((signed.received(), signed.wants()), (0, 0));
    let mut none = ChunkStream::new();
    assert!(none.stream_chunked(&chunk_end()).is_empty());
    assert!(none.sniff().is_empty());
}
