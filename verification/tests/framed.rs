use tarish::framed::{FramedReader, FramedWriter, Stop};

fn framed(data: &[u8]) -> Vec<u8> {
    let mut w = FramedWriter::new();
    let mut out = w.write(data).unwrap();
    out.extend_from_slice(&w.finish().unwrap());
    out
}

#[test]
fn a_stream_is_read_back_wherever_it_is_cut() {
    let data: Vec<u8> = (0..400_000u32).map(|i| (i / 7) as u8).collect();
    let bytes = framed(&data);
    // It was compressed.
    assert!(bytes.len() < data.len());
    for cut in [0, 1, 7, 8, 9, 100, bytes.len() - 1] {
        let mut r = FramedReader::new();
        r.feed(&bytes[..cut]);
        r.feed(&bytes[cut..]);
        assert_eq!(r.take(), data);
        assert_eq!(r.stop(), None);
    }
}

#[test]
fn writes_may_be_cut_anywhere() {
    let data: Vec<u8> = (0..200_000u32).map(|i| (i * 31) as u8).collect();
    let mut w = FramedWriter::new();
    let mut out = Vec::new();
    for part in data.chunks(777) {
        out.extend_from_slice(&w.write(part).unwrap());
    }
    out.extend_from_slice(&w.finish().unwrap());
    assert_eq!(out, framed(&data));
}

#[test]
fn nothing_makes_no_frames() {
    assert!(framed(b"").is_empty());
}

#[test]
fn broken_streams_stop() {
    let good = framed(b"hello");
    let mut r = FramedReader::new();
    let mut bad = good.clone();
    let n = bad.len();
    for b in bad[n - 4..].iter_mut() {
        *b ^= 0xff;
    }
    r.feed(&bad);
    assert_eq!(r.stop(), Some(Stop::Corrupt));
    assert!(r.take().is_empty());
    assert_eq!(r.wants(), 0);
}

#[test]
fn stored_blocks_and_ends_are_read() {
    // A stored block, then one of no bytes, which ends the stream.
    let mut r = FramedReader::new();
    r.feed(&[0x80, 0, 0, 3, b'a', b'b', b'c', 0, 0, 0, 0, 9, 9]);
    assert_eq!(r.take(), b"abc");
    assert_eq!(r.stop(), Some(Stop::Ended));

    let mut r = FramedReader::new();
    assert_eq!(r.wants(), 4);
    r.feed(&[0x00, 0x80, 0x00, 0x01]);
    assert_eq!(r.stop(), Some(Stop::TooLarge(8 * 1024 * 1024 + 1)));
}

#[test]
fn every_block_but_the_last_is_full() {
    // Hardly compressible, so that the blocks are as large as they get.
    let mut x = 1u32;
    let data: Vec<u8> = (0..300_000u32)
        .map(|_| {
            x = x.wrapping_mul(1_664_525).wrapping_add(1_013_904_223);
            (x >> 24) as u8
        })
        .collect();
    let bytes = framed(&data);
    let mut at = 0;
    let mut sizes = Vec::new();
    while at < bytes.len() {
        assert!(bytes[at] < 0x80);
        let len = u32::from_be_bytes([bytes[at], bytes[at + 1], bytes[at + 2], bytes[at + 3]]);
        let mut r = FramedReader::new();
        r.feed(&bytes[at..at + 4 + len as usize]);
        sizes.push(r.take().len());
        at += 4 + len as usize;
    }
    assert_eq!(sizes, [131_072, 131_072, 300_000 - 2 * 131_072]);
}

#[test]
fn one_may_read_on_behind_an_error() {
    let mut bad = framed(b"lost");
    let n = bad.len();
    bad[n - 1] ^= 0xff;
    let mut all = framed(b"one ");
    all.extend_from_slice(&bad);
    all.extend_from_slice(&[0x00, 0x80, 0x00, 0x01]);
    all.extend_from_slice(&framed(b"two"));

    let mut r = FramedReader::new();
    let mut at = r.feed(&all);
    assert_eq!((r.stop(), r.take()), (Some(Stop::Corrupt), b"one ".to_vec()));
    // Nothing more is taken in until somebody reads on.
    assert_eq!(r.feed(&all[at..]), 0);
    r.resume();
    at += r.feed(&all[at..]);
    assert_eq!(r.stop(), Some(Stop::TooLarge(8 * 1024 * 1024 + 1)));
    r.resume();
    at += r.feed(&all[at..]);
    assert_eq!((r.stop(), r.take()), (None, b"two".to_vec()));
    assert_eq!(at, all.len());
    // Behind the end there is nothing.
    r.end();
    r.resume();
    assert_eq!((r.stop(), r.wants()), (Some(Stop::Ended), 0));
    assert_eq!(r.feed(&framed(b"more")), 0);
    assert!(r.take().is_empty());
}
