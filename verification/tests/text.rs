use tarish::clock::{elapsed, left};
use tarish::order::{comes_before, sorted};
use tarish::random::{if_filled, random_bytes};
use tarish::text::{
    after_last, chars_of, contains, digit_to_char, ends_with, find, first_piece, hex, is_space, join, lower_char, parse_int, parse_uint, push_decimal,
    push_hexadecimal, same, same_ignoring_case, split, starts_with, text_of, to_lower, trim, words,
};
use tarish::utf16::{from_utf16, to_utf16};
use tarish::wire::{be, write_le, write_uint};

fn list(s: &[&str]) -> Vec<String> {
    s.iter().map(|x| x.to_string()).collect()
}

#[test]
fn numbers_are_parsed_as_std_does() {
    for s in ["0", "+7", "255", "256", "-1", "", "+", "07", "1 ", "ff", "٣"] {
        assert_eq!(parse_uint(s, 10, 255), s.parse::<u8>().ok().map(u64::from), "{s}");
        assert_eq!(
            parse_uint(s, 16, 255),
            u8::from_str_radix(s, 16).ok().map(u64::from),
            "{s}"
        );
    }
    for s in ["0", "-0", "-2147483648", "-2147483649", "2147483647", "+5", "-", "", "x"] {
        assert_eq!(
            parse_int(s, i32::MIN as i64, i32::MAX as i64),
            s.parse::<i32>().ok().map(i64::from),
            "{s}"
        );
    }
    assert_eq!(parse_uint("18446744073709551615", 10, u64::MAX), Some(u64::MAX));
    assert_eq!(parse_uint("18446744073709551616", 10, u64::MAX), None);
    assert_eq!(parse_int("-9223372036854775808", i64::MIN, i64::MAX), Some(i64::MIN));
}

#[test]
fn numbers_are_written() {
    let mut s = String::new();
    push_decimal(&mut s, 0);
    push_decimal(&mut s, 8770);
    push_hexadecimal(&mut s, 0);
    push_hexadecimal(&mut s, 0xbeef);
    assert_eq!(s, "087700beef");
    assert_eq!(hex(&[0, 0x0f, 0xff]), "000fff");
}

#[test]
fn texts_are_cut_and_compared() {
    assert_eq!(split("a,,b", ','), list(&["a", "", "b"]));
    assert_eq!(split("", ','), list(&[""]));
    assert_eq!(words("  a \t bc\n"), list(&["a", "bc"]));
    assert_eq!(words("a\u{2003}b"), list(&["a", "b"]));
    assert_eq!(join(&list(&["a", "b c"])), "a b c");
    assert_eq!(trim("\u{a0} x \u{2003}"), "x");
    assert_eq!(first_piece("a.b.c", '.'), "a");
    assert_eq!(first_piece("abc", '.'), "abc");
    assert_eq!(to_lower("ÄBC"), "Äbc");
    assert!(contains("xchunkedx", "chunked") && !contains("chunke", "chunked"));
    assert!(starts_with("._a", "._") && !starts_with("a", "._"));
    assert!(ends_with("a.cpio", ".cpio") && !ends_with("cpio", ".cpio"));
    assert!(same_ignoring_case("Keep-Alive", "keep-alive"));
    assert!(!same_ignoring_case("keep", "keep-alive"));
}

#[test]
fn names_are_put_in_order() {
    assert!(comes_before("a", "b") && comes_before("a", "aa") && comes_before("", "a"));
    assert!(!comes_before("b", "a"));
    assert_eq!(sorted(&list(&["b", "ä", "a", "b"])), list(&["a", "b", "b", "ä"]));
}

#[test]
fn wide_characters_make_pairs() {
    assert_eq!(to_utf16("aä😀"), vec![0x61, 0xe4, 0xd83d, 0xde00]);
    assert_eq!(from_utf16(&vec![0x61, 0xd83d, 0xde00]), "a😀");
    assert_eq!(from_utf16(&vec![0xd83d, 0x61]), "\u{fffd}a");
}

#[test]
fn integers_have_two_orders() {
    let mut b: Vec<u8> = Vec::new();
    write_uint(&mut b, 0x0102, 4);
    write_le(&mut b, 0x0102, 4);
    assert_eq!(b, vec![0, 0, 1, 2, 2, 1, 0, 0]);
    assert_eq!(be(&b[..4]), 0x0102);
    // What does not fit keeps its low bytes.
    let mut c: Vec<u8> = Vec::new();
    write_uint(&mut c, 0x123456, 2);
    assert_eq!(c, vec![0x34, 0x56]);
    assert_eq!(be(&[1, 0, 0, 0, 0, 0, 0, 0, 5]), 5);
}

#[test]
fn clocks_do_not_run_backwards() {
    assert_eq!(elapsed(5, 3), 2);
    assert_eq!(elapsed(3, 5), 0);
    assert_eq!(left(10, 4), Some(6));
    assert_eq!(left(10, 10), Some(0));
    assert_eq!(left(10, 11), None);
}

#[test]
fn randomness_has_the_length_asked_for() {
    let a = random_bytes(32).unwrap();
    let b = random_bytes(32).unwrap();
    assert_eq!((a.len(), b.len()), (32, 32));
    assert_ne!(a, b);
    assert!(random_bytes(0).unwrap().is_empty());
}

#[test]
fn a_buffer_that_was_not_filled_is_not_used() {
    assert_eq!(if_filled(true, vec![7, 8]), Some(vec![7, 8]));
    assert_eq!(if_filled(false, vec![7, 8]), None);
}

#[test]
fn characters_are_taken_apart_and_put_together() {
    let v = chars_of("a/b/ç");
    assert_eq!(v, vec!['a', '/', 'b', '/', 'ç']);
    assert_eq!(find(&v, '/'), 1);
    assert_eq!(find(&v, 'x'), 5);
    assert_eq!(after_last(&v, '/'), 4);
    assert_eq!(after_last(&v, 'x'), 0);
    assert_eq!(text_of(&v, 2, 5), "b/ç");
    assert_eq!(lower_char('Q'), 'q');
    assert_eq!(lower_char('Ç'), 'Ç');
    assert_eq!(digit_to_char(9), '9');
    assert_eq!(digit_to_char(15), 'f');
    assert!(same("ä", "ä"));
    assert!(!same("a", "A"));
}

#[test]
fn white_space_is_what_unicode_says() {
    for n in 0..=0x10ffffu32 {
        if let Some(c) = char::from_u32(n) {
            assert_eq!(is_space(c), c.is_whitespace(), "{n:x}");
        }
    }
}
