//! UTF-16, which a binary plist uses for any text that is not ASCII.

use vstd::prelude::*;
use vstd::utf8::*;

verus! {

/// `char::from_u32` accepts exactly the Unicode scalar values.
pub assume_specification[ char::from_u32 ](i: u32) -> (r: Option<char>)
    ensures
        r is Some <==> is_scalar(i),
        r matches Some(c) ==> c as u32 == i,
;

/// One code unit, or a surrogate pair.
pub open spec fn units_of_char(c: char) -> Seq<u16> {
    if (c as u32) < 0x1_0000 {
        seq![(c as u32) as u16]
    } else {
        seq![
            (0xD800 + (c as u32 - 0x1_0000) / 0x400) as u16,
            (0xDC00 + (c as u32 - 0x1_0000) % 0x400) as u16,
        ]
    }
}

pub open spec fn encode_utf16(s: Seq<char>) -> Seq<u16>
    decreases s.len(),
{
    if s.len() == 0 {
        seq![]
    } else {
        units_of_char(s[0]) + encode_utf16(s.drop_first())
    }
}

pub open spec fn high_surrogate(u: u16) -> bool {
    0xD800 <= u <= 0xDBFF
}

pub open spec fn low_surrogate(u: u16) -> bool {
    0xDC00 <= u <= 0xDFFF
}

/// The text of some code units. A surrogate without its partner becomes U+FFFD.
pub open spec fn decode_utf16(u: Seq<u16>) -> Seq<char>
    decreases u.len(),
{
    if u.len() == 0 {
        seq![]
    } else if !high_surrogate(u[0]) && !low_surrogate(u[0]) {
        seq![(u[0] as u32) as char] + decode_utf16(u.drop_first())
    } else if high_surrogate(u[0]) && u.len() >= 2 && low_surrogate(u[1]) {
        seq![paired(u[0], u[1])] + decode_utf16(u.subrange(2, u.len() as int))
    } else {
        seq!['\u{FFFD}'] + decode_utf16(u.drop_first())
    }
}

pub open spec fn paired(high: u16, low: u16) -> char {
    ((0x1_0000 + (high - 0xD800) * 0x400 + (low - 0xDC00)) as u32) as char
}

/// Text survives UTF-16.
pub proof fn law_utf16_round_trip(s: Seq<char>)
    ensures
        decode_utf16(encode_utf16(s)) == s,
    decreases s.len(),
{
    if s.len() > 0 {
        let c = s[0];
        let rest = encode_utf16(s.drop_first());
        let u = encode_utf16(s);
        law_utf16_round_trip(s.drop_first());
        if (c as u32) < 0x1_0000 {
            assert(u[0] == (c as u32) as u16);
            assert(u.drop_first() =~= rest);
            assert((u[0] as u32) as char == c) by {
                char_u32_cast(c, u[0] as u32);
            }
        } else {
            assert(u.subrange(2, u.len() as int) =~= rest);
            char_is_scalar(c);
            let x = (c as u32 - 0x1_0000) as int;
            assert(u[0] == 0xD800 + x / 0x400);
            assert(u[1] == 0xDC00 + x % 0x400);
            char_u32_cast(c, (0x1_0000 + (u[0] - 0xD800) * 0x400 + (u[1] - 0xDC00)) as u32);
            assert(paired(u[0], u[1]) == c);
        }
        assert(seq![c] + s.drop_first() =~= s);
    }
}

/// A character of the first plane is its own number; any other is two surrogates, the high one
/// first, and the lower ten bits of its number are in the low one.
pub proof fn law_characters_have_their_units(c: char)
    ensures
        (c as u32) < 0x1_0000 ==> units_of_char(c).len() == 1 && units_of_char(c)[0] == c as u32,
        (c as u32) >= 0x1_0000 ==> units_of_char(c).len() == 2 && high_surrogate(
            units_of_char(c)[0],
        ) && low_surrogate(units_of_char(c)[1]) && units_of_char(c)[1] % 0x400 == c as u32
            % 0x400,
{
    char_is_scalar(c);
}

pub proof fn lemma_encode_push(s: Seq<char>, c: char)
    ensures
        encode_utf16(s.push(c)) == encode_utf16(s) + units_of_char(c),
    decreases s.len(),
{
    if s.len() == 0 {
        assert(s.push(c).drop_first() =~= seq![]);
        assert(encode_utf16(s.push(c)) =~= encode_utf16(s) + units_of_char(c)) by {
            reveal_with_fuel(encode_utf16, 2);
        }
    } else {
        lemma_encode_push(s.drop_first(), c);
        assert(s.push(c).drop_first() =~= s.drop_first().push(c));
        assert(encode_utf16(s.push(c)) =~= encode_utf16(s) + units_of_char(c));
    }
}

/// `str::encode_utf16`, collected.
pub fn to_utf16(s: &str) -> (r: Vec<u16>)
    ensures
        r@ == encode_utf16(s@),
{
    let mut out: Vec<u16> = Vec::new();
    for c in it: s.chars()
        invariant
            out@ == encode_utf16(s@.subrange(0, it.index() as int)),
            it.seq() == s@,
    {
        let x: u32 = c as u32;
        if x < 0x1_0000 {
            out.push(x as u16);
        } else {
            out.push((0xD800 + (x - 0x1_0000) / 0x400) as u16);
            out.push((0xDC00 + (x - 0x1_0000) % 0x400) as u16);
        }
        proof {
            let p = s@.subrange(0, it.index() as int);
            char_is_scalar(c);
            lemma_encode_push(p, c);
            assert(s@.subrange(0, it.index() + 1) =~= p.push(c));
            assert(out@ =~= encode_utf16(p) + units_of_char(c));
        }
    }
    assert(s@.subrange(0, s@.len() as int) =~= s@);
    out
}

/// `String::from_utf16_lossy`.
pub fn from_utf16(u: &Vec<u16>) -> (r: String)
    ensures
        r@ == decode_utf16(u@),
{
    let mut out = String::new();
    let mut i: usize = 0;
    assert(u@.subrange(0, u@.len() as int) =~= u@);
    assert(out@ + decode_utf16(u@) =~= decode_utf16(u@));
    while i < u.len()
        invariant
            i <= u@.len(),
            out@ + decode_utf16(u@.subrange(i as int, u@.len() as int)) == decode_utf16(u@),
        decreases u@.len() - i,
    {
        let ghost rest = u@.subrange(i as int, u@.len() as int);
        let ghost before = out@;
        assert(rest.drop_first() =~= u@.subrange(i + 1, u@.len() as int));
        let a: u16 = u[i];
        if a < 0xD800 || a > 0xDFFF {
            match char::from_u32(a as u32) {
                Some(c) => {
                    out.push(c);
                    proof {
                        char_u32_cast(c, a as u32);
                    }
                },
                None => {
                    assert(false);
                },
            }
            assert(out@ + decode_utf16(rest.drop_first()) =~= before + decode_utf16(rest));
            i += 1;
        } else if a <= 0xDBFF && u.len() - i >= 2 && 0xDC00 <= u[i + 1] && u[i + 1] <= 0xDFFF {
            let x: u32 = 0x1_0000 + (a as u32 - 0xD800) * 0x400 + (u[i + 1] as u32 - 0xDC00);
            match char::from_u32(x) {
                Some(c) => {
                    out.push(c);
                    proof {
                        char_u32_cast(c, x);
                    }
                },
                None => {
                    assert(false);
                },
            }
            assert(rest.subrange(2, rest.len() as int) =~= u@.subrange(i + 2, u@.len() as int));
            assert(out@ + decode_utf16(u@.subrange(i + 2, u@.len() as int)) =~= before
                + decode_utf16(rest));
            i += 2;
        } else {
            out.push('\u{FFFD}');
            assert(out@ + decode_utf16(rest.drop_first()) =~= before + decode_utf16(rest));
            i += 1;
        }
    }
    assert(out@ =~= decode_utf16(u@));
    out
}

} // verus!
