//! Integers as bytes: most significant byte first on the wire, least significant first
//! where the kernel is spoken to.

use vstd::prelude::*;

verus! {

/// The number that `s` spells in base 256, most significant byte first.
pub open spec fn be_value(s: Seq<u8>) -> nat
    decreases s.len(),
{
    if s.len() == 0 {
        0
    } else {
        be_value(s.drop_last()) * 256 + s.last() as nat
    }
}

/// The low `width` bytes of `v`, most significant byte first.
pub open spec fn be_bytes(v: nat, width: nat) -> Seq<u8>
    decreases width,
{
    if width == 0 {
        seq![]
    } else {
        be_bytes(v / 256, (width - 1) as nat).push((v % 256) as u8)
    }
}

/// One more than the largest number that `width` bytes can spell.
pub open spec fn be_limit(width: nat) -> nat
    decreases width,
{
    if width == 0 {
        1
    } else {
        256 * be_limit((width - 1) as nat)
    }
}

pub proof fn lemma_be_bytes_len(v: nat, width: nat)
    ensures
        be_bytes(v, width).len() == width,
    decreases width,
{
    if width > 0 {
        lemma_be_bytes_len(v / 256, (width - 1) as nat);
    }
}

pub proof fn lemma_be_value_bound(s: Seq<u8>)
    ensures
        be_value(s) < be_limit(s.len()),
    decreases s.len(),
{
    if s.len() > 0 {
        lemma_be_value_bound(s.drop_last());
    }
}

/// A number that fits in `width` bytes is what those bytes spell.
pub proof fn law_be_round_trip(v: nat, width: nat)
    requires
        v < be_limit(width),
    ensures
        be_value(be_bytes(v, width)) == v,
        be_bytes(v, width).len() == width,
    decreases width,
{
    lemma_be_bytes_len(v, width);
    if width > 0 {
        law_be_round_trip(v / 256, (width - 1) as nat);
        let s = be_bytes(v, width);
        assert(s.drop_last() =~= be_bytes(v / 256, (width - 1) as nat));
        assert(s.last() == (v % 256) as u8);
    }
}

pub proof fn lemma_be_limits()
    ensures
        be_limit(0) == 1,
        be_limit(1) == 0x100,
        be_limit(2) == 0x1_0000,
        be_limit(4) == 0x1_0000_0000,
        be_limit(7) == 0x100_0000_0000_0000,
        be_limit(8) == 0x1_0000_0000_0000_0000,
{
    reveal_with_fuel(be_limit, 9);
}

/// Two bytes, spelled out.
pub proof fn lemma_be_bytes_2(v: nat)
    ensures
        be_bytes(v, 2) == seq![(v / 256 % 256) as u8, (v % 256) as u8],
{
    reveal_with_fuel(be_bytes, 3);
    assert(be_bytes(v, 2) =~= seq![(v / 256 % 256) as u8, (v % 256) as u8]);
}

/// The value of two bytes, spelled out.
pub proof fn lemma_be_value_2(s: Seq<u8>)
    requires
        s.len() == 2,
    ensures
        be_value(s) == s[0] as nat * 256 + s[1] as nat,
{
    reveal_with_fuel(be_value, 3);
}

/// The value of four bytes, spelled out.
pub proof fn lemma_be_value_4(s: Seq<u8>)
    requires
        s.len() == 4,
    ensures
        be_value(s) == s[0] as nat * 0x100_0000 + s[1] as nat * 0x1_0000 + s[2] as nat * 0x100
            + s[3] as nat,
{
    reveal_with_fuel(be_value, 5);
    assert(s.drop_last().drop_last().drop_last() =~= seq![s[0]]);
}

/// Append `v` in `width` bytes, most significant first. A value that does not fit keeps
/// its low bytes.
pub fn write_uint(out: &mut Vec<u8>, v: u64, width: u8)
    requires
        width <= 8,
    ensures
        final(out)@ == old(out)@ + be_bytes(v as nat, width as nat),
    decreases width,
{
    if width > 0 {
        write_uint(out, v / 256, width - 1);
        out.push((v % 256) as u8);
        assert(out@ =~= old(out)@ + be_bytes(v as nat, width as nat));
    } else {
        assert(out@ =~= old(out)@ + be_bytes(v as nat, width as nat));
    }
}

/// Big-endian integer. More than eight bytes keep the low 64 bits.
pub fn be(b: &[u8]) -> (r: u64)
    ensures
        r == be_value(b@) % 0x1_0000_0000_0000_0000,
        b@.len() <= 8 ==> r == be_value(b@),
{
    let mut acc: u64 = 0;
    let mut i: usize = 0;
    assert(be_value(b@.subrange(0, 0)) == 0);
    while i < b.len()
        invariant
            i <= b.len(),
            acc == be_value(b@.subrange(0, i as int)) % 0x1_0000_0000_0000_0000,
        decreases b.len() - i,
    {
        let ghost whole = be_value(b@.subrange(0, i as int));
        let ghost prev = acc;
        acc = (acc % 0x100_0000_0000_0000) * 256 + b[i] as u64;
        proof {
            let next = b@.subrange(0, i + 1);
            assert(next.drop_last() =~= b@.subrange(0, i as int));
            assert(next.last() == b@[i as int]);
            let q = whole as int / 0x1_0000_0000_0000_0000;
            let r = prev as int / 0x100_0000_0000_0000;
            assert(be_value(next) == q * 0x100_0000_0000_0000_0000 + r * 0x1_0000_0000_0000_0000 + acc);
        }
        i += 1;
    }
    proof {
        assert(b@.subrange(0, i as int) =~= b@);
        if b@.len() <= 8 {
            lemma_be_value_bound(b@);
            reveal_with_fuel(be_limit, 9);
        }
    }
    acc
}

/// The number that `s` spells in base 256, least significant byte first.
pub open spec fn le_value(s: Seq<u8>) -> nat
    decreases s.len(),
{
    if s.len() == 0 {
        0
    } else {
        s[0] as nat + 256 * le_value(s.drop_first())
    }
}

/// The low `width` bytes of `v`, least significant byte first.
pub open spec fn le_bytes(v: nat, width: nat) -> Seq<u8>
    decreases width,
{
    if width == 0 {
        seq![]
    } else {
        seq![(v % 256) as u8] + le_bytes(v / 256, (width - 1) as nat)
    }
}

pub proof fn lemma_le_bytes_len(v: nat, width: nat)
    ensures
        le_bytes(v, width).len() == width,
    decreases width,
{
    if width > 0 {
        lemma_le_bytes_len(v / 256, (width - 1) as nat);
    }
}

/// A number that fits in `width` bytes is what those bytes spell.
pub proof fn law_le_round_trip(v: nat, width: nat)
    requires
        v < be_limit(width),
    ensures
        le_value(le_bytes(v, width)) == v,
        le_bytes(v, width).len() == width,
    decreases width,
{
    if width > 0 {
        law_le_round_trip(v / 256, (width - 1) as nat);
        let s = le_bytes(v, width);
        assert(s.drop_first() =~= le_bytes(v / 256, (width - 1) as nat));
    }
}

pub proof fn lemma_le_value_2(s: Seq<u8>)
    requires
        s.len() == 2,
    ensures
        le_value(s) == s[0] as nat + s[1] as nat * 256,
{
    reveal_with_fuel(le_value, 3);
    assert(s.drop_first()[0] == s[1]);
}

pub proof fn lemma_le_value_4(s: Seq<u8>)
    requires
        s.len() == 4,
    ensures
        le_value(s) == s[0] as nat + s[1] as nat * 0x100 + s[2] as nat * 0x1_0000 + s[3] as nat
            * 0x100_0000,
{
    reveal_with_fuel(le_value, 5);
    let a = s.drop_first();
    let b = a.drop_first();
    let c = b.drop_first();
    assert(a[0] == s[1] && b[0] == s[2] && c[0] == s[3]);
}

/// Append `v` in `width` bytes, least significant first.
pub fn write_le(out: &mut Vec<u8>, v: u64, width: u8)
    requires
        width <= 8,
    ensures
        final(out)@ == old(out)@ + le_bytes(v as nat, width as nat),
    decreases width,
{
    if width > 0 {
        let ghost was = out@;
        out.push((v % 256) as u8);
        write_le(out, v / 256, width - 1);
        assert(out@ =~= was + le_bytes(v as nat, width as nat));
    } else {
        assert(out@ =~= old(out)@ + le_bytes(v as nat, width as nat));
    }
}

} // verus!
