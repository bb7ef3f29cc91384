//! What the plist writer writes, the plist reader reads back.

use vstd::prelude::*;
use vstd::arithmetic::power2::*;
use vstd::utf8::*;
use crate::plist;
use crate::plist::{Doc, Layout, Object, MAX_DEPTH, MAX_ELEMENTS};
use crate::utf16;
use crate::wire;

verus! {

/// How far a document nests: 0 for a leaf, one more than what it holds for a container.
pub open spec fn height(d: Doc) -> nat
    decreases d,
{
    match d {
        Doc::Array(items) => if items.len() == 0 {
            0
        } else {
            1 + height_all(items)
        },
        Doc::Dict(keys, values) => if keys.len() == 0 {
            0
        } else {
            1 + height_all(values)
        },
        _ => 0,
    }
}

pub open spec fn height_all(items: Seq<Doc>) -> nat
    decreases items,
{
    if items.len() == 0 {
        0
    } else {
        let a = height_all(items.drop_last());
        let b = height(items.last());
        if a >= b {
            a
        } else {
            b
        }
    }
}

/// The units a string takes: bytes when it is ASCII, UTF-16 code units otherwise.
pub open spec fn text_units(s: Seq<char>) -> nat {
    if is_ascii_chars(s) {
        s.len()
    } else {
        utf16::encode_utf16(s).len()
    }
}

/// Whether every length in a document can be written in the four bytes a plist gives it.
pub open spec fn lengths_fit(d: Doc) -> bool
    decreases d,
{
    match d {
        Doc::Str(s) => text_units(s) <= 0xffff_ffff,
        Doc::Data(b) => b.len() <= 0xffff_ffff,
        Doc::Array(items) => forall|i: int|
            0 <= i < items.len() ==> lengths_fit(#[trigger] items[i]),
        Doc::Dict(keys, values) => {
            &&& forall|i: int| 0 <= i < keys.len() ==> text_units(#[trigger] keys[i]) <= 0xffff_ffff
            &&& forall|i: int| 0 <= i < values.len() ==> lengths_fit(#[trigger] values[i])
        },
        _ => true,
    }
}

/// `s` stands in `buf` at `at`.
spec fn has_at(buf: Seq<u8>, at: nat, s: Seq<u8>) -> bool {
    at + s.len() <= buf.len() && buf.subrange(at as int, (at + s.len()) as int) == s
}

proof fn lemma_has_at_parts(buf: Seq<u8>, at: nat, a: Seq<u8>, b: Seq<u8>)
    requires
        has_at(buf, at, a + b),
    ensures
        has_at(buf, at, a),
        has_at(buf, at + a.len(), b),
{
    let s = buf.subrange(at as int, (at + a.len() + b.len()) as int);
    assert(s == a + b);
    assert(buf.subrange(at as int, (at + a.len()) as int) =~= s.subrange(0, a.len() as int));
    assert(s.subrange(0, a.len() as int) =~= a);
    assert(buf.subrange((at + a.len()) as int, (at + a.len() + b.len()) as int) =~= s.subrange(
        a.len() as int,
        s.len() as int,
    ));
    assert(s.subrange(a.len() as int, s.len() as int) =~= b);
}

proof fn lemma_has_at_index(buf: Seq<u8>, at: nat, s: Seq<u8>, i: int)
    requires
        has_at(buf, at, s),
        0 <= i < s.len(),
    ensures
        buf[at + i] == s[i],
{
    assert(buf.subrange(at as int, (at + s.len()) as int)[i] == s[i]);
}

/// A marker reads back as its kind and its length.
proof fn lemma_marker(buf: Seq<u8>, at: nat, kind: nat, len: nat)
    requires
        has_at(buf, at, plist::marker_bytes(kind, len)),
        kind < 16,
        len <= 0xffff_ffff,
    ensures
        at < buf.len(),
        buf[at as int] / 16 == kind,
        plist::sized(buf, at, (buf[at as int] % 16) as nat) == Some(
            (len, at + plist::marker_bytes(kind, len).len()),
        ),
{
    let m = plist::marker_bytes(kind, len);
    lemma_has_at_index(buf, at, m, 0);
    if len < 15 {
        assert(m[0] == (kind * 16 + len) as u8);
    } else {
        let first = seq![(kind * 16 + 15) as u8];
        let rest = plist::int_bytes(len);
        assert(m =~= first + rest);
        lemma_has_at_parts(buf, at, first, rest);
        let (tag, w): (u8, nat) = if len <= 0xff {
            (0x10u8, 1nat)
        } else if len <= 0xffff {
            (0x11u8, 2nat)
        } else {
            (0x12u8, 4nat)
        };
        let digits = wire::be_bytes(len, w);
        assert(rest =~= seq![tag] + digits);
        lemma_has_at_parts(buf, at + 1, seq![tag], digits);
        lemma_has_at_index(buf, at + 1, seq![tag], 0);
        wire::lemma_be_limits();
        wire::law_be_round_trip(len, w);
        lemma2_to64();
        assert(buf[at as int + 1] == tag);
        assert(pow2((tag % 16) as nat) == w);
        assert(plist::slice_of(buf, at + 2, at + 2 + w) == Some(digits));
        assert(plist::low_64(len) == len);
    }
}

proof fn lemma_refs_len(refs: Seq<nat>, ref_size: nat)
    ensures
        plist::refs_bytes(refs, ref_size).len() == refs.len() * ref_size,
    decreases refs.len(),
{
    if refs.len() > 0 {
        lemma_refs_len(refs.drop_last(), ref_size);
        wire::lemma_be_bytes_len(refs.last(), ref_size);
        assert((refs.len() - 1) * ref_size + ref_size == refs.len() * ref_size)
            by (nonlinear_arith);
    }
}

/// The `i`-th reference of a run of them.
proof fn lemma_refs_at(buf: Seq<u8>, at: nat, refs: Seq<nat>, ref_size: nat, i: nat)
    requires
        has_at(buf, at, plist::refs_bytes(refs, ref_size)),
        i < refs.len(),
    ensures
        has_at(buf, at + i * ref_size, wire::be_bytes(refs[i as int], ref_size)),
    decreases refs.len(),
{
    let front = plist::refs_bytes(refs.drop_last(), ref_size);
    let last = wire::be_bytes(refs.last(), ref_size);
    lemma_has_at_parts(buf, at, front, last);
    lemma_refs_len(refs.drop_last(), ref_size);
    if i < refs.len() - 1 {
        lemma_refs_at(buf, at, refs.drop_last(), ref_size, i);
    }
}

proof fn lemma_unit_bytes(u: Seq<u16>)
    ensures
        plist::unit_bytes(u).len() == 2 * u.len(),
        plist::bytes_units(plist::unit_bytes(u)) == u,
    decreases u.len(),
{
    if u.len() > 0 {
        let p = u.drop_last();
        lemma_unit_bytes(p);
        let v = u.last() as nat;
        wire::lemma_be_bytes_2(v);
        let b = plist::unit_bytes(u);
        let front = plist::unit_bytes(p);
        assert(b =~= front + wire::be_bytes(v, 2));
        assert forall|i: int| 0 <= i < u.len() implies plist::bytes_units(b)[i] == u[i] by {
            if i < p.len() {
                assert(b[2 * i] == front[2 * i]);
                assert(b[2 * i + 1] == front[2 * i + 1]);
                assert(plist::bytes_units(front)[i] == p[i]);
            } else {
                assert(b[2 * i] == (v / 256 % 256) as u8);
                assert(b[2 * i + 1] == (v % 256) as u8);
            }
        }
        assert(plist::bytes_units(b) =~= u);
    } else {
        assert(plist::bytes_units(plist::unit_bytes(u)) =~= u);
    }
}

/// Every object of `objs` is where the table of `l` says.
spec fn placed(l: Layout, objs: Seq<Object>) -> bool {
    &&& l.num_objects == objs.len() <= MAX_ELEMENTS
    &&& l.ref_size == plist::width(objs.len())
    &&& forall|k: nat|
        k < objs.len() ==> (#[trigger] plist::offset_of(l, k) matches Some(at) && has_at(
            l.buf,
            at,
            plist::object_bytes(objs[k as int], l.ref_size),
        ))
}

/// What decoding ASCII bytes as UTF-8, leniently or not, gives back.
proof fn lemma_ascii_text(s: Seq<char>)
    requires
        is_ascii_chars(s),
    ensures
        valid_utf8(encode_utf8(s)),
        decode_utf8(encode_utf8(s)) == s,
        encode_utf8(s).len() == s.len(),
{
    encode_utf8_valid_utf8(s);
    encode_utf8_decode_utf8(s);
    is_ascii_chars_encode_utf8(s);
}

proof fn lemma_string_at(l: Layout, objs: Seq<Object>, k: nat, s: Seq<char>, depth: nat)
    requires
        placed(l, objs),
        k < objs.len(),
        objs[k as int] == Object::Str(s),
        text_units(s) <= 0xffff_ffff,
        depth <= MAX_DEPTH,
    ensures
        plist::object_at(l, k, depth) == Some(Doc::Str(s)),
{
    let at = plist::offset_of(l, k)->0;
    if is_ascii_chars(s) {
        lemma_ascii_text(s);
        let m = plist::marker_bytes(5, s.len());
        lemma_has_at_parts(l.buf, at, m, encode_utf8(s));
        lemma_marker(l.buf, at, 5, s.len());
    } else {
        let u = utf16::encode_utf16(s);
        let m = plist::marker_bytes(6, u.len());
        lemma_has_at_parts(l.buf, at, m, plist::unit_bytes(u));
        lemma_marker(l.buf, at, 6, u.len());
        lemma_unit_bytes(u);
        utf16::law_utf16_round_trip(s);
    }
}

proof fn lemma_size_all_prefix(items: Seq<Doc>, i: int)
    requires
        0 <= i < items.len(),
    ensures
        plist::size_all(items.subrange(0, i)) + plist::size(items[i]) <= plist::size_all(items),
    decreases items.len(),
{
    let p = items.drop_last();
    if i < p.len() {
        lemma_size_all_prefix(p, i);
        assert(p.subrange(0, i) =~= items.subrange(0, i));
    } else {
        assert(items.subrange(0, i) =~= p);
    }
}

proof fn lemma_flat_len(d: Doc, base: nat)
    ensures
        plist::flat(d, base).len() == plist::size(d) >= 1,
    decreases d, 0nat,
{
    match d {
        Doc::Array(items) => {
            lemma_flat_all_len(items, base + 1);
        },
        Doc::Dict(keys, values) => {
            lemma_flat_all_len(values, base + 1 + keys.len());
        },
        _ => {},
    }
}

proof fn lemma_flat_all_len(items: Seq<Doc>, base: nat)
    ensures
        plist::flat_all(items, base).len() == plist::size_all(items),
    decreases items, 1nat,
{
    if items.len() > 0 {
        lemma_flat_all_len(items.drop_last(), base);
        lemma_flat_len(items.last(), base + plist::size_all(items.drop_last()));
    }
}

proof fn lemma_indices(items: Seq<Doc>, base: nat)
    ensures
        plist::indices(items, base).len() == items.len(),
        forall|i: int|
            0 <= i < items.len() ==> (#[trigger] plist::indices(items, base)[i]) == base
                + plist::size_all(items.subrange(0, i)),
    decreases items.len(),
{
    if items.len() > 0 {
        let p = items.drop_last();
        lemma_indices(p, base);
        assert forall|i: int| 0 <= i < items.len() implies (#[trigger] plist::indices(
            items,
            base,
        )[i]) == base + plist::size_all(items.subrange(0, i)) by {
            if i < p.len() {
                assert(plist::indices(items, base)[i] == plist::indices(p, base)[i]);
                assert(p.subrange(0, i) =~= items.subrange(0, i));
            } else {
                assert(items.subrange(0, i) =~= p);
            }
        }
    }
}

/// The objects of the `i`-th item stand together in the objects of all of them.
proof fn lemma_flat_all_item(items: Seq<Doc>, base: nat, i: int)
    requires
        0 <= i < items.len(),
    ensures
        ({
            let from = plist::size_all(items.subrange(0, i)) as int;
            let to = from + plist::size(items[i]);
            to <= plist::flat_all(items, base).len() && plist::flat_all(items, base).subrange(
                from,
                to,
            ) == plist::flat(items[i], base + from as nat)
        }),
    decreases items.len(),
{
    let p = items.drop_last();
    lemma_flat_all_len(items, base);
    lemma_flat_all_len(p, base);
    lemma_flat_len(items[i], base + plist::size_all(items.subrange(0, i)));
    lemma_size_all_prefix(items, i);
    let from = plist::size_all(items.subrange(0, i)) as int;
    let to = from + plist::size(items[i]);
    if i < p.len() {
        lemma_flat_all_item(p, base, i);
        assert(p.subrange(0, i) =~= items.subrange(0, i));
        assert(plist::flat_all(items, base).subrange(from, to) =~= plist::flat_all(
            p,
            base,
        ).subrange(from, to));
    } else {
        assert(items.subrange(0, i) =~= p);
        assert(plist::flat_all(items, base).subrange(from, to) =~= plist::flat(
            items.last(),
            base + plist::size_all(p),
        ));
    }
}

proof fn lemma_height_all(items: Seq<Doc>, i: int)
    requires
        0 <= i < items.len(),
    ensures
        height(items[i]) <= height_all(items),
    decreases items.len(),
{
    if i < items.len() - 1 {
        lemma_height_all(items.drop_last(), i);
    }
}

/// A reference stored in the width the writer chose reads back.
proof fn lemma_reference(l: Layout, objs: Seq<Object>, at: nat, refs: Seq<nat>, i: nat)
    requires
        placed(l, objs),
        has_at(l.buf, at, plist::refs_bytes(refs, l.ref_size)),
        i < refs.len(),
        refs[i as int] < objs.len(),
    ensures
        plist::reference(l, at, i) == Some(refs[i as int]),
{
    lemma_refs_at(l.buf, at, refs, l.ref_size, i);
    wire::lemma_be_limits();
    wire::law_be_round_trip(refs[i as int], l.ref_size);
}

/// The objects of `d` stand in `objs` from index `base` on.
spec fn stands(objs: Seq<Object>, d: Doc, base: nat) -> bool {
    base + plist::size(d) <= objs.len() && objs.subrange(
        base as int,
        (base + plist::size(d)) as int,
    ) == plist::flat(d, base)
}

proof fn lemma_document(l: Layout, objs: Seq<Object>, d: Doc, base: nat, depth: nat)
    requires
        placed(l, objs),
        stands(objs, d, base),
        plist::writable(d),
        lengths_fit(d),
        depth + height(d) <= MAX_DEPTH,
    ensures
        plist::object_at(l, base, depth) == Some(d),
    decreases d, 1nat,
{
    lemma_flat_len(d, base);
    let own = objs[base as int];
    assert(own == objs.subrange(base as int, (base + plist::size(d)) as int)[0]);
    let at = plist::offset_of(l, base)->0;
    let all = plist::object_bytes(own, l.ref_size);
    match d {
        Doc::Str(s) => {
            lemma_string_at(l, objs, base, s, depth);
        },
        Doc::Data(b) => {
            let m = plist::marker_bytes(4, b.len());
            lemma_has_at_parts(l.buf, at, m, b);
            lemma_marker(l.buf, at, 4, b.len());
        },
        Doc::Bool(b) => {
            lemma_has_at_index(l.buf, at, all, 0);
        },
        Doc::Array(items) => {
            lemma_array(l, objs, d, items, base, depth);
        },
        Doc::Dict(keys, values) => {
            lemma_dictionary(l, objs, d, keys, values, base, depth);
        },
        _ => {},
    }
}

#[verifier::spinoff_prover]
proof fn lemma_array(
    l: Layout,
    objs: Seq<Object>,
    d: Doc,
    items: Seq<Doc>,
    base: nat,
    depth: nat,
)
    requires
        placed(l, objs),
        stands(objs, d, base),
        plist::writable(d),
        lengths_fit(d),
        depth + height(d) <= MAX_DEPTH,
        d == Doc::Array(items),
    ensures
        plist::object_at(l, base, depth) == Some(d),
    decreases d, 0nat,
{
    lemma_flat_len(d, base);
    let own = objs[base as int];
    assert(own == objs.subrange(base as int, (base + plist::size(d)) as int)[0]);
    let at = plist::offset_of(l, base)->0;
    let all = plist::object_bytes(own, l.ref_size);
    let refs = plist::indices(items, base + 1);
    lemma_indices(items, base + 1);
    lemma_flat_all_len(items, base + 1);
    assert(own == Object::Array(refs));
    let m = plist::marker_bytes(10, refs.len());
    let r = plist::refs_bytes(refs, l.ref_size);
    assert(all =~= m + r);
    lemma_has_at_parts(l.buf, at, m, r);
    lemma_item_count(items);
    lemma_marker(l.buf, at, 10, refs.len());
    let body = at + m.len();
    assert forall|i: int| 0 <= i < items.len() implies #[trigger] plist::object_at(
        l,
        refs[i],
        depth + 1,
    ) == Some(items[i]) by {
        lemma_flat_all_item(items, base + 1, i);
        lemma_size_all_prefix(items, i);
        lemma_height_all(items, i);
        let from = plist::size_all(items.subrange(0, i));
        let kid = base + 1 + from;
        assert(refs[i] == kid);
        let whole = objs.subrange(base as int, (base + plist::size(d)) as int);
        let part = plist::flat_all(items, base + 1);
        assert(objs.subrange(kid as int, (kid + plist::size(items[i])) as int)
            =~= whole.subrange(
            (1 + from) as int,
            (1 + from + plist::size(items[i])) as int,
        ));
        assert(whole.subrange((1 + from) as int, (1 + from + plist::size(items[i])) as int)
            =~= part.subrange(from as int, (from + plist::size(items[i])) as int));
        lemma_document(l, objs, items[i], kid, depth + 1);
    }
    assert forall|i: int| 0 <= i < items.len() implies #[trigger] plist::reference(
        l,
        body,
        i as nat,
    ) == Some(refs[i]) by {
        lemma_size_all_prefix(items, i);
        lemma_reference(l, objs, body, refs, i as nat);
    }
    lemma_elements(l, body, refs, items, items.len(), depth);
    assert(items.subrange(0, items.len() as int) =~= items);
}

/// The values of a dictionary stand behind its keys.
proof fn lemma_dict_child(
    objs: Seq<Object>,
    keys: Seq<Seq<char>>,
    values: Seq<Doc>,
    base: nat,
    i: int,
)
    requires
        stands(objs, Doc::Dict(keys, values), base),
        keys.len() == values.len(),
        0 <= i < values.len(),
    ensures
        stands(objs, values[i], plist::indices(values, base + 1 + keys.len())[i]),
{
    let d = Doc::Dict(keys, values);
    let n = keys.len();
    let whole = objs.subrange(base as int, (base + plist::size(d)) as int);
    lemma_flat_len(d, base);
    lemma_indices(values, base + 1 + n);
    lemma_flat_all_len(values, base + 1 + n);
    lemma_flat_all_item(values, base + 1 + n, i);
    lemma_size_all_prefix(values, i);
    let from = plist::size_all(values.subrange(0, i));
    let kid = base + 1 + n + from;
    assert(plist::indices(values, base + 1 + n)[i] == kid);
    let part = plist::flat_all(values, base + 1 + n);
    let len = plist::size(values[i]);
    assert(objs.subrange(kid as int, (kid + len) as int) =~= whole.subrange(
        (1 + n + from) as int,
        (1 + n + from + len) as int,
    ));
    assert(whole.subrange((1 + n + from) as int, (1 + n + from + len) as int) =~= part.subrange(
        from as int,
        (from + len) as int,
    ));
}

/// The keys of a dictionary stand behind it.
proof fn lemma_dict_key(
    objs: Seq<Object>,
    keys: Seq<Seq<char>>,
    values: Seq<Doc>,
    base: nat,
    i: int,
)
    requires
        stands(objs, Doc::Dict(keys, values), base),
        keys.len() == values.len(),
        0 <= i < keys.len(),
    ensures
        plist::key_indices(keys, base + 1)[i] < objs.len(),
        objs[plist::key_indices(keys, base + 1)[i] as int] == Object::Str(keys[i]),
{
    let d = Doc::Dict(keys, values);
    let whole = objs.subrange(base as int, (base + plist::size(d)) as int);
    lemma_flat_len(d, base);
    lemma_flat_all_len(values, base + 1 + keys.len());
    assert(objs[plist::key_indices(keys, base + 1)[i] as int] == whole[1 + i]);
    assert(whole[1 + i] == plist::key_objects(keys)[i]);
}

/// The references of a dictionary, read one by one: first the keys', then the values'.
proof fn lemma_dict_refs(
    l: Layout,
    objs: Seq<Object>,
    krefs: Seq<nat>,
    vrefs: Seq<nat>,
    body: nat,
)
    requires
        placed(l, objs),
        krefs.len() == vrefs.len(),
        forall|i: int| 0 <= i < krefs.len() ==> #[trigger] krefs[i] < objs.len(),
        forall|i: int| 0 <= i < vrefs.len() ==> #[trigger] vrefs[i] < objs.len(),
        has_at(
            l.buf,
            body,
            plist::refs_bytes(krefs, l.ref_size) + plist::refs_bytes(vrefs, l.ref_size),
        ),
    ensures
        forall|i: int|
            0 <= i < krefs.len() ==> #[trigger] plist::reference(l, body, i as nat) == Some(
                krefs[i],
            ),
        forall|i: int|
            0 <= i < krefs.len() ==> #[trigger] plist::reference(
                l,
                body,
                (krefs.len() + i) as nat,
            ) == Some(vrefs[i]),
{
    let n = krefs.len();
    let rk = plist::refs_bytes(krefs, l.ref_size);
    let rv = plist::refs_bytes(vrefs, l.ref_size);
    lemma_has_at_parts(l.buf, body, rk, rv);
    lemma_refs_len(krefs, l.ref_size);
    assert forall|i: int| 0 <= i < n implies #[trigger] plist::reference(
        l,
        body,
        i as nat,
    ) == Some(krefs[i]) by {
        lemma_reference(l, objs, body, krefs, i as nat);
    }
    assert forall|i: int| 0 <= i < n implies #[trigger] plist::reference(
        l,
        body,
        (n + i) as nat,
    ) == Some(vrefs[i]) by {
        lemma_reference(l, objs, body + rk.len(), vrefs, i as nat);
        assert(n * l.ref_size + i * l.ref_size == (n + i) * l.ref_size)
            by (nonlinear_arith);
    }
}

#[verifier::spinoff_prover]
proof fn lemma_dictionary(
    l: Layout,
    objs: Seq<Object>,
    d: Doc,
    keys: Seq<Seq<char>>,
    values: Seq<Doc>,
    base: nat,
    depth: nat,
)
    requires
        placed(l, objs),
        stands(objs, d, base),
        plist::writable(d),
        lengths_fit(d),
        depth + height(d) <= MAX_DEPTH,
        d == Doc::Dict(keys, values),
    ensures
        plist::object_at(l, base, depth) == Some(d),
    decreases d, 0nat,
{
    lemma_flat_len(d, base);
    let own = objs[base as int];
    assert(own == objs.subrange(base as int, (base + plist::size(d)) as int)[0]);
    let at = plist::offset_of(l, base)->0;
    let krefs = plist::key_indices(keys, base + 1);
    let vrefs = plist::indices(values, base + 1 + keys.len());
    let n = keys.len();
    lemma_indices(values, base + 1 + n);
    assert(own == Object::Dict(krefs, vrefs));
    let m = plist::marker_bytes(13, n);
    let rk = plist::refs_bytes(krefs, l.ref_size);
    let rv = plist::refs_bytes(vrefs, l.ref_size);
    assert(plist::object_bytes(own, l.ref_size) =~= m + (rk + rv));
    lemma_has_at_parts(l.buf, at, m, rk + rv);
    lemma_marker(l.buf, at, 13, n);
    let body = at + m.len();
    assert forall|i: int| 0 <= i < n implies #[trigger] krefs[i] < objs.len() by {
        lemma_dict_key(objs, keys, values, base, i);
    }
    assert forall|i: int| 0 <= i < n implies #[trigger] vrefs[i] < objs.len() by {
        lemma_dict_child(objs, keys, values, base, i);
        lemma_flat_len(values[i], vrefs[i]);
    }
    assert forall|i: int| 0 <= i < n implies #[trigger] plist::object_at(
        l,
        krefs[i],
        depth + 1,
    ) == Some(Doc::Str(keys[i])) by {
        lemma_dict_key(objs, keys, values, base, i);
        lemma_string_at(l, objs, krefs[i], keys[i], depth + 1);
    }
    assert forall|i: int| 0 <= i < n implies #[trigger] plist::object_at(
        l,
        vrefs[i],
        depth + 1,
    ) == Some(values[i]) by {
        lemma_dict_child(objs, keys, values, base, i);
        lemma_height_all(values, i);
        lemma_document(l, objs, values[i], vrefs[i], depth + 1);
    }
    lemma_dict_refs(l, objs, krefs, vrefs, body);
    lemma_entries(l, body, krefs, vrefs, keys, values, n, depth);
    assert(keys.subrange(0, n as int) =~= keys);
    assert(values.subrange(0, n as int) =~= values);
}

proof fn lemma_item_count(items: Seq<Doc>)
    ensures
        items.len() <= plist::size_all(items),
    decreases items.len(),
{
    if items.len() > 0 {
        lemma_item_count(items.drop_last());
        lemma_flat_len(items.last(), 0);
    }
}

proof fn lemma_elements(
    l: Layout,
    body: nat,
    refs: Seq<nat>,
    items: Seq<Doc>,
    n: nat,
    depth: nat,
)
    requires
        n <= items.len() == refs.len(),
        depth <= MAX_DEPTH,
        forall|i: int|
            0 <= i < items.len() ==> #[trigger] plist::object_at(l, refs[i], depth + 1) == Some(
                items[i],
            ),
        forall|i: int|
            0 <= i < items.len() ==> #[trigger] plist::reference(l, body, i as nat) == Some(
                refs[i],
            ),
    ensures
        plist::elements(l, body, n, depth) == Some(items.subrange(0, n as int)),
    decreases n,
{
    if n > 0 {
        lemma_elements(l, body, refs, items, (n - 1) as nat, depth);
        let i = n - 1;
        assert(plist::reference(l, body, i as nat) == Some(refs[i]));
        assert(plist::object_at(l, refs[i], depth + 1) == Some(items[i]));
        assert(items.subrange(0, n as int) =~= items.subrange(0, i).push(items[i]));
    } else {
        assert(items.subrange(0, 0) =~= seq![]);
    }
}

proof fn lemma_entries(
    l: Layout,
    body: nat,
    krefs: Seq<nat>,
    vrefs: Seq<nat>,
    keys: Seq<Seq<char>>,
    values: Seq<Doc>,
    n: nat,
    depth: nat,
)
    requires
        n <= keys.len() == values.len(),
        krefs.len() == keys.len(),
        vrefs.len() == keys.len(),
        depth <= MAX_DEPTH,
        forall|i: int|
            0 <= i < keys.len() ==> #[trigger] plist::object_at(l, krefs[i], depth + 1) == Some(
                Doc::Str(keys[i]),
            ),
        forall|i: int|
            0 <= i < keys.len() ==> #[trigger] plist::object_at(l, vrefs[i], depth + 1) == Some(
                values[i],
            ),
        forall|i: int|
            0 <= i < keys.len() ==> #[trigger] plist::reference(l, body, i as nat) == Some(
                krefs[i],
            ),
        forall|i: int|
            0 <= i < keys.len() ==> #[trigger] plist::reference(l, body, (keys.len() + i) as nat)
                == Some(vrefs[i]),
    ensures
        plist::entries(l, body, keys.len(), n, depth) == Some(
            (keys.subrange(0, n as int), values.subrange(0, n as int)),
        ),
    decreases n,
{
    if n > 0 {
        lemma_entries(l, body, krefs, vrefs, keys, values, (n - 1) as nat, depth);
        let i = n - 1;
        assert(plist::reference(l, body, i as nat) == Some(krefs[i]));
        assert(plist::reference(l, body, (keys.len() + i) as nat) == Some(vrefs[i]));
        assert(plist::object_at(l, krefs[i], depth + 1) == Some(Doc::Str(keys[i])));
        assert(plist::object_at(l, vrefs[i], depth + 1) == Some(values[i]));
        assert(keys.subrange(0, n as int) =~= keys.subrange(0, i).push(keys[i]));
        assert(values.subrange(0, n as int) =~= values.subrange(0, i).push(values[i]));
    } else {
        assert(keys.subrange(0, 0) =~= seq![]);
        assert(values.subrange(0, 0) =~= seq![]);
    }
}

/// Where object `k` starts.
spec fn start_of(objs: Seq<Object>, rs: nat, k: nat) -> nat {
    plist::body_bytes(objs.subrange(0, k as int), rs).len()
}

proof fn lemma_has_at_prefix(buf: Seq<u8>, more: Seq<u8>, at: nat, s: Seq<u8>)
    requires
        has_at(buf, at, s),
    ensures
        has_at(buf + more, at, s),
{
    assert((buf + more).subrange(at as int, (at + s.len()) as int) =~= buf.subrange(
        at as int,
        (at + s.len()) as int,
    ));
}

proof fn lemma_has_at_suffix(front: Seq<u8>, buf: Seq<u8>, at: nat, s: Seq<u8>)
    requires
        has_at(buf, at, s),
    ensures
        has_at(front + buf, front.len() + at, s),
{
    assert((front + buf).subrange((front.len() + at) as int, (front.len() + at + s.len()) as int)
        =~= buf.subrange(at as int, (at + s.len()) as int));
}

proof fn lemma_body_object(objs: Seq<Object>, rs: nat, k: nat)
    requires
        k < objs.len(),
    ensures
        has_at(
            plist::body_bytes(objs, rs),
            start_of(objs, rs, k),
            plist::object_bytes(objs[k as int], rs),
        ),
        start_of(objs, rs, k) >= 8,
    decreases objs.len(),
{
    let p = objs.drop_last();
    let last = plist::object_bytes(objs.last(), rs);
    if k < p.len() {
        lemma_body_object(p, rs, k);
        assert(p.subrange(0, k as int) =~= objs.subrange(0, k as int));
        lemma_has_at_prefix(
            plist::body_bytes(p, rs),
            last,
            start_of(p, rs, k),
            plist::object_bytes(p[k as int], rs),
        );
    } else {
        assert(objs.subrange(0, k as int) =~= p);
        let front = plist::body_bytes(p, rs);
        assert((front + last).subrange(front.len() as int, (front.len() + last.len()) as int)
            =~= last);
        lemma_body_magic(p, rs);
    }
}

proof fn lemma_body_magic(objs: Seq<Object>, rs: nat)
    ensures
        has_at(plist::body_bytes(objs, rs), 0, plist::magic()),
        plist::body_bytes(objs, rs).len() >= 8,
    decreases objs.len(),
{
    if objs.len() > 0 {
        lemma_body_magic(objs.drop_last(), rs);
        lemma_has_at_prefix(
            plist::body_bytes(objs.drop_last(), rs),
            plist::object_bytes(objs.last(), rs),
            0,
            plist::magic(),
        );
    } else {
        assert(plist::magic().subrange(0, 8) =~= plist::magic());
    }
}

proof fn lemma_table(objs: Seq<Object>, rs: nat, os: nat, n: nat)
    ensures
        plist::table_bytes(objs, rs, os, n).len() == n * os,
        forall|k: nat|
            k < n ==> #[trigger] has_at(
                plist::table_bytes(objs, rs, os, n),
                k * os,
                wire::be_bytes(start_of(objs, rs, k), os),
            ),
    decreases n,
{
    if n > 0 {
        let m = (n - 1) as nat;
        lemma_table(objs, rs, os, m);
        let front = plist::table_bytes(objs, rs, os, m);
        let last = wire::be_bytes(start_of(objs, rs, m), os);
        wire::lemma_be_bytes_len(start_of(objs, rs, m), os);
        assert(m * os + os == n * os) by (nonlinear_arith)
            requires
                m + 1 == n,
        ;
        assert forall|k: nat| k < n implies #[trigger] has_at(
            plist::table_bytes(objs, rs, os, n),
            k * os,
            wire::be_bytes(start_of(objs, rs, k), os),
        ) by {
            if k < m {
                assert(has_at(front, k * os, wire::be_bytes(start_of(objs, rs, k), os)));
                lemma_has_at_prefix(
                    front,
                    last,
                    k * os,
                    wire::be_bytes(start_of(objs, rs, k), os),
                );
            } else {
                assert((front + last).subrange(
                    front.len() as int,
                    (front.len() + last.len()) as int,
                ) =~= last);
            }
        }
    } else {
        assert(n * os == 0) by (nonlinear_arith)
            requires
                n == 0,
        ;
    }
}

/// An object whose lengths can be written.
spec fn object_fits(o: Object) -> bool {
    match o {
        Object::Str(s) => text_units(s) <= 0xffff_ffff,
        Object::Data(d) => d.len() <= 0xffff_ffff,
        Object::Array(refs) => refs.len() <= MAX_ELEMENTS,
        Object::Dict(keys, values) => keys.len() <= MAX_ELEMENTS && values.len() <= MAX_ELEMENTS,
        _ => true,
    }
}

proof fn lemma_object_bound(o: Object, rs: nat)
    requires
        object_fits(o),
        rs <= 8,
    ensures
        1 <= plist::object_bytes(o, rs).len() <= 0x4_0000_0000,
{
    wire::lemma_be_bytes_len(0, 0);
    assert forall|kind: nat, len: nat| 1 <= #[trigger] plist::marker_bytes(kind, len).len() <= 6 by {
        wire::lemma_be_bytes_len(len, 1);
        wire::lemma_be_bytes_len(len, 2);
        wire::lemma_be_bytes_len(len, 4);
    }
    match o {
        Object::Str(s) => {
            if is_ascii_chars(s) {
                lemma_ascii_text(s);
            } else {
                lemma_unit_bytes(utf16::encode_utf16(s));
            }
        },
        Object::Array(refs) => {
            lemma_refs_len(refs, rs);
            assert(refs.len() * rs <= 4096 * 8) by (nonlinear_arith)
                requires
                    refs.len() <= 4096,
                    rs <= 8,
            ;
        },
        Object::Dict(keys, values) => {
            lemma_refs_len(keys, rs);
            lemma_refs_len(values, rs);
            assert(keys.len() * rs <= 4096 * 8) by (nonlinear_arith)
                requires
                    keys.len() <= 4096,
                    rs <= 8,
            ;
            assert(values.len() * rs <= 4096 * 8) by (nonlinear_arith)
                requires
                    values.len() <= 4096,
                    rs <= 8,
            ;
        },
        _ => {},
    }
}

proof fn lemma_body_bound(objs: Seq<Object>, rs: nat)
    requires
        forall|k: int| 0 <= k < objs.len() ==> object_fits(#[trigger] objs[k]),
        rs <= 8,
    ensures
        8 + objs.len() <= plist::body_bytes(objs, rs).len() <= 8 + objs.len() * 0x4_0000_0000,
    decreases objs.len(),
{
    if objs.len() > 0 {
        let p = objs.drop_last();
        assert forall|k: int| 0 <= k < p.len() implies object_fits(#[trigger] p[k]) by {
            assert(p[k] == objs[k]);
        }
        lemma_body_bound(p, rs);
        assert(object_fits(objs[objs.len() - 1]));
        lemma_object_bound(objs.last(), rs);
    }
}

proof fn lemma_objects_fit(d: Doc, base: nat)
    requires
        plist::writable(d),
        lengths_fit(d),
        plist::size(d) <= MAX_ELEMENTS,
    ensures
        forall|k: int|
            0 <= k < plist::flat(d, base).len() ==> object_fits(#[trigger] plist::flat(d, base)[k]),
    decreases d, 0nat,
{
    match d {
        Doc::Array(items) => {
            lemma_indices(items, base + 1);
            lemma_item_count(items);
            lemma_all_objects_fit(items, base + 1);
            let f = plist::flat(d, base);
            let rest = plist::flat_all(items, base + 1);
            assert forall|k: int| 0 <= k < f.len() implies object_fits(#[trigger] f[k]) by {
                if k > 0 {
                    assert(f[k] == rest[k - 1]);
                }
            }
        },
        Doc::Dict(keys, values) => {
            lemma_indices(values, base + 1 + keys.len());
            lemma_item_count(values);
            lemma_all_objects_fit(values, base + 1 + keys.len());
            let f = plist::flat(d, base);
            let rest = plist::flat_all(values, base + 1 + keys.len());
            assert forall|k: int| 0 <= k < f.len() implies object_fits(#[trigger] f[k]) by {
                if k > keys.len() {
                    assert(f[k] == rest[k - 1 - keys.len()]);
                } else if k > 0 {
                    assert(f[k] == Object::Str(keys[k - 1]));
                }
            }
        },
        _ => {},
    }
}

proof fn lemma_all_objects_fit(items: Seq<Doc>, base: nat)
    requires
        forall|i: int| 0 <= i < items.len() ==> plist::writable(#[trigger] items[i]),
        forall|i: int| 0 <= i < items.len() ==> lengths_fit(#[trigger] items[i]),
        plist::size_all(items) <= MAX_ELEMENTS,
    ensures
        forall|k: int|
            0 <= k < plist::flat_all(items, base).len() ==> object_fits(
                #[trigger] plist::flat_all(items, base)[k],
            ),
    decreases items, 1nat,
{
    if items.len() > 0 {
        let p = items.drop_last();
        assert forall|i: int| 0 <= i < p.len() implies plist::writable(#[trigger] p[i]) by {
            assert(p[i] == items[i]);
        }
        assert forall|i: int| 0 <= i < p.len() implies lengths_fit(#[trigger] p[i]) by {
            assert(p[i] == items[i]);
        }
        lemma_all_objects_fit(p, base);
        let last = items[items.len() - 1];
        lemma_objects_fit(last, base + plist::size_all(p));
        let f = plist::flat_all(items, base);
        let front = plist::flat_all(p, base);
        let back = plist::flat(last, base + plist::size_all(p));
        assert(f =~= front + back);
        assert forall|k: int| 0 <= k < f.len() implies object_fits(#[trigger] f[k]) by {
            if k < front.len() {
                assert(f[k] == front[k]);
            } else {
                assert(f[k] == back[k - front.len()]);
            }
        }
    }
}

proof fn lemma_trailer(os: nat, rs: nat, count: nat, start: nat)
    requires
        os <= 8,
        rs <= 8,
        count <= MAX_ELEMENTS,
        start < 0x1_0000_0000_0000_0000,
    ensures
        ({
            let t = plist::trailer_bytes(os, rs, count, start);
            &&& t.len() == 32
            &&& t[6] == os
            &&& t[7] == rs
            &&& wire::be_value(t.subrange(8, 16)) == count
            &&& wire::be_value(t.subrange(16, 24)) == 0
            &&& wire::be_value(t.subrange(24, 32)) == start
        }),
{
    wire::lemma_be_limits();
    wire::law_be_round_trip(count, 8);
    wire::law_be_round_trip(0, 8);
    wire::law_be_round_trip(start, 8);
    let t = plist::trailer_bytes(os, rs, count, start);
    assert(t.subrange(8, 16) =~= wire::be_bytes(count, 8));
    assert(t.subrange(16, 24) =~= wire::be_bytes(0, 8));
    assert(t.subrange(24, 32) =~= wire::be_bytes(start, 8));
}

#[verifier::spinoff_prover]
proof fn lemma_file(objs: Seq<Object>)
    requires
        1 <= objs.len() <= MAX_ELEMENTS,
        forall|k: int| 0 <= k < objs.len() ==> object_fits(#[trigger] objs[k]),
    ensures
        plist::layout_of(plist::file_bytes(objs)) matches Some((l, root)) && root == 0 && placed(
            l,
            objs,
        ),
{
    let n = objs.len();
    let rs = plist::width(n);
    let body = plist::body_bytes(objs, rs);
    lemma_body_bound(objs, rs);
    let os = plist::width(body.len());
    let table = plist::table_bytes(objs, rs, os, n);
    let trailer = plist::trailer_bytes(os, rs, n, body.len());
    let file = plist::file_bytes(objs);
    lemma_table(objs, rs, os, n);
    lemma_trailer(os, rs, n, body.len());
    assert(0 <= n * os) by (nonlinear_arith)
        requires
            0 <= n,
            0 <= os,
    ;
    assert(file =~= body + table + trailer);
    let t = file.subrange(file.len() - 32, file.len() as int);
    assert(t =~= trailer);
    lemma_body_magic(objs, rs);
    assert(body.subrange(0, 8) == plist::magic());
    assert(file.subrange(0, 8) =~= body.subrange(0, 8));
    let l = Layout {
        buf: file,
        table_start: body.len(),
        offset_size: os,
        ref_size: rs,
        num_objects: n,
    };
    assert(plist::layout_of(file) == Some((l, 0nat)));
    assert forall|k: nat| k < n implies (#[trigger] plist::offset_of(l, k) matches Some(at)
        && has_at(l.buf, at, plist::object_bytes(objs[k as int], l.ref_size))) by {
        let start = start_of(objs, rs, k);
        let object = plist::object_bytes(objs[k as int], rs);
        lemma_body_object(objs, rs, k);
        assert(object_fits(objs[k as int]));
        lemma_object_bound(objs[k as int], rs);
        assert(start < body.len());
        let digits = wire::be_bytes(start, os);
        assert(has_at(table, k * os, digits));
        lemma_has_at_suffix(body, table, k * os, digits);
        lemma_has_at_prefix(body + table, trailer, body.len() + k * os, digits);
        wire::lemma_be_limits();
        wire::law_be_round_trip(start, os);
        assert(plist::slice_of(file, body.len() + k * os, body.len() + k * os + os) == Some(
            digits,
        ));
        assert(plist::offset_of(l, k) == Some(start));
        assert(file =~= body + (table + trailer));
        lemma_has_at_prefix(body, table + trailer, start, object);
    }
}

/// A document that fits the reader's bounds reads back exactly as it was written.
pub proof fn law_plist_round_trip(d: Doc)
    requires
        plist::writable(d),
        lengths_fit(d),
        plist::size(d) <= MAX_ELEMENTS,
        height(d) <= MAX_DEPTH,
    ensures
        plist::parsed(plist::encoded(d)) == Some(d),
{
    let objs = plist::flat(d, 0);
    lemma_flat_len(d, 0);
    lemma_objects_fit(d, 0);
    lemma_file(objs);
    let (l, root) = plist::layout_of(plist::file_bytes(objs))->0;
    assert(objs.subrange(0, plist::size(d) as int) =~= objs);
    lemma_document(l, objs, d, 0, 0);
}

// ------------------------------------------------------------------- bounds ---

/// Whether no container in a document holds more than a reader takes.
pub open spec fn containers_fit(d: Doc) -> bool
    decreases d,
{
    match d {
        Doc::Array(items) => items.len() <= MAX_ELEMENTS && forall|i: int|
            0 <= i < items.len() ==> containers_fit(#[trigger] items[i]),
        Doc::Dict(keys, values) => keys.len() == values.len() && keys.len() <= MAX_ELEMENTS
            && forall|i: int|
            0 <= i < values.len() ==> containers_fit(#[trigger] values[i]),
        _ => true,
    }
}

proof fn lemma_object_bounded(l: Layout, index: nat, depth: nat)
    requires
        plist::object_at(l, index, depth) is Some,
    ensures
        depth + height(plist::object_at(l, index, depth)->0) <= MAX_DEPTH,
        containers_fit(plist::object_at(l, index, depth)->0),
    decreases 20 - depth, 1nat, 0nat,
{
    let at = plist::offset_of(l, index)->0;
    let marker = l.buf[at as int];
    let kind = marker / 16;
    let low = (marker % 16) as nat;
    if kind == 10 {
        let (count, body) = plist::sized(l.buf, at, low)->0;
        lemma_elements_bounded(l, body, count, depth);
    } else if kind == 13 {
        let (count, body) = plist::sized(l.buf, at, low)->0;
        lemma_entries_bounded(l, body, count, count, depth);
    }
}

proof fn lemma_elements_bounded(l: Layout, body: nat, n: nat, depth: nat)
    requires
        plist::elements(l, body, n, depth) is Some,
    ensures
        plist::elements(l, body, n, depth)->0.len() == n,
        n > 0 ==> depth + 1 + height_all(plist::elements(l, body, n, depth)->0) <= MAX_DEPTH,
        forall|i: int|
            0 <= i < n ==> containers_fit(#[trigger] plist::elements(l, body, n, depth)->0[i]),
    decreases 20 - depth, 0nat, n,
{
    if n > 0 {
        let before = plist::elements(l, body, (n - 1) as nat, depth)->0;
        let r = plist::reference(l, body, (n - 1) as nat)->0;
        lemma_elements_bounded(l, body, (n - 1) as nat, depth);
        lemma_object_bounded(l, r, depth + 1);
        let items = plist::elements(l, body, n, depth)->0;
        assert(items.drop_last() =~= before);
    }
}

proof fn lemma_entries_bounded(l: Layout, body: nat, count: nat, n: nat, depth: nat)
    requires
        plist::entries(l, body, count, n, depth) is Some,
    ensures
        plist::entries(l, body, count, n, depth)->Some_0.0.len() == plist::entries(
            l,
            body,
            count,
            n,
            depth,
        )->Some_0.1.len(),
        plist::entries(l, body, count, n, depth)->Some_0.1.len() <= n,
        plist::entries(l, body, count, n, depth)->Some_0.1.len() > 0 ==> depth + 1 + height_all(
            plist::entries(l, body, count, n, depth)->Some_0.1,
        ) <= MAX_DEPTH,
        forall|i: int|
            0 <= i < plist::entries(l, body, count, n, depth)->Some_0.1.len() ==> containers_fit(
                #[trigger] plist::entries(l, body, count, n, depth)->Some_0.1[i],
            ),
    decreases 20 - depth, 0nat, n,
{
    if n > 0 {
        let before = plist::entries(l, body, count, (n - 1) as nat, depth)->0;
        let kr = plist::reference(l, body, (n - 1) as nat)->0;
        let vr = plist::reference(l, body, (count + n - 1) as nat)->0;
        lemma_entries_bounded(l, body, count, (n - 1) as nat, depth);
        let key = plist::object_at(l, kr, depth + 1)->0;
        let values = plist::entries(l, body, count, n, depth)->Some_0.1;
        if key is Str {
            lemma_object_bounded(l, vr, depth + 1);
            assert(values.drop_last() =~= before.1);
            assert(values.last() == plist::object_at(l, vr, depth + 1)->0);
            assert(before.1.len() == 0 ==> height_all(before.1) == 0);
        } else {
            assert(values == before.1);
        }
    }
}

/// However a file is made, what is read from it nests no deeper than a reader goes, and no
/// container of it holds more than a reader takes.
pub proof fn law_parsed_is_bounded(buf: Seq<u8>)
    requires
        plist::parsed(buf) is Some,
    ensures
        height(plist::parsed(buf)->0) <= MAX_DEPTH,
        containers_fit(plist::parsed(buf)->0),
{
    let (l, root) = plist::layout_of(buf)->0;
    lemma_object_bounded(l, root, 0);
}

} // verus!
