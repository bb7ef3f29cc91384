//! Apple binary plists: what `/Discover` and `/Ask` exchange.
//!
//! Layout: the 8-byte magic, then objects, then a table of their offsets, then a 32-byte
//! trailer describing the table. Object 0 is the root when this module writes.

use vstd::prelude::*;
use vstd::arithmetic::power2::*;
use vstd::utf8::*;
use crate::text;
use crate::utf16;
use crate::wire;

verus! {

// ----------------------------------------------------------------- documents ---

/// What a plist says, apart from how it is laid out. A dictionary is its keys and, in the
/// same order, its values.
pub enum Doc {
    Str(Seq<char>),
    Data(Seq<u8>),
    Int(int),
    Bool(bool),
    Array(Seq<Doc>),
    Dict(Seq<Seq<char>>, Seq<Doc>),
    Other,
}

/// A value in a plist being written.
///
/// Nesting is supported because `/Ask` needs it: its `Files` key holds an array of
/// dictionaries, one per file.
pub enum Value {
    Str(String),
    Data(Vec<u8>),
    Bool(bool),
    Array(Vec<Value>),
    Dict(Vec<(String, Value)>),
}

impl Value {
    pub open spec fn doc(&self) -> Doc
        decreases self,
    {
        match self {
            Value::Str(s) => Doc::Str(s@),
            Value::Data(d) => Doc::Data(d@),
            Value::Bool(b) => Doc::Bool(*b),
            Value::Array(items) => Doc::Array(
                Seq::new(
                    items@.len(),
                    |i: int|
                        if 0 <= i < items@.len() {
                            items@[i].doc()
                        } else {
                            Doc::Other
                        },
                ),
            ),
            Value::Dict(entries) => Doc::Dict(
                Seq::new(entries@.len(), |i: int| entries@[i].0@),
                Seq::new(
                    entries@.len(),
                    |i: int|
                        if 0 <= i < entries@.len() {
                            entries@[i].1.doc()
                        } else {
                            Doc::Other
                        },
                ),
            ),
        }
    }
}

impl Clone for Value {
    fn clone(&self) -> (r: Value)
        ensures
            r.doc() == self.doc(),
        decreases self,
    {
        match self {
            Value::Str(s) => Value::Str(s.clone()),
            Value::Data(d) => Value::Data(d.clone()),
            Value::Bool(b) => Value::Bool(*b),
            Value::Array(items) => {
                let mut out: Vec<Value> = Vec::new();
                let mut i: usize = 0;
                while i < items.len()
                    invariant
                        i <= items@.len(),
                        out@.len() == i,
                        *self == Value::Array(*items),
                        forall|j: int| 0 <= j < i ==> (#[trigger] out@[j]).doc() == items@[j].doc(),
                    decreases items@.len() - i,
                {
                    assert(decreases_to!(*self => self->Array_0));
                    assert(decreases_to!(self->Array_0 => self->Array_0@));
                    assert(decreases_to!(self->Array_0@ => self->Array_0@[i as int]));
                    out.push(items[i].clone());
                    i += 1;
                }
                let r = Value::Array(out);
                assert(r.doc()->Array_0 =~= self.doc()->Array_0);
                r
            },
            Value::Dict(entries) => {
                let mut out: Vec<(String, Value)> = Vec::new();
                let mut i: usize = 0;
                while i < entries.len()
                    invariant
                        i <= entries@.len(),
                        out@.len() == i,
                        *self == Value::Dict(*entries),
                        forall|j: int|
                            0 <= j < i ==> (#[trigger] out@[j]).0@ == entries@[j].0@
                                && out@[j].1.doc() == entries@[j].1.doc(),
                    decreases entries@.len() - i,
                {
                    assert(decreases_to!(*self => self->Dict_0));
                    assert(decreases_to!(self->Dict_0 => self->Dict_0@));
                    assert(decreases_to!(self->Dict_0@ => self->Dict_0@[i as int]));
                    assert(decreases_to!(self->Dict_0@[i as int] => self->Dict_0@[i as int].1));
                    out.push((entries[i].0.clone(), entries[i].1.clone()));
                    i += 1;
                }
                let r = Value::Dict(out);
                assert(r.doc()->Dict_0 =~= self.doc()->Dict_0);
                assert(r.doc()->Dict_1 =~= self.doc()->Dict_1);
                r
            },
        }
    }
}

// ------------------------------------------------------------------- writing ---

/// An object with its children resolved to indices: what the bytes of one object say.
pub enum Object {
    Bool(bool),
    Str(Seq<char>),
    Data(Seq<u8>),
    Array(Seq<nat>),
    Dict(Seq<nat>, Seq<nat>),
}

/// How many objects a document takes.
pub open spec fn size(d: Doc) -> nat
    decreases d,
{
    match d {
        Doc::Array(items) => 1 + size_all(items),
        Doc::Dict(keys, values) => 1 + keys.len() + size_all(values),
        _ => 1,
    }
}

pub open spec fn size_all(items: Seq<Doc>) -> nat
    decreases items,
{
    if items.len() == 0 {
        0
    } else {
        size_all(items.drop_last()) + size(items.last())
    }
}

/// The objects of a document whose own index is `base`: itself, then what it holds, each
/// child followed by the child's own children. A dictionary's keys stand before its values.
pub open spec fn flat(d: Doc, base: nat) -> Seq<Object>
    decreases d,
{
    match d {
        Doc::Str(s) => seq![Object::Str(s)],
        Doc::Data(b) => seq![Object::Data(b)],
        Doc::Bool(b) => seq![Object::Bool(b)],
        Doc::Array(items) => seq![Object::Array(indices(items, base + 1))] + flat_all(
            items,
            base + 1,
        ),
        Doc::Dict(keys, values) => seq![
            Object::Dict(key_indices(keys, base + 1), indices(values, base + 1 + keys.len())),
        ] + key_objects(keys) + flat_all(values, base + 1 + keys.len()),
        _ => seq![Object::Bool(false)],
    }
}

pub open spec fn flat_all(items: Seq<Doc>, base: nat) -> Seq<Object>
    decreases items,
{
    if items.len() == 0 {
        seq![]
    } else {
        flat_all(items.drop_last(), base) + flat(
            items.last(),
            base + size_all(items.drop_last()),
        )
    }
}

/// The index of each of `items` when the first is at `base`.
pub open spec fn indices(items: Seq<Doc>, base: nat) -> Seq<nat>
    decreases items.len(),
{
    if items.len() == 0 {
        seq![]
    } else {
        indices(items.drop_last(), base).push(base + size_all(items.drop_last()))
    }
}

pub open spec fn key_indices(keys: Seq<Seq<char>>, base: nat) -> Seq<nat> {
    Seq::new(keys.len(), |i: int| (base + i) as nat)
}

pub open spec fn key_objects(keys: Seq<Seq<char>>) -> Seq<Object> {
    Seq::new(keys.len(), |i: int| Object::Str(keys[i]))
}

/// Whether a document is made only of what can be written.
pub open spec fn writable(d: Doc) -> bool
    decreases d,
{
    match d {
        Doc::Array(items) => forall|i: int|
            0 <= i < items.len() ==> writable(#[trigger] items[i]),
        Doc::Dict(keys, values) => keys.len() == values.len() && forall|i: int|
            0 <= i < values.len() ==> writable(#[trigger] values[i]),
        Doc::Int(_) => false,
        Doc::Other => false,
        _ => true,
    }
}

/// Smallest power-of-two byte width that holds `max`.
pub open spec fn width(max: nat) -> nat {
    if max <= 0xff {
        1
    } else if max <= 0xffff {
        2
    } else if max <= 0xffff_ffff {
        4
    } else {
        8
    }
}

/// A length as an integer object: marker 0x1n where 2^n is the byte count.
pub open spec fn int_bytes(v: nat) -> Seq<u8> {
    if v <= 0xff {
        seq![0x10u8] + wire::be_bytes(v, 1)
    } else if v <= 0xffff {
        seq![0x11u8] + wire::be_bytes(v, 2)
    } else {
        seq![0x12u8] + wire::be_bytes(v, 4)
    }
}

/// A marker carries its length in the low nibble when it fits, and otherwise escapes to a
/// following integer.
pub open spec fn marker_bytes(kind: nat, len: nat) -> Seq<u8> {
    if len < 15 {
        seq![(kind * 16 + len) as u8]
    } else {
        seq![(kind * 16 + 15) as u8] + int_bytes(len)
    }
}

/// Code units, each most significant byte first.
pub open spec fn unit_bytes(u: Seq<u16>) -> Seq<u8>
    decreases u.len(),
{
    if u.len() == 0 {
        seq![]
    } else {
        unit_bytes(u.drop_last()) + wire::be_bytes(u.last() as nat, 2)
    }
}

/// ASCII where possible, UTF-16 otherwise.
pub open spec fn string_bytes(s: Seq<char>) -> Seq<u8> {
    if is_ascii_chars(s) {
        marker_bytes(5, s.len()) + encode_utf8(s)
    } else {
        let u = utf16::encode_utf16(s);
        marker_bytes(6, u.len()) + unit_bytes(u)
    }
}

pub open spec fn refs_bytes(refs: Seq<nat>, ref_size: nat) -> Seq<u8>
    decreases refs.len(),
{
    if refs.len() == 0 {
        seq![]
    } else {
        refs_bytes(refs.drop_last(), ref_size) + wire::be_bytes(refs.last(), ref_size)
    }
}

pub open spec fn object_bytes(o: Object, ref_size: nat) -> Seq<u8> {
    match o {
        Object::Bool(b) => seq![if b { 9u8 } else { 8u8 }],
        Object::Str(s) => string_bytes(s),
        Object::Data(d) => marker_bytes(4, d.len()) + d,
        Object::Array(refs) => marker_bytes(10, refs.len()) + refs_bytes(refs, ref_size),
        Object::Dict(keys, values) => marker_bytes(13, keys.len()) + refs_bytes(keys, ref_size)
            + refs_bytes(values, ref_size),
    }
}

pub open spec fn magic() -> Seq<u8> {
    seq![0x62u8, 0x70, 0x6c, 0x69, 0x73, 0x74, 0x30, 0x30]
}

/// The magic and the objects.
pub open spec fn body_bytes(objects: Seq<Object>, ref_size: nat) -> Seq<u8>
    decreases objects.len(),
{
    if objects.len() == 0 {
        magic()
    } else {
        body_bytes(objects.drop_last(), ref_size) + object_bytes(objects.last(), ref_size)
    }
}

/// The offsets of the first `n` objects.
pub open spec fn table_bytes(
    objects: Seq<Object>,
    ref_size: nat,
    offset_size: nat,
    n: nat,
) -> Seq<u8>
    decreases n,
{
    if n == 0 {
        seq![]
    } else {
        table_bytes(objects, ref_size, offset_size, (n - 1) as nat) + wire::be_bytes(
            body_bytes(objects.subrange(0, n - 1), ref_size).len(),
            offset_size,
        )
    }
}

pub open spec fn trailer_bytes(
    offset_size: nat,
    ref_size: nat,
    count: nat,
    table_start: nat,
) -> Seq<u8> {
    seq![0u8, 0, 0, 0, 0, 0, offset_size as u8, ref_size as u8] + wire::be_bytes(count, 8)
        + wire::be_bytes(0, 8) + wire::be_bytes(table_start, 8)
}

/// The whole file for the given objects.
pub open spec fn file_bytes(objects: Seq<Object>) -> Seq<u8> {
    let ref_size = width(objects.len());
    let body = body_bytes(objects, ref_size);
    let offset_size = width(body.len());
    body + table_bytes(objects, ref_size, offset_size, objects.len()) + trailer_bytes(
        offset_size,
        ref_size,
        objects.len(),
        body.len(),
    )
}

/// A document as a binary plist.
pub open spec fn encoded(d: Doc) -> Seq<u8> {
    file_bytes(flat(d, 0))
}

/// An object whose children are resolved, as the writer holds it.
enum Node {
    Bool(bool),
    Str(String),
    Data(Vec<u8>),
    Array(Vec<usize>),
    Dict(Vec<usize>, Vec<usize>),
}

spec fn nats(v: Seq<usize>) -> Seq<nat> {
    Seq::new(v.len(), |i: int| v[i] as nat)
}

impl Node {
    spec fn object(&self) -> Object {
        match self {
            Node::Bool(b) => Object::Bool(*b),
            Node::Str(s) => Object::Str(s@),
            Node::Data(d) => Object::Data(d@),
            Node::Array(refs) => Object::Array(nats(refs@)),
            Node::Dict(keys, values) => Object::Dict(nats(keys@), nats(values@)),
        }
    }
}

spec fn objects(v: Seq<Node>) -> Seq<Object> {
    Seq::new(v.len(), |i: int| v[i].object())
}

proof fn lemma_flat_len(d: Doc, base: nat)
    ensures
        flat(d, base).len() == size(d),
    decreases d, 0nat,
{
    match d {
        Doc::Array(items) => {
            lemma_flat_all_len(items, base + 1);
        },
        Doc::Dict(keys, values) => {
            lemma_flat_all_len(values, base + 1 + keys.len());
        },
        _ => {},
    }
}

proof fn lemma_flat_all_len(items: Seq<Doc>, base: nat)
    ensures
        flat_all(items, base).len() == size_all(items),
    decreases items, 1nat,
{
    if items.len() > 0 {
        lemma_flat_all_len(items.drop_last(), base);
        lemma_flat_len(items.last(), base + size_all(items.drop_last()));
    }
}

/// Assign `v` the next object index and append its children after it.
///
/// The root must be object 0, and reserving a slot before recursing is what keeps that true
/// for every container.
fn flatten(v: &Value, out: &mut Vec<Node>) -> (index: usize)
    ensures
        index == old(out)@.len(),
        objects(final(out)@) == objects(old(out)@) + flat(v.doc(), old(out)@.len()),
    decreases v,
{
    let index: usize = out.len();
    let ghost before = objects(out@);
    match v {
        Value::Bool(b) => {
            out.push(Node::Bool(*b));
            assert(objects(out@) =~= before + flat(v.doc(), index as nat));
        },
        Value::Str(s) => {
            out.push(Node::Str(s.clone()));
            assert(objects(out@) =~= before + flat(v.doc(), index as nat));
        },
        Value::Data(d) => {
            out.push(Node::Data(d.clone()));
            assert(objects(out@) =~= before + flat(v.doc(), index as nat));
        },
        Value::Array(items) => {
            out.push(Node::Array(Vec::new()));
            let ghost docs = v.doc()->Array_0;
            let mut kids: Vec<usize> = Vec::new();
            let mut i: usize = 0;
            let ghost head = objects(out@);
            assert(docs.subrange(0, 0) =~= seq![]);
            assert(nats(kids@) =~= seq![]);
            assert(objects(out@) =~= head + flat_all(docs.subrange(0, 0), (index + 1) as nat));
            while i < items.len()
                invariant
                    i <= items@.len(),
                    *v == Value::Array(*items),
                    docs == v.doc()->Array_0,
                    docs.len() == items@.len(),
                    head.len() == index + 1,
                    head.subrange(0, index as int) == before,
                    objects(out@) == head + flat_all(
                        docs.subrange(0, i as int),
                        (index + 1) as nat,
                    ),
                    nats(kids@) == indices(docs.subrange(0, i as int), (index + 1) as nat),
                decreases items@.len() - i,
            {
                let ghost done = docs.subrange(0, i as int);
                proof {
                    assert(decreases_to!(*v => v->Array_0));
                    assert(decreases_to!(v->Array_0 => v->Array_0@));
                    assert(decreases_to!(v->Array_0@ => v->Array_0@[i as int]));
                    lemma_flat_all_len(done, (index + 1) as nat);
                    assert(docs.subrange(0, i + 1).drop_last() =~= done);
                    assert(docs.subrange(0, i + 1).last() == items@[i as int].doc());
                    assert(objects(out@).len() == out@.len());
                }
                let ghost kids_before = nats(kids@);
                let k: usize = flatten(&items[i], out);
                kids.push(k);
                i += 1;
                assert(nats(kids@) =~= kids_before.push(k as nat));
                assert(objects(out@) =~= head + flat_all(
                    docs.subrange(0, i as int),
                    (index + 1) as nat,
                ));
            }
            assert(docs.subrange(0, i as int) =~= docs);
            assert(objects(out@).len() == out@.len());
            let ghost prev = objects(out@);
            let ghost refs = nats(kids@);
            out.set(index, Node::Array(kids));
            assert(objects(out@) =~= prev.update(index as int, Object::Array(refs)));
            assert(prev.subrange(0, index as int) =~= before);
            assert(objects(out@) =~= before + flat(v.doc(), index as nat));
        },
        Value::Dict(entries) => {
            out.push(Node::Dict(Vec::new(), Vec::new()));
            let ghost names = v.doc()->Dict_0;
            let ghost docs = v.doc()->Dict_1;
            let ghost head = objects(out@);
            let ghost n = names.len();
            let mut keys: Vec<usize> = Vec::new();
            let mut i: usize = 0;
            assert(nats(keys@) =~= key_indices(names, (index + 1) as nat).subrange(0, 0));
            assert(objects(out@) =~= head + key_objects(names).subrange(0, 0));
            while i < entries.len()
                invariant
                    i <= entries@.len(),
                    *v == Value::Dict(*entries),
                    names == v.doc()->Dict_0,
                    names.len() == entries@.len(),
                    head.len() == index + 1,
                    objects(out@) == head + key_objects(names).subrange(0, i as int),
                    nats(keys@) == key_indices(names, (index + 1) as nat).subrange(0, i as int),
                decreases entries@.len() - i,
            {
                assert(objects(out@).len() == out@.len());
                let ghost keys_before = nats(keys@);
                let ghost out_before = objects(out@);
                let k: usize = out.len();
                out.push(Node::Str(entries[i].0.clone()));
                keys.push(k);
                i += 1;
                assert(nats(keys@) =~= keys_before.push(k as nat));
                assert(objects(out@) =~= out_before.push(Object::Str(names[i - 1])));
                assert(objects(out@) =~= head + key_objects(names).subrange(0, i as int));
                assert(nats(keys@) =~= key_indices(names, (index + 1) as nat).subrange(
                    0,
                    i as int,
                ));
            }
            assert(key_objects(names).subrange(0, i as int) =~= key_objects(names));
            assert(key_indices(names, (index + 1) as nat).subrange(0, i as int) =~= key_indices(
                names,
                (index + 1) as nat,
            ));
            let ghost head2 = objects(out@);
            let mut values: Vec<usize> = Vec::new();
            i = 0;
            assert(docs.subrange(0, 0) =~= seq![]);
            assert(nats(values@) =~= seq![]);
            assert(objects(out@) =~= head2 + flat_all(docs.subrange(0, 0), (index + 1 + n) as nat));
            while i < entries.len()
                invariant
                    i <= entries@.len(),
                    *v == Value::Dict(*entries),
                    docs == v.doc()->Dict_1,
                    docs.len() == entries@.len(),
                    n == entries@.len(),
                    head2.len() == index + 1 + n,
                    objects(out@) == head2 + flat_all(docs.subrange(0, i as int), (index + 1 + n) as nat),
                    nats(values@) == indices(docs.subrange(0, i as int), (index + 1 + n) as nat),
                decreases entries@.len() - i,
            {
                let ghost done = docs.subrange(0, i as int);
                proof {
                    assert(decreases_to!(*v => v->Dict_0));
                    assert(decreases_to!(v->Dict_0 => v->Dict_0@));
                    assert(decreases_to!(v->Dict_0@ => v->Dict_0@[i as int]));
                    assert(decreases_to!(v->Dict_0@[i as int] => v->Dict_0@[i as int].1));
                    lemma_flat_all_len(done, (index + 1 + n) as nat);
                    assert(docs.subrange(0, i + 1).drop_last() =~= done);
                    assert(docs.subrange(0, i + 1).last() == entries@[i as int].1.doc());
                    assert(objects(out@).len() == out@.len());
                }
                let ghost values_before = nats(values@);
                let k: usize = flatten(&entries[i].1, out);
                values.push(k);
                i += 1;
                assert(nats(values@) =~= values_before.push(k as nat));
                assert(objects(out@) =~= head2 + flat_all(
                    docs.subrange(0, i as int),
                    (index + 1 + n) as nat,
                ));
            }
            assert(docs.subrange(0, i as int) =~= docs);
            assert(objects(out@).len() == out@.len());
            let ghost prev = objects(out@);
            let ghost key_refs = nats(keys@);
            let ghost value_refs = nats(values@);
            out.set(index, Node::Dict(keys, values));
            assert(objects(out@) =~= prev.update(
                index as int,
                Object::Dict(key_refs, value_refs),
            ));
            assert(head.subrange(0, index as int) =~= before);
            assert(prev.subrange(0, index as int) =~= before);
            assert(objects(out@) =~= before + flat(v.doc(), index as nat));
        },
    }
    index
}

/// Smallest power-of-two byte width that holds `max`. Plist sizes are 1, 2, 4 or 8.
fn byte_width(max: u64) -> (r: u8)
    ensures
        r == width(max as nat),
{
    if max <= 0xff {
        1
    } else if max <= 0xffff {
        2
    } else if max <= 0xffff_ffff {
        4
    } else {
        8
    }
}

/// An integer used as a length: marker 0x1n where 2^n is the byte count.
fn write_int_object(out: &mut Vec<u8>, v: u64)
    ensures
        final(out)@ == old(out)@ + int_bytes(v as nat),
{
    if v <= 0xff {
        out.push(0x10);
        wire::write_uint(out, v, 1);
    } else if v <= 0xffff {
        out.push(0x11);
        wire::write_uint(out, v, 2);
    } else {
        out.push(0x12);
        wire::write_uint(out, v, 4);
    }
    assert(out@ =~= old(out)@ + int_bytes(v as nat));
}

/// A marker byte carries its length in the low nibble when it fits, and otherwise escapes to
/// a following integer. Getting this wrong produces a document that parses as truncated
/// rather than as invalid, which is harder to spot.
fn write_marker(out: &mut Vec<u8>, kind: u8, len: usize)
    requires
        kind < 16,
    ensures
        final(out)@ == old(out)@ + marker_bytes(kind as nat, len as nat),
{
    if len < 15 {
        out.push(kind * 16 + len as u8);
    } else {
        out.push(kind * 16 + 15);
        write_int_object(out, len as u64);
    }
    assert(out@ =~= old(out)@ + marker_bytes(kind as nat, len as nat));
}

/// ASCII where possible, UTF-16BE otherwise.
///
/// The device name reaches this, and a name with any non-ASCII character encoded as ASCII
/// would be silently mangled on the peer's screen.
fn write_string(out: &mut Vec<u8>, s: &str)
    ensures
        final(out)@ == old(out)@ + string_bytes(s@),
{
    if s.is_ascii() {
        let b = s.as_bytes();
        proof {
            is_ascii_chars_encode_utf8(s@);
        }
        write_marker(out, 5, b.len());
        out.extend_from_slice(b);
        assert(out@ =~= old(out)@ + string_bytes(s@));
    } else {
        let u = utf16::to_utf16(s);
        write_marker(out, 6, u.len());
        let ghost head = out@;
        let mut i: usize = 0;
        assert(u@.subrange(0, 0) =~= seq![]);
        assert(out@ =~= head + unit_bytes(u@.subrange(0, 0)));
        while i < u.len()
            invariant
                i <= u@.len(),
                out@ == head + unit_bytes(u@.subrange(0, i as int)),
            decreases u@.len() - i,
        {
            assert(u@.subrange(0, i + 1).drop_last() =~= u@.subrange(0, i as int));
            wire::write_uint(out, u[i] as u64, 2);
            i += 1;
            assert(out@ =~= head + unit_bytes(u@.subrange(0, i as int)));
        }
        assert(u@.subrange(0, i as int) =~= u@);
        assert(out@ =~= old(out)@ + string_bytes(s@));
    }
}

fn write_refs(out: &mut Vec<u8>, refs: &Vec<usize>, ref_size: u8)
    requires
        ref_size <= 8,
    ensures
        final(out)@ == old(out)@ + refs_bytes(nats(refs@), ref_size as nat),
{
    let mut i: usize = 0;
    let ghost all = nats(refs@);
    assert(all.subrange(0, 0) =~= seq![]);
    assert(out@ =~= old(out)@ + refs_bytes(all.subrange(0, 0), ref_size as nat));
    while i < refs.len()
        invariant
            i <= refs@.len(),
            ref_size <= 8,
            all == nats(refs@),
            out@ == old(out)@ + refs_bytes(all.subrange(0, i as int), ref_size as nat),
        decreases refs@.len() - i,
    {
        assert(all.subrange(0, i + 1).drop_last() =~= all.subrange(0, i as int));
        wire::write_uint(out, refs[i] as u64, ref_size);
        i += 1;
        assert(out@ =~= old(out)@ + refs_bytes(all.subrange(0, i as int), ref_size as nat));
    }
    assert(all.subrange(0, i as int) =~= all);
}

fn write_object(out: &mut Vec<u8>, node: &Node, ref_size: u8)
    requires
        ref_size <= 8,
    ensures
        final(out)@ == old(out)@ + object_bytes(node.object(), ref_size as nat),
{
    match node {
        Node::Bool(b) => {
            out.push(
                if *b {
                    9
                } else {
                    8
                },
            );
        },
        Node::Str(s) => {
            write_string(out, s.as_str());
        },
        Node::Data(d) => {
            write_marker(out, 4, d.len());
            out.extend_from_slice(d.as_slice());
        },
        Node::Array(refs) => {
            write_marker(out, 10, refs.len());
            write_refs(out, refs, ref_size);
        },
        Node::Dict(keys, values) => {
            write_marker(out, 13, keys.len());
            write_refs(out, keys, ref_size);
            write_refs(out, values, ref_size);
        },
    }
    assert(out@ =~= old(out)@ + object_bytes(node.object(), ref_size as nat));
}

/// Encode any value as a binary plist.
///
/// Two passes: walk the tree assigning every value an object index, then write the objects,
/// the offset table and the trailer. References are indices into that table, which is why
/// the walk has to complete before anything is written.
pub fn encode(root: &Value) -> (r: Vec<u8>)
    ensures
        r@ == encoded(root.doc()),
{
    let mut nodes: Vec<Node> = Vec::new();
    assert(objects(nodes@) =~= seq![]);
    flatten(root, &mut nodes);
    let ghost all = objects(nodes@);
    assert(all =~= flat(root.doc(), 0));

    let ref_size: u8 = byte_width(nodes.len() as u64);
    let ghost rs = ref_size as nat;
    let mut out: Vec<u8> = Vec::new();
    out.push(0x62);
    out.push(0x70);
    out.push(0x6c);
    out.push(0x69);
    out.push(0x73);
    out.push(0x74);
    out.push(0x30);
    out.push(0x30);
    let mut offsets: Vec<usize> = Vec::new();
    let mut i: usize = 0;
    assert(all.subrange(0, 0) =~= seq![]);
    assert(out@ =~= body_bytes(all.subrange(0, 0), rs));
    while i < nodes.len()
        invariant
            i <= nodes@.len(),
            all == objects(nodes@),
            ref_size <= 8,
            rs == ref_size as nat,
            out@ == body_bytes(all.subrange(0, i as int), rs),
            offsets@.len() == i,
            forall|j: int|
                0 <= j < i ==> (#[trigger] offsets@[j]) as nat == body_bytes(
                    all.subrange(0, j),
                    rs,
                ).len(),
        decreases nodes@.len() - i,
    {
        offsets.push(out.len());
        assert(all.subrange(0, i + 1).drop_last() =~= all.subrange(0, i as int));
        assert(all.subrange(0, i + 1).last() == nodes@[i as int].object());
        write_object(&mut out, &nodes[i], ref_size);
        i += 1;
    }
    assert(all.subrange(0, i as int) =~= all);

    let table_start: usize = out.len();
    let offset_size: u8 = byte_width(table_start as u64);
    let ghost os = offset_size as nat;
    let ghost body = out@;
    i = 0;
    assert(out@ =~= body + table_bytes(all, rs, os, 0));
    while i < offsets.len()
        invariant
            i <= offsets@.len(),
            offsets@.len() == all.len(),
            offset_size <= 8,
            os == offset_size as nat,
            out@ == body + table_bytes(all, rs, os, i as nat),
            forall|j: int|
                0 <= j < offsets@.len() ==> (#[trigger] offsets@[j]) as nat == body_bytes(
                    all.subrange(0, j),
                    rs,
                ).len(),
        decreases offsets@.len() - i,
    {
        wire::write_uint(&mut out, offsets[i] as u64, offset_size);
        i += 1;
        assert(out@ =~= body + table_bytes(all, rs, os, i as nat));
    }

    let ghost with_table = out@;
    out.push(0);
    out.push(0);
    out.push(0);
    out.push(0);
    out.push(0);
    out.push(0);  // sort version
    out.push(offset_size);
    out.push(ref_size);
    wire::write_uint(&mut out, nodes.len() as u64, 8);
    wire::write_uint(&mut out, 0, 8);  // root is object 0
    wire::write_uint(&mut out, table_start as u64, 8);
    assert(out@ =~= with_table + trailer_bytes(os, rs, all.len(), body.len()));
    assert(out@ =~= encoded(root.doc()));
    out
}

/// The document of a dictionary given as pairs.
pub open spec fn pairs_doc(pairs: Seq<(&str, Value)>) -> Doc {
    Doc::Dict(
        Seq::new(pairs.len(), |i: int| pairs[i].0@),
        Seq::new(pairs.len(), |i: int| pairs[i].1.doc()),
    )
}

/// Encode a flat dictionary. Kept because most callers want exactly this.
pub fn dict(pairs: &[(&str, Value)]) -> (r: Vec<u8>)
    ensures
        r@ == encoded(pairs_doc(pairs@)),
{
    let mut entries: Vec<(String, Value)> = Vec::new();
    let mut i: usize = 0;
    while i < pairs.len()
        invariant
            i <= pairs@.len(),
            entries@.len() == i,
            forall|j: int|
                0 <= j < i ==> (#[trigger] entries@[j]).0@ == pairs@[j].0@ && entries@[j].1.doc()
                    == pairs@[j].1.doc(),
        decreases pairs@.len() - i,
    {
        entries.push((pairs[i].0.to_string(), pairs[i].1.clone()));
        i += 1;
    }
    let root = Value::Dict(entries);
    assert(root.doc()->Dict_0 =~= pairs_doc(pairs@)->Dict_0);
    assert(root.doc()->Dict_1 =~= pairs_doc(pairs@)->Dict_1);
    encode(&root)
}

// ------------------------------------------------------------------- reading ---
//
// Every byte here came from another device on the link. Offsets, lengths and object
// references are all checked against the buffer before use, and the depth of nesting is
// bounded: a plist can reference itself.

/// A value read back out of a binary plist.
pub enum Val {
    Str(String),
    Data(Vec<u8>),
    Int(i64),
    Bool(bool),
    Array(Vec<Val>),
    Dict(Vec<(String, Val)>),
    Other,
}

impl Val {
    pub open spec fn doc(&self) -> Doc
        decreases self,
    {
        match self {
            Val::Str(s) => Doc::Str(s@),
            Val::Data(d) => Doc::Data(d@),
            Val::Int(i) => Doc::Int(*i as int),
            Val::Bool(b) => Doc::Bool(*b),
            Val::Array(items) => Doc::Array(
                Seq::new(
                    items@.len(),
                    |i: int|
                        if 0 <= i < items@.len() {
                            items@[i].doc()
                        } else {
                            Doc::Other
                        },
                ),
            ),
            Val::Dict(entries) => Doc::Dict(
                Seq::new(entries@.len(), |i: int| entries@[i].0@),
                Seq::new(
                    entries@.len(),
                    |i: int|
                        if 0 <= i < entries@.len() {
                            entries@[i].1.doc()
                        } else {
                            Doc::Other
                        },
                ),
            ),
            Val::Other => Doc::Other,
        }
    }

    /// Look a key up in a dictionary. `None` for anything that is not a dict.
    pub fn get(&self, key: &str) -> (r: Option<&Val>)
        ensures
            match r {
                Some(v) => lookup(self.doc(), key@) == Some(v.doc()),
                None => lookup(self.doc(), key@) is None,
            },
            r matches Some(v) ==> decreases_to!(*self => *v),
    {
        match self {
            Val::Dict(entries) => {
                let ghost keys = self.doc()->Dict_0;
                let mut i: usize = 0;
                while i < entries.len()
                    invariant
                        i <= entries@.len(),
                        *self == Val::Dict(*entries),
                        keys == self.doc()->Dict_0,
                        keys.len() == entries@.len(),
                        forall|j: int| 0 <= j < i ==> #[trigger] keys[j] != key@,
                    decreases entries@.len() - i,
                {
                    if text::same(entries[i].0.as_str(), key) {
                        proof {
                            lemma_first_key(keys, key@, i as int);
                            assert(decreases_to!(*self => self->Dict_0));
                            assert(decreases_to!(self->Dict_0 => self->Dict_0@));
                            assert(decreases_to!(self->Dict_0@ => self->Dict_0@[i as int]));
                            assert(decreases_to!(
                                self->Dict_0@[i as int] => self->Dict_0@[i as int].1
                            ));
                        }
                        return Some(&entries[i].1);
                    }
                    i += 1;
                }
                proof {
                    lemma_first_key(keys, key@, i as int);
                }
                None
            },
            _ => None,
        }
    }

    pub fn as_str(&self) -> (r: Option<&str>)
        ensures
            match r {
                Some(s) => self.doc() == Doc::Str(s@),
                None => !(self.doc() is Str),
            },
    {
        match self {
            Val::Str(s) => Some(s.as_str()),
            _ => None,
        }
    }
}

/// Where `key` first stands among `keys`; their number when it does not.
pub open spec fn first_key(keys: Seq<Seq<char>>, key: Seq<char>) -> int
    decreases keys.len(),
{
    if keys.len() == 0 || keys[0] == key {
        0
    } else {
        1 + first_key(keys.drop_first(), key)
    }
}

/// The value of the first entry under `key`.
pub open spec fn lookup(d: Doc, key: Seq<char>) -> Option<Doc> {
    match d {
        Doc::Dict(keys, values) => if first_key(keys, key) < keys.len() {
            Some(values[first_key(keys, key)])
        } else {
            None
        },
        _ => None,
    }
}

pub proof fn lemma_first_key(keys: Seq<Seq<char>>, key: Seq<char>, i: int)
    requires
        0 <= i <= keys.len(),
        i < keys.len() ==> keys[i] == key,
        forall|j: int| 0 <= j < i ==> #[trigger] keys[j] != key,
    ensures
        first_key(keys, key) == i,
    decreases keys.len(),
{
    if keys.len() > 0 && keys[0] != key {
        let rest = keys.drop_first();
        assert forall|j: int| 0 <= j < i - 1 implies #[trigger] rest[j] != key by {
            assert(rest[j] == keys[j + 1]);
        }
        lemma_first_key(rest, key, i - 1);
    }
}

/// How deep a nested plist may go before it is refused. AirDrop's bodies are two or three
/// deep.
pub const MAX_DEPTH: usize = 16;

/// How many objects a single container may hold.
pub const MAX_ELEMENTS: usize = 4096;

/// Where the trailer says things are.
pub struct Layout {
    pub buf: Seq<u8>,
    pub table_start: nat,
    pub offset_size: nat,
    pub ref_size: nat,
    pub num_objects: nat,
}

/// The low 64 bits.
pub open spec fn low_64(v: nat) -> nat {
    v % 0x1_0000_0000_0000_0000
}

/// 64 bits read as a signed number.
pub open spec fn signed_64(v: nat) -> int {
    if v < 0x8000_0000_0000_0000 {
        v as int
    } else {
        v - 0x1_0000_0000_0000_0000
    }
}

/// The bytes `from..to`, when the buffer has them.
pub open spec fn slice_of(buf: Seq<u8>, from: nat, to: nat) -> Option<Seq<u8>> {
    if from <= to <= buf.len() {
        Some(buf.subrange(from as int, to as int))
    } else {
        None
    }
}

pub open spec fn offset_of(l: Layout, index: nat) -> Option<nat> {
    if index >= l.num_objects {
        None
    } else {
        let at = l.table_start + index * l.offset_size;
        match slice_of(l.buf, at, at + l.offset_size) {
            Some(raw) => if wire::be_value(raw) < l.buf.len() {
                Some(wire::be_value(raw))
            } else {
                None
            },
            None => None,
        }
    }
}

/// A marker's count, and where the body behind it starts.
pub open spec fn sized(buf: Seq<u8>, at: nat, low: nat) -> Option<(nat, nat)> {
    if low != 15 {
        Some((low, at + 1))
    } else if at + 1 >= buf.len() {
        None
    } else if buf[at as int + 1] / 16 != 1 {
        None
    } else {
        let wide = pow2((buf[at as int + 1] % 16) as nat);
        match slice_of(buf, at + 2, at + 2 + wide) {
            Some(raw) => Some((low_64(wire::be_value(raw)), at + 2 + wide)),
            None => None,
        }
    }
}

pub open spec fn reference(l: Layout, body: nat, i: nat) -> Option<nat> {
    let at = body + i * l.ref_size;
    match slice_of(l.buf, at, at + l.ref_size) {
        Some(raw) => Some(wire::be_value(raw)),
        None => None,
    }
}

/// Pairs of bytes as code units.
pub open spec fn bytes_units(b: Seq<u8>) -> Seq<u16> {
    Seq::new(b.len() / 2, |i: int| (b[2 * i] as int * 256 + b[2 * i + 1] as int) as u16)
}

/// The document that object `index` is the root of, or nothing when any part of it cannot
/// be read.
pub open spec fn object_at(l: Layout, index: nat, depth: nat) -> Option<Doc>
    decreases 20 - depth, 1nat, 0nat,
{
    if depth > MAX_DEPTH {
        None
    } else {
        match offset_of(l, index) {
            None => None,
            Some(at) => {
                let marker = l.buf[at as int];
                let kind = marker / 16;
                let low = (marker % 16) as nat;
                if kind == 0 {
                    if marker == 8 {
                        Some(Doc::Bool(false))
                    } else if marker == 9 {
                        Some(Doc::Bool(true))
                    } else {
                        Some(Doc::Other)
                    }
                } else if kind == 1 {
                    match slice_of(l.buf, at + 1, at + 1 + pow2(low)) {
                        Some(raw) => Some(Doc::Int(signed_64(low_64(wire::be_value(raw))))),
                        None => None,
                    }
                } else if kind == 4 || kind == 5 || kind == 6 || kind == 10 || kind == 13 {
                    match sized(l.buf, at, low) {
                        None => None,
                        Some((count, body)) => if kind == 4 {
                            match slice_of(l.buf, body, body + count) {
                                Some(raw) => Some(Doc::Data(raw)),
                                None => None,
                            }
                        } else if kind == 5 {
                            match slice_of(l.buf, body, body + count) {
                                Some(raw) => Some(Doc::Str(text::lossy_text(raw))),
                                None => None,
                            }
                        } else if kind == 6 {
                            match slice_of(l.buf, body, body + 2 * count) {
                                Some(raw) => Some(
                                    Doc::Str(utf16::decode_utf16(bytes_units(raw))),
                                ),
                                None => None,
                            }
                        } else if count > MAX_ELEMENTS {
                            None
                        } else if kind == 10 {
                            match elements(l, body, count, depth) {
                                Some(items) => Some(Doc::Array(items)),
                                None => None,
                            }
                        } else {
                            match entries(l, body, count, count, depth) {
                                Some((keys, values)) => Some(Doc::Dict(keys, values)),
                                None => None,
                            }
                        },
                    }
                } else {
                    Some(Doc::Other)
                }
            },
        }
    }
}

/// The first `n` elements of an array at `depth`.
pub open spec fn elements(l: Layout, body: nat, n: nat, depth: nat) -> Option<Seq<Doc>>
    decreases 20 - depth, 0nat, n,
{
    if depth > MAX_DEPTH {
        None
    } else if n == 0 {
        Some(seq![])
    } else {
        match elements(l, body, (n - 1) as nat, depth) {
            None => None,
            Some(before) => match reference(l, body, (n - 1) as nat) {
                None => None,
                Some(r) => match object_at(l, r, depth + 1) {
                    None => None,
                    Some(d) => Some(before.push(d)),
                },
            },
        }
    }
}

/// The first `n` of the `count` entries of a dictionary at `depth`: all the key references
/// stand before the value references. An entry whose key is not a string is left out.
pub open spec fn entries(l: Layout, body: nat, count: nat, n: nat, depth: nat) -> Option<
    (Seq<Seq<char>>, Seq<Doc>),
>
    decreases 20 - depth, 0nat, n,
{
    if depth > MAX_DEPTH {
        None
    } else if n == 0 {
        Some((seq![], seq![]))
    } else {
        match entries(l, body, count, (n - 1) as nat, depth) {
            None => None,
            Some((keys, values)) => match (
                reference(l, body, (n - 1) as nat),
                reference(l, body, (count + n - 1) as nat),
            ) {
                (Some(kr), Some(vr)) => match object_at(l, kr, depth + 1) {
                    None => None,
                    Some(Doc::Str(key)) => match object_at(l, vr, depth + 1) {
                        None => None,
                        Some(d) => Some((keys.push(key), values.push(d))),
                    },
                    Some(_) => Some((keys, values)),
                },
                _ => None,
            },
        }
    }
}

/// What a trailer must say for the file to be read at all.
pub open spec fn layout_of(buf: Seq<u8>) -> Option<(Layout, nat)> {
    if buf.len() < 40 || buf.subrange(0, 8) != magic() {
        None
    } else {
        let t = buf.subrange(buf.len() - 32, buf.len() as int);
        let offset_size = t[6] as nat;
        let ref_size = t[7] as nat;
        let num_objects = wire::be_value(t.subrange(8, 16));
        let root = wire::be_value(t.subrange(16, 24));
        let table_start = wire::be_value(t.subrange(24, 32));
        if 1 <= offset_size <= 8 && 1 <= ref_size <= 8 && 1 <= num_objects <= MAX_ELEMENTS && root
            < num_objects && table_start + num_objects * offset_size <= buf.len() {
            Some((Layout { buf, table_start, offset_size, ref_size, num_objects }, root))
        } else {
            None
        }
    }
}

/// The document in a binary plist.
pub open spec fn parsed(buf: Seq<u8>) -> Option<Doc> {
    match layout_of(buf) {
        Some((l, root)) => object_at(l, root, 0),
        None => None,
    }
}

struct Parser<'a> {
    buf: &'a [u8],
    table_start: usize,
    offset_size: usize,
    ref_size: usize,
    num_objects: usize,
}

/// 2 to the `n`.
fn two_to(n: u8) -> (r: usize)
    requires
        n < 16,
    ensures
        r == pow2(n as nat),
        1 <= r <= 0x8000,
{
    let mut r: usize = 1;
    let mut i: u8 = 0;
    proof {
        lemma2_to64();
    }
    while i < n
        invariant
            i <= n < 16,
            r == pow2(i as nat),
            pow2(n as nat) <= 0x8000,
        decreases n - i,
    {
        proof {
            lemma_pow2_unfold((i + 1) as nat);
            if i + 1 < n {
                lemma_pow2_strictly_increases((i + 1) as nat, n as nat);
            }
        }
        r = r * 2;
        i += 1;
    }
    r
}

impl<'a> Parser<'a> {
    spec fn layout(&self) -> Layout {
        Layout {
            buf: self.buf@,
            table_start: self.table_start as nat,
            offset_size: self.offset_size as nat,
            ref_size: self.ref_size as nat,
            num_objects: self.num_objects as nat,
        }
    }

    spec fn wf(&self) -> bool {
        &&& 1 <= self.offset_size <= 8
        &&& 1 <= self.ref_size <= 8
        &&& self.num_objects <= MAX_ELEMENTS
        &&& self.table_start + self.num_objects * self.offset_size <= self.buf@.len()
    }

    /// The bytes `from..from + len`, when the buffer has them.
    fn take(&self, from: usize, len: u64) -> (r: Option<&'a [u8]>)
        ensures
            match r {
                Some(s) => slice_of(self.buf@, from as nat, (from + len) as nat) == Some(s@),
                None => slice_of(self.buf@, from as nat, (from + len) as nat) is None,
            },
    {
        if from > self.buf.len() || len > (self.buf.len() - from) as u64 {
            return None;
        }
        Some(vstd::slice::slice_subrange(self.buf, from, from + len as usize))
    }

    fn offset_of(&self, index: u64) -> (r: Option<usize>)
        requires
            self.wf(),
        ensures
            match r {
                Some(x) => offset_of(self.layout(), index as nat) == Some(x as nat) && x
                    < self.buf@.len(),
                None => offset_of(self.layout(), index as nat) is None,
            },
    {
        if index >= self.num_objects as u64 {
            return None;
        }
        let i: usize = index as usize;
        assert(i * self.offset_size + self.offset_size <= self.num_objects * self.offset_size)
            by (nonlinear_arith)
            requires
                i + 1 <= self.num_objects,
                self.offset_size >= 0,
        ;
        assert(0 <= i * self.offset_size) by (nonlinear_arith)
            requires
                0 <= i,
                self.offset_size >= 0,
        ;
        assert(self.table_start + i * self.offset_size + self.offset_size <= self.buf.len());
        let at: usize = self.table_start + i * self.offset_size;
        match self.take(at, self.offset_size as u64) {
            None => None,
            Some(raw) => {
                let v: u64 = wire::be(raw);
                if v < self.buf.len() as u64 {
                    Some(v as usize)
                } else {
                    None
                }
            },
        }
    }

    /// Decode a marker's length, which either fits in the low nibble or escapes to a
    /// following integer object. Returns the count and where the body starts.
    fn sized(&self, at: usize, low: u8) -> (r: Option<(u64, usize)>)
        requires
            at < self.buf@.len(),
            low < 16,
        ensures
            match r {
                Some((n, body)) => sized(self.buf@, at as nat, low as nat) == Some(
                    (n as nat, body as nat),
                ) && body <= self.buf@.len(),
                None => sized(self.buf@, at as nat, low as nat) is None,
            },
    {
        let n: usize = self.buf.len();
        if low != 15 {
            return Some((low as u64, at + 1));
        }
        if n - at < 2 {
            return None;
        }
        let m: u8 = self.buf[at + 1];
        if m / 16 != 1 {
            return None;
        }
        let wide: usize = two_to(m % 16);
        match self.take(at + 2, wide as u64) {
            None => None,
            Some(raw) => Some((wire::be(raw), at + 2 + wide)),
        }
    }

    fn reference(&self, body: usize, i: usize) -> (r: Option<u64>)
        requires
            self.wf(),
            body <= self.buf@.len(),
            i <= 2 * MAX_ELEMENTS,
        ensures
            match r {
                Some(x) => reference(self.layout(), body as nat, i as nat) == Some(x as nat),
                None => reference(self.layout(), body as nat, i as nat) is None,
            },
    {
        assert(0 <= i * self.ref_size <= 8 * i) by (nonlinear_arith)
            requires
                0 <= i,
                0 <= self.ref_size <= 8,
        ;
        let skip: usize = i * self.ref_size;
        if skip > self.buf.len() - body {
            return None;
        }
        match self.take(body + skip, self.ref_size as u64) {
            None => None,
            Some(raw) => Some(wire::be(raw)),
        }
    }

    fn object(&self, index: u64, depth: usize) -> (r: Option<Val>)
        requires
            self.wf(),
            depth <= MAX_DEPTH + 1,
        ensures
            match r {
                Some(v) => object_at(self.layout(), index as nat, depth as nat) == Some(v.doc()),
                None => object_at(self.layout(), index as nat, depth as nat) is None,
            },
        decreases MAX_DEPTH + 2 - depth, 1nat,
    {
        if depth > MAX_DEPTH {
            return None;
        }
        let at: usize = match self.offset_of(index) {
            None => {
                return None;
            },
            Some(x) => x,
        };
        let marker: u8 = self.buf[at];
        let kind: u8 = marker / 16;
        let low: u8 = marker % 16;
        if kind == 0 {
            if marker == 8 {
                Some(Val::Bool(false))
            } else if marker == 9 {
                Some(Val::Bool(true))
            } else {
                Some(Val::Other)
            }
        } else if kind == 1 {
            // Integers are 2^low bytes wide, big-endian.
            let wide: usize = two_to(low);
            match self.take(at + 1, wide as u64) {
                None => None,
                Some(raw) => {
                    let v: u64 = wire::be(raw);
                    if v < 0x8000_0000_0000_0000 {
                        Some(Val::Int(v as i64))
                    } else {
                        Some(Val::Int(-((u64::MAX - v) as i64) - 1))
                    }
                },
            }
        } else if kind == 4 || kind == 5 || kind == 6 || kind == 10 || kind == 13 {
            let (count, body): (u64, usize) = match self.sized(at, low) {
                None => {
                    return None;
                },
                Some(x) => x,
            };
            if kind == 4 {
                match self.take(body, count) {
                    None => None,
                    Some(raw) => Some(Val::Data(vstd::slice::slice_to_vec(raw))),
                }
            } else if kind == 5 {
                match self.take(body, count) {
                    None => None,
                    Some(raw) => Some(Val::Str(text::utf8_lossy(raw))),
                }
            } else if kind == 6 {
                // UTF-16BE: the length is in code units, not bytes.
                if count > self.buf.len() as u64 / 2 {
                    return None;
                }
                match self.take(body, count * 2) {
                    None => None,
                    Some(raw) => Some(Val::Str(utf16::from_utf16(&units(raw)))),
                }
            } else if count > MAX_ELEMENTS as u64 {
                None
            } else if kind == 10 {
                match self.array(body, count as usize, depth) {
                    None => None,
                    Some(items) => {
                        let v = Val::Array(items);
                        assert(v.doc()->Array_0 =~= docs(items@));
                        Some(v)
                    },
                }
            } else {
                match self.dictionary(body, count as usize, depth) {
                    None => None,
                    Some(pairs) => {
                        let v = Val::Dict(pairs);
                        assert(v.doc()->Dict_0 =~= pair_keys(pairs@));
                        assert(v.doc()->Dict_1 =~= pair_docs(pairs@));
                        Some(v)
                    },
                }
            }
        } else {
            Some(Val::Other)
        }
    }

    fn array(&self, body: usize, count: usize, depth: usize) -> (r: Option<Vec<Val>>)
        requires
            self.wf(),
            depth <= MAX_DEPTH,
            body <= self.buf@.len(),
            count <= MAX_ELEMENTS,
        ensures
            match r {
                Some(v) => elements(self.layout(), body as nat, count as nat, depth as nat)
                    == Some(docs(v@)),
                None => elements(self.layout(), body as nat, count as nat, depth as nat) is None,
            },
        decreases MAX_DEPTH + 2 - depth, 0nat,
    {
        let mut out: Vec<Val> = Vec::new();
        let mut i: usize = 0;
        assert(docs(out@) =~= seq![]);
        while i < count
            invariant
                i <= count <= MAX_ELEMENTS,
                self.wf(),
                depth <= MAX_DEPTH,
                body <= self.buf@.len(),
                elements(self.layout(), body as nat, i as nat, depth as nat) == Some(docs(out@)),
            decreases count - i,
        {
            let ghost l = self.layout();
            let r: Option<u64> = self.reference(body, i);
            if r.is_none() {
                proof {
                    lemma_elements_stop(l, body as nat, (i + 1) as nat, count as nat, depth as nat);
                }
                return None;
            }
            let v: Option<Val> = self.object(r.unwrap(), depth + 1);
            match v {
                None => {
                    proof {
                        lemma_elements_stop(
                            l,
                            body as nat,
                            (i + 1) as nat,
                            count as nat,
                            depth as nat,
                        );
                    }
                    return None;
                },
                Some(x) => {
                    let ghost before = docs(out@);
                    let ghost d = x.doc();
                    out.push(x);
                    assert(docs(out@) =~= before.push(d));
                },
            }
            i += 1;
        }
        Some(out)
    }

    fn dictionary(&self, body: usize, count: usize, depth: usize) -> (r: Option<
        Vec<(String, Val)>,
    >)
        requires
            self.wf(),
            depth <= MAX_DEPTH,
            body <= self.buf@.len(),
            count <= MAX_ELEMENTS,
        ensures
            match r {
                Some(v) => entries(
                    self.layout(),
                    body as nat,
                    count as nat,
                    count as nat,
                    depth as nat,
                ) == Some((pair_keys(v@), pair_docs(v@))),
                None => entries(
                    self.layout(),
                    body as nat,
                    count as nat,
                    count as nat,
                    depth as nat,
                ) is None,
            },
        decreases MAX_DEPTH + 2 - depth, 0nat,
    {
        let mut out: Vec<(String, Val)> = Vec::new();
        let mut i: usize = 0;
        assert(pair_keys(out@) =~= seq![]);
        assert(pair_docs(out@) =~= seq![]);
        while i < count
            invariant
                i <= count <= MAX_ELEMENTS,
                self.wf(),
                depth <= MAX_DEPTH,
                body <= self.buf@.len(),
                entries(self.layout(), body as nat, count as nat, i as nat, depth as nat) == Some(
                    (pair_keys(out@), pair_docs(out@)),
                ),
            decreases count - i,
        {
            let ghost l = self.layout();
            proof {
                if entries(l, body as nat, count as nat, (i + 1) as nat, depth as nat) is None {
                    lemma_entries_stop(
                        l,
                        body as nat,
                        count as nat,
                        (i + 1) as nat,
                        count as nat,
                        depth as nat,
                    );
                }
            }
            // Keys come first, then values, each a reference.
            let kr: Option<u64> = self.reference(body, i);
            if kr.is_none() {
                return None;
            }
            let vr: Option<u64> = self.reference(body, count + i);
            if vr.is_none() {
                return None;
            }
            let k: Option<Val> = self.object(kr.unwrap(), depth + 1);
            match k {
                None => {
                    return None;
                },
                Some(Val::Str(key)) => {
                    let v: Option<Val> = self.object(vr.unwrap(), depth + 1);
                    match v {
                        None => {
                            return None;
                        },
                        Some(x) => {
                            let ghost keys = pair_keys(out@);
                            let ghost values = pair_docs(out@);
                            let ghost d = x.doc();
                            let ghost t = key@;
                            out.push((key, x));
                            assert(pair_keys(out@) =~= keys.push(t));
                            assert(pair_docs(out@) =~= values.push(d));
                        },
                    }
                },
                // A non-string key is not something AirDrop produces; skipping it is safer
                // than inventing a name for it.
                Some(_) => {},
            }
            i += 1;
        }
        Some(out)
    }
}

spec fn docs(v: Seq<Val>) -> Seq<Doc> {
    Seq::new(v.len(), |i: int| v[i].doc())
}

spec fn pair_keys(v: Seq<(String, Val)>) -> Seq<Seq<char>> {
    Seq::new(v.len(), |i: int| v[i].0@)
}

spec fn pair_docs(v: Seq<(String, Val)>) -> Seq<Doc> {
    Seq::new(v.len(), |i: int| v[i].1.doc())
}

proof fn lemma_elements_stop(l: Layout, body: nat, n: nat, m: nat, depth: nat)
    requires
        n <= m,
        elements(l, body, n, depth) is None,
    ensures
        elements(l, body, m, depth) is None,
    decreases m,
{
    if n < m {
        lemma_elements_stop(l, body, n, (m - 1) as nat, depth);
    }
}

proof fn lemma_entries_stop(l: Layout, body: nat, count: nat, n: nat, m: nat, depth: nat)
    requires
        n <= m,
        entries(l, body, count, n, depth) is None,
    ensures
        entries(l, body, count, m, depth) is None,
    decreases m,
{
    if n < m {
        lemma_entries_stop(l, body, count, n, (m - 1) as nat, depth);
    }
}

fn units(raw: &[u8]) -> (r: Vec<u16>)
    ensures
        r@ == bytes_units(raw@),
{
    let mut out: Vec<u16> = Vec::new();
    let mut i: usize = 0;
    let n: usize = raw.len() / 2;
    while i < n
        invariant
            i <= n,
            n == raw@.len() / 2,
            out@.len() == i,
            forall|j: int| 0 <= j < i ==> #[trigger] out@[j] == bytes_units(raw@)[j],
        decreases n - i,
    {
        assert(2 * i + 1 < raw.len());
        out.push(raw[2 * i] as u16 * 256 + raw[2 * i + 1] as u16);
        i += 1;
    }
    assert(out@ =~= bytes_units(raw@));
    out
}

fn is_magic(buf: &[u8]) -> (r: bool)
    requires
        buf@.len() >= 8,
    ensures
        r == (buf@.subrange(0, 8) == magic()),
{
    let r = buf[0] == 0x62 && buf[1] == 0x70 && buf[2] == 0x6c && buf[3] == 0x69 && buf[4] == 0x73
        && buf[5] == 0x74 && buf[6] == 0x30 && buf[7] == 0x30;
    proof {
        let s = buf@.subrange(0, 8);
        if r {
            assert(s =~= magic());
        } else {
            assert(s[0] == buf@[0] && s[1] == buf@[1] && s[2] == buf@[2] && s[3] == buf@[3]);
            assert(s[4] == buf@[4] && s[5] == buf@[5] && s[6] == buf@[6] && s[7] == buf@[7]);
        }
    }
    r
}

/// Read a binary plist. `None` for anything that is not one, or that points outside itself,
/// nests too deep or holds too much.
pub fn parse(buf: &[u8]) -> (r: Option<Val>)
    ensures
        match r {
            Some(v) => parsed(buf@) == Some(v.doc()),
            None => parsed(buf@) is None,
        },
{
    if buf.len() < 40 || !is_magic(buf) {
        return None;
    }
    let n: usize = buf.len();
    let ghost t = buf@.subrange(n - 32, n as int);
    let offset_size: usize = buf[n - 26] as usize;
    let ref_size: usize = buf[n - 25] as usize;
    let num_objects: u64 = wire::be(vstd::slice::slice_subrange(buf, n - 24, n - 16));
    let root: u64 = wire::be(vstd::slice::slice_subrange(buf, n - 16, n - 8));
    let table_start: u64 = wire::be(vstd::slice::slice_subrange(buf, n - 8, n));
    assert(t[6] == buf@[n - 26]);
    assert(t[7] == buf@[n - 25]);
    assert(t.subrange(8, 16) =~= buf@.subrange(n - 24, n - 16));
    assert(t.subrange(16, 24) =~= buf@.subrange(n - 16, n - 8));
    assert(t.subrange(24, 32) =~= buf@.subrange(n - 8, n as int));

    if offset_size == 0 || offset_size > 8 || ref_size == 0 || ref_size > 8 {
        return None;
    }
    if num_objects == 0 || num_objects > MAX_ELEMENTS as u64 || root >= num_objects {
        return None;
    }
    // The offset table has to fit inside the buffer, checked before any read of it.
    assert(0 <= num_objects * offset_size <= 8 * num_objects) by (nonlinear_arith)
        requires
            0 <= num_objects,
            0 <= offset_size <= 8,
    ;
    let table_len: u64 = num_objects * offset_size as u64;
    if table_start > n as u64 || table_len > n as u64 - table_start {
        return None;
    }
    let p = Parser {
        buf,
        table_start: table_start as usize,
        offset_size,
        ref_size,
        num_objects: num_objects as usize,
    };
    p.object(root, 0)
}

} // verus!
