//! What the DNS writer writes, the DNS reader reads back.

use vstd::prelude::*;
use vstd::utf8::*;
use crate::dns;
use crate::dns::{Asked, Told, MAX_JUMPS, MAX_NAME, MAX_RECORDS, TYPE_PTR};
use crate::text;
use crate::wire;

verus! {

/// A name with `labels` behind it, those that are empty left out.
pub open spec fn with_labels(name: Seq<char>, labels: Seq<Seq<char>>) -> Seq<char>
    decreases labels.len(),
{
    if labels.len() == 0 {
        name
    } else if labels[0].len() == 0 {
        with_labels(name, labels.drop_first())
    } else {
        with_labels(dns::joined(name, labels[0]), labels.drop_first())
    }
}

/// A name without its empty labels: what a peer makes of it.
pub open spec fn plain_name(name: Seq<char>) -> Seq<char> {
    with_labels(seq![], text::split_text(name, '.'))
}

/// Whether a name can travel: no label so long that its length reads as a pointer, and no
/// more bytes in all than a name may have.
pub open spec fn sendable_name(name: Seq<char>) -> bool {
    &&& forall|i: int|
        0 <= i < text::split_text(name, '.').len() ==> encode_utf8(
            #[trigger] text::split_text(name, '.')[i],
        ).len() < 0xC0
    &&& encode_utf8(plain_name(name)).len() <= MAX_NAME
}

/// Whether no label of a name is empty.
pub open spec fn full_name(name: Seq<char>) -> bool {
    forall|i: int|
        0 <= i < text::split_text(name, '.').len() ==> (#[trigger] text::split_text(
            name,
            '.',
        )[i]).len() > 0
}

proof fn lemma_encode_nonempty(s: Seq<char>)
    requires
        s.len() > 0,
    ensures
        encode_utf8(s).len() > 0,
{
    assert(encode_utf8(s) == encode_scalar(s[0] as u32) + encode_utf8(s.drop_first()));
}

proof fn lemma_with_labels_len(name: Seq<char>, labels: Seq<Seq<char>>)
    ensures
        encode_utf8(name).len() <= encode_utf8(with_labels(name, labels)).len(),
    decreases labels.len(),
{
    if labels.len() > 0 {
        if labels[0].len() == 0 {
            lemma_with_labels_len(name, labels.drop_first());
        } else {
            lemma_with_labels_len(dns::joined(name, labels[0]), labels.drop_first());
            dns::lemma_joined_len(name, labels[0]);
        }
    }
}

proof fn lemma_labels_read(
    front: Seq<u8>,
    labels: Seq<Seq<char>>,
    rest: Seq<u8>,
    name: Seq<char>,
    jumps: nat,
)
    requires
        jumps <= MAX_JUMPS,
        forall|i: int| 0 <= i < labels.len() ==> encode_utf8(#[trigger] labels[i]).len() < 0xC0,
        encode_utf8(with_labels(name, labels)).len() <= MAX_NAME,
    ensures
        ({
            let buf = front + dns::labels_bytes(labels, true).push(0) + rest;
            &&& dns::name_at(buf, front.len() as int, jumps, name) == Some(
                with_labels(name, labels),
            )
            &&& dns::name_end(buf, front.len() as int, name) == Some(
                (front.len() + dns::labels_bytes(labels, true).len() + 1) as int,
            )
        }),
    decreases labels.len(),
{
    let body = dns::labels_bytes(labels, true);
    let buf = front + body.push(0) + rest;
    let pos = front.len() as int;
    if labels.len() == 0 {
        assert(buf[pos] == 0);
    } else {
        let l = labels[0];
        let tail = labels.drop_first();
        assert forall|i: int| 0 <= i < tail.len() implies encode_utf8(#[trigger] tail[i]).len()
            < 0xC0 by {
            assert(tail[i] == labels[i + 1]);
        }
        if l.len() == 0 {
            lemma_labels_read(front, tail, rest, name, jumps);
        } else {
            let lb = encode_utf8(l);
            let n = lb.len() as int;
            lemma_encode_nonempty(l);
            assert(encode_utf8(labels[0]).len() < 0xC0);
            let front2 = front + dns::label_bytes(l);
            assert(buf =~= front2 + dns::labels_bytes(tail, true).push(0) + rest);
            assert(buf[pos] == n as u8);
            assert(buf.subrange(pos + 1, pos + 1 + n) =~= lb);
            encode_utf8_valid_utf8(l);
            encode_utf8_decode_utf8(l);
            lemma_with_labels_len(dns::joined(name, l), tail);
            dns::lemma_joined_len(name, l);
            assert(encode_utf8(name).len() + n + 1 <= MAX_NAME) by {
                if name.len() == 0 {
                    assert(encode_utf8(name).len() == 0);
                }
            }
            lemma_labels_read(front2, tail, rest, dns::joined(name, l), jumps);
        }
    }
}

/// A name that can travel reads back from wherever it stands, and reading goes on right
/// behind it.
pub proof fn law_name_round_trip(front: Seq<u8>, name: Seq<char>, rest: Seq<u8>)
    requires
        sendable_name(name),
    ensures
        ({
            let buf = front + dns::name_bytes(name) + rest;
            &&& dns::name_at(buf, front.len() as int, 0, seq![]) == Some(plain_name(name))
            &&& dns::name_end(buf, front.len() as int, seq![]) == Some(
                (front.len() + dns::name_bytes(name).len()) as int,
            )
        }),
{
    lemma_labels_read(front, text::split_text(name, '.'), rest, seq![], 0);
}

/// The labels with a dot between each two.
spec fn dotted(labels: Seq<Seq<char>>) -> Seq<char>
    decreases labels.len(),
{
    if labels.len() == 0 {
        seq![]
    } else if labels.len() == 1 {
        labels[0]
    } else {
        dotted(labels.drop_last()).push('.') + labels.last()
    }
}

proof fn lemma_split_dotted(name: Seq<char>)
    ensures
        dotted(text::split_text(name, '.')) == name,
        text::split_text(name, '.').len() >= 1,
    decreases name.len(),
{
    reveal_with_fuel(dotted, 2);
    if name.len() > 0 {
        let p = name.drop_last();
        let before = text::split_text(p, '.');
        lemma_split_dotted(p);
        let now = text::split_text(name, '.');
        if name.last() == '.' {
            assert(now.drop_last() =~= before);
            assert(dotted(now) =~= name);
        } else {
            assert(now.drop_last() =~= before.drop_last());
            assert(dotted(now) =~= dotted(before).push(name.last()));
            assert(p.push(name.last()) =~= name);
        }
    }
}

proof fn lemma_with_labels_push(name: Seq<char>, labels: Seq<Seq<char>>, l: Seq<char>)
    requires
        l.len() > 0,
    ensures
        with_labels(name, labels.push(l)) == dns::joined(with_labels(name, labels), l),
    decreases labels.len(),
{
    if labels.len() == 0 {
        assert(labels.push(l).drop_first() =~= seq![]);
        reveal_with_fuel(with_labels, 2);
    } else {
        assert(labels.push(l).drop_first() =~= labels.drop_first().push(l));
        if labels[0].len() == 0 {
            lemma_with_labels_push(name, labels.drop_first(), l);
        } else {
            lemma_with_labels_push(dns::joined(name, labels[0]), labels.drop_first(), l);
        }
    }
}

proof fn lemma_with_labels_dotted(labels: Seq<Seq<char>>)
    requires
        labels.len() >= 1,
        forall|i: int| 0 <= i < labels.len() ==> (#[trigger] labels[i]).len() > 0,
    ensures
        with_labels(seq![], labels) == dotted(labels),
        dotted(labels).len() > 0,
    decreases labels.len(),
{
    let p = labels.drop_last();
    assert(labels =~= p.push(labels.last()));
    assert(labels[labels.len() - 1].len() > 0);
    lemma_with_labels_push(seq![], p, labels.last());
    reveal_with_fuel(dotted, 2);
    if p.len() == 0 {
        assert(with_labels(seq![], p) =~= seq![]);
    } else {
        assert forall|i: int| 0 <= i < p.len() implies (#[trigger] p[i]).len() > 0 by {
            assert(p[i] == labels[i]);
        }
        lemma_with_labels_dotted(p);
    }
}

/// A name none of whose labels is empty is read back as it is.
pub proof fn law_full_name_is_plain(name: Seq<char>)
    requires
        full_name(name),
    ensures
        plain_name(name) == name,
{
    lemma_split_dotted(name);
    lemma_with_labels_dotted(text::split_text(name, '.'));
}

/// Whether a name is made of short ASCII labels, none of them empty.
pub open spec fn simple_name(name: Seq<char>) -> bool {
    &&& is_ascii_chars(name)
    &&& name.len() <= MAX_NAME
    &&& forall|i: int|
        0 <= i < text::split_text(name, '.').len() ==> is_ascii_chars(
            #[trigger] text::split_text(name, '.')[i],
        ) && 0 < text::split_text(name, '.')[i].len() < 0xC0
}

/// A simple name can travel, and is read back as it is.
pub proof fn law_simple_name(name: Seq<char>)
    requires
        simple_name(name),
    ensures
        sendable_name(name),
        plain_name(name) == name,
{
    law_full_name_is_plain(name);
    is_ascii_chars_encode_utf8(name);
    assert forall|i: int| 0 <= i < text::split_text(name, '.').len() implies encode_utf8(
        #[trigger] text::split_text(name, '.')[i],
    ).len() < 0xC0 by {
        is_ascii_chars_encode_utf8(text::split_text(name, '.')[i]);
    }
}

/// A record to be sent.
pub struct Outgoing {
    pub name: Seq<char>,
    pub rtype: u16,
    pub ttl: u32,
    pub rdata: Seq<u8>,
    pub flush: bool,
}

impl Outgoing {
    pub open spec fn bytes(self) -> Seq<u8> {
        dns::record_bytes(self.name, self.rtype, self.ttl, self.rdata, self.flush)
    }

    pub open spec fn sendable(self) -> bool {
        sendable_name(self.name) && self.rdata.len() <= 0xffff
    }

    /// What the receiver is told when the record starts at `at`.
    pub open spec fn told(self, at: int) -> Told {
        Told {
            name: plain_name(self.name),
            rtype: self.rtype,
            rdata: self.rdata,
            rdata_at: at + dns::name_bytes(self.name).len() + 10,
        }
    }
}

/// A record reads back as it was written, wherever it stands.
pub proof fn law_record_round_trip(front: Seq<u8>, r: Outgoing, rest: Seq<u8>)
    requires
        r.sendable(),
    ensures
        dns::record_at(front + r.bytes() + rest, front.len() as int) == Some(
            (r.told(front.len() as int), (front.len() + r.bytes().len()) as int),
        ),
{
    let nb = dns::name_bytes(r.name);
    let b1 = wire::be_bytes(r.rtype as nat, 2);
    let b2 = wire::be_bytes(
        if r.flush {
            0x8001
        } else {
            0x0001
        },
        2,
    );
    let b3 = wire::be_bytes(r.ttl as nat, 4);
    let b4 = wire::be_bytes(r.rdata.len(), 2);
    let buf = front + r.bytes() + rest;
    wire::lemma_be_limits();
    wire::law_be_round_trip(r.rtype as nat, 2);
    wire::law_be_round_trip(r.rdata.len(), 2);
    wire::lemma_be_bytes_len(
        if r.flush {
            0x8001
        } else {
            0x0001
        },
        2,
    );
    wire::lemma_be_bytes_len(r.ttl as nat, 4);
    assert(buf =~= front + nb + (b1 + b2 + b3 + b4 + r.rdata + rest));
    law_name_round_trip(front, r.name, b1 + b2 + b3 + b4 + r.rdata + rest);
    let e = (front.len() + nb.len()) as int;
    assert(buf.subrange(e, e + 2) =~= b1);
    assert(buf.subrange(e + 8, e + 10) =~= b4);
    assert(buf.subrange(e + 10, e + 10 + r.rdata.len()) =~= r.rdata);
}

pub open spec fn all_bytes(rs: Seq<Outgoing>) -> Seq<Seq<u8>> {
    Seq::new(rs.len(), |i: int| rs[i].bytes())
}

/// Where the `i`-th record of a response starts.
pub open spec fn record_start(rs: Seq<Outgoing>, i: int) -> int {
    12 + dns::joined_bytes(all_bytes(rs.subrange(0, i))).len() as int
}

pub open spec fn all_told(rs: Seq<Outgoing>) -> Seq<Told> {
    Seq::new(rs.len(), |i: int| rs[i].told(record_start(rs, i)))
}

pub proof fn lemma_joined_split(parts: Seq<Seq<u8>>, i: int)
    requires
        0 <= i < parts.len(),
    ensures
        dns::joined_bytes(parts) == dns::joined_bytes(parts.subrange(0, i)) + parts[i]
            + dns::joined_bytes(parts.subrange(i + 1, parts.len() as int)),
    decreases parts.len(),
{
    let p = parts.drop_last();
    if i == parts.len() - 1 {
        assert(parts.subrange(0, i) =~= p);
        assert(parts.subrange(i + 1, parts.len() as int) =~= seq![]);
        assert(dns::joined_bytes(parts) =~= dns::joined_bytes(p) + parts[i] + dns::joined_bytes(
            seq![],
        ));
    } else {
        lemma_joined_split(p, i);
        assert(p.subrange(0, i) =~= parts.subrange(0, i));
        let t = parts.subrange(i + 1, parts.len() as int);
        assert(t.drop_last() =~= p.subrange(i + 1, p.len() as int));
        assert(t.last() == parts.last());
        assert(dns::joined_bytes(parts) =~= dns::joined_bytes(parts.subrange(0, i)) + parts[i]
            + dns::joined_bytes(t));
    }
}

proof fn lemma_records_read(rs: Seq<Outgoing>, head: Seq<u8>, n: nat)
    requires
        head.len() == 12,
        n <= rs.len(),
        forall|i: int| 0 <= i < rs.len() ==> (#[trigger] rs[i]).sendable(),
    ensures
        dns::records_from(head + dns::joined_bytes(all_bytes(rs)), 12, n) == Some(
            (all_told(rs).subrange(0, n as int), record_start(rs, n as int)),
        ),
    decreases n,
{
    let all = all_bytes(rs);
    let buf = head + dns::joined_bytes(all);
    if n == 0 {
        assert(rs.subrange(0, 0) =~= seq![]);
        assert(all_bytes(rs.subrange(0, 0)) =~= seq![]);
        assert(all_told(rs).subrange(0, 0) =~= seq![]);
    } else {
        let i = n - 1;
        lemma_records_read(rs, head, i as nat);
        lemma_joined_split(all, i);
        let front = head + dns::joined_bytes(all.subrange(0, i));
        let rest = dns::joined_bytes(all.subrange(i + 1, all.len() as int));
        assert(all.subrange(0, i) =~= all_bytes(rs.subrange(0, i)));
        assert(buf =~= front + rs[i].bytes() + rest);
        law_record_round_trip(front, rs[i], rest);
        assert(all_bytes(rs.subrange(0, n as int)).drop_last() =~= all_bytes(rs.subrange(0, i)));
        assert(all_bytes(rs.subrange(0, n as int)).last() == rs[i].bytes());
        assert(all_told(rs).subrange(0, n as int) =~= all_told(rs).subrange(0, i).push(
            all_told(rs)[i],
        ));
    }
}

/// A response parses as no questions and exactly the records that went into it, in order.
pub proof fn law_response_round_trip(rs: Seq<Outgoing>)
    requires
        rs.len() <= MAX_RECORDS,
        forall|i: int| 0 <= i < rs.len() ==> (#[trigger] rs[i]).sendable(),
    ensures
        dns::message_in(dns::response_bytes(all_bytes(rs))) == Some(
            (Seq::<Asked>::empty(), all_told(rs)),
        ),
{
    let count = wire::be_bytes(rs.len(), 2);
    wire::lemma_be_limits();
    wire::law_be_round_trip(rs.len(), 2);
    let head = seq![0u8, 0, 0x84, 0, 0, 0] + count + seq![0u8, 0, 0, 0];
    let buf = dns::response_bytes(all_bytes(rs));
    assert(buf =~= head + dns::joined_bytes(all_bytes(rs)));
    assert(buf.subrange(4, 6) =~= seq![0u8, 0]);
    assert(buf.subrange(6, 8) =~= count);
    assert(buf.subrange(8, 10) =~= seq![0u8, 0]);
    assert(buf.subrange(10, 12) =~= seq![0u8, 0]);
    wire::lemma_be_value_2(seq![0u8, 0]);
    lemma_records_read(rs, head, rs.len());
    assert(all_told(rs).subrange(0, rs.len() as int) =~= all_told(rs));
}

proof fn lemma_labels_same(labels: Seq<Seq<char>>)
    requires
        forall|i: int| 0 <= i < labels.len() ==> (#[trigger] labels[i]).len() > 0,
    ensures
        dns::labels_bytes(labels, false) == dns::labels_bytes(labels, true),
    decreases labels.len(),
{
    if labels.len() > 0 {
        let t = labels.drop_first();
        assert forall|i: int| 0 <= i < t.len() implies (#[trigger] t[i]).len() > 0 by {
            assert(t[i] == labels[i + 1]);
        }
        assert(labels[0].len() > 0);
        lemma_labels_same(t);
    }
}

/// A query parses as the one question for the service, and no records.
#[verifier::rlimit(50)]
pub proof fn law_query_round_trip(service: Seq<char>)
    requires
        sendable_name(service),
        full_name(service),
    ensures
        dns::message_in(dns::query_bytes(service)) == Some(
            (seq![Asked { name: service, qtype: TYPE_PTR }], Seq::<Told>::empty()),
        ),
{
    let labels = text::split_text(service, '.');
    lemma_labels_same(labels);
    law_full_name_is_plain(service);
    let head = seq![0u8, 0, 0, 0, 0, 1, 0, 0, 0, 0, 0, 0];
    let rest = seq![0u8, 12, 0, 1];
    let buf = dns::query_bytes(service);
    assert(buf =~= head + dns::name_bytes(service) + rest);
    law_name_round_trip(head, service, rest);
    assert(buf.subrange(4, 6) =~= seq![0u8, 1]);
    assert(buf.subrange(6, 8) =~= seq![0u8, 0]);
    assert(buf.subrange(8, 10) =~= seq![0u8, 0]);
    assert(buf.subrange(10, 12) =~= seq![0u8, 0]);
    wire::lemma_be_value_2(seq![0u8, 0]);
    wire::lemma_be_value_2(seq![0u8, 1]);
    let e = (12 + dns::name_bytes(service).len()) as int;
    assert(buf.subrange(e, e + 2) =~= seq![0u8, 12]);
    assert(buf.subrange(e + 2, e + 4) =~= seq![0u8, 1]);
    wire::lemma_be_value_2(seq![0u8, 12]);
    reveal_with_fuel(dns::questions_from, 2);
    let q = dns::question_at(buf, 12);
    assert(q == Some((Asked { name: service, qtype: TYPE_PTR }, e + 4)));
    assert(dns::questions_from(buf, 12, 1) == Some(
        (Seq::<Asked>::empty().push(Asked { name: service, qtype: TYPE_PTR }), e + 4),
    ));
    assert(Seq::<Asked>::empty().push(Asked { name: service, qtype: TYPE_PTR }) =~= seq![
        Asked { name: service, qtype: TYPE_PTR },
    ]);
}

/// What a record says behind its name: its type, that it is of the internet, whether it replaces
/// what is known, for how long it is to be kept, and how much data follows.
pub proof fn law_record_is_laid_out(r: Outgoing)
    requires
        r.rdata.len() <= 0xffff,
    ensures
        ({
            let n = dns::name_bytes(r.name).len() as int;
            let b = r.bytes();
            &&& b.len() == n + 10 + r.rdata.len()
            &&& b.take(n) == dns::name_bytes(r.name)
            &&& wire::be_value(b.subrange(n, n + 2)) == r.rtype
            &&& wire::be_value(b.subrange(n + 2, n + 4)) % 0x8000 == 1
            &&& wire::be_value(b.subrange(n + 2, n + 4)) >= 0x8000 <==> r.flush
            &&& wire::be_value(b.subrange(n + 4, n + 8)) == r.ttl
            &&& wire::be_value(b.subrange(n + 8, n + 10)) == r.rdata.len()
            &&& b.skip(n + 10) == r.rdata
        }),
{
    let n = dns::name_bytes(r.name).len() as int;
    let b = r.bytes();
    let class: nat = if r.flush {
        0x8001
    } else {
        0x0001
    };
    wire::lemma_be_limits();
    wire::law_be_round_trip(r.rtype as nat, 2);
    wire::law_be_round_trip(class, 2);
    wire::law_be_round_trip(r.ttl as nat, 4);
    wire::law_be_round_trip(r.rdata.len(), 2);
    wire::lemma_be_bytes_len(r.rtype as nat, 2);
    wire::lemma_be_bytes_len(class, 2);
    wire::lemma_be_bytes_len(r.ttl as nat, 4);
    wire::lemma_be_bytes_len(r.rdata.len(), 2);
    assert(b.take(n) =~= dns::name_bytes(r.name));
    assert(b.subrange(n, n + 2) =~= wire::be_bytes(r.rtype as nat, 2));
    assert(b.subrange(n + 2, n + 4) =~= wire::be_bytes(class, 2));
    assert(b.subrange(n + 4, n + 8) =~= wire::be_bytes(r.ttl as nat, 4));
    assert(b.subrange(n + 8, n + 10) =~= wire::be_bytes(r.rdata.len(), 2));
    assert(b.skip(n + 10) =~= r.rdata);
}

/// A text entry is its own length and then its bytes, as many as one byte can count.
pub proof fn law_text_entry_is_counted(e: Seq<char>)
    ensures
        ({
            let b = dns::txt_entry(e);
            &&& b.len() == 1 + b[0]
            &&& b.skip(1) == encode_utf8(e).take(b[0] as int)
            &&& encode_utf8(e).len() <= 255 ==> b[0] == encode_utf8(e).len()
            &&& encode_utf8(e).len() > 255 ==> b[0] == 255
        }),
{
    let b = dns::txt_entry(e);
    assert(b.skip(1) =~= encode_utf8(e).take(b[0] as int));
}

/// Whether a bit of a byte is set, the first being the most significant.
pub open spec fn bit_is_set(b: u8, k: int) -> bool {
    if k == 0 {
        b >= 128
    } else if k == 1 {
        b % 128 >= 64
    } else if k == 2 {
        b % 64 >= 32
    } else if k == 3 {
        b % 32 >= 16
    } else if k == 4 {
        b % 16 >= 8
    } else if k == 5 {
        b % 8 >= 4
    } else if k == 6 {
        b % 4 >= 2
    } else {
        b % 2 == 1
    }
}

proof fn lemma_type_bits(types: Seq<u16>, base: int)
    requires
        0 <= base <= 0xfff8,
    ensures
        dns::type_bits(types, base, 8) < 256,
        forall|k: int|
            0 <= k < 8 ==> #[trigger] bit_is_set(dns::type_bits(types, base, 8) as u8, k)
                == types.contains((base + k) as u16),
{
    reveal_with_fuel(dns::type_bits, 9);
    assert forall|k: int| 0 <= k < 8 implies #[trigger] bit_is_set(
        dns::type_bits(types, base, 8) as u8,
        k,
    ) == types.contains((base + k) as u16) by {
        assert(k == 0 || k == 1 || k == 2 || k == 3 || k == 4 || k == 5 || k == 6 || k == 7);
    }
}

/// What a name has and has not is told type by type: of all the types that are spoken of, exactly
/// those are marked that the name has, and the largest of them is spoken of.
pub proof fn law_types_are_told(name: Seq<char>, types: Seq<u16>, t: u16)
    requires
        dns::largest(types) < 256,
    ensures
        ({
            let b = dns::nsec_bytes(name, types);
            let n = dns::name_bytes(name).len() as int;
            &&& b.take(n) == dns::name_bytes(name)
            &&& b.len() == n + 2 + b[n + 1]
            &&& t / 8 < b[n + 1] ==> bit_is_set(b[n + 2 + t / 8], t as int % 8) == types.contains(
                t,
            )
            &&& types.contains(t) ==> t / 8 < b[n + 1]
        }),
{
    let b = dns::nsec_bytes(name, types);
    let n = dns::name_bytes(name).len() as int;
    assert(b.take(n) =~= dns::name_bytes(name));
    if types.contains(t) {
        let k = choose|k: int| 0 <= k < types.len() && types[k] == t;
        lemma_largest(types, k);
    }
    if t / 8 < b[n + 1] {
        lemma_type_bits(types, 8 * (t as int / 8));
        assert(8 * (t as int / 8) + t as int % 8 == t);
        assert(b[n + 2 + t / 8] == dns::type_bits(types, 8 * (t as int / 8), 8) as u8);
        assert(bit_is_set(
            dns::type_bits(types, 8 * (t as int / 8), 8) as u8,
            t as int % 8,
        ) == types.contains((8 * (t as int / 8) + t as int % 8) as u16));
    }
}

proof fn lemma_largest(types: Seq<u16>, k: int)
    requires
        0 <= k < types.len(),
    ensures
        types[k] <= dns::largest(types),
    decreases types.len(),
{
    if k < types.len() - 1 {
        lemma_largest(types.drop_last(), k);
    }
}

} // verus!
