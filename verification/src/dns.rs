//! Just enough DNS wire format for mDNS.
//!
//! This parses packets from any device on the link, so everything here is bounds-checked,
//! allocates nothing unbounded, and never trusts a length or an offset from the wire.
//!
//! Compression pointers are the classic footgun: a packet can point a name back at itself.
//! `Reader::name` caps both the number of jumps and the total name length.

use vstd::prelude::*;
use vstd::utf8::*;
use crate::text;
use crate::wire;

verus! {

pub const TYPE_A: u16 = 1;

pub const TYPE_PTR: u16 = 12;

pub const TYPE_TXT: u16 = 16;

pub const TYPE_AAAA: u16 = 28;

pub const TYPE_SRV: u16 = 33;

pub const TYPE_NSEC: u16 = 47;

pub const MAX_JUMPS: usize = 16;

pub const MAX_NAME: usize = 255;

pub const MAX_QUESTIONS: u16 = 64;

pub const MAX_RECORDS: usize = 128;

// ------------------------------------------------------------------- reading ---

/// `label` behind the name read so far.
pub open spec fn joined(name: Seq<char>, label: Seq<char>) -> Seq<char> {
    if name.len() == 0 {
        label
    } else {
        name.push('.') + label
    }
}

/// Where a compression pointer points.
pub open spec fn pointer_target(buf: Seq<u8>, pos: int) -> int {
    (buf[pos] - 0xC0) * 256 + buf[pos + 1]
}

/// Whether a label of a name stands at `pos`: the buffer holds all of it, it is UTF-8, and
/// the name stays short enough with it.
pub open spec fn label_ok(buf: Seq<u8>, pos: int, name: Seq<char>) -> bool {
    let n = buf[pos] as int;
    &&& pos + 1 + n <= buf.len()
    &&& encode_utf8(name).len() + n + 1 <= MAX_NAME
    &&& valid_utf8(buf.subrange(pos + 1, pos + 1 + n))
}

pub open spec fn label_text(buf: Seq<u8>, pos: int) -> Seq<char> {
    decode_utf8(buf.subrange(pos + 1, pos + 1 + buf[pos] as int))
}

/// The name at `pos`, behind what was already read of it, following pointers.
pub open spec fn name_at(buf: Seq<u8>, pos: int, jumps: nat, name: Seq<char>) -> Option<Seq<char>>
    decreases 20 - jumps, buf.len() - pos,
{
    if pos < 0 || pos >= buf.len() || jumps > MAX_JUMPS {
        None
    } else if buf[pos] >= 0xC0 {
        if pos + 1 >= buf.len() {
            None
        } else if jumps + 1 > MAX_JUMPS || pointer_target(buf, pos) >= buf.len() {
            None
        } else {
            name_at(buf, pointer_target(buf, pos), jumps + 1, name)
        }
    } else if buf[pos] == 0 {
        Some(name)
    } else if !label_ok(buf, pos, name) {
        None
    } else {
        name_at(buf, pos + 1 + buf[pos] as int, jumps, joined(name, label_text(buf, pos)))
    }
}

/// Where the name at `pos` ends as it stands there: behind its terminator or behind its
/// first pointer.
pub open spec fn name_end(buf: Seq<u8>, pos: int, name: Seq<char>) -> Option<int>
    decreases buf.len() - pos,
{
    if pos < 0 || pos >= buf.len() {
        None
    } else if buf[pos] >= 0xC0 {
        if pos + 1 >= buf.len() {
            None
        } else {
            Some(pos + 2)
        }
    } else if buf[pos] == 0 {
        Some(pos + 1)
    } else if !label_ok(buf, pos, name) {
        None
    } else {
        name_end(buf, pos + 1 + buf[pos] as int, joined(name, label_text(buf, pos)))
    }
}

pub proof fn lemma_name_has_end(buf: Seq<u8>, pos: int, jumps: nat, name: Seq<char>)
    requires
        name_at(buf, pos, jumps, name) is Some,
    ensures
        name_end(buf, pos, name) is Some,
        pos < name_end(buf, pos, name)->0 <= buf.len(),
    decreases buf.len() - pos,
{
    if buf[pos] < 0xC0 && buf[pos] != 0 {
        lemma_name_has_end(
            buf,
            pos + 1 + buf[pos] as int,
            jumps,
            joined(name, label_text(buf, pos)),
        );
    }
}

pub open spec fn number_at(buf: Seq<u8>, pos: int, width: int) -> Option<nat> {
    if 0 <= pos && pos + width <= buf.len() {
        Some(wire::be_value(buf.subrange(pos, pos + width)))
    } else {
        None
    }
}

/// Where a reader stands after it ran out of bytes.
pub open spec fn spent(pos: int, len: nat) -> int {
    if pos < len {
        len as int
    } else {
        pos
    }
}

pub struct Reader<'a> {
    pub buf: &'a [u8],
    pub pos: usize,
}

impl<'a> Reader<'a> {
    pub fn new(buf: &'a [u8]) -> (r: Self)
        ensures
            r.buf == buf,
            r.pos == 0,
    {
        Reader { buf, pos: 0 }
    }

    pub fn u8(&mut self) -> (r: Option<u8>)
        ensures
            final(self).buf == old(self).buf,
            match r {
                Some(v) => number_at(old(self).buf@, old(self).pos as int, 1) == Some(v as nat)
                    && v == old(self).buf@[old(self).pos as int] && final(self).pos
                    == old(self).pos + 1,
                None => old(self).pos >= old(self).buf@.len() && final(self).pos
                    == old(self).pos,
            },
    {
        if self.pos >= self.buf.len() {
            return None;
        }
        let v: u8 = self.buf[self.pos];
        proof {
            let s = self.buf@.subrange(self.pos as int, self.pos + 1);
            reveal_with_fuel(wire::be_value, 2);
            assert(s.last() == v);
        }
        self.pos = self.pos + 1;
        Some(v)
    }

    pub fn u16(&mut self) -> (r: Option<u16>)
        ensures
            final(self).buf == old(self).buf,
            match r {
                Some(v) => number_at(old(self).buf@, old(self).pos as int, 2) == Some(v as nat)
                    && final(self).pos == old(self).pos + 2,
                None => number_at(old(self).buf@, old(self).pos as int, 2) is None
                    && final(self).pos == spent(old(self).pos as int, old(self).buf@.len()),
            },
    {
        let hi: u16 = match self.u8() {
            Some(v) => v as u16,
            None => {
                return None;
            },
        };
        let lo: u16 = match self.u8() {
            Some(v) => v as u16,
            None => {
                return None;
            },
        };
        proof {
            let s = old(self).buf@.subrange(old(self).pos as int, old(self).pos + 2);
            wire::lemma_be_value_2(s);
        }
        Some(hi * 256 + lo)
    }

    pub fn u32(&mut self) -> (r: Option<u32>)
        ensures
            final(self).buf == old(self).buf,
            match r {
                Some(v) => number_at(old(self).buf@, old(self).pos as int, 4) == Some(v as nat)
                    && final(self).pos == old(self).pos + 4,
                None => number_at(old(self).buf@, old(self).pos as int, 4) is None
                    && final(self).pos == spent(old(self).pos as int, old(self).buf@.len()),
            },
    {
        let a: u32 = match self.u16() {
            Some(v) => v as u32,
            None => {
                return None;
            },
        };
        let b: u32 = match self.u16() {
            Some(v) => v as u32,
            None => {
                return None;
            },
        };
        proof {
            let s = old(self).buf@.subrange(old(self).pos as int, old(self).pos + 4);
            let x = old(self).buf@.subrange(old(self).pos as int, old(self).pos + 2);
            let y = old(self).buf@.subrange(old(self).pos + 2, old(self).pos + 4);
            wire::lemma_be_value_4(s);
            wire::lemma_be_value_2(x);
            wire::lemma_be_value_2(y);
        }
        Some(a * 0x1_0000 + b)
    }

    pub fn bytes(&mut self, n: usize) -> (r: Option<&'a [u8]>)
        ensures
            final(self).buf == old(self).buf,
            match r {
                Some(s) => old(self).pos + n <= old(self).buf@.len() && s@
                    == old(self).buf@.subrange(old(self).pos as int, old(self).pos + n)
                    && final(self).pos == old(self).pos + n,
                None => old(self).pos + n > old(self).buf@.len() && final(self).pos
                    == old(self).pos,
            },
    {
        if self.pos > self.buf.len() || n > self.buf.len() - self.pos {
            return None;
        }
        let s = vstd::slice::slice_subrange(self.buf, self.pos, self.pos + n);
        self.pos = self.pos + n;
        Some(s)
    }

    /// Read a (possibly compressed) domain name. Advances `pos` past the name as it appears
    /// here, following pointers only to read.
    pub fn name(&mut self) -> (r: Option<String>)
        ensures
            final(self).buf == old(self).buf,
            match r {
                Some(s) => name_at(old(self).buf@, old(self).pos as int, 0, seq![]) == Some(s@),
                None => name_at(old(self).buf@, old(self).pos as int, 0, seq![]) is None,
            },
            final(self).pos == (match name_end(old(self).buf@, old(self).pos as int, seq![]) {
                Some(e) => e,
                None => old(self).pos as int,
            }),
    {
        let buf = self.buf;
        let start: usize = self.pos;
        let mut out = String::new();
        let mut pos: usize = self.pos;
        let mut jumps: usize = 0;
        let mut advanced = false;
        let n: usize = buf.len();
        loop
            invariant_except_break
                !advanced ==> self.pos == start && name_end(buf@, start as int, seq![]) == name_end(
                    buf@,
                    pos as int,
                    out@,
                ),
            invariant
                self.buf == buf,
                buf == old(self).buf,
                start == old(self).pos,
                n == buf@.len(),
                jumps <= MAX_JUMPS,
                encode_utf8(out@).len() <= MAX_NAME,
                advanced == (jumps > 0),
                advanced ==> name_end(buf@, start as int, seq![]) == Some(self.pos as int),
                name_at(buf@, start as int, 0, seq![]) == name_at(
                    buf@,
                    pos as int,
                    jumps as nat,
                    out@,
                ),
            ensures
                self.buf == buf,
                name_at(buf@, start as int, 0, seq![]) == Some(out@),
                name_end(buf@, start as int, seq![]) == Some(self.pos as int),
            decreases MAX_JUMPS - jumps, n - pos,
        {
            if pos >= n {
                return None;
            }
            let len: usize = buf[pos] as usize;
            if len >= 0xC0 {
                // Compression pointer: two bytes, target is the low 14 bits.
                if n - pos < 2 {
                    return None;
                }
                let lo: usize = buf[pos + 1] as usize;
                let target: usize = (len - 0xC0) * 256 + lo;
                if !advanced {
                    self.pos = pos + 2;
                    advanced = true;
                }
                if jumps >= MAX_JUMPS || target >= n {
                    return None;  // malicious or malformed: a pointer loop
                }
                jumps += 1;
                pos = target;
                continue;
            }
            if len == 0 {
                if !advanced {
                    self.pos = pos + 1;
                }
                break;
            }
            if len > n - pos - 1 {
                return None;
            }
            let label = vstd::slice::slice_subrange(buf, pos + 1, pos + 1 + len);
            if out.as_str().len() + len + 1 > MAX_NAME {
                return None;
            }
            // Labels are not required to be UTF-8; anything that is not is a packet we do not
            // care about.
            let text: String = match text::utf8_text(label) {
                Some(t) => t,
                None => {
                    return None;
                },
            };
            let ghost before = out@;
            if !out.as_str().is_empty() {
                out.push('.');
            }
            out.append(text.as_str());
            proof {
                assert(out@ =~= joined(before, label_text(buf@, pos as int)));
                lemma_joined_len(before, text@);
            }
            pos = pos + 1 + len;
        }
        Some(out)
    }
}

pub proof fn lemma_encode_concat(a: Seq<char>, b: Seq<char>)
    ensures
        encode_utf8(a + b) == encode_utf8(a) + encode_utf8(b),
    decreases a.len(),
{
    if a.len() == 0 {
        assert(a + b =~= b);
        assert(encode_utf8(a) + encode_utf8(b) =~= encode_utf8(b));
    } else {
        lemma_encode_concat(a.drop_first(), b);
        assert((a + b).drop_first() =~= a.drop_first() + b);
        assert(encode_utf8(a + b) =~= encode_utf8(a) + encode_utf8(b));
    }
}

pub proof fn lemma_joined_len(name: Seq<char>, label: Seq<char>)
    ensures
        encode_utf8(joined(name, label)).len() == encode_utf8(name).len() + encode_utf8(label).len()
            + if name.len() == 0 {
            0int
        } else {
            1
        },
{
    if name.len() > 0 {
        let dot = seq!['.'];
        lemma_encode_concat(name, dot);
        lemma_encode_concat(name + dot, label);
        assert(name.push('.') =~= name + dot);
        assert(is_ascii_chars(dot));
        is_ascii_chars_encode_utf8(dot);
    } else {
        assert(encode_utf8(name).len() == 0);
    }
}

// ------------------------------------------------------------------ messages ---

pub struct Question {
    pub name: String,
    pub qtype: u16,
}

pub struct Record {
    pub name: String,
    pub rtype: u16,
    pub rdata: Vec<u8>,
    /// Offset of rdata within the original packet, needed because names inside rdata may
    /// use compression pointers relative to the whole packet.
    pub rdata_at: usize,
}

/// Everything we care about in one packet: what was asked, and what was told.
pub struct Message {
    pub questions: Vec<Question>,
    pub records: Vec<Record>,
}

/// What a question says.
pub struct Asked {
    pub name: Seq<char>,
    pub qtype: u16,
}

/// What a record says.
pub struct Told {
    pub name: Seq<char>,
    pub rtype: u16,
    pub rdata: Seq<u8>,
    pub rdata_at: int,
}

impl Question {
    pub open spec fn asked(&self) -> Asked {
        Asked { name: self.name@, qtype: self.qtype }
    }
}

impl Record {
    pub open spec fn told(&self) -> Told {
        Told {
            name: self.name@,
            rtype: self.rtype,
            rdata: self.rdata@,
            rdata_at: self.rdata_at as int,
        }
    }
}

pub open spec fn all_asked(v: Seq<Question>) -> Seq<Asked> {
    Seq::new(v.len(), |i: int| v[i].asked())
}

pub open spec fn all_told(v: Seq<Record>) -> Seq<Told> {
    Seq::new(v.len(), |i: int| v[i].told())
}

/// The question at `pos`, and where the next thing starts.
pub open spec fn question_at(buf: Seq<u8>, pos: int) -> Option<(Asked, int)> {
    match (name_at(buf, pos, 0, seq![]), name_end(buf, pos, seq![])) {
        (Some(name), Some(e)) => match (number_at(buf, e, 2), number_at(buf, e + 2, 2)) {
            (Some(qtype), Some(_)) => Some((Asked { name, qtype: qtype as u16 }, e + 4)),
            _ => None,
        },
        _ => None,
    }
}

/// The record at `pos`, and where the next thing starts.
pub open spec fn record_at(buf: Seq<u8>, pos: int) -> Option<(Told, int)> {
    match (name_at(buf, pos, 0, seq![]), name_end(buf, pos, seq![])) {
        (Some(name), Some(e)) => match (number_at(buf, e, 2), number_at(buf, e + 8, 2)) {
            (Some(rtype), Some(rdlen)) => if e + 10 + rdlen <= buf.len() {
                Some(
                    (
                        Told {
                            name,
                            rtype: rtype as u16,
                            rdata: buf.subrange(e + 10, e + 10 + rdlen),
                            rdata_at: e + 10,
                        },
                        e + 10 + rdlen,
                    ),
                )
            } else {
                None
            },
            _ => None,
        },
        _ => None,
    }
}

/// The first `n` questions from `pos` on, and where they end.
pub open spec fn questions_from(buf: Seq<u8>, pos: int, n: nat) -> Option<(Seq<Asked>, int)>
    decreases n,
{
    if n == 0 {
        Some((seq![], pos))
    } else {
        match questions_from(buf, pos, (n - 1) as nat) {
            Some((before, p)) => match question_at(buf, p) {
                Some((q, e)) => Some((before.push(q), e)),
                None => None,
            },
            None => None,
        }
    }
}

/// The first `n` records from `pos` on, and where they end.
pub open spec fn records_from(buf: Seq<u8>, pos: int, n: nat) -> Option<(Seq<Told>, int)>
    decreases n,
{
    if n == 0 {
        Some((seq![], pos))
    } else {
        match records_from(buf, pos, (n - 1) as nat) {
            Some((before, p)) => match record_at(buf, p) {
                Some((r, e)) => Some((before.push(r), e)),
                None => None,
            },
            None => None,
        }
    }
}

/// What a packet asks and tells, or nothing when it cannot be read: the counts in its
/// header must be modest and everything they promise must be there.
pub open spec fn message_in(buf: Seq<u8>) -> Option<(Seq<Asked>, Seq<Told>)> {
    if buf.len() < 12 {
        None
    } else {
        let qd = number_at(buf, 4, 2)->0;
        let total = number_at(buf, 6, 2)->0 + number_at(buf, 8, 2)->0 + number_at(buf, 10, 2)->0;
        if qd > MAX_QUESTIONS || total > MAX_RECORDS {
            None
        } else {
            match questions_from(buf, 12, qd) {
                Some((questions, p)) => match records_from(buf, p, total) {
                    Some((records, _)) => Some((questions, records)),
                    None => None,
                },
                None => None,
            }
        }
    }
}

proof fn lemma_questions_stop(buf: Seq<u8>, pos: int, n: nat, m: nat)
    requires
        n <= m,
        questions_from(buf, pos, n) is None,
    ensures
        questions_from(buf, pos, m) is None,
    decreases m,
{
    if n < m {
        lemma_questions_stop(buf, pos, n, (m - 1) as nat);
    }
}

proof fn lemma_records_stop(buf: Seq<u8>, pos: int, n: nat, m: nat)
    requires
        n <= m,
        records_from(buf, pos, n) is None,
    ensures
        records_from(buf, pos, m) is None,
    decreases m,
{
    if n < m {
        lemma_records_stop(buf, pos, n, (m - 1) as nat);
    }
}

fn read_question(r: &mut Reader) -> (q: Option<Question>)
    ensures
        final(r).buf == old(r).buf,
        match q {
            Some(x) => question_at(old(r).buf@, old(r).pos as int) == Some(
                (x.asked(), final(r).pos as int),
            ),
            None => question_at(old(r).buf@, old(r).pos as int) is None,
        },
{
    proof {
        if name_at(r.buf@, r.pos as int, 0, seq![]) is Some {
            lemma_name_has_end(r.buf@, r.pos as int, 0, seq![]);
        }
    }
    let name: String = match r.name() {
        Some(x) => x,
        None => {
            return None;
        },
    };
    let qtype: u16 = match r.u16() {
        Some(x) => x,
        None => {
            return None;
        },
    };
    match r.u16() {
        Some(_) => {},
        None => {
            return None;
        },
    }
    Some(Question { name, qtype })
}

fn read_record(r: &mut Reader) -> (q: Option<Record>)
    ensures
        final(r).buf == old(r).buf,
        match q {
            Some(x) => record_at(old(r).buf@, old(r).pos as int) == Some(
                (x.told(), final(r).pos as int),
            ),
            None => record_at(old(r).buf@, old(r).pos as int) is None,
        },
{
    proof {
        if name_at(r.buf@, r.pos as int, 0, seq![]) is Some {
            lemma_name_has_end(r.buf@, r.pos as int, 0, seq![]);
        }
    }
    let name: String = match r.name() {
        Some(x) => x,
        None => {
            return None;
        },
    };
    let rtype: u16 = match r.u16() {
        Some(x) => x,
        None => {
            return None;
        },
    };
    match r.u16() {
        Some(_) => {},
        None => {
            return None;
        },
    }
    match r.u32() {
        Some(_) => {},
        None => {
            return None;
        },
    }
    let rdlen: u16 = match r.u16() {
        Some(x) => x,
        None => {
            return None;
        },
    };
    let at: usize = r.pos;
    let rdata: Vec<u8> = match r.bytes(rdlen as usize) {
        Some(x) => vstd::slice::slice_to_vec(x),
        None => {
            return None;
        },
    };
    Some(Record { name, rtype, rdata, rdata_at: at })
}

/// Parse a packet. mDNS makes no hard distinction between query and response -- a packet can
/// carry both -- so both halves are returned and the caller decides.
pub fn parse(buf: &[u8]) -> (r: Option<Message>)
    ensures
        match r {
            Some(m) => message_in(buf@) == Some((all_asked(m.questions@), all_told(m.records@))),
            None => message_in(buf@) is None,
        },
{
    let mut r = Reader::new(buf);
    if buf.len() < 12 {
        return None;
    }
    let _id: Option<u16> = r.u16();
    let _flags: Option<u16> = r.u16();
    let qd: u16 = r.u16().unwrap();
    let an: u16 = r.u16().unwrap();
    let ns: u16 = r.u16().unwrap();
    let ar: u16 = r.u16().unwrap();
    let total: usize = an as usize + ns as usize + ar as usize;
    assert(r.pos == 12);

    // A packet whose counts cannot fit is not one we need to be polite about.
    if qd > MAX_QUESTIONS || total > MAX_RECORDS {
        return None;
    }
    let mut questions: Vec<Question> = Vec::new();
    let mut i: u16 = 0;
    assert(all_asked(questions@) =~= seq![]);
    while i < qd
        invariant
            i <= qd,
            r.buf == buf,
            questions_from(buf@, 12, i as nat) == Some((all_asked(questions@), r.pos as int)),
            questions_from(buf@, 12, qd as nat) is None ==> message_in(buf@) is None,
        decreases qd - i,
    {
        match read_question(&mut r) {
            Some(q) => {
                let ghost before = all_asked(questions@);
                let ghost a = q.asked();
                questions.push(q);
                assert(all_asked(questions@) =~= before.push(a));
            },
            None => {
                proof {
                    lemma_questions_stop(buf@, 12, (i + 1) as nat, qd as nat);
                }
                return None;
            },
        }
        i += 1;
    }
    let ghost p = r.pos as int;
    let mut out: Vec<Record> = Vec::new();
    let mut j: usize = 0;
    assert(all_told(out@) =~= seq![]);
    while j < total
        invariant
            j <= total,
            r.buf == buf,
            records_from(buf@, p, j as nat) == Some((all_told(out@), r.pos as int)),
            records_from(buf@, p, total as nat) is None ==> message_in(buf@) is None,
        decreases total - j,
    {
        match read_record(&mut r) {
            Some(q) => {
                let ghost before = all_told(out@);
                let ghost a = q.told();
                out.push(q);
                assert(all_told(out@) =~= before.push(a));
            },
            None => {
                proof {
                    lemma_records_stop(buf@, p, (j + 1) as nat, total as nat);
                }
                return None;
            },
        }
        j += 1;
    }
    Some(Message { questions, records: out })
}

// ------------------------------------------------------------------- writing ---

/// One label: its length, as far as one byte holds it, and its text.
pub open spec fn label_bytes(label: Seq<char>) -> Seq<u8> {
    seq![(encode_utf8(label).len() % 256) as u8] + encode_utf8(label)
}

/// The labels one after another. An empty one is left out when `skip_empty`.
pub open spec fn labels_bytes(labels: Seq<Seq<char>>, skip_empty: bool) -> Seq<u8>
    decreases labels.len(),
{
    if labels.len() == 0 {
        seq![]
    } else if skip_empty && labels[0].len() == 0 {
        labels_bytes(labels.drop_first(), skip_empty)
    } else {
        label_bytes(labels[0]) + labels_bytes(labels.drop_first(), skip_empty)
    }
}

/// A domain name without compression.
pub open spec fn name_bytes(name: Seq<char>) -> Seq<u8> {
    labels_bytes(text::split_text(name, '.'), true).push(0)
}

pub open spec fn record_bytes(
    name: Seq<char>,
    rtype: u16,
    ttl: u32,
    rdata: Seq<u8>,
    flush: bool,
) -> Seq<u8> {
    name_bytes(name) + wire::be_bytes(rtype as nat, 2) + wire::be_bytes(
        if flush {
            0x8001
        } else {
            0x0001
        },
        2,
    ) + wire::be_bytes(ttl as nat, 4) + wire::be_bytes(rdata.len(), 2) + rdata
}

pub open spec fn joined_bytes(parts: Seq<Seq<u8>>) -> Seq<u8>
    decreases parts.len(),
{
    if parts.len() == 0 {
        seq![]
    } else {
        joined_bytes(parts.drop_last()) + parts.last()
    }
}

pub open spec fn byte_strings(v: Seq<Vec<u8>>) -> Seq<Seq<u8>> {
    Seq::new(v.len(), |i: int| v[i]@)
}

/// Id 0, an authoritative response, and `answers` of them.
pub open spec fn response_bytes(answers: Seq<Seq<u8>>) -> Seq<u8> {
    seq![0u8, 0, 0x84, 0, 0, 0] + wire::be_bytes(answers.len(), 2) + seq![0u8, 0, 0, 0]
        + joined_bytes(answers)
}

/// Id 0, a standard query, and one question for a PTR record.
pub open spec fn query_bytes(service: Seq<char>) -> Seq<u8> {
    seq![0u8, 0, 0, 0, 0, 1, 0, 0, 0, 0, 0, 0] + labels_bytes(
        text::split_text(service, '.'),
        false,
    ) + seq![0u8, 0, 12, 0, 1]
}

pub proof fn lemma_labels_push(labels: Seq<Seq<char>>, l: Seq<char>, skip_empty: bool)
    ensures
        labels_bytes(labels.push(l), skip_empty) == labels_bytes(labels, skip_empty) + (
        if skip_empty && l.len() == 0 {
            seq![]
        } else {
            label_bytes(l)
        }),
    decreases labels.len(),
{
    if labels.len() == 0 {
        assert(labels.push(l).drop_first() =~= seq![]);
        reveal_with_fuel(labels_bytes, 2);
        assert(labels_bytes(labels.push(l), skip_empty) =~= labels_bytes(labels, skip_empty) + (
        if skip_empty && l.len() == 0 {
            seq![]
        } else {
            label_bytes(l)
        }));
    } else {
        lemma_labels_push(labels.drop_first(), l, skip_empty);
        assert(labels.push(l).drop_first() =~= labels.drop_first().push(l));
        assert(labels_bytes(labels.push(l), skip_empty) =~= labels_bytes(labels, skip_empty) + (
        if skip_empty && l.len() == 0 {
            seq![]
        } else {
            label_bytes(l)
        }));
    }
}

fn write_labels(out: &mut Vec<u8>, name: &str, skip_empty: bool)
    ensures
        final(out)@ == old(out)@ + labels_bytes(text::split_text(name@, '.'), skip_empty),
{
    let labels = text::split(name, '.');
    let ghost all = text::texts(labels@);
    let mut i: usize = 0;
    assert(all.subrange(0, 0) =~= seq![]);
    assert(out@ =~= old(out)@ + labels_bytes(all.subrange(0, 0), skip_empty));
    while i < labels.len()
        invariant
            i <= labels@.len(),
            all == text::texts(labels@),
            out@ == old(out)@ + labels_bytes(all.subrange(0, i as int), skip_empty),
        decreases labels@.len() - i,
    {
        proof {
            lemma_labels_push(all.subrange(0, i as int), all[i as int], skip_empty);
            assert(all.subrange(0, i + 1) =~= all.subrange(0, i as int).push(all[i as int]));
        }
        let label = labels[i].as_str();
        if !(skip_empty && label.is_empty()) {
            let b = label.as_bytes();
            out.push((b.len() % 256) as u8);
            out.extend_from_slice(b);
        }
        i += 1;
        assert(out@ =~= old(out)@ + labels_bytes(all.subrange(0, i as int), skip_empty));
    }
    assert(all.subrange(0, i as int) =~= all);
}

/// Encode a domain name. No compression: our packets are small, and emitting pointers is
/// where a responder gets subtly wrong in ways peers tolerate silently until one does not.
pub fn encode_name(n: &str) -> (r: Vec<u8>)
    ensures
        r@ == name_bytes(n@),
{
    let mut out: Vec<u8> = Vec::new();
    write_labels(&mut out, n, true);
    out.push(0);
    assert(out@ =~= name_bytes(n@));
    out
}

/// One resource record, ready to append.
pub fn record(name: &str, rtype: u16, ttl: u32, rdata: &[u8], flush: bool) -> (r: Vec<u8>)
    ensures
        r@ == record_bytes(name@, rtype, ttl, rdata@, flush),
{
    let mut out: Vec<u8> = encode_name(name);
    wire::write_uint(&mut out, rtype as u64, 2);
    // The top bit of the class is mDNS's cache-flush bit: "this is authoritative, drop
    // anything else you have for this name".
    let class: u64 = if flush {
        0x8001
    } else {
        0x0001
    };
    wire::write_uint(&mut out, class, 2);
    wire::write_uint(&mut out, ttl as u64, 4);
    wire::write_uint(&mut out, rdata.len() as u64, 2);
    out.extend_from_slice(rdata);
    assert(out@ =~= record_bytes(name@, rtype, ttl, rdata@, flush));
    out
}

/// Wrap answers in a response header.
pub fn response(answers: &[Vec<u8>]) -> (r: Vec<u8>)
    ensures
        r@ == response_bytes(byte_strings(answers@)),
{
    let mut p: Vec<u8> = Vec::new();
    p.push(0);  // id: 0 for mDNS
    p.push(0);
    p.push(0x84);  // response, authoritative
    p.push(0);
    p.push(0);  // qdcount
    p.push(0);
    wire::write_uint(&mut p, answers.len() as u64, 2);
    p.push(0);  // nscount
    p.push(0);
    p.push(0);  // arcount
    p.push(0);
    let ghost head = p@;
    let ghost all = byte_strings(answers@);
    assert(head =~= seq![0u8, 0, 0x84, 0, 0, 0] + wire::be_bytes(all.len(), 2) + seq![
        0u8,
        0,
        0,
        0,
    ]);
    let mut i: usize = 0;
    assert(all.subrange(0, 0) =~= seq![]);
    assert(p@ =~= head + joined_bytes(all.subrange(0, 0)));
    while i < answers.len()
        invariant
            i <= answers@.len(),
            all == byte_strings(answers@),
            p@ == head + joined_bytes(all.subrange(0, i as int)),
        decreases answers@.len() - i,
    {
        assert(all.subrange(0, i + 1).drop_last() =~= all.subrange(0, i as int));
        p.extend_from_slice(answers[i].as_slice());
        i += 1;
        assert(p@ =~= head + joined_bytes(all.subrange(0, i as int)));
    }
    assert(all.subrange(0, i as int) =~= all);
    p
}

/// The first 255 bytes of an entry, behind their number.
pub open spec fn txt_entry(e: Seq<char>) -> Seq<u8> {
    let b = encode_utf8(e);
    if b.len() <= 255 {
        seq![b.len() as u8] + b
    } else {
        seq![255u8] + b.subrange(0, 255)
    }
}

pub open spec fn txt_bytes(entries: Seq<&str>) -> Seq<u8> {
    if entries.len() == 0 {
        seq![0u8]
    } else {
        joined_bytes(Seq::new(entries.len(), |i: int| txt_entry(entries[i]@)))
    }
}

/// Encode TXT rdata from key=value strings. Each entry is length-prefixed.
pub fn txt_rdata(entries: &[&str]) -> (r: Vec<u8>)
    ensures
        r@ == txt_bytes(entries@),
{
    let mut out: Vec<u8> = Vec::new();
    if entries.len() == 0 {
        out.push(0);  // an empty TXT is a single zero-length string, not nothing
        return out;
    }
    let ghost all = Seq::new(entries@.len(), |i: int| txt_entry(entries@[i]@));
    let mut i: usize = 0;
    assert(all.subrange(0, 0) =~= seq![]);
    assert(out@ =~= joined_bytes(all.subrange(0, 0)));
    while i < entries.len()
        invariant
            i <= entries@.len(),
            all == Seq::new(entries@.len(), |i: int| txt_entry(entries@[i]@)),
            out@ == joined_bytes(all.subrange(0, i as int)),
        decreases entries@.len() - i,
    {
        assert(all.subrange(0, i + 1).drop_last() =~= all.subrange(0, i as int));
        let ghost before = out@;
        let b = entries[i].as_bytes();
        if b.len() <= 255 {
            out.push(b.len() as u8);
            out.extend_from_slice(b);
        } else {
            out.push(255);
            out.extend_from_slice(vstd::slice::slice_subrange(b, 0, 255));
        }
        assert(out@ =~= before + all[i as int]);
        i += 1;
    }
    assert(all.subrange(0, i as int) =~= all);
    out
}

/// Build a PTR query for a service type, e.g. `_airdrop._tcp.local`.
pub fn query(service: &str) -> (r: Vec<u8>)
    ensures
        r@ == query_bytes(service@),
{
    let mut p: Vec<u8> = Vec::new();
    p.push(0);  // id: 0 for mDNS
    p.push(0);
    p.push(0);  // flags: standard query
    p.push(0);
    p.push(0);  // qdcount
    p.push(1);
    p.push(0);  // an, ns, ar
    p.push(0);
    p.push(0);
    p.push(0);
    p.push(0);
    p.push(0);
    write_labels(&mut p, service, false);
    p.push(0);
    p.push(0);
    p.push(12);
    // QU bit clear: ask for a multicast response so every listener learns.
    p.push(0);
    p.push(1);
    assert(p@ =~= query_bytes(service@));
    p
}

/// The bits of `n` types from `base` on, the first the most significant.
pub open spec fn type_bits(types: Seq<u16>, base: int, n: nat) -> nat
    decreases n,
{
    if n == 0 {
        0
    } else {
        type_bits(types, base, (n - 1) as nat) * 2 + if types.contains((base + n - 1) as u16) {
            1nat
        } else {
            0nat
        }
    }
}

pub open spec fn largest(types: Seq<u16>) -> nat
    decreases types.len(),
{
    if types.len() == 0 {
        0
    } else {
        let m = largest(types.drop_last());
        if types.last() as nat > m {
            types.last() as nat
        } else {
            m
        }
    }
}

/// "This name, and only these types": the owner as its own successor, then one bitmap of
/// the types below 256.
pub open spec fn nsec_bytes(name: Seq<char>, types: Seq<u16>) -> Seq<u8> {
    let n = largest(types) / 8 + 1;
    name_bytes(name) + seq![0u8, n as u8] + Seq::new(
        n,
        |i: int| type_bits(types, 8 * i, 8) as u8,
    )
}

/// NSEC rdata: the negative answer for every type a name does not have.
pub fn nsec_rdata(name: &str, types: &[u16]) -> (r: Vec<u8>)
    requires
        forall|i: int| 0 <= i < types@.len() ==> (#[trigger] types@[i]) < 256,
    ensures
        r@ == nsec_bytes(name@, types@),
{
    let mut max: u16 = 0;
    let mut i: usize = 0;
    assert(types@.subrange(0, 0) =~= seq![]);
    while i < types.len()
        invariant
            i <= types@.len(),
            max == largest(types@.subrange(0, i as int)),
            max < 256,
            forall|i: int| 0 <= i < types@.len() ==> (#[trigger] types@[i]) < 256,
        decreases types@.len() - i,
    {
        assert(types@.subrange(0, i + 1).drop_last() =~= types@.subrange(0, i as int));
        if types[i] > max {
            max = types[i];
        }
        i += 1;
    }
    assert(types@.subrange(0, i as int) =~= types@);
    let n: u16 = max / 8 + 1;
    let mut out: Vec<u8> = encode_name(name);
    out.push(0);
    out.push(n as u8);
    let ghost head = out@;
    let ghost bits = Seq::new(n as nat, |i: int| type_bits(types@, 8 * i, 8) as u8);
    let mut k: u16 = 0;
    assert(out@ =~= head + bits.subrange(0, 0));
    while k < n
        invariant
            k <= n <= 32,
            bits == Seq::new(n as nat, |i: int| type_bits(types@, 8 * i, 8) as u8),
            out@ == head + bits.subrange(0, k as int),
        decreases n - k,
    {
        let mut b: u16 = 0;
        let mut byte: u32 = 0;
        while b < 8
            invariant
                b <= 8,
                k < n <= 32,
                byte == type_bits(types@, 8 * k as int, b as nat),
                b == 0 ==> byte < 1,
                b == 1 ==> byte < 2,
                b == 2 ==> byte < 4,
                b == 3 ==> byte < 8,
                b == 4 ==> byte < 16,
                b == 5 ==> byte < 32,
                b == 6 ==> byte < 64,
                b == 7 ==> byte < 128,
                b == 8 ==> byte < 256,
            decreases 8 - b,
        {
            let t: u16 = 8 * k + b;
            let mut has = false;
            let mut j: usize = 0;
            while j < types.len()
                invariant
                    j <= types@.len(),
                    has == types@.subrange(0, j as int).contains(t),
                decreases types@.len() - j,
            {
                proof {
                    let p = types@.subrange(0, j as int);
                    let q = types@.subrange(0, j + 1);
                    assert(q =~= p.push(types@[j as int]));
                    if p.contains(t) {
                        let x = choose|x: int| 0 <= x < p.len() && p[x] == t;
                        assert(q[x] == t);
                    }
                    if q.contains(t) {
                        let x = choose|x: int| 0 <= x < q.len() && q[x] == t;
                        if x < p.len() {
                            assert(p[x] == t);
                        }
                    }
                    assert(q[j as int] == types@[j as int]);
                }
                if types[j] == t {
                    has = true;
                }
                j += 1;
            }
            assert(types@.subrange(0, j as int) =~= types@);
            byte = byte * 2 + if has {
                1
            } else {
                0
            };
            b += 1;
        }
        out.push(byte as u8);
        k += 1;
        assert(out@ =~= head + bits.subrange(0, k as int));
    }
    assert(bits.subrange(0, n as int) =~= bits);
    assert(out@ =~= nsec_bytes(name@, types@));
    out
}

} // verus!
