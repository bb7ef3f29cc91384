//! The little of HTTP/1.1 that AirDrop speaks.
//!
//! Everything read here comes from any device on the link. The caller reads as many bytes as
//! it is told to and hands them over; it never reads past the end of a message, because the
//! next one may come on the same connection.

use vstd::prelude::*;
use vstd::utf8::*;
use crate::text;

verus! {

/// Cap on a head. AirDrop's are small; anything larger is either a mistake or an attempt to
/// make us allocate.
pub const MAX_HEAD: usize = 16384;

/// Cap on a request body that is buffered. An `/Ask` for a photo carries a preview per file,
/// so it can be megabytes. `/Upload` is streamed and never counted against this.
pub const MAX_BODY: usize = 8388608;

/// Cap on a response body.
pub const MAX_REPLY: usize = 262144;

/// Cap on a line of chunked framing.
pub const MAX_LINE: usize = 256;

// ------------------------------------------------------------------- heads ---

pub open spec fn blank_line() -> Seq<u8> {
    seq![13u8, 10, 13, 10]
}

pub open spec fn ends_head(b: Seq<u8>) -> bool {
    b.len() >= 4 && b.subrange(b.len() - 4, b.len() as int) == blank_line()
}

/// How much of a head has come.
#[derive(Debug, Clone, Copy, PartialEq, Eq, Structural)]
pub enum HeadStep {
    More,
    /// The blank line is there.
    Complete,
    /// There is no blank line in as much as a head may be.
    TooLarge,
}

pub open spec fn head_step(b: Seq<u8>) -> HeadStep {
    if ends_head(b) {
        HeadStep::Complete
    } else if b.len() >= MAX_HEAD {
        HeadStep::TooLarge
    } else {
        HeadStep::More
    }
}

/// A head on its way in, one byte at a time.
pub struct HeadReader {
    buf: Vec<u8>,
}

impl HeadReader {
    pub closed spec fn view(&self) -> Seq<u8> {
        self.buf@
    }

    pub fn new() -> (r: Self)
        ensures
            r@ == Seq::<u8>::empty(),
    {
        HeadReader { buf: Vec::new() }
    }

    pub fn push(&mut self, b: u8) -> (r: HeadStep)
        ensures
            final(self)@ == old(self)@.push(b),
            r == head_step(final(self)@),
    {
        self.buf.push(b);
        let n: usize = self.buf.len();
        if n >= 4 && self.buf[n - 4] == 13 && self.buf[n - 3] == 10 && self.buf[n - 2] == 13
            && self.buf[n - 1] == 10 {
            assert(self@.subrange(n - 4, n as int) =~= blank_line());
            return HeadStep::Complete;
        }
        proof {
            if ends_head(self@) {
                let tail = self@.subrange(n - 4, n as int);
                assert(tail[0] == 13 && tail[1] == 10 && tail[2] == 13 && tail[3] == 10);
            }
        }
        if n >= MAX_HEAD {
            HeadStep::TooLarge
        } else {
            HeadStep::More
        }
    }

    pub fn text(&self) -> (r: String)
        ensures
            r@ == text::lossy_text(self@),
    {
        text::utf8_lossy(self.buf.as_slice())
    }
}

/// The value of the first header of a name, whatever the case of its letters.
pub open spec fn header_in(lines: Seq<Seq<char>>, name: Seq<char>) -> Option<Seq<char>>
    decreases lines.len(),
{
    if lines.len() == 0 {
        None
    } else {
        let l = lines[0];
        let at = text::find_char(l, ':');
        if at < l.len() && text::ascii_lower_text(text::trim_text(l.subrange(0, at)))
            == text::ascii_lower_text(name) {
            Some(text::trim_text(l.subrange(at + 1, l.len() as int)))
        } else {
            header_in(lines.drop_first(), name)
        }
    }
}

pub open spec fn header_value(head: Seq<char>, name: Seq<char>) -> Option<Seq<char>> {
    header_in(text::split_text(head, '\n'), name)
}

/// Case-insensitive header lookup.
pub fn header(head: &str, name: &str) -> (r: Option<String>)
    ensures
        match r {
            Some(v) => header_value(head@, name@) == Some(v@),
            None => header_value(head@, name@) is None,
        },
{
    let lines = text::split(head, '\n');
    let ghost all = text::texts(lines@);
    let mut i: usize = 0;
    assert(all.subrange(0, all.len() as int) =~= all);
    while i < lines.len()
        invariant
            i <= lines@.len(),
            all == text::texts(lines@),
            all == text::split_text(head@, '\n'),
            header_in(all.subrange(i as int, all.len() as int), name@) == header_in(all, name@),
        decreases lines@.len() - i,
    {
        let ghost rest = all.subrange(i as int, all.len() as int);
        assert(rest.drop_first() =~= all.subrange(i + 1, all.len() as int));
        let v = text::chars_of(lines[i].as_str());
        assert(rest[0] == v@);
        let at: usize = text::find(&v, ':');
        if at < v.len() {
            let before = text::text_of(&v, 0, at);
            let key = text::trim(before.as_str());
            if text::same_ignoring_case(key.as_str(), name) {
                let after = text::text_of(&v, at + 1, v.len());
                return Some(text::trim(after.as_str()));
            }
        }
        i += 1;
    }
    None
}

/// Word `n` of a head; empty when there are fewer.
pub open spec fn word(head: Seq<char>, n: int) -> Seq<char> {
    if 0 <= n < text::words_text(head).len() {
        text::words_text(head)[n]
    } else {
        seq![]
    }
}

/// The first words of a head: method and path of a request, protocol and status of a response.
pub fn first_words(head: &str) -> (r: (String, String))
    ensures
        r.0@ == word(head@, 0),
        r.1@ == word(head@, 1),
{
    let w = text::words(head);
    let ghost all = text::texts(w@);
    let a: String = if w.len() > 0 {
        assert(all[0] == w@[0]@);
        w[0].clone()
    } else {
        String::new()
    };
    let b: String = if w.len() > 1 {
        assert(all[1] == w@[1]@);
        w[1].clone()
    } else {
        String::new()
    };
    assert(a@ =~= word(head@, 0));
    assert(b@ =~= word(head@, 1));
    (a, b)
}

pub open spec fn is_chunked(head: Seq<char>) -> bool {
    match header_value(head, "transfer-encoding"@) {
        Some(v) => text::contains_text(text::ascii_lower_text(v), "chunked"@),
        None => false,
    }
}

pub fn chunked(head: &str) -> (r: bool)
    ensures
        r == is_chunked(head@),
{
    match header(head, "transfer-encoding") {
        Some(v) => {
            let l = text::to_lower(v.as_str());
            text::contains(l.as_str(), "chunked")
        },
        None => false,
    }
}

/// A header that must be a number; `None` when it is not there or no number up to `max`.
pub open spec fn number_header(head: Seq<char>, name: Seq<char>, max: nat) -> Option<nat> {
    match header_value(head, name) {
        Some(v) => text::parsed_uint(v, 10, max),
        None => None,
    }
}

pub fn number(head: &str, name: &str, max: u64) -> (r: Option<u64>)
    ensures
        match r {
            Some(n) => number_header(head@, name@, max as nat) == Some(n as nat),
            None => number_header(head@, name@, max as nat) is None,
        },
{
    match header(head, name) {
        Some(v) => text::parse_uint(v.as_str(), 10, max),
        None => None,
    }
}

pub open spec fn wants_keep_alive(head: Seq<char>) -> bool {
    match header_value(head, "connection"@) {
        Some(v) => text::ascii_lower_text(v) == text::ascii_lower_text("keep-alive"@),
        None => false,
    }
}

/// Whether the peer asks for the connection to be kept.
pub fn keep_alive(head: &str) -> (r: bool)
    ensures
        r == wants_keep_alive(head@),
{
    match header(head, "connection") {
        Some(v) => text::same_ignoring_case(v.as_str(), "keep-alive"),
        None => false,
    }
}

// ------------------------------------------------------------------ bodies ---

/// How a request body is to be read.
#[derive(Debug, Clone, Copy, PartialEq, Eq, Structural)]
pub enum BodyPlan {
    Chunked,
    Exact(usize),
    /// More than will be buffered. Unread bytes stay in the socket, so the connection cannot
    /// carry another request.
    TooLarge,
}

pub open spec fn body_plan(head: Seq<char>) -> BodyPlan {
    if is_chunked(head) {
        BodyPlan::Chunked
    } else {
        match number_header(head, "content-length"@, usize::MAX as nat) {
            Some(n) => if n > MAX_BODY {
                BodyPlan::TooLarge
            } else {
                BodyPlan::Exact(n as usize)
            },
            None => BodyPlan::Exact(0),
        }
    }
}

/// How to read the body behind a request head. AirDrop sends `Transfer-Encoding: chunked` and
/// no `Content-Length`; a reader that only understood the latter would leave the body queued.
pub fn read_body(head: &str) -> (r: BodyPlan)
    ensures
        r == body_plan(head@),
{
    if chunked(head) {
        return BodyPlan::Chunked;
    }
    match number(head, "content-length", usize::MAX as u64) {
        Some(n) => if n > MAX_BODY as u64 {
            BodyPlan::TooLarge
        } else {
            BodyPlan::Exact(n as usize)
        },
        None => BodyPlan::Exact(0),
    }
}

// ----------------------------------------------------------------- chunked ---

/// Where in a chunked body the next byte falls.
#[verifier::ext_equal]
pub enum Phase {
    /// In a line that gives the size of a chunk.
    Size(Seq<u8>),
    /// In a chunk, with so many bytes to come.
    Data(nat),
    /// In what is left of the line behind a chunk.
    DataEnd(Seq<u8>),
    /// In a trailer line.
    Trailer(Seq<u8>),
    /// The body is over.
    Finished,
    /// The body is larger than allowed, and more of it is queued.
    Desynced,
}

/// A chunked body, as far as it has come.
#[verifier::ext_equal]
pub struct Chunks {
    pub phase: Phase,
    /// What has come since it was last taken away.
    pub body: Seq<u8>,
    /// How much has come in all.
    pub received: nat,
    /// How much may come in all, if there is a bound.
    pub limit: Option<nat>,
}

/// A line without the carriage returns at its end.
pub open spec fn chomped(line: Seq<u8>) -> Seq<u8>
    decreases line.len(),
{
    if line.len() > 0 && line.last() == 13 {
        chomped(line.drop_last())
    } else {
        line
    }
}

/// The number in a size line: hexadecimal digits and nothing else, before any parameters.
pub open spec fn chunk_size(line: Seq<u8>) -> Option<nat> {
    let digits = text::trim_text(text::before_first(text::lossy_text(chomped(line)), ';'));
    if text::all_digits(digits, 16) {
        text::parsed_uint(digits, 16, usize::MAX as nat)
    } else {
        None
    }
}

impl Chunks {
    /// Whether a body of so many bytes is allowed.
    pub open spec fn allows(self, n: nat) -> bool {
        match self.limit {
            Some(limit) => n <= limit,
            None => true,
        }
    }

    pub open spec fn started(limit: Option<nat>) -> Chunks {
        Chunks { phase: Phase::Size(seq![]), body: seq![], received: 0, limit }
    }

    pub open spec fn at(self, phase: Phase) -> Chunks {
        Chunks { phase, ..self }
    }

    /// A size line is complete.
    pub open spec fn sized(self, line: Seq<u8>) -> Chunks {
        match chunk_size(line) {
            // Malformed: stop rather than guess.
            None => self.at(Phase::Finished),
            Some(n) => if n == 0 {
                self.at(Phase::Trailer(seq![]))
            } else if !self.allows(self.received + n) {
                self.at(Phase::Desynced)
            } else {
                self.at(Phase::Data(n))
            },
        }
    }

    pub open spec fn after(self, b: u8) -> Chunks {
        match self.phase {
            Phase::Size(line) => if b == 10 {
                self.sized(line)
            } else if line.len() + 1 >= MAX_LINE {
                self.at(Phase::Finished)
            } else {
                self.at(Phase::Size(line.push(b)))
            },
            Phase::Data(left) => Chunks {
                phase: if left <= 1 {
                    Phase::DataEnd(seq![])
                } else {
                    Phase::Data((left - 1) as nat)
                },
                body: self.body.push(b),
                received: self.received + 1,
                limit: self.limit,
            },
            Phase::DataEnd(line) => if b == 10 || line.len() + 1 >= MAX_LINE {
                self.at(Phase::Size(seq![]))
            } else {
                self.at(Phase::DataEnd(line.push(b)))
            },
            Phase::Trailer(line) => if b == 10 {
                if chomped(line).len() == 0 {
                    self.at(Phase::Finished)
                } else {
                    self.at(Phase::Trailer(seq![]))
                }
            } else if line.len() + 1 >= MAX_LINE {
                self.at(Phase::Finished)
            } else {
                self.at(Phase::Trailer(line.push(b)))
            },
            Phase::Finished => self,
            Phase::Desynced => self,
        }
    }

    pub open spec fn after_all(self, b: Seq<u8>) -> Chunks
        decreases b.len(),
    {
        if b.len() == 0 {
            self
        } else {
            self.after_all(b.drop_last()).after(b.last())
        }
    }

    pub open spec fn wf(self) -> bool {
        &&& self.allows(self.received)
        &&& match self.phase {
            Phase::Size(l) => l.len() < MAX_LINE,
            Phase::DataEnd(l) => l.len() < MAX_LINE,
            Phase::Trailer(l) => l.len() < MAX_LINE,
            Phase::Data(n) => 0 < n && self.allows(self.received + n),
            _ => true,
        }
    }
}

#[derive(Debug, Clone, Copy, PartialEq, Eq, Structural)]
enum Mark {
    Size,
    Data,
    DataEnd,
    Trailer,
    Finished,
    Desynced,
}

/// Reads a chunked body: each chunk is a hex length, CRLF, that many bytes, CRLF; a zero
/// length ends the body, optionally followed by trailers, which are skipped.
pub struct ChunkDecoder {
    mark: Mark,
    line: Vec<u8>,
    left: u64,
    body: Vec<u8>,
    received: u64,
    limit: Option<u64>,
}

impl ChunkDecoder {
    pub closed spec fn view(&self) -> Chunks {
        Chunks {
            phase: match self.mark {
                Mark::Size => Phase::Size(self.line@),
                Mark::Data => Phase::Data(self.left as nat),
                Mark::DataEnd => Phase::DataEnd(self.line@),
                Mark::Trailer => Phase::Trailer(self.line@),
                Mark::Finished => Phase::Finished,
                Mark::Desynced => Phase::Desynced,
            },
            body: self.body@,
            received: self.received as nat,
            limit: match self.limit {
                Some(n) => Some(n as nat),
                None => None,
            },
        }
    }

    /// A body of at most `limit` bytes, or of any size.
    pub fn new(limit: Option<u64>) -> (r: Self)
        ensures
            r@ == Chunks::started(
                match limit {
                    Some(n) => Some(n as nat),
                    None => None,
                },
            ),
            r@.wf(),
    {
        let r = ChunkDecoder {
            mark: Mark::Size,
            line: Vec::new(),
            left: 0,
            body: Vec::new(),
            received: 0,
            limit,
        };
        assert(r@ =~= Chunks::started(
            match limit {
                Some(n) => Some(n as nat),
                None => None,
            },
        ));
        r
    }

    /// How many bytes to read next: none once the body is over.
    pub fn wants(&self) -> (r: u64)
        ensures
            r == (match self@.phase {
                Phase::Data(left) => left,
                Phase::Finished => 0,
                Phase::Desynced => 0,
                _ => 1,
            }),
    {
        match self.mark {
            Mark::Data => self.left,
            Mark::Finished => 0,
            Mark::Desynced => 0,
            _ => 1,
        }
    }

    pub fn desynced(&self) -> (r: bool)
        ensures
            r == (self@.phase is Desynced),
    {
        match self.mark {
            Mark::Desynced => true,
            _ => false,
        }
    }

    /// How much of the body has come in all.
    pub fn received(&self) -> (r: u64)
        ensures
            r == self@.received,
    {
        self.received
    }

    /// What has come since this was last asked.
    pub fn take(&mut self) -> (r: Vec<u8>)
        requires
            old(self)@.wf(),
        ensures
            r@ == old(self)@.body,
            final(self)@ == (Chunks { body: seq![], ..old(self)@ }),
            final(self)@.wf(),
    {
        let mut out: Vec<u8> = Vec::new();
        std::mem::swap(&mut out, &mut self.body);
        assert(self@ =~= (Chunks { body: seq![], ..old(self)@ }));
        out
    }

    fn chomp(&mut self)
        ensures
            final(self).line@ == chomped(old(self).line@),
            final(self).mark == old(self).mark,
            final(self).left == old(self).left,
            final(self).body == old(self).body,
            final(self).received == old(self).received,
            final(self).limit == old(self).limit,
    {
        while self.line.len() > 0 && self.line[self.line.len() - 1] == 13
            invariant
                chomped(self.line@) == chomped(old(self).line@),
                self.mark == old(self).mark,
                self.left == old(self).left,
                self.body == old(self).body,
                self.received == old(self).received,
                self.limit == old(self).limit,
            decreases self.line@.len(),
        {
            self.line.pop();
        }
    }

    fn sized(&mut self)
        requires
            old(self)@.wf(),
            old(self).mark == Mark::Size,
        ensures
            final(self)@ == old(self)@.sized(old(self).line@),
            final(self)@.wf(),
    {
        let ghost before = self@;
        let ghost line = self.line@;
        self.chomp();
        let t = text::utf8_lossy(self.line.as_slice());
        let p = text::first_piece(t.as_str(), ';');
        let q = text::trim(p.as_str());
        let c = text::chars_of(q.as_str());
        let signed: bool = c.len() > 0 && c[0] == '+';
        let size: Option<u64> = if signed {
            None
        } else {
            text::parse_uint(q.as_str(), 16, usize::MAX as u64)
        };
        assert(signed ==> !text::all_digits(q@, 16)) by {
            if signed {
                assert(text::digit_value(q@[0]) == 36);
            }
        }
        self.line = Vec::new();
        let room: u64 = match self.limit {
            Some(limit) => limit - self.received,
            None => u64::MAX,
        };
        match size {
            None => {
                self.mark = Mark::Finished;
            },
            Some(n) => {
                if n == 0 {
                    self.mark = Mark::Trailer;
                } else if n > room {
                    self.mark = Mark::Desynced;
                } else {
                    self.mark = Mark::Data;
                    self.left = n;
                }
            },
        }
        assert(self@ =~= before.sized(line));
    }

    fn push(&mut self, b: u8)
        requires
            old(self)@.wf(),
            old(self)@.received < u64::MAX,
        ensures
            final(self)@ == old(self)@.after(b),
            final(self)@.wf(),
            final(self)@.received <= old(self)@.received + 1,
    {
        let ghost before = self@;
        match self.mark {
            Mark::Size => {
                if b == 10 {
                    self.sized();
                } else if self.line.len() + 1 >= MAX_LINE {
                    self.mark = Mark::Finished;
                } else {
                    self.line.push(b);
                }
            },
            Mark::Data => {
                self.body.push(b);
                self.received = self.received + 1;
                self.left = self.left - 1;
                if self.left == 0 {
                    self.mark = Mark::DataEnd;
                    self.line = Vec::new();
                }
            },
            Mark::DataEnd => {
                if b == 10 || self.line.len() + 1 >= MAX_LINE {
                    self.mark = Mark::Size;
                    self.line = Vec::new();
                } else {
                    self.line.push(b);
                }
            },
            Mark::Trailer => {
                if b == 10 {
                    let ghost line = self.line@;
                    self.chomp();
                    if self.line.len() == 0 {
                        self.mark = Mark::Finished;
                    } else {
                        self.line = Vec::new();
                    }
                } else if self.line.len() + 1 >= MAX_LINE {
                    self.mark = Mark::Finished;
                } else {
                    self.line.push(b);
                }
            },
            Mark::Finished => {},
            Mark::Desynced => {},
        }
        assert(self@ =~= before.after(b));
    }

    /// Take in some bytes. They may be cut anywhere.
    pub fn feed(&mut self, bytes: &[u8])
        requires
            old(self)@.wf(),
            old(self)@.received + bytes@.len() <= u64::MAX,
        ensures
            final(self)@ == old(self)@.after_all(bytes@),
            final(self)@.wf(),
    {
        let mut i: usize = 0;
        assert(bytes@.subrange(0, 0) =~= seq![]);
        while i < bytes.len()
            invariant
                i <= bytes@.len(),
                self@.wf(),
                self@ == old(self)@.after_all(bytes@.subrange(0, i as int)),
                self@.received <= old(self)@.received + i,
                old(self)@.received + bytes@.len() <= u64::MAX,
            decreases bytes@.len() - i,
        {
            assert(bytes@.subrange(0, i + 1).drop_last() =~= bytes@.subrange(0, i as int));
            self.push(bytes[i]);
            i += 1;
        }
        assert(bytes@.subrange(0, i as int) =~= bytes@);
    }
}

/// How much of the start of a body is kept, to tell what it is.
pub const SNIFF: usize = 16;

/// A chunked body that is passed on as it comes, rather than kept.
#[verifier::ext_equal]
pub struct Passing {
    pub chunks: Chunks,
    /// The first bytes of it.
    pub sniff: Seq<u8>,
}

/// The first bytes of a body, once more of it has come.
pub open spec fn sniffed(sniff: Seq<u8>, data: Seq<u8>) -> Seq<u8> {
    if sniff.len() >= SNIFF {
        sniff
    } else {
        let room = SNIFF - sniff.len();
        sniff + data.take(
            if data.len() < room {
                data.len() as int
            } else {
                room
            },
        )
    }
}

impl Passing {
    pub open spec fn started() -> Passing {
        Passing { chunks: Chunks::started(None), sniff: seq![] }
    }

    /// After some bytes: the state, and what is to be passed on.
    pub open spec fn after(self, bytes: Seq<u8>) -> (Passing, Seq<u8>) {
        let next = self.chunks.after_all(bytes);
        (
            Passing {
                chunks: Chunks { body: seq![], ..next },
                sniff: sniffed(self.sniff, next.body),
            },
            next.body,
        )
    }

    pub open spec fn wf(self) -> bool {
        &&& self.chunks.wf()
        &&& self.chunks.body.len() == 0
    }
}

/// Streams a chunked body of any size.
pub struct ChunkStream {
    chunks: ChunkDecoder,
    sniff: Vec<u8>,
}

impl ChunkStream {
    pub closed spec fn view(&self) -> Passing {
        Passing { chunks: self.chunks@, sniff: self.sniff@ }
    }

    pub fn new() -> (r: Self)
        ensures
            r@ == Passing::started(),
            r@.wf(),
    {
        let r = ChunkStream { chunks: ChunkDecoder::new(None), sniff: Vec::new() };
        assert(r@ =~= Passing::started());
        r
    }

    /// How many bytes to read next: none once the body is over.
    pub fn wants(&self) -> (r: u64)
        ensures
            r == (match self@.chunks.phase {
                Phase::Data(left) => left,
                Phase::Finished => 0,
                Phase::Desynced => 0,
                _ => 1,
            }),
    {
        self.chunks.wants()
    }

    /// How much has been passed on.
    pub fn received(&self) -> (r: u64)
        ensures
            r == self@.chunks.received,
    {
        self.chunks.received()
    }

    /// The first bytes of the body.
    pub fn sniff(&self) -> (r: &Vec<u8>)
        ensures
            r@ == self@.sniff,
    {
        &self.sniff
    }

    /// Take in some bytes: what to pass on now. If that is anything, progress is to be
    /// reported.
    pub fn stream_chunked(&mut self, bytes: &[u8]) -> (r: Vec<u8>)
        requires
            old(self)@.wf(),
            old(self)@.chunks.received + bytes@.len() <= u64::MAX,
        ensures
            (final(self)@, r@) == old(self)@.after(bytes@),
            final(self)@.wf(),
    {
        let ghost before = self@;
        self.chunks.feed(bytes);
        let data = self.chunks.take();
        let ghost had = self.sniff@;
        let mut i: usize = 0;
        assert(data@.take(0) =~= seq![]);
        assert(had + data@.take(0) =~= had);
        while self.sniff.len() < SNIFF && i < data.len()
            invariant
                i <= data@.len(),
                self.sniff@ == had + data@.take(i as int),
                i > 0 ==> had.len() + i <= SNIFF,
                self.chunks@ == (Chunks { body: seq![], ..before.chunks.after_all(bytes@) }),
                self.chunks@.wf(),
            decreases data@.len() - i,
        {
            self.sniff.push(data[i]);
            i += 1;
            assert(self.sniff@ =~= had + data@.take(i as int));
        }
        assert(self.sniff@ =~= sniffed(had, data@));
        assert(self@ =~= before.after(bytes@).0);
        data
    }
}

/// The framing of one chunk: its length in hexadecimal, and the data. Nothing at all for no
/// data, since a chunk without any ends the body.
pub open spec fn chunk_bytes(data: Seq<u8>) -> Seq<u8> {
    if data.len() == 0 {
        seq![]
    } else {
        encode_utf8(text::hexadecimal(data.len())) + seq![13u8, 10] + data + seq![13u8, 10]
    }
}

/// The chunk that ends the body. Without it the peer waits forever.
pub open spec fn last_chunk() -> Seq<u8> {
    seq![0x30u8, 13, 10, 13, 10]
}

pub fn chunk(data: &[u8]) -> (r: Vec<u8>)
    ensures
        r@ == chunk_bytes(data@),
{
    let mut out: Vec<u8> = Vec::new();
    if data.len() == 0 {
        return out;
    }
    let mut size = String::new();
    text::push_hexadecimal(&mut size, data.len() as u64);
    assert(size@ =~= text::hexadecimal(data@.len()));
    out.extend_from_slice(size.as_str().as_bytes());
    out.push(13);
    out.push(10);
    out.extend_from_slice(data);
    out.push(13);
    out.push(10);
    assert(out@ =~= chunk_bytes(data@));
    out
}

pub fn chunk_end() -> (r: Vec<u8>)
    ensures
        r@ == last_chunk(),
{
    let mut out: Vec<u8> = Vec::new();
    out.push(0x30);
    out.push(13);
    out.push(10);
    out.push(13);
    out.push(10);
    assert(out@ =~= last_chunk());
    out
}

/// Chunks one after another.
pub open spec fn chunks_bytes(parts: Seq<Seq<u8>>) -> Seq<u8>
    decreases parts.len(),
{
    if parts.len() == 0 {
        seq![]
    } else {
        chunks_bytes(parts.drop_last()) + chunk_bytes(parts.last())
    }
}

pub open spec fn joined(parts: Seq<Seq<u8>>) -> Seq<u8>
    decreases parts.len(),
{
    if parts.len() == 0 {
        seq![]
    } else {
        joined(parts.drop_last()) + parts.last()
    }
}

proof fn lemma_after_concat(s: Chunks, a: Seq<u8>, b: Seq<u8>)
    ensures
        s.after_all(a + b) == s.after_all(a).after_all(b),
    decreases b.len(),
{
    if b.len() == 0 {
        assert(a + b =~= a);
    } else {
        lemma_after_concat(s, a, b.drop_last());
        assert((a + b).drop_last() =~= a + b.drop_last());
        assert((a + b).last() == b.last());
    }
}

/// A line that is no longer than a line may be comes in whole.
proof fn lemma_line_in(s: Chunks, line: Seq<u8>)
    requires
        s.phase == Phase::Size(seq![]),
        line.len() < MAX_LINE,
        forall|i: int| 0 <= i < line.len() ==> (#[trigger] line[i]) != 10,
    ensures
        s.after_all(line) == s.at(Phase::Size(line)),
    decreases line.len(),
{
    if line.len() == 0 {
        assert(line =~= seq![]);
        assert(s =~= s.at(Phase::Size(line)));
    } else {
        let d = line.drop_last();
        assert forall|i: int| 0 <= i < d.len() implies (#[trigger] d[i]) != 10 by {
            assert(d[i] == line[i]);
        }
        lemma_line_in(s, d);
        assert(line.last() == line[line.len() - 1]);
        assert(d.push(line.last()) =~= line);
    }
}

proof fn lemma_data_in(s: Chunks, left: nat, data: Seq<u8>)
    requires
        s.phase == Phase::Data(left),
        0 < data.len() <= left,
    ensures
        s.after_all(data) == (Chunks {
            phase: if data.len() == left {
                Phase::DataEnd(seq![])
            } else {
                Phase::Data((left - data.len()) as nat)
            },
            body: s.body + data,
            received: s.received + data.len(),
            limit: s.limit,
        }),
    decreases data.len(),
{
    let d = data.drop_last();
    if d.len() == 0 {
        assert(s.after_all(d) == s);
        assert(s.body.push(data.last()) =~= s.body + data);
    } else {
        lemma_data_in(s, left, d);
        assert((s.body + d).push(data.last()) =~= s.body + data);
    }
}

spec fn pow16(k: nat) -> nat
    decreases k,
{
    if k == 0 {
        1
    } else {
        16 * pow16((k - 1) as nat)
    }
}

/// A number of so many digits at most, all of them ASCII.
proof fn lemma_hexadecimal_digits(n: nat, k: nat)
    requires
        k > 0,
        n < pow16(k),
    ensures
        0 < text::hexadecimal(n).len() <= k,
        forall|i: int|
            0 <= i < text::hexadecimal(n).len() ==> '0' <= #[trigger] text::hexadecimal(n)[i]
                && text::hexadecimal(n)[i] <= 'f',
    decreases k,
{
    if n >= 16 {
        if k == 1 {
            reveal_with_fuel(pow16, 2);
            assert(false);
        }
        lemma_hexadecimal_digits(n / 16, (k - 1) as nat);
    }
}

/// The size line of a chunk says its size.
proof fn lemma_size_line(n: nat)
    requires
        0 < n <= usize::MAX,
    ensures
        ({
            let line = encode_utf8(text::hexadecimal(n)) + seq![13u8];
            &&& chunk_size(line) == Some(n)
            &&& line.len() < MAX_LINE
            &&& forall|i: int| 0 <= i < line.len() ==> (#[trigger] line[i]) != 10
        }),
{
    let h = text::hexadecimal(n);
    assert(n < pow16(16)) by {
        reveal_with_fuel(pow16, 17);
    }
    lemma_hexadecimal_digits(n, 16);
    assert(is_ascii_chars(h));
    is_ascii_chars_encode_utf8(h);
    encode_utf8_decode_utf8(h);
    encode_utf8_valid_utf8(h);
    let e = encode_utf8(h);
    let line = e + seq![13u8];
    assert forall|i: int| 0 <= i < e.len() implies (#[trigger] e[i]) != 10 && e[i] != 13 by {
        assert(h[i] as u8 == e[i]);
    }
    assert(line.drop_last() =~= e);
    assert(chomped(e) == e) by {
        assert(e.last() == e[e.len() - 1]);
    }
    assert(chomped(line) == e);
    assert forall|j: int| 0 <= j < h.len() implies h[j] != ';' by {
        assert('0' <= h[j] && h[j] <= 'f');
        lemma_hex_char(n, j);
    }
    text::lemma_find_char_unique(h, ';', h.len() as int);
    assert(text::before_first(h, ';') =~= h);
    lemma_hex_char(n, 0);
    lemma_hex_char(n, h.len() - 1);
    lemma_trim_plain(h);
    text::law_hexadecimal_parses(n, usize::MAX as nat);
}

/// Each digit is a digit or one of six letters.
proof fn lemma_hex_char(n: nat, i: int)
    requires
        0 <= i < text::hexadecimal(n).len(),
    ensures
        text::ascii_digit(text::hexadecimal(n)[i]) || 'a' <= text::hexadecimal(n)[i] <= 'f',
    decreases n,
{
    if n >= 16 && i < text::hexadecimal(n).len() - 1 {
        assert(text::hexadecimal(n / 16)[i] == text::hexadecimal(n)[i]);
        lemma_hex_char(n / 16, i);
    }
}

/// Nothing is trimmed from what begins and ends with a visible character.
proof fn lemma_trim_plain(s: Seq<char>)
    requires
        s.len() > 0,
        !text::white_space(s[0]),
        !text::white_space(s.last()),
    ensures
        text::trim_text(s) == s,
{
}

proof fn lemma_chunk_in(s: Chunks, data: Seq<u8>)
    requires
        s.phase == Phase::Size(seq![]),
        data.len() <= usize::MAX,
        s.allows(s.received + data.len()),
    ensures
        s.after_all(chunk_bytes(data)) == (Chunks {
            phase: Phase::Size(seq![]),
            body: s.body + data,
            received: s.received + data.len(),
            limit: s.limit,
        }),
{
    if data.len() == 0 {
        assert(s.body + data =~= s.body);
    } else {
        let n = data.len();
        let line = encode_utf8(text::hexadecimal(n)) + seq![13u8];
        lemma_size_line(n);
        let s1 = s.after_all(line);
        lemma_line_in(s, line);
        let lf = seq![10u8];
        assert(lf.drop_last() =~= seq![]);
        assert(lf.last() == 10);
        let s2 = s1.after_all(lf);
        reveal_with_fuel(Chunks::after_all, 3);
        assert(s1.after_all(lf) == s1.after(10));
        assert(s2 == s.at(Phase::Data(n)));
        let s3 = s2.after_all(data);
        lemma_data_in(s2, n, data);
        let cr = seq![13u8];
        assert(cr.drop_last() =~= seq![]);
        let s4 = s3.after_all(cr);
        assert(s4 == s3.after(13));
        let s5 = s4.after_all(lf);
        assert(s5 == s4.after(10));
        let whole = chunk_bytes(data);
        assert(whole =~= ((((line + lf) + data) + cr) + lf));
        lemma_after_concat(s, line, lf);
        lemma_after_concat(s, line + lf, data);
        lemma_after_concat(s, line + lf + data, cr);
        lemma_after_concat(s, line + lf + data + cr, lf);
        assert(s5 =~= (Chunks {
            phase: Phase::Size(seq![]),
            body: s.body + data,
            received: s.received + data.len(),
            limit: s.limit,
        }));
    }
}

proof fn lemma_chunks_in(parts: Seq<Seq<u8>>, limit: Option<nat>)
    requires
        forall|i: int| 0 <= i < parts.len() ==> (#[trigger] parts[i]).len() <= usize::MAX,
        Chunks::started(limit).allows(joined(parts).len()),
    ensures
        Chunks::started(limit).after_all(chunks_bytes(parts)) == (Chunks {
            phase: Phase::Size(seq![]),
            body: joined(parts),
            received: joined(parts).len(),
            limit,
        }),
    decreases parts.len(),
{
    let s = Chunks::started(limit);
    if parts.len() > 0 {
        let d = parts.drop_last();
        assert forall|i: int| 0 <= i < d.len() implies (#[trigger] d[i]).len() <= usize::MAX by {
            assert(d[i] == parts[i]);
        }
        lemma_chunks_in(d, limit);
        assert(parts.last() == parts[parts.len() - 1]);
        lemma_after_concat(s, chunks_bytes(d), chunk_bytes(parts.last()));
        lemma_chunk_in(s.after_all(chunks_bytes(d)), parts.last());
    }
}

/// What is written in chunks is read back: after the chunk that ends the body the reader is
/// done, has exactly the data, however they were cut into chunks, and wants no more.
pub proof fn law_chunked_round_trip(parts: Seq<Seq<u8>>, limit: Option<nat>)
    requires
        forall|i: int| 0 <= i < parts.len() ==> (#[trigger] parts[i]).len() <= usize::MAX,
        Chunks::started(limit).allows(joined(parts).len()),
    ensures
        Chunks::started(limit).after_all(chunks_bytes(parts) + last_chunk()) == (Chunks {
            phase: Phase::Finished,
            body: joined(parts),
            received: joined(parts).len(),
            limit,
        }),
{
    let s = Chunks::started(limit);
    lemma_chunks_in(parts, limit);
    lemma_after_concat(s, chunks_bytes(parts), last_chunk());
    let t = s.after_all(chunks_bytes(parts));
    let zero = seq![0x30u8, 13];
    let lf = seq![10u8];
    let cr = seq![13u8];
    assert(last_chunk() =~= ((zero + lf) + cr) + lf);
    lemma_line_in(t, zero);
    lemma_after_concat(t, zero, lf);
    lemma_after_concat(t, zero + lf, cr);
    lemma_after_concat(t, zero + lf + cr, lf);
    reveal_with_fuel(Chunks::after_all, 3);
    assert(lf.drop_last() =~= seq![]);
    assert(cr.drop_last() =~= seq![]);
    lemma_zero_line();
    let t1 = t.after_all(zero);
    let t2 = t1.after_all(lf);
    assert(t2 == t1.after(10));
    let t3 = t2.after_all(cr);
    assert(t3 == t2.after(13));
    let t4 = t3.after_all(lf);
    assert(t4 == t3.after(10));
    let last = Seq::<u8>::empty().push(13u8);
    assert(last.drop_last() =~= seq![]);
    reveal_with_fuel(chomped, 3);
    assert(chomped(last).len() == 0);
}

/// What has come in all is what was kept of it, as long as nothing is taken away.
proof fn lemma_received(limit: Option<nat>, b: Seq<u8>)
    ensures
        Chunks::started(limit).after_all(b).received == Chunks::started(limit).after_all(
            b,
        ).body.len(),
        Chunks::started(limit).after_all(b).limit == limit,
    decreases b.len(),
{
    if b.len() > 0 {
        lemma_received(limit, b.drop_last());
    }
}

/// As long as a bound is not reached, it changes nothing.
proof fn lemma_bound_unfelt(limit: Option<nat>, b: Seq<u8>)
    requires
        Chunks::started(limit).after_all(b).phase !is Desynced,
    ensures
        Chunks::started(None).after_all(b) == (Chunks {
            limit: None,
            ..Chunks::started(limit).after_all(b)
        }),
    decreases b.len(),
{
    if b.len() > 0 {
        let before = Chunks::started(limit).after_all(b.drop_last());
        lemma_received(limit, b.drop_last());
        if before.phase is Desynced {
            assert(before.after(b.last()) == before);
        }
        lemma_bound_unfelt(limit, b.drop_last());
    }
}

/// To take away what has come changes nothing of what comes after it.
proof fn lemma_taken_away(s: Chunks, b: Seq<u8>)
    ensures
        (Chunks { body: seq![], ..s }).after_all(b) == (Chunks {
            body: s.after_all(b).body.skip(s.body.len() as int),
            ..s.after_all(b)
        }),
        s.body.is_prefix_of(s.after_all(b).body),
    decreases b.len(),
{
    let n = s.body.len() as int;
    let t = s.after_all(b);
    let u = (Chunks { body: seq![], ..s }).after_all(b);
    if b.len() == 0 {
        assert(s.body.skip(n) =~= seq![]);
        assert(s.body.take(n) =~= s.body);
    } else {
        let t0 = s.after_all(b.drop_last());
        lemma_taken_away(s, b.drop_last());
        if t0.phase is Data {
            assert(t0.body.push(b.last()).skip(n) =~= t0.body.skip(n).push(b.last()));
            assert(t.body.take(n) =~= t0.body.take(n));
            assert(s.body =~= t.body.take(n));
        } else {
            assert(t.body == t0.body);
        }
    }
}

/// A streamed body: the state, everything that was passed on, and the totals that were
/// reported on the way.
pub open spec fn streamed(parts: Seq<Seq<u8>>) -> (Passing, Seq<u8>, Seq<nat>)
    decreases parts.len(),
{
    if parts.len() == 0 {
        (Passing::started(), seq![], seq![])
    } else {
        let before = streamed(parts.drop_last());
        let now = before.0.after(parts.last());
        (
            now.0,
            before.1 + now.1,
            if now.1.len() > 0 {
                before.2.push(now.0.chunks.received)
            } else {
                before.2
            },
        )
    }
}

proof fn lemma_streamed(parts: Seq<Seq<u8>>)
    ensures
        ({
            let (p, out, totals) = streamed(parts);
            let whole = Chunks::started(None).after_all(joined(parts));
            &&& p.chunks == (Chunks { body: seq![], ..whole })
            &&& out == whole.body
            &&& p.sniff == out.take(
                if out.len() < SNIFF {
                    out.len() as int
                } else {
                    SNIFF as int
                },
            )
            &&& totals.len() == 0 <==> out.len() == 0
            &&& totals.len() > 0 ==> totals.last() == out.len()
            &&& forall|i: int| 0 <= i < totals.len() ==> 0 < #[trigger] totals[i] <= out.len()
            &&& forall|i: int, j: int| 0 <= i < j < totals.len() ==> totals[i] < totals[j]
        }),
    decreases parts.len(),
{
    if parts.len() == 0 {
        assert(streamed(parts).1.take(0) =~= seq![]);
    } else {
        let front = parts.drop_last();
        let last = parts.last();
        lemma_streamed(front);
        let (p, out, totals) = streamed(front);
        let s = Chunks::started(None).after_all(joined(front));
        let t = Chunks::started(None).after_all(joined(parts));
        lemma_after_concat(Chunks::started(None), joined(front), last);
        assert(joined(parts) == joined(front) + last);
        lemma_taken_away(s, last);
        lemma_received(None, joined(front));
        lemma_received(None, joined(parts));
        let data = p.chunks.after_all(last).body;
        assert(data == t.body.skip(s.body.len() as int));
        assert(out + data =~= t.body) by {
            assert(s.body =~= t.body.take(s.body.len() as int));
        }
        let n: int = if t.body.len() < SNIFF {
            t.body.len() as int
        } else {
            SNIFF as int
        };
        assert(sniffed(p.sniff, data) =~= t.body.take(n));
    }
}

/// A size line decides: what is no size ends the reading, a size that would be too much stops it
/// with bytes unread, no size at all leads to the trailer, and any other is how much data
/// follows. What was read before is kept in every case, and once the reading is over nothing
/// changes it.
pub proof fn law_size_line_decides(s: Chunks, line: Seq<u8>, more: Seq<u8>)
    requires
        s.phase == Phase::Size(seq![]),
        line.len() < MAX_LINE,
        forall|i: int| 0 <= i < line.len() ==> (#[trigger] line[i]) != 10,
    ensures
        ({
            let after = s.after_all(line.push(10));
            let size = chunk_size(line);
            &&& after.body == s.body && after.received == s.received
            &&& after.phase is Finished <==> size is None
            &&& after.phase is Desynced <==> size is Some && size->0 > 0 && !s.allows(
                s.received + size->0,
            )
            &&& after.phase is Trailer <==> size == Some(0nat)
            &&& after.phase matches Phase::Data(n) ==> size == Some(n)
            &&& after.phase is Finished || after.phase is Desynced ==> s.after_all(
                line.push(10) + more,
            ) == after
        }),
{
    let all = line.push(10);
    lemma_line_in(s, line);
    assert(all.drop_last() =~= line);
    assert(all.last() == 10);
    let after = s.after_all(all);
    assert(after == s.sized(line));
    lemma_after_concat(s, all, more);
    if after.phase is Finished || after.phase is Desynced {
        lemma_over(after, more);
    }
}

/// Behind the last chunk every line is passed over up to one that is empty, which ends the body;
/// none of them adds to it.
pub proof fn law_trailer_is_passed_over(s: Chunks, line: Seq<u8>)
    requires
        s.phase == Phase::Trailer(seq![]),
        line.len() < MAX_LINE,
        forall|i: int| 0 <= i < line.len() ==> (#[trigger] line[i]) != 10,
    ensures
        s.after_all(line.push(10)) == (if chomped(line).len() == 0 {
            s.at(Phase::Finished)
        } else {
            s
        }),
        s.after_all(seq![13u8, 10]).phase is Finished,
        line.len() > 0 && line[0] != 13 ==> s.after_all(line.push(10)) == s,
{
    lemma_trailer_in(s, line);
    assert(line.push(10).drop_last() =~= line);
    assert(line.push(10).last() == 10);
    let cr = seq![13u8];
    lemma_trailer_in(s, cr);
    assert(seq![13u8, 10].drop_last() =~= cr);
    assert(seq![13u8, 10].last() == 10);
    reveal_with_fuel(chomped, 3);
    assert(cr.drop_last() =~= seq![]);
    if chomped(line).len() > 0 {
        assert(s.at(Phase::Trailer(seq![])) =~= s);
    }
    if line.len() > 0 && line[0] != 13 {
        lemma_chomped_keeps(line);
    }
}

proof fn lemma_chomped_keeps(line: Seq<u8>)
    requires
        line.len() > 0,
        line[0] != 13,
    ensures
        chomped(line).len() > 0,
    decreases line.len(),
{
    if line.last() == 13 {
        lemma_chomped_keeps(line.drop_last());
    }
}

proof fn lemma_trailer_in(s: Chunks, line: Seq<u8>)
    requires
        s.phase == Phase::Trailer(seq![]),
        line.len() < MAX_LINE,
        forall|i: int| 0 <= i < line.len() ==> (#[trigger] line[i]) != 10,
    ensures
        s.after_all(line) == s.at(Phase::Trailer(line)),
    decreases line.len(),
{
    if line.len() == 0 {
        assert(line =~= seq![]);
        assert(s =~= s.at(Phase::Trailer(line)));
    } else {
        let d = line.drop_last();
        assert forall|i: int| 0 <= i < d.len() implies (#[trigger] d[i]) != 10 by {
            assert(d[i] == line[i]);
        }
        lemma_trailer_in(s, d);
        assert(line.last() == line[line.len() - 1]);
        assert(d.push(line.last()) =~= line);
    }
}

proof fn lemma_over(s: Chunks, b: Seq<u8>)
    requires
        s.phase is Finished || s.phase is Desynced,
    ensures
        s.after_all(b) == s,
    decreases b.len(),
{
    if b.len() > 0 {
        lemma_over(s, b.drop_last());
    }
}

/// What is looked at of a body is its first bytes, however they come in.
pub proof fn law_first_bytes_are_looked_at(a: Seq<u8>, b: Seq<u8>)
    ensures
        ({
            let all = a + b;
            let n = if all.len() < SNIFF {
                all.len() as int
            } else {
                SNIFF as int
            };
            sniffed(sniffed(seq![], a), b) == all.take(n)
        }),
{
    let all = a + b;
    let n = if all.len() < SNIFF {
        all.len() as int
    } else {
        SNIFF as int
    };
    assert(sniffed(sniffed(seq![], a), b) =~= all.take(n));
}

/// Streaming and buffering give the same body: however the bytes are cut on their way in, what
/// is passed on is what a reader that keeps the body has, as long as its bound allows the body
/// at all. The first bytes of it are kept, and the totals reported rise to its length; nothing
/// is reported of a body that is empty.
pub proof fn law_streaming_is_buffering(parts: Seq<Seq<u8>>, limit: Option<nat>)
    requires
        Chunks::started(limit).after_all(joined(parts)).phase !is Desynced,
    ensures
        ({
            let (p, out, totals) = streamed(parts);
            let kept = Chunks::started(limit).after_all(joined(parts));
            &&& out == kept.body
            &&& p.chunks.phase == kept.phase
            &&& p.chunks.received == kept.body.len()
            &&& p.sniff == kept.body.take(
                if kept.body.len() < SNIFF {
                    kept.body.len() as int
                } else {
                    SNIFF as int
                },
            )
            &&& totals.len() == 0 <==> kept.body.len() == 0
            &&& totals.len() > 0 ==> totals.last() == kept.body.len()
            &&& forall|i: int, j: int| 0 <= i < j < totals.len() ==> totals[i] < totals[j]
        }),
{
    lemma_bound_unfelt(limit, joined(parts));
    lemma_received(limit, joined(parts));
    lemma_streamed(parts);
}

proof fn lemma_zero_line()
    ensures
        chunk_size(seq![0x30u8, 13]) == Some(0nat),
{
    let h = text::hexadecimal(0);
    assert(h =~= seq!['0']);
    is_ascii_chars_encode_utf8(h);
    encode_utf8_decode_utf8(h);
    encode_utf8_valid_utf8(h);
    let e = encode_utf8(h);
    assert(h[0] as u8 == e[0]);
    assert(e =~= seq![0x30u8]);
    let line = seq![0x30u8, 13];
    assert(line.drop_last() =~= e);
    assert(chomped(e) == e);
    assert(chomped(line) == e) by {
        reveal_with_fuel(chomped, 2);
    }
    text::lemma_find_char_unique(h, ';', 1);
    assert(text::before_first(h, ';') =~= h);
    lemma_trim_plain(h);
    text::law_hexadecimal_parses(0, usize::MAX as nat);
}

// ----------------------------------------------------------------- writing ---

/// A head: its lines, and a blank one.
pub open spec fn head_text(lines: Seq<Seq<char>>) -> Seq<char>
    decreases lines.len(),
{
    if lines.len() == 0 {
        seq!['\r', '\n']
    } else {
        lines[0] + seq!['\r', '\n'] + head_text(lines.drop_first())
    }
}

/// A header line.
pub open spec fn field(name: Seq<char>, value: Seq<char>) -> Seq<char> {
    name + seq![':', ' '] + value
}

pub open spec fn connection_value(keep_alive: bool) -> Seq<char> {
    if keep_alive {
        "keep-alive"@
    } else {
        "close"@
    }
}

pub open spec fn reason(status: u16) -> Seq<char> {
    if status == 200 {
        "OK"@
    } else if status == 413 {
        "Payload Too Large"@
    } else {
        "Unauthorized"@
    }
}

pub open spec fn response_lines(status: u16, len: nat, keep_alive: bool) -> Seq<Seq<char>> {
    let first = seq![
        "HTTP/1.1 "@ + text::decimal(status as nat) + seq![' '] + reason(status),
        field("Connection"@, connection_value(keep_alive)),
        field("Content-Length"@, text::decimal(len)),
    ];
    if len == 0 {
        first
    } else {
        first.push(field("Content-Type"@, "application/octet-stream"@))
    }
}

pub open spec fn response_bytes(status: u16, body: Seq<u8>, keep_alive: bool) -> Seq<u8> {
    encode_utf8(head_text(response_lines(status, body.len(), keep_alive))) + body
}

pub open spec fn request_line(path: Seq<char>) -> Seq<char> {
    "POST "@ + path + " HTTP/1.1"@
}

pub open spec fn request_lines(path: Seq<char>, len: nat, keep_alive: bool) -> Seq<Seq<char>> {
    seq![
        request_line(path),
        field("Connection"@, connection_value(keep_alive)),
        field("Content-Type"@, "application/octet-stream"@),
        field("Content-Length"@, text::decimal(len)),
    ]
}

pub open spec fn request_bytes(path: Seq<char>, body: Seq<u8>, keep_alive: bool) -> Seq<u8> {
    encode_utf8(head_text(request_lines(path, body.len(), keep_alive))) + body
}

/// The head of an upload. It is chunked, because the archive is produced as it is read; the
/// raw size goes in a header of its own, so that the peer can show a percentage.
pub open spec fn upload_lines(total: nat) -> Seq<Seq<char>> {
    seq![
        request_line("/Upload"@),
        field("Connection"@, "close"@),
        field("Content-Type"@, "application/x-cpio"@),
        field("TotalBytes"@, text::decimal(total)),
        field("Transfer-Encoding"@, "chunked"@),
    ]
}

/// The text of some lines, before the blank one.
pub open spec fn lines_text(lines: Seq<Seq<char>>) -> Seq<char>
    decreases lines.len(),
{
    if lines.len() == 0 {
        seq![]
    } else {
        lines_text(lines.drop_last()) + lines.last() + seq!['\r', '\n']
    }
}

pub proof fn lemma_head_text(lines: Seq<Seq<char>>)
    ensures
        head_text(lines) == lines_text(lines) + seq!['\r', '\n'],
    decreases lines.len(),
{
    if lines.len() > 0 {
        lemma_head_text(lines.drop_first());
        lemma_lines_front(lines);
        assert(head_text(lines) =~= lines_text(lines) + seq!['\r', '\n']);
    } else {
        assert(head_text(lines) =~= lines_text(lines) + seq!['\r', '\n']);
    }
}

proof fn lemma_lines_front(lines: Seq<Seq<char>>)
    requires
        lines.len() > 0,
    ensures
        lines_text(lines) == lines[0] + seq!['\r', '\n'] + lines_text(lines.drop_first()),
    decreases lines.len(),
{
    if lines.len() == 1 {
        assert(lines.drop_last() =~= seq![]);
        assert(lines.drop_first() =~= seq![]);
        assert(lines_text(lines) =~= lines[0] + seq!['\r', '\n'] + lines_text(
            lines.drop_first(),
        ));
    } else {
        lemma_lines_front(lines.drop_last());
        assert(lines.drop_last().drop_first() =~= lines.drop_first().drop_last());
        assert(lines_text(lines) =~= lines[0] + seq!['\r', '\n'] + lines_text(
            lines.drop_first(),
        ));
    }
}

/// Lines being written.
struct HeadWriter {
    text: String,
    lines: Ghost<Seq<Seq<char>>>,
}

impl HeadWriter {
    spec fn wf(&self) -> bool {
        self.text@ == lines_text(self.lines@)
    }

    fn new() -> (r: Self)
        ensures
            r.wf(),
            r.lines@ == Seq::<Seq<char>>::empty(),
    {
        let r = HeadWriter { text: String::new(), lines: Ghost(Seq::empty()) };
        assert(r.text@ =~= lines_text(r.lines@));
        r
    }

    fn line(&mut self, line: &str)
        requires
            old(self).wf(),
        ensures
            final(self).wf(),
            final(self).lines@ == old(self).lines@.push(line@),
    {
        self.text.append(line);
        self.text.append("\r\n");
        proof {
            reveal_strlit("\r\n");
            let before = self.lines@;
            self.lines@ = before.push(line@);
            assert(self.lines@.drop_last() =~= before);
            assert(self.text@ =~= lines_text(self.lines@));
        }
    }

    fn field(&mut self, name: &str, value: &str)
        requires
            old(self).wf(),
        ensures
            final(self).wf(),
            final(self).lines@ == old(self).lines@.push(field(name@, value@)),
    {
        let mut l = String::new();
        l.append(name);
        l.append(": ");
        l.append(value);
        proof {
            reveal_strlit(": ");
            assert(l@ =~= field(name@, value@));
        }
        self.line(l.as_str());
    }

    fn finish(self, body: &[u8]) -> (r: Vec<u8>)
        requires
            self.wf(),
        ensures
            r@ == encode_utf8(head_text(self.lines@)) + body@,
    {
        let mut t = self.text;
        t.append("\r\n");
        proof {
            reveal_strlit("\r\n");
            lemma_head_text(self.lines@);
            assert(t@ =~= head_text(self.lines@));
        }
        let mut out: Vec<u8> = Vec::new();
        out.extend_from_slice(t.as_str().as_bytes());
        out.extend_from_slice(body);
        assert(out@ =~= encode_utf8(head_text(self.lines@)) + body@);
        out
    }
}

fn decimal_text(n: u64) -> (r: String)
    ensures
        r@ == text::decimal(n as nat),
{
    let mut t = String::new();
    text::push_decimal(&mut t, n);
    assert(t@ =~= text::decimal(n as nat));
    t
}

/// A response. `Connection` answers what the peer asked for: a Mac that sends `/Ask` with
/// keep-alive intends to send `/Upload` on the same connection.
pub fn respond(status: u16, body: &[u8], keep_alive: bool) -> (r: Vec<u8>)
    ensures
        r@ == response_bytes(status, body@, keep_alive),
{
    let why: &str = if status == 200 {
        "OK"
    } else if status == 413 {
        "Payload Too Large"
    } else {
        "Unauthorized"
    };
    let number = decimal_text(status as u64);
    let mut first = String::new();
    first.append("HTTP/1.1 ");
    first.append(number.as_str());
    first.push(' ');
    first.append(why);
    let ghost lines = response_lines(status, body@.len(), keep_alive);
    assert(first@ =~= lines[0]);
    let mut w = HeadWriter::new();
    w.line(first.as_str());
    w.field(
        "Connection",
        if keep_alive {
            "keep-alive"
        } else {
            "close"
        },
    );
    let len = decimal_text(body.len() as u64);
    w.field("Content-Length", len.as_str());
    if body.len() > 0 {
        w.field("Content-Type", "application/octet-stream");
    }
    assert(w.lines@ =~= lines);
    w.finish(body)
}

fn request_first(path: &str) -> (r: String)
    ensures
        r@ == request_line(path@),
{
    let mut t = String::new();
    t.append("POST ");
    t.append(path);
    t.append(" HTTP/1.1");
    assert(t@ =~= request_line(path@));
    t
}

/// A request with a body.
pub fn request(path: &str, body: &[u8], keep_alive: bool) -> (r: Vec<u8>)
    ensures
        r@ == request_bytes(path@, body@, keep_alive),
{
    let first = request_first(path);
    let mut w = HeadWriter::new();
    w.line(first.as_str());
    w.field(
        "Connection",
        if keep_alive {
            "keep-alive"
        } else {
            "close"
        },
    );
    w.field("Content-Type", "application/octet-stream");
    let len = decimal_text(body.len() as u64);
    w.field("Content-Length", len.as_str());
    assert(w.lines@ =~= request_lines(path@, body@.len(), keep_alive));
    w.finish(body)
}

/// The head of an upload of so many bytes.
pub fn upload_head(total: u64) -> (r: Vec<u8>)
    ensures
        r@ == encode_utf8(head_text(upload_lines(total as nat))),
{
    let first = request_first("/Upload");
    let mut w = HeadWriter::new();
    w.line(first.as_str());
    w.field("Connection", "close");
    w.field("Content-Type", "application/x-cpio");
    let n = decimal_text(total);
    w.field("TotalBytes", n.as_str());
    w.field("Transfer-Encoding", "chunked");
    assert(w.lines@ =~= upload_lines(total as nat));
    let none: Vec<u8> = Vec::new();
    let r = w.finish(none.as_slice());
    assert(encode_utf8(head_text(upload_lines(total as nat))) + none@ =~= encode_utf8(
        head_text(upload_lines(total as nat)),
    ));
    r
}

// --------------------------------------------------------------- responses ---

/// The status in a response head; zero when there is none.
pub open spec fn status_in(head: Seq<char>) -> u16 {
    match text::parsed_uint(word(head, 1), 10, 0xffff) {
        Some(n) => n as u16,
        None => 0,
    }
}

/// How much of a response body to read. The peer's declared length is not trusted.
pub open spec fn reply_len(head: Seq<char>) -> nat {
    match number_header(head, "content-length"@, usize::MAX as nat) {
        Some(n) => if n < MAX_REPLY {
            n
        } else {
            MAX_REPLY as nat
        },
        None => 0,
    }
}

/// What a response head says: the status, and how many bytes of body to read.
pub fn read_response(head: &str) -> (r: (u16, usize))
    ensures
        r.0 == status_in(head@),
        r.1 == reply_len(head@),
{
    let (_, code) = first_words(head);
    let status: u16 = match text::parse_uint(code.as_str(), 10, 0xffff) {
        Some(n) => n as u16,
        None => 0,
    };
    let len: usize = match number(head, "content-length", usize::MAX as u64) {
        Some(n) => if n < MAX_REPLY as u64 {
            n as usize
        } else {
            MAX_REPLY
        },
        None => 0,
    };
    (status, len)
}

} // verus!
