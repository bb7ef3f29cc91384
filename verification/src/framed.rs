//! Apple's block-framed compression wrapper around the cpio payload.
//!
//! `/Upload` arrives with `Content-Type: application/x-cpio`, and it is **not** a cpio
//! archive. It is a sequence of blocks:
//!
//! ```text
//! [4-byte big-endian header]   bit 31 set -> stored (raw), clear -> deflate
//!                              bits 0..30 -> block length in bytes
//! [block data]
//! ... repeated to end of stream ...
//! ```
//!
//! Concatenating the decoded blocks yields the cpio stream.

use vstd::prelude::*;
use crate::wire;

verus! {

/// Refuse a single block larger than this. The length is attacker-controlled.
pub const MAX_BLOCK: usize = 8388608;

/// Block size we emit: what Apple's own stored blocks have, so that its receiver already
/// handles it.
pub const BLOCK: usize = 131072;

/// What a zlib stream inflates to, if it is one.
pub uninterp spec fn inflated(block: Seq<u8>) -> Option<Seq<u8>>;

/// The zlib stream that some bytes deflate to, at the default level.
pub uninterp spec fn deflated(data: Seq<u8>) -> Option<Seq<u8>>;

/// `flate2::read::ZlibDecoder` over a whole block, read to its end. The result is a function
/// of the block; when the decoder reports an error, there is none.
#[verifier::external_body]
fn inflate(block: &[u8]) -> (r: Option<Vec<u8>>)
    ensures
        match r {
            Some(d) => inflated(block@) == Some(d@),
            None => inflated(block@) is None,
        },
{
    let mut out = Vec::new();
    let mut decoder = flate2::read::ZlibDecoder::new(block);
    match std::io::Read::read_to_end(&mut decoder, &mut out) {
        Ok(_) => Some(out),
        Err(_) => None,
    }
}

/// `flate2::write::ZlibEncoder` at the default level, fed some bytes and finished. The result
/// is a function of the bytes, and the decoder gives the bytes back. When the encoder reports
/// an error, there is no result; nothing is claimed of the size of one.
#[verifier::external_body]
fn deflate(data: &[u8]) -> (r: Option<Vec<u8>>)
    ensures
        match r {
            Some(z) => deflated(data@) == Some(z@) && inflated(z@) == Some(data@),
            None => deflated(data@) is None,
        },
{
    let mut encoder = flate2::write::ZlibEncoder::new(Vec::new(), flate2::Compression::default());
    match std::io::Write::write_all(&mut encoder, data) {
        Ok(()) => encoder.finish().ok(),
        Err(_) => None,
    }
}

// ---------------------------------------------------------------- reading ---

/// Why a stream is read no further.
#[derive(Debug, Clone, Copy, PartialEq, Eq, Structural)]
pub enum Stop {
    /// A block of no bytes.
    Ended,
    TooLarge(u32),
    /// A block that is no zlib stream.
    Corrupt,
}

/// What the next byte belongs to.
#[derive(Debug, Clone, Copy, PartialEq, Eq, Structural)]
pub enum Part {
    Header,
    Block { stored: bool, len: usize },
}

/// A framed stream, as far as it has come.
#[verifier::ext_equal]
pub struct Unframed {
    pub part: Part,
    /// The bytes of the header or block that is not complete.
    pub pending: Seq<u8>,
    /// What has been decoded since it was last taken away.
    pub out: Seq<u8>,
    pub stop: Option<Stop>,
}

impl Unframed {
    pub open spec fn started() -> Unframed {
        Unframed { part: Part::Header, pending: seq![], out: seq![], stop: None }
    }

    pub open spec fn stopped(self, why: Stop) -> Unframed {
        Unframed { stop: Some(why), pending: seq![], ..self }
    }

    /// A header is complete.
    pub open spec fn with_header(self, h: nat) -> Unframed {
        let len = h % 0x8000_0000;
        if len == 0 {
            self.stopped(Stop::Ended)
        } else if len > MAX_BLOCK {
            self.stopped(Stop::TooLarge(len as u32))
        } else {
            Unframed {
                part: Part::Block { stored: h >= 0x8000_0000, len: len as usize },
                pending: seq![],
                ..self
            }
        }
    }

    /// A block is complete.
    pub open spec fn with_block(self, stored: bool, block: Seq<u8>) -> Unframed {
        let decoded = if stored {
            Some(block)
        } else {
            inflated(block)
        };
        match decoded {
            Some(d) => Unframed {
                part: Part::Header,
                pending: seq![],
                out: self.out + d,
                stop: None,
            },
            None => self.stopped(Stop::Corrupt),
        }
    }

    pub open spec fn after(self, b: u8) -> Unframed {
        if self.stop is Some {
            self
        } else {
            let p = self.pending.push(b);
            match self.part {
                Part::Header => if p.len() < 4 {
                    Unframed { pending: p, ..self }
                } else {
                    self.with_header(wire::be_value(p))
                },
                Part::Block { stored, len } => if p.len() < len {
                    Unframed { pending: p, ..self }
                } else {
                    self.with_block(stored, p)
                },
            }
        }
    }

    /// After somebody reads on behind an error: what follows is taken for a header. A stream
    /// that has ended stays ended.
    pub open spec fn resumed(self) -> Unframed {
        if self.stop == Some(Stop::Ended) {
            self
        } else {
            Unframed { part: Part::Header, pending: seq![], stop: None, ..self }
        }
    }

    pub open spec fn after_all(self, b: Seq<u8>) -> Unframed
        decreases b.len(),
    {
        if b.len() == 0 {
            self
        } else {
            self.after_all(b.drop_last()).after(b.last())
        }
    }

    pub open spec fn wf(self) -> bool {
        match self.part {
            Part::Header => self.pending.len() < 4,
            Part::Block { len, .. } => self.pending.len() < len <= MAX_BLOCK,
        }
    }
}

/// Streams the decoded bytes, decompressing one block at a time. A stream that ends in the
/// middle of a header or a block yields what came before it.
pub struct FramedReader {
    part: Part,
    pending: Vec<u8>,
    out: Vec<u8>,
    stop: Option<Stop>,
}

impl FramedReader {
    pub closed spec fn view(&self) -> Unframed {
        Unframed {
            part: self.part,
            pending: self.pending@,
            out: self.out@,
            stop: self.stop,
        }
    }

    pub fn new() -> (r: Self)
        ensures
            r@ == Unframed::started(),
            r@.wf(),
    {
        let r = FramedReader {
            part: Part::Header,
            pending: Vec::new(),
            out: Vec::new(),
            stop: None,
        };
        assert(r@ =~= Unframed::started());
        r
    }

    /// How many bytes would complete the header or block: none once the stream has stopped.
    pub fn wants(&self) -> (r: usize)
        requires
            self@.wf(),
        ensures
            r == (if self@.stop is Some {
                0
            } else {
                match self@.part {
                    Part::Header => 4 - self@.pending.len(),
                    Part::Block { len, .. } => len - self@.pending.len(),
                }
            }),
    {
        match self.stop {
            Some(_) => 0,
            None => match self.part {
                Part::Header => 4 - self.pending.len(),
                Part::Block { len, .. } => len - self.pending.len(),
            },
        }
    }

    pub fn stop(&self) -> (r: Option<Stop>)
        ensures
            r == self@.stop,
    {
        self.stop
    }

    /// What has been decoded since this was last asked.
    pub fn take(&mut self) -> (r: Vec<u8>)
        requires
            old(self)@.wf(),
        ensures
            r@ == old(self)@.out,
            final(self)@ == (Unframed { out: seq![], ..old(self)@ }),
            final(self)@.wf(),
    {
        let mut out: Vec<u8> = Vec::new();
        std::mem::swap(&mut out, &mut self.out);
        assert(self@ =~= (Unframed { out: seq![], ..old(self)@ }));
        out
    }

    fn push(&mut self, b: u8)
        requires
            old(self)@.wf(),
        ensures
            final(self)@ == old(self)@.after(b),
            final(self)@.wf(),
    {
        let ghost before = self@;
        if self.stop.is_some() {
            return;
        }
        self.pending.push(b);
        let ghost p = self.pending@;
        match self.part {
            Part::Header => {
                if self.pending.len() < 4 {
                    assert(self@ =~= before.after(b));
                    return;
                }
                proof {
                    wire::lemma_be_value_bound(p);
                    wire::lemma_be_limits();
                }
                let h: u64 = wire::be(self.pending.as_slice());
                let len: u64 = h % 0x8000_0000;
                self.pending = Vec::new();
                if len == 0 {
                    self.stop = Some(Stop::Ended);
                } else if len > MAX_BLOCK as u64 {
                    self.stop = Some(Stop::TooLarge(len as u32));
                } else {
                    self.part = Part::Block { stored: h >= 0x8000_0000, len: len as usize };
                }
            },
            Part::Block { stored, len } => {
                if self.pending.len() < len {
                    assert(self@ =~= before.after(b));
                    return;
                }
                let mut block: Vec<u8> = Vec::new();
                std::mem::swap(&mut block, &mut self.pending);
                if stored {
                    self.out.append(&mut block);
                    self.part = Part::Header;
                } else {
                    match inflate(block.as_slice()) {
                        Some(d) => {
                            let mut d = d;
                            self.out.append(&mut d);
                            self.part = Part::Header;
                        },
                        None => {
                            self.stop = Some(Stop::Corrupt);
                        },
                    }
                }
            },
        }
        assert(self@ =~= before.after(b));
    }

    /// Take in some bytes. They may be cut anywhere. How many were taken: all of them, or those
    /// up to where the stream stopped.
    pub fn feed(&mut self, bytes: &[u8]) -> (n: usize)
        requires
            old(self)@.wf(),
        ensures
            final(self)@ == old(self)@.after_all(bytes@),
            final(self)@.wf(),
            n <= bytes@.len(),
            final(self)@ == old(self)@.after_all(bytes@.take(n as int)),
            n < bytes@.len() ==> final(self)@.stop is Some,
            forall|k: int|
                0 <= k < n ==> (#[trigger] old(self)@.after_all(bytes@.take(k))).stop is None,
    {
        let mut i: usize = 0;
        assert(bytes@.take(0) =~= seq![]);
        while i < bytes.len() && self.stop.is_none()
            invariant
                i <= bytes@.len(),
                self@.wf(),
                self@ == old(self)@.after_all(bytes@.take(i as int)),
                forall|k: int|
                    0 <= k < i ==> (#[trigger] old(self)@.after_all(bytes@.take(k))).stop is None,
            decreases bytes@.len() - i,
        {
            assert(bytes@.take(i + 1).drop_last() =~= bytes@.take(i as int));
            assert(old(self)@.after_all(bytes@.take(i as int)).stop is None);
            self.push(bytes[i]);
            i += 1;
        }
        proof {
            let rest = bytes@.skip(i as int);
            if i < bytes@.len() {
                lemma_stopped(self@, rest);
            } else {
                assert(rest =~= seq![]);
            }
            lemma_unframe_concat(old(self)@, bytes@.take(i as int), rest);
            assert(bytes@.take(i as int) + rest =~= bytes@);
        }
        i
    }

    /// Read on behind an error: a block that was too large or corrupt, or a source that failed.
    pub fn resume(&mut self)
        requires
            old(self)@.wf(),
        ensures
            final(self)@ == old(self)@.resumed(),
            final(self)@.wf(),
    {
        let ended: bool = match self.stop {
            Some(Stop::Ended) => true,
            _ => false,
        };
        if !ended {
            self.part = Part::Header;
            self.pending = Vec::new();
            self.stop = None;
        }
        assert(self@ =~= old(self)@.resumed());
    }

    /// The source has no more bytes. What is not complete is dropped, and nothing more is read.
    pub fn end(&mut self)
        requires
            old(self)@.wf(),
        ensures
            final(self)@ == old(self)@.stopped(Stop::Ended),
            final(self)@.wf(),
    {
        self.pending = Vec::new();
        self.stop = Some(Stop::Ended);
        assert(self@ =~= old(self)@.stopped(Stop::Ended));
    }
}

// ---------------------------------------------------------------- writing ---

/// A deflated block in its frame.
pub open spec fn frame(block: Seq<u8>) -> Seq<u8> {
    wire::be_bytes(block.len(), 4) + block
}

pub open spec fn frames(blocks: Seq<Seq<u8>>) -> Seq<u8>
    decreases blocks.len(),
{
    if blocks.len() == 0 {
        seq![]
    } else {
        frames(blocks.drop_last()) + frame(blocks.last())
    }
}

/// Whether a piece of data can be framed at all, and in a block that a reader takes.
pub open spec fn framable(piece: Seq<u8>) -> bool {
    deflated(piece) matches Some(z) && 0 < z.len() <= MAX_BLOCK
}

/// The `i`th full piece of some data.
pub open spec fn piece(data: Seq<u8>, i: int) -> Seq<u8> {
    data.subrange(i * BLOCK, i * BLOCK + BLOCK)
}

/// Some data in pieces: full ones, and what is left as the last.
pub open spec fn pieces(data: Seq<u8>) -> Seq<Seq<u8>> {
    Seq::new(
        (data.len() + BLOCK - 1) as nat / BLOCK as nat,
        |i: int|
            if i * BLOCK + BLOCK <= data.len() {
                piece(data, i)
            } else {
                data.skip(i * BLOCK)
            },
    )
}

/// Some data in frames, each holding one piece of it.
pub open spec fn framed(data: Seq<u8>) -> Seq<u8> {
    frames(Seq::new(pieces(data).len(), |i: int| deflated(pieces(data)[i])->0))
}

/// A stream that has stopped takes nothing in.
proof fn lemma_stopped(s: Unframed, b: Seq<u8>)
    requires
        s.stop is Some,
    ensures
        s.after_all(b) == s,
    decreases b.len(),
{
    if b.len() > 0 {
        lemma_stopped(s, b.drop_last());
    }
}

proof fn lemma_unframe_concat(s: Unframed, a: Seq<u8>, b: Seq<u8>)
    ensures
        s.after_all(a + b) == s.after_all(a).after_all(b),
    decreases b.len(),
{
    if b.len() == 0 {
        assert(a + b =~= a);
    } else {
        lemma_unframe_concat(s, a, b.drop_last());
        assert((a + b).drop_last() =~= a + b.drop_last());
        assert((a + b).last() == b.last());
    }
}

proof fn lemma_pending(s: Unframed, b: Seq<u8>)
    requires
        s.stop is None,
        s.pending.len() == 0,
        match s.part {
            Part::Header => b.len() < 4,
            Part::Block { len, .. } => b.len() < len,
        },
    ensures
        s.after_all(b) == (Unframed { pending: b, ..s }),
    decreases b.len(),
{
    if b.len() == 0 {
        assert(s.pending =~= b);
        assert(s =~= (Unframed { pending: b, ..s }));
    } else {
        lemma_pending(s, b.drop_last());
        assert(b.drop_last().push(b.last()) =~= b);
    }
}

/// A frame is decoded to what its block inflates to.
proof fn lemma_frame_in(s: Unframed, block: Seq<u8>, data: Seq<u8>)
    requires
        s.stop is None,
        s.part == Part::Header,
        s.pending.len() == 0,
        0 < block.len() <= MAX_BLOCK,
        inflated(block) == Some(data),
    ensures
        s.after_all(frame(block)) == (Unframed {
            part: Part::Header,
            pending: seq![],
            out: s.out + data,
            stop: None,
        }),
{
    let h = wire::be_bytes(block.len(), 4);
    wire::lemma_be_limits();
    wire::law_be_round_trip(block.len(), 4);
    lemma_pending(s, h.drop_last());
    let s1 = s.after_all(h);
    assert(h.drop_last().push(h.last()) =~= h);
    assert(s1 == s.with_header(block.len()));
    let s2 = s1.after_all(block.drop_last());
    lemma_pending(s1, block.drop_last());
    assert(block.drop_last().push(block.last()) =~= block);
    assert(s1.after_all(block) == s2.after(block.last()));
    lemma_unframe_concat(s, h, block);
    assert(s1.after_all(block) =~= (Unframed {
        part: Part::Header,
        pending: seq![],
        out: s.out + data,
        stop: None,
    }));
}

/// Writes the block-framed container Apple expects around a cpio stream.
///
/// Each block is deflated; the top bit would mark a stored block, which is never emitted, so
/// that there is one path instead of two. A block that a reader would not take is not emitted
/// either. `finish` must be called: the last partial block is only written there.
pub struct FramedWriter {
    buf: Vec<u8>,
    data: Ghost<Seq<u8>>,
    blocks: Ghost<Seq<Seq<u8>>>,
}

impl FramedWriter {
    /// Everything that was written.
    pub closed spec fn data(&self) -> Seq<u8> {
        self.data@
    }

    /// The blocks that went out, deflated.
    pub closed spec fn blocks(&self) -> Seq<Seq<u8>> {
        self.blocks@
    }

    /// How much is held back for the next block.
    pub closed spec fn held(&self) -> nat {
        self.buf@.len()
    }

    closed spec fn holds(&self) -> bool {
        &&& self.buf@.len() <= self.data@.len()
        &&& self.buf@ == self.data@.subrange(
            self.data@.len() - self.buf@.len(),
            self.data@.len() as int,
        )
    }

    /// Every full piece of the data went out as one block, and a reader of the blocks has all
    /// the data but what is held back.
    pub closed spec fn wf(&self) -> bool {
        &&& self.holds()
        &&& self.buf@.len() < BLOCK
        &&& self.sound()
    }

    closed spec fn sound(&self) -> bool {
        let sent = (self.data@.len() - self.buf@.len()) as nat;
        &&& sent == self.blocks@.len() * BLOCK
        &&& forall|i: int|
            0 <= i < self.blocks@.len() ==> deflated(piece(self.data@, i)) == Some(
                #[trigger] self.blocks@[i],
            ) && 0 < self.blocks@[i].len() <= MAX_BLOCK
        &&& Unframed::started().after_all(frames(self.blocks@)) == (Unframed {
            part: Part::Header,
            pending: seq![],
            out: self.data@.subrange(0, sent as int),
            stop: None,
        })
    }

    pub fn new() -> (r: Self)
        ensures
            r.wf(),
            r.data() == Seq::<u8>::empty(),
            r.blocks() == Seq::<Seq<u8>>::empty(),
            r.held() == 0,
    {
        let r = FramedWriter {
            buf: Vec::new(),
            data: Ghost(Seq::empty()),
            blocks: Ghost(Seq::empty()),
        };
        proof {
            assert(r.buf@ =~= r.data@.subrange(0, 0));
            assert(r.data@.subrange(0, 0) =~= seq![]);
            assert(Unframed::started().after_all(frames(r.blocks@)) =~= Unframed::started());
        }
        r
    }

    /// A full block goes out.
    fn emit(&mut self, out: &mut Vec<u8>) -> (ok: bool)
        requires
            old(self).holds(),
            old(self).sound(),
            old(self).buf@.len() == BLOCK,
        ensures
            ok ==> {
                &&& final(self).wf()
                &&& final(self).data() == old(self).data()
                &&& final(self).blocks().drop_last() == old(self).blocks()
                &&& final(self).blocks().len() == old(self).blocks().len() + 1
                &&& final(self).held() == 0
                &&& final(out)@ == old(out)@ + frame(final(self).blocks().last())
            },
            ok == framable(old(self).buf@),
    {
        let ghost was = *self;
        let block: Vec<u8> = match deflate(self.buf.as_slice()) {
            Some(z) => z,
            None => {
                return false;
            },
        };
        if block.len() == 0 || block.len() > MAX_BLOCK {
            return false;
        }
        let ghost z = block@;
        wire::write_uint(out, block.len() as u64, 4);
        out.extend_from_slice(block.as_slice());
        assert(out@ =~= old(out)@ + frame(z));
        self.buf = Vec::new();
        proof {
            let before = was.blocks@;
            let after = before.push(z);
            self.blocks@ = after;
            let d = self.data@;
            let n = before.len() as int;
            assert(after.drop_last() =~= before);
            assert(piece(d, n) =~= was.buf@);
            assert(self.buf@ =~= d.subrange(d.len() as int, d.len() as int));
            assert forall|i: int| 0 <= i < after.len() implies deflated(piece(d, i)) == Some(
                #[trigger] after[i],
            ) && 0 < after[i].len() <= MAX_BLOCK by {
                if i < n {
                    assert(after[i] == before[i]);
                }
            }
            let s = Unframed::started().after_all(frames(before));
            lemma_unframe_concat(Unframed::started(), frames(before), frame(z));
            lemma_frame_in(s, z, was.buf@);
            assert(d.subrange(0, n * BLOCK) + was.buf@ =~= d.subrange(0, d.len() as int));
        }
        true
    }

    /// Take in some data: what is to be sent of it now. `None` when a block cannot be framed.
    pub fn write(&mut self, data: &[u8]) -> (r: Option<Vec<u8>>)
        requires
            old(self).wf(),
        ensures
            match r {
                Some(out) => {
                    &&& final(self).wf()
                    &&& final(self).data() == old(self).data() + data@
                    &&& frames(final(self).blocks()) == frames(old(self).blocks()) + out@
                    &&& final(self).held() < BLOCK
                    &&& final(self).blocks().len() * BLOCK + final(self).held() == (
                    old(self).data() + data@).len()
                    &&& forall|i: int|
                        0 <= i < final(self).blocks().len() ==> deflated(
                            piece(old(self).data() + data@, i),
                        ) == Some(#[trigger] final(self).blocks()[i])
                    &&& forall|i: int|
                        0 <= i < final(self).blocks().len() ==> 0
                            < (#[trigger] final(self).blocks()[i]).len() <= MAX_BLOCK
                },
                None => exists|i: int|
                    0 <= i && i * BLOCK + BLOCK <= (old(self).data() + data@).len()
                        && !framable(#[trigger] piece(old(self).data() + data@, i)),
            },
    {
        let mut out: Vec<u8> = Vec::new();
        let mut at: usize = 0;
        let ghost first = self.data@;
        let ghost base = frames(self.blocks@);
        proof {
            assert(first + data@.subrange(0, 0) =~= first);
            assert(base + out@ =~= base);
        }
        while at < data.len()
            invariant
                at <= data@.len(),
                self.wf(),
                first == old(self).data(),
                self.data@ == first + data@.subrange(0, at as int),
                frames(self.blocks@) == base + out@,
            decreases data@.len() - at,
        {
            let space: usize = BLOCK - self.buf.len();
            let rest: usize = data.len() - at;
            let take: usize = if space < rest {
                space
            } else {
                rest
            };
            let ghost was = *self;
            self.buf.extend_from_slice(vstd::slice::slice_subrange(data, at, at + take));
            proof {
                let d = first + data@.subrange(0, at + take);
                assert(d =~= was.data@ + data@.subrange(at as int, at + take));
                self.data@ = d;
                assert(self.buf@ =~= d.subrange(d.len() - self.buf@.len(), d.len() as int));
                assert forall|i: int| 0 <= i < self.blocks@.len() implies piece(d, i) == piece(
                    was.data@,
                    i,
                ) by {
                    assert(piece(d, i) =~= piece(was.data@, i));
                }
                let sent = was.data@.len() - was.buf@.len();
                assert(d.subrange(0, sent) =~= was.data@.subrange(0, sent));
                assert(self.sound());
            }
            at = at + take;
            if self.buf.len() == BLOCK {
                let ghost full = *self;
                if !self.emit(&mut out) {
                    proof {
                        let n = full.blocks@.len() as int;
                        let all = first + data@;
                        assert(piece(all, n) =~= full.buf@);
                        assert(!framable(piece(all, n)));
                    }
                    return None;
                }
                assert(frames(self.blocks@) =~= base + out@);
            }
        }
        assert(data@.subrange(0, at as int) =~= data@);
        Some(out)
    }

    /// What is left to be sent: the tail block, if there is one. `None` when it cannot be
    /// framed. What was sent in all depends on nothing but the data, and a reader of it has all
    /// the data and waits for the next frame.
    pub fn finish(self) -> (r: Option<Vec<u8>>)
        requires
            self.wf(),
        ensures
            match r {
                Some(out) => {
                    &&& frames(self.blocks()) + out@ == framed(self.data())
                    &&& forall|i: int|
                        0 <= i < pieces(self.data()).len() ==> framable(
                            #[trigger] pieces(self.data())[i],
                        )
                    &&& Unframed::started().after_all(framed(self.data())) == (Unframed {
                        part: Part::Header,
                        pending: seq![],
                        out: self.data(),
                        stop: None,
                    })
                },
                None => self.held() > 0 && !framable(pieces(self.data()).last()),
            },
    {
        let mut out: Vec<u8> = Vec::new();
        let ghost data = self.data@;
        let ghost before = self.blocks@;
        let ghost all = Seq::new(pieces(data).len(), |i: int| deflated(pieces(data)[i])->0);
        let ghost n = before.len() as int;
        if self.buf.len() == 0 {
            proof {
                assert(data.subrange(0, data.len() as int) =~= data);
                assert(pieces(data).len() == n);
                assert forall|i: int| 0 <= i < n implies framable(#[trigger] pieces(data)[i])
                    && all[i] == before[i] by {
                    assert(pieces(data)[i] == piece(data, i));
                    assert(deflated(piece(data, i)) == Some(before[i]));
                }
                assert(all =~= before);
                assert(frames(before) + out@ =~= frames(before));
            }
            return Some(out);
        }
        proof {
            assert(pieces(data).len() == n + 1);
            assert(pieces(data)[n] == data.skip(n * BLOCK));
            assert(data.skip(n * BLOCK) =~= self.buf@);
        }
        let block: Vec<u8> = match deflate(self.buf.as_slice()) {
            Some(z) => z,
            None => {
                return None;
            },
        };
        if block.len() == 0 || block.len() > MAX_BLOCK {
            return None;
        }
        let ghost z = block@;
        wire::write_uint(&mut out, block.len() as u64, 4);
        out.extend_from_slice(block.as_slice());
        assert(out@ =~= frame(z));
        proof {
            assert forall|i: int| 0 <= i < n + 1 implies framable(#[trigger] pieces(data)[i])
                && all[i] == before.push(z)[i] by {
                if i < n {
                    assert(pieces(data)[i] == piece(data, i));
                    assert(deflated(piece(data, i)) == Some(before[i]));
                }
            }
            assert(all =~= before.push(z));
            assert(all.drop_last() =~= before);
            let s = Unframed::started().after_all(frames(before));
            lemma_unframe_concat(Unframed::started(), frames(before), frame(z));
            lemma_frame_in(s, z, self.buf@);
            assert(data.subrange(0, data.len() - self.buf@.len()) + self.buf@ =~= data);
        }
        Some(out)
    }
}

/// One who reads on behind a block that was refused has what the frames behind it hold, after
/// what came before; behind the end there is nothing more.
pub proof fn law_reading_goes_on_after_an_error(s: Unframed, block: Seq<u8>, data: Seq<u8>)
    requires
        s.stop is Some,
        0 < block.len() <= MAX_BLOCK,
        inflated(block) == Some(data),
    ensures
        s.stop != Some(Stop::Ended) ==> s.resumed().after_all(frame(block)) == (Unframed {
            part: Part::Header,
            pending: seq![],
            out: s.out + data,
            stop: None,
        }),
        s.stop == Some(Stop::Ended) ==> s.resumed().after_all(frame(block)) == s,
{
    if s.stop == Some(Stop::Ended) {
        lemma_stopped(s, frame(block));
    } else {
        lemma_frame_in(s.resumed(), block, data);
    }
}

/// No data makes no frames; otherwise every piece but the last is full, the last is not empty,
/// and the pieces together are the data.
pub proof fn law_pieces_are_the_data(data: Seq<u8>)
    ensures
        data.len() == 0 ==> framed(data).len() == 0,
        pieces(data).len() == 0 <==> data.len() == 0,
        forall|i: int|
            0 <= i < pieces(data).len() - 1 ==> (#[trigger] pieces(data)[i]).len() == BLOCK,
        data.len() > 0 ==> 0 < pieces(data).last().len() <= BLOCK,
        forall|i: int|
            0 <= i < data.len() ==> #[trigger] data[i] == pieces(data)[i / BLOCK as int][i
                % BLOCK as int],
{
}

/// The header of a frame gives the length of its block, and never marks it as stored.
pub proof fn law_no_block_is_stored(block: Seq<u8>)
    requires
        block.len() <= MAX_BLOCK,
    ensures
        frame(block).len() == 4 + block.len(),
        wire::be_value(frame(block).take(4)) == block.len(),
        wire::be_value(frame(block).take(4)) < 0x8000_0000,
        frame(block).skip(4) == block,
{
    wire::lemma_be_limits();
    wire::law_be_round_trip(block.len(), 4);
    assert(frame(block).take(4) =~= wire::be_bytes(block.len(), 4));
    assert(frame(block).skip(4) =~= block);
}

/// Any block behind any header, at the start of a frame.
proof fn lemma_any_header(s: Unframed, h: nat, block: Seq<u8>)
    requires
        s.stop is None,
        s.part == Part::Header,
        s.pending.len() == 0,
        h < 0x1_0000_0000,
    ensures
        s.after_all(wire::be_bytes(h, 4)) == s.with_header(h),
        0 < h % 0x8000_0000 <= MAX_BLOCK && block.len() == h % 0x8000_0000 ==> s.after_all(
            wire::be_bytes(h, 4) + block,
        ) == s.with_header(h).with_block(h >= 0x8000_0000, block),
{
    let b = wire::be_bytes(h, 4);
    wire::lemma_be_limits();
    wire::law_be_round_trip(h, 4);
    lemma_pending(s, b.drop_last());
    assert(b.drop_last().push(b.last()) =~= b);
    let s1 = s.after_all(b);
    assert(s1 == s.with_header(h));
    if 0 < h % 0x8000_0000 <= MAX_BLOCK && block.len() == h % 0x8000_0000 {
        lemma_pending(s1, block.drop_last());
        assert(block.drop_last().push(block.last()) =~= block);
        lemma_unframe_concat(s, b, block);
    }
}

/// Each kind of block is read for what it is. A stored one is taken as it stands and a deflated
/// one inflated, behind all that came before; one of no bytes ends the stream, whichever kind it
/// claims to be; one that is too large or that is no zlib stream stops it with that reason. What
/// was read before is kept in every case.
pub proof fn law_blocks_are_read_for_what_they_are(
    s: Unframed,
    block: Seq<u8>,
    large: nat,
    stored: bool,
)
    requires
        s.stop is None,
        s.part == Part::Header,
        s.pending.len() == 0,
        0 < block.len() <= MAX_BLOCK,
        MAX_BLOCK < large < 0x8000_0000,
    ensures
        ({
            let bit: nat = if stored {
                0x8000_0000
            } else {
                0
            };
            let read = s.after_all(wire::be_bytes(bit + block.len(), 4) + block);
            let none = s.after_all(wire::be_bytes(bit, 4));
            let huge = s.after_all(wire::be_bytes(bit + large, 4));
            let next = |out: Seq<u8>|
                Unframed { part: Part::Header, pending: seq![], out, stop: None };
            &&& stored ==> read == next(s.out + block)
            &&& !stored && inflated(block) is Some ==> read == next(s.out + inflated(block)->0)
            &&& !stored && inflated(block) is None ==> read.stop == Some(Stop::Corrupt)
                && read.out == s.out
            &&& none.stop == Some(Stop::Ended) && none.out == s.out
            &&& huge.stop == Some(Stop::TooLarge(large as u32)) && huge.out == s.out
        }),
{
    let bit: nat = if stored {
        0x8000_0000
    } else {
        0
    };
    lemma_any_header(s, bit + block.len(), block);
    lemma_any_header(s, bit, block);
    lemma_any_header(s, bit + large, block);
}

/// However a stream is cut on its way, it is read the same; and one that has stopped reads no
/// more.
pub proof fn law_cuts_do_not_matter(s: Unframed, a: Seq<u8>, b: Seq<u8>)
    ensures
        s.after_all(a + b) == s.after_all(a).after_all(b),
        s.stop is Some ==> s.after_all(a) == s,
{
    lemma_unframe_concat(s, a, b);
    if s.stop is Some {
        lemma_stopped(s, a);
    }
}

} // verus!
