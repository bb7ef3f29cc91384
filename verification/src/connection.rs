//! One inbound Quick Share connection, from accept to the last byte on disk.
//!
//! Everything decided here is decided without a socket: the caller reads, writes, asks and
//! creates files, says what came of it, and is told what to do next. The sequence is not
//! negotiable and is easy to get subtly wrong:
//!
//! ```text
//!  1. peer -> ConnectionRequest        offline frame, PLAINTEXT
//!  2. peer -> UKEY2 ClientInit         plaintext
//!     us   -> UKEY2 ServerInit
//!  3. peer -> UKEY2 ClientFinished
//!  4. us   -> ConnectionResponse(ACCEPT)   offline frame, still PLAINTEXT
//!  5. peer -> ConnectionResponse            plaintext
//!  6. ---- everything after this point is encrypted ----
//!  7. paired key both ways, introduction, the user's answer, then the files
//! ```

use vstd::prelude::*;
use std::collections::{HashMap, HashSet, VecDeque};
use crate::clock;
use crate::text;

verus! {

broadcast use vstd::std_specs::hash::group_hash_axioms;

/// What an inbound connection ended up doing, so the caller can tell a completed transfer
/// from a cancelled one -- the two must not be reported the same way, and a cancel must not
/// look like "received N files".
pub enum ServeOutcome {
    /// Files that landed. Empty means the peer connected but sent nothing (a probe, or a
    /// refusal), which is not a fault.
    Received(Vec<String>),
    /// The peer cancelled mid-stream. Any partial has been discarded.
    Cancelled,
}

/// A network we have stood up for a sender to join.
pub struct WifiGroup {
    pub ssid: String,
    pub passphrase: String,
    /// This device's address on the group, which the sender connects to.
    pub go_address: String,
    /// The channel in MHz, or 0 when unknown. A hint, never a requirement.
    pub frequency: i32,
}

// ------------------------------------------------------------------ greeting ---

/// What to call a peer: the name in its endpoint info, else whatever it put in the plain
/// name field, else something.
///
/// A stock peer puts its endpoint info in both fields, and the plain one is that binary run
/// through a lossy conversion; so the plain one is used only when the info did not parse.
pub open spec fn called(info_name: Option<Seq<char>>, endpoint_name: Seq<char>) -> Seq<char> {
    match info_name {
        Some(n) => n,
        None => if text::trim_text(endpoint_name).len() > 0 {
            text::trim_text(endpoint_name)
        } else {
            "A nearby device"@
        },
    }
}

pub fn peer_name(info_name: Option<String>, endpoint_name: &str) -> (r: String)
    ensures
        r@ == called(
            match info_name {
                Some(n) => Some(n@),
                None => None,
            },
            endpoint_name@,
        ),
{
    match info_name {
        Some(n) => n,
        None => {
            let t = text::trim(endpoint_name);
            if t.as_str().is_empty() {
                "A nearby device".to_owned()
            } else {
                t
            }
        },
    }
}

/// How far the plaintext part of a connection has come.
#[derive(Clone, Copy, PartialEq, Eq, Structural)]
pub enum Greeting {
    /// Nothing yet: the peer must ask for a connection.
    Request,
    /// The first key-agreement message is next.
    ClientInit,
    /// The last key-agreement message is next.
    ClientFinished,
    /// Our acceptance is out, and theirs is next.
    Response,
    /// Keys can be derived. Everything from here on is encrypted.
    Keys,
}

/// What the peer's next plaintext frame turned out to be.
#[derive(Clone, Copy, PartialEq, Eq, Structural)]
pub enum Greeted {
    ConnectionRequest,
    /// A key-agreement message the handshake took.
    Handshake,
    Response { accepted: bool },
    Other,
}

/// Why a greeting fails.
#[derive(Clone, Copy, PartialEq, Eq, Structural)]
pub enum GreetingError {
    ExpectedRequest,
    ExpectedHandshake,
    Declined,
    ExpectedResponse,
}

impl Greeting {
    pub open spec fn after(self, frame: Greeted) -> Result<Greeting, GreetingError> {
        match self {
            Greeting::Request => if frame is ConnectionRequest {
                Ok(Greeting::ClientInit)
            } else {
                Err(GreetingError::ExpectedRequest)
            },
            Greeting::ClientInit => if frame is Handshake {
                Ok(Greeting::ClientFinished)
            } else {
                Err(GreetingError::ExpectedHandshake)
            },
            Greeting::ClientFinished => if frame is Handshake {
                Ok(Greeting::Response)
            } else {
                Err(GreetingError::ExpectedHandshake)
            },
            Greeting::Response => match frame {
                Greeted::Response { accepted: true } => Ok(Greeting::Keys),
                Greeted::Response { accepted: false } => Err(GreetingError::Declined),
                _ => Err(GreetingError::ExpectedResponse),
            },
            Greeting::Keys => Ok(Greeting::Keys),
        }
    }

    pub fn on(self, frame: Greeted) -> (r: Result<Greeting, GreetingError>)
        ensures
            r == self.after(frame),
    {
        match self {
            Greeting::Request => match frame {
                Greeted::ConnectionRequest => Ok(Greeting::ClientInit),
                _ => Err(GreetingError::ExpectedRequest),
            },
            Greeting::ClientInit => match frame {
                Greeted::Handshake => Ok(Greeting::ClientFinished),
                _ => Err(GreetingError::ExpectedHandshake),
            },
            Greeting::ClientFinished => match frame {
                Greeted::Handshake => Ok(Greeting::Response),
                _ => Err(GreetingError::ExpectedHandshake),
            },
            Greeting::Response => match frame {
                Greeted::Response { accepted: true } => Ok(Greeting::Keys),
                Greeted::Response { accepted: false } => Err(GreetingError::Declined),
                _ => Err(GreetingError::ExpectedResponse),
            },
            Greeting::Keys => Ok(Greeting::Keys),
        }
    }
}

pub open spec fn greeting_after(frames: Seq<Greeted>) -> Result<Greeting, GreetingError>
    decreases frames.len(),
{
    if frames.len() == 0 {
        Ok(Greeting::Request)
    } else {
        match greeting_after(frames.drop_last()) {
            Ok(g) => g.after(frames.last()),
            Err(e) => Err(e),
        }
    }
}

/// Keys are derived only when the peer asked, took part in the key agreement twice, and
/// accepted, in that order.
pub proof fn law_keys_need_the_whole_greeting(frames: Seq<Greeted>)
    requires
        greeting_after(frames) == Ok::<Greeting, GreetingError>(Greeting::Keys),
    ensures
        frames.len() >= 4,
        frames[0] is ConnectionRequest,
        frames[1] is Handshake,
        frames[2] is Handshake,
        frames[3] == (Greeted::Response { accepted: true }),
{
    lemma_greeting(frames);
}

proof fn lemma_greeting(frames: Seq<Greeted>)
    ensures
        match greeting_after(frames) {
            Ok(Greeting::Request) => frames.len() == 0,
            Ok(Greeting::ClientInit) => frames.len() == 1 && frames[0] is ConnectionRequest,
            Ok(Greeting::ClientFinished) => frames.len() == 2 && frames[0] is ConnectionRequest
                && frames[1] is Handshake,
            Ok(Greeting::Response) => frames.len() == 3 && frames[0] is ConnectionRequest
                && frames[1] is Handshake && frames[2] is Handshake,
            Ok(Greeting::Keys) => frames.len() >= 4 && frames[0] is ConnectionRequest
                && frames[1] is Handshake && frames[2] is Handshake && frames[3] == (
            Greeted::Response { accepted: true }),
            Err(_) => true,
        },
    decreases frames.len(),
{
    if frames.len() > 0 {
        lemma_greeting(frames.drop_last());
        let d = frames.drop_last();
        assert(forall|i: int| 0 <= i < d.len() ==> d[i] == frames[i]);
    }
}

// ------------------------------------------------------------------- sharing ---

/// A file the sender announced.
pub struct Announced {
    pub payload_id: i64,
    pub name: String,
}

/// What the sharing machine asks for.
pub enum Effect {
    /// Send this sharing frame.
    Send(Vec<u8>),
    /// The peer wants to send these, so many bytes in all.
    AskUser { files: Vec<Announced>, total_size: i64 },
    /// The person agreed.
    BeginReceiving(Vec<Announced>),
    BeginSending,
    Done,
    Cancelled,
    Failed(String),
}

/// What the sharing machine is told.
#[derive(Clone, Copy, PartialEq, Eq, Structural)]
pub enum Input {
    UserAccepted,
    UserRejected,
    UserCancelled,
    TransferComplete,
    /// The sharing frame that has just been read.
    Frame,
}

/// What a decrypted frame holds.
pub enum Received {
    /// A whole sharing frame.
    Sharing,
    /// Part of a file, with the name its header gives.
    FileChunk { id: i64, len: u64, last: bool, file_name: String },
    PayloadCancelled { id: i64 },
    PayloadFailed { id: i64 },
    /// Part of something that is not complete yet.
    Pending,
    /// The peer asks for a faster medium, and names one we can host.
    UpgradeRequest { wifi_direct: bool },
    OtherUpgrade,
    KeepAlive { ack: bool, seq_num: u32 },
    Disconnection { request_safe: bool },
    Other,
}

/// What happened.
pub enum Event {
    /// What was asked for is done.
    Proceed,
    /// The person's answer.
    Answer(bool),
    /// What the sharing machine wants.
    Effects(VecDeque<Effect>),
    /// Whether a group was stood up and the conversation moved onto it; and the frames that
    /// were read on the way and did not belong to the handover.
    Moved { upgraded: bool, deferred: VecDeque<Vec<u8>> },
    /// Whether the person has cancelled here.
    CancelChecked(bool),
    Frame(Received),
}

/// What to do. At most the last of a list is answered by an event; after a list that ends
/// otherwise, the event is `Proceed`.
pub enum Action {
    /// Encrypt a sharing frame and send it, as this payload.
    SendPayload { payload_id: i64, frame: Vec<u8> },
    /// Announce the offer to every client, and ask the person.
    Ask { transfer_id: i64, files: Vec<Announced>, total: u64 },
    Tell(Input),
    /// Stand up a group and move onto it, if the sender will. A failure is passed over when
    /// the offer is ours, and ends the connection when the sender asked.
    OfferGroup { asked: bool },
    SendUpgradeFailure,
    CheckCancelled,
    Read,
    /// Read this frame, which was decrypted earlier.
    Reread(Vec<u8>),
    Create { id: i64, name: String },
    /// Write the chunk that has just come.
    Write { id: i64 },
    Report { done: u64, total: u64 },
    /// Flush and close.
    Close { id: i64 },
    /// Close without a word.
    Abandon { id: i64 },
    SendKeepAlive { seq_num: u32 },
    SendDisconnection { request_safe: bool, ack_safe: bool },
    /// Acknowledge a disconnection. Nobody minds if that fails.
    AckDisconnection,
    CloseAll,
    Discard,
    Finish { transfer_id: i64 },
    /// The connection is over, and what was written stands.
    EndReceived,
    EndCancelled,
    EndRefused(String),
    /// The connection is over: nobody announced this payload.
    EndUnannounced { id: i64 },
    EndPayloadFailed { id: i64 },
}

/// A connection being served, from the point where it is encrypted.
pub struct Serve {
    bootstrap_is_slow: bool,
    id: i64,
    upgraded: bool,
    next_payload_id: i64,
    sinks: HashSet<i64>,
    expected: HashMap<i64, String>,
    asked: Vec<i64>,
    granted: HashSet<i64>,
    written: Vec<String>,
    done_bytes: u64,
    total_bytes: u64,
    reported_bytes: u64,
    transfer_id: i64,
    in_batch: bool,
    batch: VecDeque<Effect>,
    pending: VecDeque<Effect>,
    deferred: VecDeque<Vec<u8>>,
}

/// What there is to know of a connection.
#[verifier::ext_equal]
pub struct Serving {
    /// Only worth upgrading FROM a slow transport.
    pub bootstrap_is_slow: bool,
    /// The id this connection is registered under.
    pub id: i64,
    pub upgraded: bool,
    pub next_payload_id: i64,
    /// The payloads that have an open file.
    pub sinks: Set<i64>,
    /// The payloads still to come, by id, with their names.
    pub expected: Map<i64, String>,
    /// The payloads the person is being asked about.
    pub asked: Seq<i64>,
    /// The payloads the person said yes to.
    pub granted: Set<i64>,
    pub written: Seq<String>,
    pub done_bytes: u64,
    pub total_bytes: u64,
    pub reported_bytes: u64,
    /// The id the client was told; zero before it was told one.
    pub transfer_id: i64,
    /// Whether a batch of effects is being gone through.
    pub in_batch: bool,
    pub batch: Seq<Effect>,
    pub pending: Seq<Effect>,
    pub deferred: Seq<Vec<u8>>,
}

/// How many bytes pass between two reports: one in a hundred, and half a megabyte at least.
pub open spec fn report_step(total: u64) -> u64 {
    if total / 100 > 524288 {
        total / 100
    } else {
        524288
    }
}

/// The payloads that are announced.
pub open spec fn payloads(files: Seq<Announced>) -> Seq<i64> {
    files.map_values(|f: Announced| f.payload_id)
}

/// Announced files are expected, by the ids of their payloads, as far as they were granted.
pub open spec fn with_announced(
    m: Map<i64, String>,
    files: Seq<Announced>,
    granted: Set<i64>,
) -> Map<i64, String>
    decreases files.len(),
{
    if files.len() == 0 {
        m
    } else {
        let before = with_announced(m, files.drop_last(), granted);
        if granted.contains(files.last().payload_id) {
            before.insert(files.last().payload_id, files.last().name)
        } else {
            before
        }
    }
}

impl Serving {
    pub open spec fn started(slow: bool, id: i64, effects: Seq<Effect>) -> Serving {
        Serving {
            bootstrap_is_slow: slow,
            id,
            upgraded: false,
            next_payload_id: 1,
            sinks: Set::empty(),
            expected: Map::empty(),
            asked: seq![],
            granted: Set::empty(),
            written: seq![],
            done_bytes: 0,
            total_bytes: 0,
            reported_bytes: 0,
            transfer_id: 0,
            in_batch: true,
            batch: effects,
            pending: seq![],
            deferred: seq![],
        }
    }

    /// Whether the counters can take what an event brings.
    pub open spec fn has_room(self, ev: Event) -> bool {
        &&& self.next_payload_id < i64::MAX
        &&& match ev {
            Event::Frame(Received::FileChunk { len, .. }) => self.done_bytes + len <= u64::MAX,
            _ => true,
        }
    }

    /// The transfer is over as far as the daemon's books go.
    pub open spec fn closing(self) -> Seq<Action> {
        if self.transfer_id != 0 {
            seq![Action::Finish { transfer_id: self.transfer_id }]
        } else {
            seq![]
        }
    }

    /// The pending effects become the batch to go through.
    pub open spec fn taken(self) -> Serving {
        Serving { in_batch: true, batch: self.pending, pending: seq![], ..self }
    }

    /// The person's answer is for what they were shown, and for nothing else.
    pub open spec fn answered(self, yes: bool) -> Serving {
        Serving {
            granted: if yes {
                self.granted.union(self.asked.to_set())
            } else {
                self.granted
            },
            asked: seq![],
            ..self
        }
    }

    pub open spec fn after_effect(self, e: Effect) -> (Serving, Seq<Action>) {
        match e {
            Effect::Send(frame) => {
                let id = (self.next_payload_id + 1) as i64;
                (
                    Serving { next_payload_id: id, ..self },
                    seq![Action::SendPayload { payload_id: id, frame }],
                )
            },
            Effect::AskUser { files, total_size } => {
                let total = if total_size > 0 {
                    total_size as u64
                } else {
                    0
                };
                (
                    Serving {
                        total_bytes: total,
                        transfer_id: self.id,
                        asked: payloads(files@),
                        ..self
                    },
                    seq![Action::Ask { transfer_id: self.id, files, total }],
                )
            },
            Effect::BeginReceiving(files) => (
                Serving { expected: with_announced(self.expected, files@, self.granted), ..self },
                if !self.upgraded && self.bootstrap_is_slow {
                    seq![Action::OfferGroup { asked: false }]
                } else {
                    seq![]
                },
            ),
            Effect::BeginSending => (self, seq![]),
            Effect::Done => (
                self,
                seq![Action::SendDisconnection { request_safe: true, ack_safe: false }]
                    + self.closing() + seq![Action::EndReceived],
            ),
            Effect::Cancelled => (
                Serving { sinks: Set::empty(), ..self },
                seq![Action::CloseAll, Action::Discard] + self.closing() + seq![
                    Action::EndCancelled,
                ],
            ),
            Effect::Failed(why) => (self, self.closing() + seq![Action::EndRefused(why)]),
        }
    }

    /// A file's name is the one that was announced, unless that was empty.
    pub open spec fn file_name(self, id: i64, file_name: String) -> String {
        if self.expected[id]@.len() == 0 {
            file_name
        } else {
            self.expected[id]
        }
    }

    /// Report on ~1% steps, on the first chunk, and always on the last one of a payload.
    pub open spec fn reports(self, done: u64, last: bool) -> bool {
        last || self.reported_bytes == 0 || done - self.reported_bytes >= report_step(
            self.total_bytes,
        )
    }

    pub open spec fn after_chunk(
        self,
        id: i64,
        len: u64,
        last: bool,
        file_name: String,
    ) -> (Serving, Seq<Action>) {
        if !self.expected.dom().contains(id) {
            (self, seq![Action::EndUnannounced { id }])
        } else {
            let name = self.file_name(id, file_name);
            let open = self.sinks.contains(id);
            let done = (self.done_bytes + len) as u64;
            let left = if last {
                self.expected.remove(id)
            } else {
                self.expected
            };
            (
                Serving {
                    sinks: if last {
                        self.sinks.remove(id)
                    } else {
                        self.sinks.insert(id)
                    },
                    expected: left,
                    written: if open {
                        self.written
                    } else {
                        self.written.push(name)
                    },
                    done_bytes: done,
                    reported_bytes: if self.reports(done, last) {
                        done
                    } else {
                        self.reported_bytes
                    },
                    ..self
                },
                (if open {
                    seq![]
                } else {
                    seq![Action::Create { id, name }]
                }) + seq![Action::Write { id }] + (if self.reports(done, last) {
                    seq![Action::Report { done, total: self.total_bytes }]
                } else {
                    seq![]
                }) + (if last {
                    seq![Action::Close { id }]
                } else {
                    seq![]
                }) + (if last && left.dom().len() == 0 {
                    seq![Action::Tell(Input::TransferComplete)]
                } else {
                    seq![]
                }),
            )
        }
    }

    pub open spec fn after_frame(self, f: Received) -> (Serving, Seq<Action>) {
        match f {
            Received::Sharing => (self, seq![Action::Tell(Input::Frame)]),
            Received::FileChunk { id, len, last, file_name } => self.after_chunk(
                id,
                len,
                last,
                file_name,
            ),
            Received::PayloadCancelled { id } => (
                Serving { sinks: self.sinks.remove(id), ..self },
                seq![Action::Abandon { id }, Action::Tell(Input::UserCancelled)],
            ),
            Received::PayloadFailed { id } => (self, seq![Action::EndPayloadFailed { id }]),
            Received::UpgradeRequest { wifi_direct } => (
                self,
                if wifi_direct {
                    seq![Action::OfferGroup { asked: true }]
                } else {
                    seq![Action::SendUpgradeFailure]
                },
            ),
            Received::KeepAlive { ack, seq_num } => (
                self,
                if ack {
                    seq![]
                } else {
                    seq![Action::SendKeepAlive { seq_num }]
                },
            ),
            Received::Disconnection { request_safe } => (
                self,
                (if request_safe {
                    seq![Action::AckDisconnection]
                } else {
                    seq![]
                }) + self.closing() + seq![Action::EndReceived],
            ),
            Received::Pending | Received::OtherUpgrade | Received::Other => (self, seq![]),
        }
    }

    /// The next state, and what is to be done.
    pub open spec fn after(self, ev: Event) -> (Serving, Seq<Action>) {
        match ev {
            Event::Proceed => if self.batch.len() > 0 {
                Serving { batch: self.batch.drop_first(), ..self }.after_effect(self.batch[0])
            } else {
                (Serving { in_batch: false, ..self }, seq![Action::CheckCancelled])
            },
            Event::Answer(yes) => (
                self.answered(yes),
                seq![
                    Action::Tell(
                        if yes {
                            Input::UserAccepted
                        } else {
                            Input::UserRejected
                        },
                    ),
                ],
            ),
            Event::Effects(effects) => {
                let s = Serving { pending: self.pending + effects@, ..self };
                (
                    if self.in_batch {
                        s
                    } else {
                        s.taken()
                    },
                    seq![],
                )
            },
            Event::Moved { upgraded, deferred } => (
                Serving {
                    upgraded: self.upgraded || (upgraded && self.in_batch),
                    deferred: self.deferred + deferred@,
                    ..self
                },
                seq![],
            ),
            Event::CancelChecked(cancelled) => if cancelled {
                (self, seq![Action::Tell(Input::UserCancelled)])
            } else if self.pending.len() > 0 {
                (self.taken(), seq![])
            } else if self.deferred.len() > 0 {
                (
                    Serving { deferred: self.deferred.drop_first(), ..self },
                    seq![Action::Reread(self.deferred[0])],
                )
            } else {
                (self, seq![Action::Read])
            },
            Event::Frame(f) => self.after_frame(f),
        }
    }
}

fn ids_of(files: &Vec<Announced>) -> (r: Vec<i64>)
    ensures
        r@ == payloads(files@),
{
    let mut out: Vec<i64> = Vec::new();
    let n: usize = files.len();
    let mut i: usize = 0;
    while i < n
        invariant
            n == files@.len(),
            i <= n,
            out@ == payloads(files@.take(i as int)),
        decreases n - i,
    {
        out.push(files[i].payload_id);
        i += 1;
        assert(out@ =~= payloads(files@.take(i as int)));
    }
    assert(files@.take(n as int) =~= files@);
    out
}

impl Serve {
    pub closed spec fn view(&self) -> Serving {
        Serving {
            bootstrap_is_slow: self.bootstrap_is_slow,
            id: self.id,
            upgraded: self.upgraded,
            next_payload_id: self.next_payload_id,
            sinks: self.sinks@,
            expected: self.expected@,
            asked: self.asked@,
            granted: self.granted@,
            written: self.written@,
            done_bytes: self.done_bytes,
            total_bytes: self.total_bytes,
            reported_bytes: self.reported_bytes,
            transfer_id: self.transfer_id,
            in_batch: self.in_batch,
            batch: self.batch@,
            pending: self.pending@,
            deferred: self.deferred@,
        }
    }

    /// Nothing was reported that has not come.
    pub open spec fn wf(&self) -> bool {
        &&& self@.reported_bytes <= self@.done_bytes
        &&& self@.expected.dom().finite()
    }

    /// The connection is up, and the sharing machine wants these to begin with.
    pub fn new(bootstrap_is_slow: bool, id: i64, effects: VecDeque<Effect>) -> (r: Serve)
        ensures
            r.wf(),
            r@ == Serving::started(bootstrap_is_slow, id, effects@),
    {
        let r = Serve {
            bootstrap_is_slow,
            id,
            upgraded: false,
            next_payload_id: 1,
            sinks: HashSet::new(),
            expected: HashMap::new(),
            asked: Vec::new(),
            granted: HashSet::new(),
            written: Vec::new(),
            done_bytes: 0,
            total_bytes: 0,
            reported_bytes: 0,
            transfer_id: 0,
            in_batch: true,
            batch: effects,
            pending: VecDeque::new(),
            deferred: VecDeque::new(),
        };
        assert(r@ =~= Serving::started(bootstrap_is_slow, id, effects@));
        r
    }

    /// Whether the counters can take what an event brings.
    pub fn has_room(&self, ev: &Event) -> (r: bool)
        ensures
            r == self@.has_room(*ev),
    {
        self.next_payload_id < i64::MAX && match ev {
            Event::Frame(Received::FileChunk { len, .. }) => *len <= u64::MAX - self.done_bytes,
            _ => true,
        }
    }

    /// The names of the files that were created.
    pub fn written(&self) -> (r: &Vec<String>)
        ensures
            r@ == self@.written,
    {
        &self.written
    }

    pub fn transfer_id(&self) -> (r: i64)
        ensures
            r == self@.transfer_id,
    {
        self.transfer_id
    }

    fn close(&self, out: &mut Vec<Action>)
        ensures
            final(out)@ == old(out)@ + self@.closing(),
    {
        if self.transfer_id != 0 {
            out.push(Action::Finish { transfer_id: self.transfer_id });
        }
        assert(out@ =~= old(out)@ + self@.closing());
    }

    fn take(&mut self)
        ensures
            final(self)@ == old(self)@.taken(),
    {
        let mut none: VecDeque<Effect> = VecDeque::new();
        std::mem::swap(&mut none, &mut self.pending);
        self.batch = none;
        self.in_batch = true;
        assert(self@ =~= old(self)@.taken());
    }

    fn answer(&mut self, yes: bool)
        requires
            old(self).wf(),
        ensures
            final(self).wf(),
            final(self)@ == old(self)@.answered(yes),
    {
        let ghost before = self@;
        let mut shown: Vec<i64> = Vec::new();
        std::mem::swap(&mut shown, &mut self.asked);
        if yes {
            let mut i: usize = 0;
            assert(shown@.take(0).to_set() =~= Set::empty());
            assert(before.granted =~= before.granted.union(shown@.take(0).to_set()));
            while i < shown.len()
                invariant
                    i <= shown@.len(),
                    shown@ == before.asked,
                    self@ == (Serving {
                        asked: seq![],
                        granted: before.granted.union(shown@.take(i as int).to_set()),
                        ..before
                    }),
                    self.wf(),
                decreases shown@.len() - i,
            {
                self.granted.insert(shown[i]);
                proof {
                    let had = shown@.take(i as int);
                    let has = shown@.take(i + 1);
                    assert(has =~= had.push(shown@[i as int]));
                    assert forall|x: i64| has.to_set().contains(x) <==> had.to_set().contains(x)
                        || x == shown@[i as int] by {
                        if had.contains(x) {
                            let j = choose|j: int| 0 <= j < had.len() && had[j] == x;
                            assert(has[j] == x);
                        }
                        assert(has[i as int] == shown@[i as int]);
                    }
                    assert(self@.granted =~= before.granted.union(has.to_set()));
                }
                i += 1;
                assert(self@ =~= (Serving {
                    asked: seq![],
                    granted: before.granted.union(shown@.take(i as int).to_set()),
                    ..before
                }));
            }
            assert(shown@.take(i as int) =~= shown@);
        }
        assert(self@ =~= before.answered(yes));
    }

    fn on_effect(&mut self, e: Effect) -> (r: Vec<Action>)
        requires
            old(self).wf(),
            old(self)@.next_payload_id < i64::MAX,
        ensures
            final(self).wf(),
            (final(self)@, r@) == old(self)@.after_effect(e),
    {
        let mut out: Vec<Action> = Vec::new();
        match e {
            Effect::Send(frame) => {
                self.next_payload_id = self.next_payload_id + 1;
                out.push(Action::SendPayload { payload_id: self.next_payload_id, frame });
            },
            Effect::AskUser { files, total_size } => {
                let total: u64 = if total_size > 0 {
                    total_size as u64
                } else {
                    0
                };
                self.total_bytes = total;
                // The id the connection is registered under, and no other: a second one would
                // have the person's answer dropped as meant for somebody else.
                self.transfer_id = self.id;
                self.asked = ids_of(&files);
                out.push(Action::Ask { transfer_id: self.id, files, total });
            },
            Effect::BeginReceiving(files) => {
                let mut i: usize = 0;
                assert(files@.subrange(0, 0) =~= seq![]);
                let ghost before = self@;
                while i < files.len()
                    invariant
                        i <= files@.len(),
                        self@ == (Serving {
                            expected: with_announced(
                                before.expected,
                                files@.subrange(0, i as int),
                                before.granted,
                            ),
                            ..before
                        }),
                        self.wf(),
                    decreases files@.len() - i,
                {
                    assert(files@.subrange(0, i + 1).drop_last() =~= files@.subrange(
                        0,
                        i as int,
                    ));
                    // The sharing machine begins to receive only what was agreed to. What the
                    // prompt is for does not rest on that alone.
                    if self.granted.contains(&files[i].payload_id) {
                        self.expected.insert(files[i].payload_id, files[i].name.clone());
                    }
                    i += 1;
                    assert(self@ =~= (Serving {
                        expected: with_announced(
                            before.expected,
                            files@.subrange(0, i as int),
                            before.granted,
                        ),
                        ..before
                    }));
                }
                assert(files@.subrange(0, i as int) =~= files@);
                // Offer a faster medium now, unprompted: the receiver is the advertiser, the
                // advertiser hosts, and a sender never asks. Before the acceptance goes out,
                // so that the handover never races the payload.
                if !self.upgraded && self.bootstrap_is_slow {
                    out.push(Action::OfferGroup { asked: false });
                }
            },
            Effect::BeginSending => {},
            Effect::Done => {
                out.push(Action::SendDisconnection { request_safe: true, ack_safe: false });
                self.close(&mut out);
                out.push(Action::EndReceived);
            },
            Effect::Cancelled => {
                // Close the files first, then delete them: a partial left in the inbox would
                // be collected as if it were a whole file.
                self.sinks.clear();
                out.push(Action::CloseAll);
                out.push(Action::Discard);
                self.close(&mut out);
                out.push(Action::EndCancelled);
            },
            Effect::Failed(why) => {
                self.close(&mut out);
                out.push(Action::EndRefused(why));
            },
        }
        assert(self@ =~= old(self)@.after_effect(e).0);
        assert(out@ =~= old(self)@.after_effect(e).1);
        out
    }

    fn on_chunk(&mut self, id: i64, len: u64, last: bool, file_name: String) -> (r: Vec<Action>)
        requires
            old(self).wf(),
            old(self)@.done_bytes + len <= u64::MAX,
        ensures
            final(self).wf(),
            (final(self)@, r@) == old(self)@.after_chunk(id, len, last, file_name),
    {
        let mut out: Vec<Action> = Vec::new();
        let ghost before = self@;
        // A payload nobody announced. Refusing it is the whole point of the introduction:
        // without this check a peer could push files the user was never shown and never
        // approved.
        let name: String = match self.expected.get(&id) {
            Some(n) => if n.as_str().is_empty() {
                file_name
            } else {
                n.clone()
            },
            None => {
                out.push(Action::EndUnannounced { id });
                assert(out@ =~= before.after_chunk(id, len, last, file_name).1);
                return out;
            },
        };
        assert(name == before.file_name(id, file_name));
        if !self.sinks.contains(&id) {
            self.sinks.insert(id);
            self.written.push(name.clone());
            out.push(Action::Create { id, name });
        }
        out.push(Action::Write { id });
        self.done_bytes = self.done_bytes + len;
        let hundredth: u64 = self.total_bytes / 100;
        let step: u64 = if hundredth > 524288 {
            hundredth
        } else {
            524288
        };
        if last || self.reported_bytes == 0 || self.done_bytes - self.reported_bytes >= step {
            self.reported_bytes = self.done_bytes;
            out.push(Action::Report { done: self.done_bytes, total: self.total_bytes });
        }
        if last {
            self.sinks.remove(&id);
            out.push(Action::Close { id });
            self.expected.remove(&id);
            if self.expected.is_empty() {
                out.push(Action::Tell(Input::TransferComplete));
            }
        }
        assert(self@.sinks =~= before.after_chunk(id, len, last, file_name).0.sinks);
        assert(self@.expected =~= before.after_chunk(id, len, last, file_name).0.expected);
        assert(self@ =~= before.after_chunk(id, len, last, file_name).0);
        assert(out@ =~= before.after_chunk(id, len, last, file_name).1);
        out
    }

    fn on_frame(&mut self, f: Received) -> (r: Vec<Action>)
        requires
            old(self).wf(),
            old(self)@.has_room(Event::Frame(f)),
        ensures
            final(self).wf(),
            (final(self)@, r@) == old(self)@.after_frame(f),
    {
        let mut out: Vec<Action> = Vec::new();
        match f {
            Received::Sharing => {
                out.push(Action::Tell(Input::Frame));
            },
            Received::FileChunk { id, len, last, file_name } => {
                return self.on_chunk(id, len, last, file_name);
            },
            Received::PayloadCancelled { id } => {
                self.sinks.remove(&id);
                out.push(Action::Abandon { id });
                out.push(Action::Tell(Input::UserCancelled));
                assert(self@.sinks =~= old(self)@.sinks.remove(id));
            },
            Received::PayloadFailed { id } => {
                out.push(Action::EndPayloadFailed { id });
            },
            Received::UpgradeRequest { wifi_direct } => {
                // Anything we cannot do is answered: the sender has asked and is waiting, and
                // silence costs it a timeout.
                if wifi_direct {
                    out.push(Action::OfferGroup { asked: true });
                } else {
                    out.push(Action::SendUpgradeFailure);
                }
            },
            Received::KeepAlive { ack, seq_num } => {
                // Answer, or the peer decides we are gone and drops a live transfer.
                if !ack {
                    out.push(Action::SendKeepAlive { seq_num });
                }
            },
            Received::Disconnection { request_safe } => {
                // The sender may be holding its socket open for the acknowledgement; without
                // it it may mark the transfer failed after the file was written.
                if request_safe {
                    out.push(Action::AckDisconnection);
                }
                self.close(&mut out);
                out.push(Action::EndReceived);
            },
            Received::Pending | Received::OtherUpgrade | Received::Other => {},
        }
        assert(self@ =~= old(self)@.after_frame(f).0);
        assert(out@ =~= old(self)@.after_frame(f).1);
        out
    }

    /// One step of the conversation.
    pub fn step(&mut self, ev: Event) -> (r: Vec<Action>)
        requires
            old(self).wf(),
            old(self)@.has_room(ev),
        ensures
            final(self).wf(),
            (final(self)@, r@) == old(self)@.after(ev),
    {
        let mut out: Vec<Action> = Vec::new();
        let ghost before = self@;
        match ev {
            Event::Proceed => {
                match self.batch.pop_front() {
                    Some(e) => {
                        assert(self@ =~= (Serving {
                            batch: before.batch.drop_first(),
                            ..before
                        }));
                        return self.on_effect(e);
                    },
                    None => {
                        self.in_batch = false;
                        out.push(Action::CheckCancelled);
                    },
                }
            },
            Event::Answer(yes) => {
                // Fed back as an input. The machine will not accept on its own under any
                // sequence of peer frames, which is the property the prompt exists for.
                self.answer(yes);
                if yes {
                    out.push(Action::Tell(Input::UserAccepted));
                } else {
                    out.push(Action::Tell(Input::UserRejected));
                }
            },
            Event::Effects(effects) => {
                let mut more = effects;
                self.pending.append(&mut more);
                assert(self@ =~= (Serving { pending: before.pending + effects@, ..before }));
                if !self.in_batch {
                    self.take();
                }
            },
            Event::Moved { upgraded, deferred } => {
                let mut more = deferred;
                self.deferred.append(&mut more);
                if upgraded && self.in_batch {
                    self.upgraded = true;
                }
            },
            Event::CancelChecked(cancelled) => {
                if cancelled {
                    out.push(Action::Tell(Input::UserCancelled));
                } else if self.pending.len() > 0 {
                    self.take();
                } else {
                    match self.deferred.pop_front() {
                        Some(f) => {
                            out.push(Action::Reread(f));
                        },
                        None => {
                            out.push(Action::Read);
                        },
                    }
                }
            },
            Event::Frame(f) => {
                return self.on_frame(f);
            },
        }
        assert(self@ =~= before.after(ev).0);
        assert(out@ =~= before.after(ev).1);
        out
    }
}

// --------------------------------------------------------------------- laws ---

/// The state after a run of events, and everything that was to be done on the way.
pub open spec fn run(s: Serving, evs: Seq<Event>) -> (Serving, Seq<Action>)
    decreases evs.len(),
{
    if evs.len() == 0 {
        (s, seq![])
    } else {
        let before = run(s, evs.drop_last());
        let now = before.0.after(evs.last());
        (now.0, before.1 + now.1)
    }
}

/// Whether an action puts a payload before the person.
pub open spec fn shows(a: Action, id: i64) -> bool {
    a matches Action::Ask { files, .. } && payloads(files@).contains(id)
}

/// Whether a payload was put before the person.
pub open spec fn shown(acts: Seq<Action>, id: i64) -> bool {
    exists|k: int| 0 <= k < acts.len() && shows(#[trigger] acts[k], id)
}

/// What the `i`th of a run of events leads to.
pub open spec fn acts_at(s: Serving, evs: Seq<Event>, i: int) -> Seq<Action> {
    run(s, evs.take(i)).0.after(evs[i]).1
}

/// Whether the `m`th event neither asks the person anything nor answers.
pub open spec fn no_question_at(s: Serving, evs: Seq<Event>, m: int) -> bool {
    &&& !(evs[m] is Answer)
    &&& forall|k: int| 0 <= k < acts_at(s, evs, m).len() ==> !(#[trigger] acts_at(s, evs, m)[k] is Ask)
}

/// Whether the question that the `i`th event put before the person holds a payload, and was the
/// last word about it before the `j`th.
pub open spec fn asked_at(s: Serving, evs: Seq<Event>, i: int, j: int, id: i64) -> bool {
    &&& 0 <= i < j
    &&& shown(acts_at(s, evs, i), id)
    &&& forall|m: int| i < m < j ==> #[trigger] no_question_at(s, evs, m)
}

/// Whether the person said yes to a payload: they were shown it, and their answer to that very
/// question was yes, with neither another question nor another answer between.
pub open spec fn approved(s: Serving, evs: Seq<Event>, id: i64) -> bool {
    exists|i: int, j: int|
        j < evs.len() && #[trigger] asked_at(s, evs, i, j, id) && evs[j] == Event::Answer(true)
}

proof fn lemma_with_announced(
    m: Map<i64, String>,
    files: Seq<Announced>,
    granted: Set<i64>,
    id: i64,
)
    requires
        with_announced(m, files, granted).dom().contains(id),
    ensures
        m.dom().contains(id) || granted.contains(id),
    decreases files.len(),
{
    if files.len() > 0 && files.last().payload_id != id {
        lemma_with_announced(m, files.drop_last(), granted, id);
    } else if files.len() > 0 && !granted.contains(id) {
        lemma_with_announced(m, files.drop_last(), granted, id);
    }
}

/// One step leaves asked what it shows, or what was asked if it neither asks nor answers, and
/// adds to what is granted only what was asked when the answer was yes; what is expected was
/// granted.
proof fn lemma_step_consent(s: Serving, ev: Event, id: i64)
    ensures
        ({
            let (t, acts) = s.after(ev);
            &&& t.asked.contains(id) ==> shown(acts, id) || (s.asked.contains(id) && !(
            ev is Answer) && forall|k: int|
                0 <= k < acts.len() ==> !(#[trigger] acts[k] is Ask))
            &&& t.granted.contains(id) ==> s.granted.contains(id) || (ev == Event::Answer(true)
                && s.asked.contains(id))
            &&& t.expected.dom().contains(id) ==> s.expected.dom().contains(id)
                || s.granted.contains(id)
        }),
{
    let (t, acts) = s.after(ev);
    match ev {
        Event::Proceed => {
            if s.batch.len() > 0 {
                match s.batch[0] {
                    Effect::AskUser { files, total_size } => {
                        if t.asked.contains(id) {
                            assert(shows(acts[0], id));
                        }
                    },
                    Effect::BeginReceiving(files) => {
                        if t.expected.dom().contains(id) {
                            lemma_with_announced(s.expected, files@, s.granted, id);
                        }
                    },
                    _ => {},
                }
            }
        },
        _ => {},
    }
}

/// What was asked in a run of events is asked in any that begins with it.
proof fn lemma_asked_before(s: Serving, front: Seq<Event>, ev: Event, i: int, j: int, id: i64)
    requires
        asked_at(s, front, i, j, id),
        j <= front.len(),
    ensures
        asked_at(s, front.push(ev), i, j, id),
{
    let evs = front.push(ev);
    assert forall|m: int| 0 <= m < front.len() implies acts_at(s, evs, m) == acts_at(
        s,
        front,
        m,
    ) by {
        assert(evs.take(m) =~= front.take(m));
    }
    assert forall|m: int| i < m < j implies #[trigger] no_question_at(s, evs, m) by {
        assert(no_question_at(s, front, m));
        assert(acts_at(s, evs, m) == acts_at(s, front, m));
    }
    assert(acts_at(s, evs, i) == acts_at(s, front, i));
}

proof fn lemma_consent(s0: Serving, evs: Seq<Event>, id: i64)
    requires
        s0.asked.len() == 0,
        !s0.granted.contains(id),
        !s0.expected.dom().contains(id),
    ensures
        run(s0, evs).0.asked.contains(id) ==> exists|i: int|
            #[trigger] asked_at(s0, evs, i, evs.len() as int, id),
        run(s0, evs).0.granted.contains(id) ==> approved(s0, evs, id),
        run(s0, evs).0.expected.dom().contains(id) ==> approved(s0, evs, id),
    decreases evs.len(),
{
    if evs.len() > 0 {
        let front = evs.drop_last();
        let last = evs.last();
        let n = front.len() as int;
        lemma_consent(s0, front, id);
        let before = run(s0, front).0;
        lemma_step_consent(before, last, id);
        assert(front.push(last) =~= evs);
        assert(evs.take(n) =~= front);
        assert(acts_at(s0, evs, n) == before.after(last).1);
        if before.asked.contains(id) {
            let i = choose|i: int| #[trigger] asked_at(s0, front, i, n, id);
            lemma_asked_before(s0, front, last, i, n, id);
            if last == Event::Answer(true) {
                assert(asked_at(s0, evs, i, n, id) && evs[n] == Event::Answer(true));
                assert(approved(s0, evs, id));
            }
            if no_question_at(s0, evs, n) {
                assert forall|m: int| i < m < n + 1 implies #[trigger] no_question_at(
                    s0,
                    evs,
                    m,
                ) by {
                }
                assert(asked_at(s0, evs, i, n + 1, id));
            }
        }
        if shown(acts_at(s0, evs, n), id) {
            assert(asked_at(s0, evs, n, n + 1, id));
        }
        if approved(s0, front, id) {
            let (i, j) = choose|i: int, j: int|
                j < front.len() && #[trigger] asked_at(s0, front, i, j, id) && front[j]
                    == Event::Answer(true);
            lemma_asked_before(s0, front, last, i, j, id);
            assert(evs[j] == front[j]);
            assert(approved(s0, evs, id));
        }
    }
}

/// A file is created only for a payload that is still to come.
proof fn lemma_create_is_expected(s: Serving, ev: Event, k: int)
    requires
        0 <= k < s.after(ev).1.len(),
        s.after(ev).1[k] is Create,
    ensures
        s.expected.dom().contains(s.after(ev).1[k]->Create_id),
{
}

/// Whatever the peer sends and whatever the sharing machine wants, in whatever order, a file is
/// created only for a payload that the person was shown and, asked about it, said yes to.
pub proof fn law_only_agreed_files_are_created(
    slow: bool,
    id: i64,
    start: Seq<Effect>,
    evs: Seq<Event>,
    ev: Event,
    k: int,
)
    requires
        ({
            let acts = run(Serving::started(slow, id, start), evs).0.after(ev).1;
            0 <= k < acts.len() && acts[k] is Create
        }),
    ensures
        approved(
            Serving::started(slow, id, start),
            evs,
            run(Serving::started(slow, id, start), evs).0.after(ev).1[k]->Create_id,
        ),
{
    let s0 = Serving::started(slow, id, start);
    let s = run(s0, evs).0;
    lemma_create_is_expected(s, ev, k);
    lemma_consent(s0, evs, s.after(ev).1[k]->Create_id);
}

/// A chunk of any payload that is not to come, be it one nobody agreed to or one that is
/// complete, ends the connection with nothing created; and the last chunk of a payload makes
/// it complete.
pub proof fn law_other_payloads_end_it(s: Serving, id: i64, len: u64, last: bool, name: String)
    ensures
        !s.expected.dom().contains(id) ==> s.after(
            Event::Frame(Received::FileChunk { id, len, last, file_name: name }),
        ) == (s, seq![Action::EndUnannounced { id }]),
        !s.after(
            Event::Frame(Received::FileChunk { id, len, last: true, file_name: name }),
        ).0.expected.dom().contains(id),
{
}

/// However a connection comes to its end, a transfer that was announced to the client is
/// taken off the books first. Only a payload nobody announced, or one the peer gave up on,
/// ends it without that.
pub proof fn law_an_ending_is_booked(s: Serving, ev: Event)
    requires
        s.transfer_id != 0,
        exists|k: int|
            0 <= k < s.after(ev).1.len() && (#[trigger] s.after(ev).1[k] is EndReceived
                || s.after(ev).1[k] is EndCancelled || s.after(ev).1[k] is EndRefused),
    ensures
        s.after(ev).1.len() >= 2,
        s.after(ev).1[s.after(ev).1.len() - 2] == (Action::Finish { transfer_id: s.transfer_id }),
{
}

/// One transfer, one id: the offer that a client is asked about and the end that is booked both
/// carry the id that the connection is registered under.
pub proof fn law_one_transfer_has_one_id(s: Serving, ev: Event)
    requires
        s.transfer_id == 0 || s.transfer_id == s.id,
    ensures
        s.after(ev).0.id == s.id,
        s.after(ev).0.transfer_id == 0 || s.after(ev).0.transfer_id == s.id,
        forall|k: int|
            0 <= k < s.after(ev).1.len() ==> match #[trigger] s.after(ev).1[k] {
                Action::Ask { transfer_id, .. } => transfer_id == s.id,
                Action::Finish { transfer_id } => transfer_id == s.id,
                _ => true,
            },
{
}

proof fn lemma_chunk_creates(s: Serving, id: i64, len: u64, last: bool, file_name: String)
    ensures
        ({
            let (next, acts) = s.after_chunk(id, len, last, file_name);
            &&& (forall|k: int| 0 <= k < acts.len() ==> !((#[trigger] acts[k]) is Create))
                ==> next.written == s.written
            &&& forall|k: int|
                0 <= k < acts.len() && (#[trigger] acts[k]) is Create ==> next.written
                    == s.written.push(acts[k]->Create_name)
        }),
{
    let (next, acts) = s.after_chunk(id, len, last, file_name);
    if s.expected.dom().contains(id) && !s.sinks.contains(id) {
        assert(acts[0] is Create);
    }
}

/// What is told to have been received is what was created, in order: a name is added together
/// with each file, and at no other time.
pub proof fn law_received_is_what_was_created(s: Serving, ev: Event)
    ensures
        (forall|k: int| 0 <= k < s.after(ev).1.len() ==> !((#[trigger] s.after(ev).1[k]) is Create))
            ==> s.after(ev).0.written == s.written,
        forall|k: int|
            0 <= k < s.after(ev).1.len() && (#[trigger] s.after(ev).1[k]) is Create ==> s.after(
                ev,
            ).0.written == s.written.push(s.after(ev).1[k]->Create_name),
{
    match ev {
        Event::Frame(Received::FileChunk { id, len, last, file_name }) => {
            lemma_chunk_creates(s, id, len, last, file_name);
            assert(s.after(ev) == s.after_chunk(id, len, last, file_name));
        },
        _ => {},
    }
}

/// Whether an action has to do with reading from the peer.
spec fn about_reading(a: Action) -> bool {
    a is CheckCancelled || a is Read || a is Reread
}

proof fn lemma_effects_read_nothing(s: Serving, e: Effect)
    ensures
        s.after_effect(e).0.in_batch == s.in_batch,
        s.after_effect(e).0.batch == s.batch,
        forall|k: int|
            0 <= k < s.after_effect(e).1.len() ==> !about_reading(
                #[trigger] s.after_effect(e).1[k],
            ),
{
}

proof fn lemma_chunks_read_nothing(s: Serving, id: i64, len: u64, last: bool, file_name: String)
    ensures
        s.after_chunk(id, len, last, file_name).0.in_batch == s.in_batch,
        s.after_chunk(id, len, last, file_name).0.batch == s.batch,
        forall|k: int|
            0 <= k < s.after_chunk(id, len, last, file_name).1.len() ==> !about_reading(
                #[trigger] s.after_chunk(id, len, last, file_name).1[k],
            ),
{
}

proof fn lemma_frames_read_nothing(s: Serving, f: Received)
    ensures
        s.after_frame(f).0.in_batch == s.in_batch,
        s.after_frame(f).0.batch == s.batch,
        forall|k: int|
            0 <= k < s.after_frame(f).1.len() ==> !about_reading(#[trigger] s.after_frame(f).1[k]),
{
    match f {
        Received::FileChunk { id, len, last, file_name } => {
            lemma_chunks_read_nothing(s, id, len, last, file_name);
        },
        _ => {},
    }
}

/// Nothing is read from the peer while there is anything left to do here: whether to read is
/// only settled once every effect of the batch is gone through, and then only if none is
/// pending.
pub proof fn law_effects_come_before_reading(s: Serving, ev: Event)
    requires
        s.in_batch || s.batch.len() == 0,
    ensures
        s.after(ev).0.in_batch || s.after(ev).0.batch.len() == 0,
        forall|k: int|
            0 <= k < s.after(ev).1.len() ==> match #[trigger] s.after(ev).1[k] {
                Action::CheckCancelled => s.batch.len() == 0 && !s.after(ev).0.in_batch,
                Action::Read => ev == Event::CancelChecked(false) && s.pending.len() == 0,
                Action::Reread(_) => ev == Event::CancelChecked(false) && s.pending.len() == 0,
                _ => true,
            },
{
    match ev {
        Event::Proceed => {
            if s.batch.len() > 0 {
                let rest = Serving { batch: s.batch.drop_first(), ..s };
                lemma_effects_read_nothing(rest, s.batch[0]);
                assert forall|k: int| 0 <= k < s.after(ev).1.len() implies !about_reading(
                    #[trigger] s.after(ev).1[k],
                ) by {
                    assert(!about_reading(rest.after_effect(s.batch[0]).1[k]));
                }
            }
        },
        Event::Frame(f) => {
            lemma_frames_read_nothing(s, f);
            assert forall|k: int| 0 <= k < s.after(ev).1.len() implies !about_reading(
                #[trigger] s.after(ev).1[k],
            ) by {
                assert(!about_reading(s.after_frame(f).1[k]));
            }
        },
        _ => {},
    }
}

/// A cancelled connection closes its files and has them deleted before it says so.
pub proof fn law_cancelled_files_are_discarded(s: Serving, ev: Event)
    requires
        exists|k: int| 0 <= k < s.after(ev).1.len() && #[trigger] s.after(ev).1[k] is EndCancelled,
    ensures
        s.after(ev).0.sinks == Set::<i64>::empty(),
        s.after(ev).1[0] is CloseAll,
        s.after(ev).1[1] is Discard,
{
}

/// Files being written, and files that are complete: under what name, and what they hold.
#[verifier::ext_equal]
pub struct Disk {
    pub open: Map<i64, (Seq<char>, Seq<u8>)>,
    pub complete: Seq<(Seq<char>, Seq<u8>)>,
}

impl Disk {
    /// What one action does, where the chunk that has just come holds some data.
    pub open spec fn acted(self, a: Action, data: Seq<u8>) -> Disk {
        match a {
            Action::Create { id, name } => Disk {
                open: self.open.insert(id, (name@, seq![])),
                ..self
            },
            Action::Write { id } => Disk {
                open: self.open.insert(id, (self.open[id].0, self.open[id].1 + data)),
                ..self
            },
            Action::Close { id } => Disk {
                open: self.open.remove(id),
                complete: self.complete.push(self.open[id]),
            },
            Action::Abandon { id } => Disk { open: self.open.remove(id), ..self },
            Action::CloseAll => Disk { open: Map::empty(), ..self },
            _ => self,
        }
    }

    pub open spec fn acted_all(self, acts: Seq<Action>, data: Seq<u8>) -> Disk
        decreases acts.len(),
    {
        if acts.len() == 0 {
            self
        } else {
            self.acted_all(acts.drop_last(), data).acted(acts.last(), data)
        }
    }
}

proof fn lemma_acted_concat(d: Disk, a: Seq<Action>, b: Seq<Action>, data: Seq<u8>)
    ensures
        d.acted_all(a + b, data) == d.acted_all(a, data).acted_all(b, data),
    decreases b.len(),
{
    if b.len() == 0 {
        assert(a + b =~= a);
    } else {
        lemma_acted_concat(d, a, b.drop_last(), data);
        assert((a + b).drop_last() =~= a + b.drop_last());
        assert((a + b).last() == b.last());
    }
}

proof fn lemma_acted_one(d: Disk, a: Action, data: Seq<u8>)
    ensures
        d.acted_all(seq![a], data) == d.acted(a, data),
        d.acted_all(seq![], data) == d,
{
    assert(seq![a].drop_last() =~= seq![]);
    reveal_with_fuel(Disk::acted_all, 2);
}

/// Actions that have nothing to do with files leave them alone.
proof fn lemma_acted_aside(d: Disk, acts: Seq<Action>, data: Seq<u8>)
    requires
        forall|k: int|
            0 <= k < acts.len() ==> !((#[trigger] acts[k]) is Create || acts[k] is Write
                || acts[k] is Close || acts[k] is Abandon || acts[k] is CloseAll),
    ensures
        d.acted_all(acts, data) == d,
    decreases acts.len(),
{
    if acts.len() > 0 {
        let front = acts.drop_last();
        assert forall|k: int| 0 <= k < front.len() implies !((#[trigger] front[k]) is Create
            || front[k] is Write || front[k] is Close || front[k] is Abandon
            || front[k] is CloseAll) by {
            assert(front[k] == acts[k]);
        }
        lemma_acted_aside(d, front, data);
        assert(acts.last() == acts[acts.len() - 1]);
    }
}

/// A chunk of a payload that was agreed to goes to its file, whole and once, behind what came
/// before: to the file that is open, or to a new one under the name that was announced, or under
/// the one in its header where none was. The last chunk completes the file. No other file is
/// touched.
#[verifier::rlimit(40)]
pub proof fn law_chunk_goes_to_its_file(
    s: Serving,
    disk: Disk,
    id: i64,
    data: Seq<u8>,
    last: bool,
    header: String,
)
    requires
        disk.open.dom() == s.sinks,
        s.expected.dom().contains(id),
        data.len() <= u64::MAX,
    ensures
        ({
            let ev = Event::Frame(
                Received::FileChunk { id, len: data.len() as u64, last, file_name: header },
            );
            let (t, acts) = s.after(ev);
            let after = disk.acted_all(acts, data);
            let had = if s.sinks.contains(id) {
                disk.open[id]
            } else if s.expected[id]@.len() > 0 {
                (s.expected[id]@, seq![])
            } else {
                (header@, seq![])
            };
            let has = (had.0, had.1 + data);
            &&& after.open.dom() == t.sinks
            &&& after == (if last {
                Disk { open: disk.open.remove(id), complete: disk.complete.push(has) }
            } else {
                Disk { open: disk.open.insert(id, has), ..disk }
            })
        }),
{
    let ev = Event::Frame(
        Received::FileChunk { id, len: data.len() as u64, last, file_name: header },
    );
    let (t, acts) = s.after(ev);
    let name = s.file_name(id, header);
    let open = s.sinks.contains(id);
    let create = if open {
        Seq::<Action>::empty()
    } else {
        seq![Action::Create { id, name }]
    };
    let write = seq![Action::Write { id }];
    let begun = create + write;
    let rest = acts.subrange(begun.len() as int, acts.len() as int);
    assert(acts =~= begun + rest);
    lemma_acted_concat(disk, begun, rest, data);
    lemma_acted_concat(disk, create, write, data);
    lemma_acted_one(disk, Action::Create { id, name }, data);
    let d1 = disk.acted_all(create, data);
    lemma_acted_one(d1, Action::Write { id }, data);
    let d2 = d1.acted_all(write, data);
    let had = if open {
        disk.open[id]
    } else {
        (name@, seq![])
    };
    let has = (had.0, had.1 + data);
    assert(d2.open =~= disk.open.insert(id, has));
    if last {
        let k = if s.reports((s.done_bytes + data.len()) as u64, last) {
            1int
        } else {
            0int
        };
        let report = rest.take(k);
        let close = seq![Action::Close { id }];
        let tail = rest.skip(k + 1);
        assert(rest =~= report + close + tail);
        lemma_acted_aside(d2, report, data);
        lemma_acted_concat(d2, report, close, data);
        lemma_acted_one(d2, Action::Close { id }, data);
        lemma_acted_concat(d2, report + close, tail, data);
        let d3 = d2.acted_all(report + close, data);
        lemma_acted_aside(d3, tail, data);
        assert(d3.open =~= disk.open.remove(id));
    } else {
        lemma_acted_aside(d2, rest, data);
    }
    assert(disk.acted_all(acts, data).open.dom() =~= t.sinks);
}

/// Each chunk of a payload that was agreed to is written exactly once, behind the creation of its
/// file if that was not open, and ahead of its closing; and nothing is done to any other file.
pub proof fn law_chunk_is_written_once(
    s: Serving,
    id: i64,
    len: u64,
    last: bool,
    header: String,
) -> (w: int)
    requires
        s.expected.dom().contains(id),
    ensures
        ({
            let ev = Event::Frame(Received::FileChunk { id, len, last, file_name: header });
            let acts = s.after(ev).1;
            &&& 0 <= w < acts.len()
            &&& acts[w] == Action::Write { id }
            &&& forall|k: int|
                0 <= k < acts.len() ==> match #[trigger] acts[k] {
                    Action::Write { .. } => k == w,
                    Action::Create { id: of, .. } => of == id && k < w && !s.sinks.contains(id),
                    Action::Close { id: of } => of == id && k > w && last,
                    Action::Abandon { .. } => false,
                    Action::CloseAll => false,
                    _ => true,
                }
            &&& !s.sinks.contains(id) ==> w > 0 && acts[w - 1] is Create
            &&& last ==> exists|k: int| w < k < acts.len() && #[trigger] acts[k] is Close
        }),
{
    let ev = Event::Frame(Received::FileChunk { id, len, last, file_name: header });
    let acts = s.after(ev).1;
    assert(s.after(ev) == s.after_chunk(id, len, last, header));
    let w: int = if s.sinks.contains(id) {
        0
    } else {
        1
    };
    if last {
        assert(acts[w + 2] is Close);
    }
    w
}

/// Nothing else writes: any other event leaves what is complete as it is, and leaves open files
/// as they are but for those that are given up, which are one whose payload was cancelled, or
/// all when everything is.
#[verifier::rlimit(40)]
pub proof fn law_only_chunks_are_written(s: Serving, disk: Disk, ev: Event, data: Seq<u8>)
    requires
        disk.open.dom() == s.sinks,
        ev matches Event::Frame(Received::FileChunk { id, .. }) ==> !s.expected.dom().contains(id),
    ensures
        ({
            let (t, acts) = s.after(ev);
            let after = disk.acted_all(acts, data);
            let all_off = ev is Proceed && s.batch.len() > 0 && s.batch[0] is Cancelled;
            &&& after.open.dom() == t.sinks
            &&& after.complete == disk.complete
            &&& after.open == (if all_off {
                Map::empty()
            } else {
                match ev {
                    Event::Frame(Received::PayloadCancelled { id }) => disk.open.remove(id),
                    _ => disk.open,
                }
            })
        }),
{
    let (t, acts) = s.after(ev);
    let all_off = ev is Proceed && s.batch.len() > 0 && s.batch[0] is Cancelled;
    if all_off {
        let first = seq![Action::CloseAll];
        let rest = acts.skip(1);
        assert(acts =~= first + rest);
        lemma_acted_concat(disk, first, rest, data);
        lemma_acted_one(disk, Action::CloseAll, data);
        lemma_acted_aside(disk.acted_all(first, data), rest, data);
        assert(disk.acted_all(acts, data).open.dom() =~= t.sinks);
    } else {
        match ev {
            Event::Frame(Received::PayloadCancelled { id }) => {
                let first = seq![Action::Abandon { id }];
                let rest = acts.skip(1);
                assert(acts =~= first + rest);
                lemma_acted_concat(disk, first, rest, data);
                lemma_acted_one(disk, Action::Abandon { id }, data);
                lemma_acted_aside(disk.acted_all(first, data), rest, data);
                assert(disk.acted_all(acts, data).open.dom() =~= t.sinks);
            },
            _ => {
                lemma_acted_aside(disk, acts, data);
                assert(t.sinks == s.sinks);
            },
        }
    }
}

/// The state and the files after a run of events, each with the data of its chunk.
pub open spec fn run_on(s: Serving, disk: Disk, evs: Seq<(Event, Seq<u8>)>) -> (Serving, Disk)
    decreases evs.len(),
{
    if evs.len() == 0 {
        (s, disk)
    } else {
        let (t, d) = run_on(s, disk, evs.drop_last());
        let (ev, data) = evs.last();
        (t.after(ev).0, d.acted_all(t.after(ev).1, data))
    }
}

/// What the chunks of a payload hold together, in the order in which they came.
pub open spec fn chunks_of(evs: Seq<(Event, Seq<u8>)>, id: i64) -> Seq<u8>
    decreases evs.len(),
{
    if evs.len() == 0 {
        seq![]
    } else {
        let before = chunks_of(evs.drop_last(), id);
        match evs.last().0 {
            Event::Frame(Received::FileChunk { id: of, .. }) => if of == id {
                before + evs.last().1
            } else {
                before
            },
            _ => before,
        }
    }
}

/// Whether an event says how much data its chunk holds, and does not bring a payload to its end.
pub open spec fn goes_on(e: (Event, Seq<u8>), id: i64) -> bool {
    match e.0 {
        Event::Frame(Received::FileChunk { id: of, len, last, .. }) => len == e.1.len() && (of
            == id ==> !last),
        Event::Frame(Received::PayloadCancelled { id: of }) => of != id,
        _ => true,
    }
}

/// Whether nothing of a run is given up altogether.
pub open spec fn not_all_off(s: Serving, disk: Disk, evs: Seq<(Event, Seq<u8>)>) -> bool
    decreases evs.len(),
{
    evs.len() == 0 || {
        let t = run_on(s, disk, evs.drop_last()).0;
        &&& not_all_off(s, disk, evs.drop_last())
        &&& !(evs.last().0 is Proceed && t.batch.len() > 0 && t.batch[0] is Cancelled)
    }
}

proof fn lemma_expected_stays(s: Serving, ev: Event, id: i64)
    requires
        s.expected.dom().contains(id),
        ev matches Event::Frame(Received::FileChunk { id: of, last, .. }) ==> of != id || !last,
    ensures
        s.after(ev).0.expected.dom().contains(id),
{
    match ev {
        Event::Proceed => {
            if s.batch.len() > 0 {
                match s.batch[0] {
                    Effect::BeginReceiving(files) => {
                        lemma_announced_keeps(s.expected, files@, s.granted, id);
                    },
                    _ => {},
                }
            }
        },
        _ => {},
    }
}

proof fn lemma_announced_keeps(
    m: Map<i64, String>,
    files: Seq<Announced>,
    granted: Set<i64>,
    id: i64,
)
    requires
        m.dom().contains(id),
    ensures
        with_announced(m, files, granted).dom().contains(id),
    decreases files.len(),
{
    if files.len() > 0 {
        lemma_announced_keeps(m, files.drop_last(), granted, id);
    }
}

proof fn lemma_file_fills(s: Serving, disk: Disk, evs: Seq<(Event, Seq<u8>)>, id: i64)
    requires
        disk.open.dom() == s.sinks,
        s.expected.dom().contains(id),
        !s.sinks.contains(id),
        forall|k: int| 0 <= k < evs.len() ==> goes_on(#[trigger] evs[k], id),
        not_all_off(s, disk, evs),
    ensures
        ({
            let (t, d) = run_on(s, disk, evs);
            &&& d.open.dom() == t.sinks
            &&& t.expected.dom().contains(id)
            &&& if t.sinks.contains(id) {
                d.open[id].1 == chunks_of(evs, id)
            } else {
                chunks_of(evs, id).len() == 0
            }
        }),
    decreases evs.len(),
{
    if evs.len() > 0 {
        let front = evs.drop_last();
        assert forall|k: int| 0 <= k < front.len() implies goes_on(#[trigger] front[k], id) by {
            assert(front[k] == evs[k]);
        }
        lemma_file_fills(s, disk, front, id);
        let (t, d) = run_on(s, disk, front);
        let (ev, data) = evs.last();
        assert(goes_on(evs[evs.len() - 1], id));
        lemma_expected_stays(t, ev, id);
        match ev {
            Event::Frame(Received::FileChunk { id: of, len, last, file_name }) => {
                if t.expected.dom().contains(of) {
                    law_chunk_goes_to_its_file(t, d, of, data, last, file_name);
                    assert(chunks_of(front, id) + data =~= chunks_of(front, id) + data);
                    if of == id && !t.sinks.contains(id) {
                        assert(chunks_of(front, id) + data =~= data);
                        assert(Seq::<u8>::empty() + data =~= data);
                    }
                } else {
                    law_only_chunks_are_written(t, d, ev, data);
                }
            },
            _ => {
                law_only_chunks_are_written(t, d, ev, data);
            },
        }
    }
}

/// A file is received whole: whatever comes in between, and however it is cut, once the last
/// chunk of an agreed payload has come, the file that is complete holds the bytes of all its
/// chunks in order.
pub proof fn law_file_is_received_whole(
    s: Serving,
    disk: Disk,
    evs: Seq<(Event, Seq<u8>)>,
    id: i64,
    data: Seq<u8>,
    header: String,
)
    requires
        disk.open.dom() == s.sinks,
        s.expected.dom().contains(id),
        !s.sinks.contains(id),
        forall|k: int| 0 <= k < evs.len() ==> goes_on(#[trigger] evs[k], id),
        not_all_off(s, disk, evs),
        data.len() <= u64::MAX,
    ensures
        ({
            let end = Event::Frame(
                Received::FileChunk { id, len: data.len() as u64, last: true, file_name: header },
            );
            let d = run_on(s, disk, evs.push((end, data))).1;
            &&& d.complete.len() > 0
            &&& d.complete.last().1 == chunks_of(evs, id) + data
            &&& !d.open.dom().contains(id)
        }),
{
    let end = Event::Frame(
        Received::FileChunk { id, len: data.len() as u64, last: true, file_name: header },
    );
    lemma_file_fills(s, disk, evs, id);
    let (t, d) = run_on(s, disk, evs);
    law_chunk_goes_to_its_file(t, d, id, data, true, header);
    let all = evs.push((end, data));
    assert(all.drop_last() =~= evs);
    if !t.sinks.contains(id) {
        assert(chunks_of(evs, id) + data =~= data);
        assert(Seq::<u8>::empty() + data =~= data);
    }
}

/// What the person is shown is what is offered, and their yes is for all of it; a yes is never
/// taken back, and a no gives none.
pub proof fn law_yes_is_for_what_was_shown(
    s: Serving,
    files: Vec<Announced>,
    total: i64,
    i: int,
    ev: Event,
    id: i64,
)
    requires
        s.batch.len() > 0,
        s.batch[0] == (Effect::AskUser { files, total_size: total }),
        0 <= i < files@.len(),
    ensures
        ({
            let asked = s.after(Event::Proceed);
            let yes = asked.0.after(Event::Answer(true)).0;
            let no = asked.0.after(Event::Answer(false)).0;
            &&& asked.1 == seq![
                Action::Ask {
                    transfer_id: s.id,
                    files,
                    total: if total > 0 {
                        total as u64
                    } else {
                        0
                    },
                },
            ]
            &&& asked.0.total_bytes == (if total > 0 {
                total as u64
            } else {
                0
            })
            &&& yes.granted.contains(files@[i].payload_id)
            &&& no.granted == s.granted
        }),
        s.granted.contains(id) ==> s.after(ev).0.granted.contains(id),
{
    let asked = s.after(Event::Proceed).0;
    assert(payloads(files@)[i] == files@[i].payload_id);
    assert(asked.asked.to_set().contains(files@[i].payload_id));
    match ev {
        Event::Frame(Received::FileChunk { id, len, last, file_name }) => {
            assert(s.after(ev) == s.after_chunk(id, len, last, file_name));
        },
        _ => {},
    }
}

/// Nobody is turned away whom the person let in: when receiving begins, each file that was said
/// yes to is taken in, and its first chunk makes a file.
pub proof fn law_agreed_files_are_taken(
    s: Serving,
    files: Vec<Announced>,
    i: int,
    len: u64,
    last: bool,
    header: String,
)
    requires
        s.batch.len() > 0,
        s.batch[0] == Effect::BeginReceiving(files),
        0 <= i < files@.len(),
        s.granted.contains(files@[i].payload_id),
        !s.sinks.contains(files@[i].payload_id),
    ensures
        ({
            let begun = s.after(Event::Proceed).0;
            let id = files@[i].payload_id;
            let chunk = begun.after(
                Event::Frame(Received::FileChunk { id, len, last, file_name: header }),
            );
            &&& begun.expected.dom().contains(id)
            &&& chunk.1.len() >= 2
            &&& chunk.1[0] is Create && chunk.1[0]->Create_id == id
            &&& chunk.1[1] == Action::Write { id }
        }),
{
    lemma_announced_all(s.expected, files@, s.granted, i);
}

proof fn lemma_announced_all(
    m: Map<i64, String>,
    files: Seq<Announced>,
    granted: Set<i64>,
    i: int,
)
    requires
        0 <= i < files.len(),
        granted.contains(files[i].payload_id),
    ensures
        with_announced(m, files, granted).dom().contains(files[i].payload_id),
    decreases files.len(),
{
    if i < files.len() - 1 {
        assert(files.drop_last()[i] == files[i]);
        lemma_announced_all(m, files.drop_last(), granted, i);
    }
}

/// A file arrives under the name it was announced with, if it was announced with one: what is
/// expected of a payload is the name given to it last.
pub proof fn law_announced_name_is_kept(
    m: Map<i64, String>,
    files: Seq<Announced>,
    granted: Set<i64>,
    id: i64,
)
    ensures
        ({
            let after = with_announced(m, files, granted);
            &&& forall|i: int|
                0 <= i < files.len() && (#[trigger] files[i]).payload_id == id && (forall|j: int|
                    i < j < files.len() ==> (#[trigger] files[j]).payload_id != id)
                    && granted.contains(id) ==> after.dom().contains(id) && after[id]
                    == files[i].name
            &&& (forall|i: int| 0 <= i < files.len() ==> (#[trigger] files[i]).payload_id != id)
                || !granted.contains(id) ==> (after.dom().contains(id) <==> m.dom().contains(id))
                && (m.dom().contains(id) ==> after[id] == m[id])
        }),
    decreases files.len(),
{
    if files.len() > 0 {
        let front = files.drop_last();
        law_announced_name_is_kept(m, front, granted, id);
        let before = with_announced(m, front, granted);
        let after = with_announced(m, files, granted);
        assert(files.last() == files[files.len() - 1]);
        assert forall|i: int|
            0 <= i < files.len() && (#[trigger] files[i]).payload_id == id && (forall|j: int|
                i < j < files.len() ==> (#[trigger] files[j]).payload_id != id)
                && granted.contains(id) implies after.dom().contains(id) && after[id]
            == files[i].name by {
            if i < files.len() - 1 {
                assert(front[i] == files[i]);
                assert(files[files.len() - 1].payload_id != id);
                assert forall|j: int| i < j < front.len() implies (
                #[trigger] front[j]).payload_id != id by {
                    assert(front[j] == files[j]);
                }
            }
        }
        if forall|i: int| 0 <= i < files.len() ==> (#[trigger] files[i]).payload_id != id {
            assert forall|i: int| 0 <= i < front.len() implies (
            #[trigger] front[i]).payload_id != id by {
                assert(front[i] == files[i]);
            }
        }
    }
}

/// Progress is what has come: each chunk of an agreed payload adds its bytes, and nothing else
/// does. What is reported is that sum, against the total that was announced; the first chunk and
/// the last of a payload are always reported, and in between a report comes as soon as, and not
/// before, both half a mebibyte and a hundredth of the total are unreported.
pub proof fn law_progress_is_what_has_come(s: Serving, ev: Event)
    requires
        s.has_room(ev),
        s.reported_bytes <= s.done_bytes,
    ensures
        ({
            let (t, acts) = s.after(ev);
            let came = match ev {
                Event::Frame(Received::FileChunk { id, len, .. }) => if s.expected.dom().contains(
                    id,
                ) {
                    Some(len)
                } else {
                    None
                },
                _ => None,
            };
            let last = ev matches Event::Frame(Received::FileChunk { last: true, .. });
            let unreported = t.done_bytes - s.reported_bytes;
            let due = last || s.reported_bytes == 0 || (unreported >= 0x80000 && unreported
                >= s.total_bytes / 100);
            let reported = exists|k: int| 0 <= k < acts.len() && (#[trigger] acts[k]) is Report;
            &&& t.done_bytes == s.done_bytes + (match came {
                Some(len) => len as int,
                None => 0,
            })
            &&& reported <==> came is Some && due
            &&& forall|k: int|
                0 <= k < acts.len() && (#[trigger] acts[k]) is Report ==> acts[k]
                    == Action::Report { done: t.done_bytes, total: s.total_bytes }
            &&& reported ==> t.reported_bytes == t.done_bytes
            &&& !reported ==> t.reported_bytes == s.reported_bytes
        }),
{
    let (t, acts) = s.after(ev);
    match ev {
        Event::Frame(Received::FileChunk { id, len, last, file_name }) => {
            if s.expected.dom().contains(id) {
                let done = (s.done_bytes + len) as u64;
                let n: int = if s.sinks.contains(id) {
                    1
                } else {
                    2
                };
                if s.reports(done, last) {
                    assert(acts[n] is Report);
                }
                assert(s.after(ev) == s.after_chunk(id, len, last, file_name));
            }
        },
        Event::Proceed => {
            if s.batch.len() > 0 {
                assert forall|k: int| 0 <= k < acts.len() implies !((#[trigger] acts[k]) is Report) by {
                }
            }
        },
        _ => {},
    }
}

/// Whether some actions tell the sharing machine something.
pub open spec fn tells(acts: Seq<Action>, what: Input) -> bool {
    exists|k: int| 0 <= k < acts.len() && #[trigger] acts[k] == Action::Tell(what)
}

/// The sharing machine is told what happened and nothing else: the person's answer as they gave
/// it, a cancel from either side, a frame that is for it, and that the transfer is complete when
/// the last chunk of the last payload has come and at no other time.
#[verifier::rlimit(40)]
pub proof fn law_machine_is_told_what_happened(s: Serving, ev: Event)
    requires
        s.expected.dom().finite(),
    ensures
        ({
            let (t, acts) = s.after(ev);
            &&& tells(acts, Input::UserAccepted) <==> ev == Event::Answer(true)
            &&& tells(acts, Input::UserRejected) <==> ev == Event::Answer(false)
            &&& tells(acts, Input::UserCancelled) <==> ev == Event::CancelChecked(true) || (
            ev is Frame && ev->Frame_0 is PayloadCancelled)
            &&& tells(acts, Input::Frame) <==> ev is Frame && ev->Frame_0 is Sharing
            &&& tells(acts, Input::TransferComplete) <==> (ev matches Event::Frame(
                Received::FileChunk { id, last: true, .. },
            ) && s.expected.dom().contains(id) && forall|other: i64|
                #[trigger] s.expected.dom().contains(other) ==> other == id)
        }),
{
    let (t, acts) = s.after(ev);
    match ev {
        Event::Answer(_) => {
            assert(acts[0] is Tell);
        },
        Event::CancelChecked(true) => {
            assert(acts[0] is Tell);
        },
        Event::Frame(Received::PayloadCancelled { id }) => {
            assert(acts[1] is Tell);
        },
        Event::Frame(Received::Sharing) => {
            assert(acts[0] is Tell);
        },
        Event::Frame(Received::FileChunk { id, len, last, file_name }) => {
            if s.expected.dom().contains(id) && last {
                let left = s.expected.remove(id).dom();
                assert(left =~= s.expected.dom().remove(id));
                if left.len() == 0 {
                    assert(left =~= Set::empty());
                    assert(acts.last() == Action::Tell(Input::TransferComplete));
                    assert(acts[acts.len() - 1] == Action::Tell(Input::TransferComplete));
                    assert forall|other: i64| #[trigger] s.expected.dom().contains(
                        other,
                    ) implies other == id by {
                        assert(!left.contains(other));
                    }
                } else {
                    let other = left.choose();
                    assert(left.contains(other));
                    assert(s.expected.dom().contains(other) && other != id);
                }
            }
        },
        _ => {},
    }
}

/// The peer is answered as it asks to be: a keep-alive that wants an answer gets one with its
/// own number, a request to part safely is acknowledged, and a request for a faster medium is
/// met or refused, but never passed over. None of these comes unasked.
pub proof fn law_peer_is_answered(s: Serving, ev: Event)
    ensures
        ({
            let acts = s.after(ev).1;
            &&& ev matches Event::Frame(Received::KeepAlive { ack: false, seq_num }) ==> acts
                == seq![Action::SendKeepAlive { seq_num }]
            &&& ev == Event::Frame(Received::UpgradeRequest { wifi_direct: true }) ==> acts
                == seq![Action::OfferGroup { asked: true }]
            &&& ev == Event::Frame(Received::UpgradeRequest { wifi_direct: false }) ==> acts
                == seq![Action::SendUpgradeFailure]
            &&& ev == Event::Frame(Received::Disconnection { request_safe: true }) ==> acts[0]
                == Action::AckDisconnection
        }),
        forall|k: int|
            0 <= k < s.after(ev).1.len() ==> match #[trigger] s.after(ev).1[k] {
                Action::SendKeepAlive { seq_num } => ev == Event::Frame(
                    Received::KeepAlive { ack: false, seq_num },
                ),
                Action::AckDisconnection => ev == Event::Frame(
                    Received::Disconnection { request_safe: true },
                ),
                Action::SendUpgradeFailure => ev == Event::Frame(
                    Received::UpgradeRequest { wifi_direct: false },
                ),
                Action::OfferGroup { asked: true } => ev == Event::Frame(
                    Received::UpgradeRequest { wifi_direct: true },
                ),
                Action::OfferGroup { asked: false } => ev is Proceed && s.batch.len() > 0
                    && s.batch[0] is BeginReceiving && s.bootstrap_is_slow && !s.upgraded,
                _ => true,
            },
{
    match ev {
        Event::Frame(Received::FileChunk { id, len, last, file_name }) => {
            assert(s.after(ev) == s.after_chunk(id, len, last, file_name));
        },
        _ => {},
    }
}

/// From a slow medium a faster one is offered when receiving begins, unless the conversation has
/// moved already; once it has, it is not offered again.
pub proof fn law_faster_medium_is_offered(s: Serving, deferred: VecDeque<Vec<u8>>, ev: Event)
    requires
        s.in_batch,
        s.batch.len() > 0,
        s.batch[0] is BeginReceiving,
    ensures
        s.after(Event::Proceed).1 == (if s.bootstrap_is_slow && !s.upgraded {
            seq![Action::OfferGroup { asked: false }]
        } else {
            seq![]
        }),
        s.after(Event::Moved { upgraded: true, deferred }).0.upgraded,
        s.after(Event::Moved { upgraded: false, deferred }).0.upgraded == s.upgraded,
        s.upgraded ==> s.after(ev).0.upgraded,
{
}

/// A connection ends for a reason, and says which: well when the peer parts or the machine is
/// done, with what was written discarded when it was cancelled, with the machine's own word when
/// it refused, and when a payload fails or was never agreed to. Nothing follows the end.
#[verifier::rlimit(40)]
pub proof fn law_an_end_has_a_reason(s: Serving, ev: Event)
    ensures
        ({
            let acts = s.after(ev).1;
            let first = if ev is Proceed && s.batch.len() > 0 {
                Some(s.batch[0])
            } else {
                None
            };
            let parts = ev is Frame && ev->Frame_0 is Disconnection;
            &&& first == Some(Effect::Done) || parts ==> acts.len() > 0 && acts.last()
                == Action::EndReceived
            &&& first == Some(Effect::Done) ==> acts[0] == Action::SendDisconnection {
                request_safe: true,
                ack_safe: false,
            }
            &&& first == Some(Effect::Cancelled) ==> acts.len() > 0 && acts.last()
                == Action::EndCancelled
            &&& first matches Some(Effect::Failed(why)) ==> acts.len() > 0 && acts.last()
                == Action::EndRefused(why)
            &&& ev matches Event::Frame(Received::PayloadFailed { id }) ==> acts == seq![
                Action::EndPayloadFailed { id },
            ]
        }),
        forall|k: int|
            0 <= k < s.after(ev).1.len() ==> match #[trigger] s.after(ev).1[k] {
                Action::EndReceived => k == s.after(ev).1.len() - 1 && ((ev is Frame
                    && ev->Frame_0 is Disconnection) || (ev is Proceed && s.batch.len() > 0
                    && s.batch[0] is Done)),
                Action::EndCancelled => k == s.after(ev).1.len() - 1 && ev is Proceed
                    && s.batch.len() > 0 && s.batch[0] is Cancelled,
                Action::EndRefused(why) => k == s.after(ev).1.len() - 1 && ev is Proceed
                    && s.batch.len() > 0 && s.batch[0] == Effect::Failed(why),
                Action::EndPayloadFailed { id } => ev == Event::Frame(
                    Received::PayloadFailed { id },
                ),
                _ => true,
            },
{
    match ev {
        Event::Frame(Received::FileChunk { id, len, last, file_name }) => {
            assert(s.after(ev) == s.after_chunk(id, len, last, file_name));
        },
        _ => {},
    }
}

/// Nothing that the sharing machine wants is lost, done twice or out of turn: what it wants is
/// put at the end, the first of it is taken when its turn comes, and no other event touches it.
/// A frame of the machine's goes out as it is, under an id that no frame before it had.
#[verifier::rlimit(40)]
pub proof fn law_wishes_are_met_in_turn(s: Serving, ev: Event)
    requires
        s.in_batch || s.batch.len() == 0,
        ev is CancelChecked ==> s.batch.len() == 0,
        s.next_payload_id < i64::MAX,
    ensures
        ({
            let (t, acts) = s.after(ev);
            let wishes = s.batch + s.pending;
            &&& t.batch + t.pending == match ev {
                Event::Proceed => if s.batch.len() > 0 {
                    wishes.drop_first()
                } else {
                    wishes
                },
                Event::Effects(more) => wishes + more@,
                _ => wishes,
            }
            &&& t.next_payload_id >= s.next_payload_id
            &&& ev is Proceed && s.batch.len() > 0 && s.batch[0] is Send ==> acts.len() == 1
                && acts[0] is SendPayload && acts[0]->frame == s.batch[0]->Send_0
                && s.next_payload_id < acts[0]->payload_id == t.next_payload_id
        }),
{
    let (t, acts) = s.after(ev);
    let wishes = s.batch + s.pending;
    match ev {
        Event::Proceed => {
            if s.batch.len() > 0 {
                assert(t.batch + t.pending =~= wishes.drop_first());
            }
        },
        Event::Effects(more) => {
            assert(t.batch + t.pending =~= wishes + more@);
        },
        Event::CancelChecked(_) => {
            assert(t.batch + t.pending =~= wishes);
        },
        Event::Frame(Received::FileChunk { id, len, last, file_name }) => {
            assert(s.after(ev) == s.after_chunk(id, len, last, file_name));
        },
        _ => {},
    }
}

/// No frame of the conversation is lost: those that were read during a handover are read again,
/// in the order in which they came, before any other.
pub proof fn law_deferred_frames_come_first(s: Serving, ev: Event)
    ensures
        ({
            let (t, acts) = s.after(ev);
            let looks = ev == Event::CancelChecked(false) && s.pending.len() == 0;
            &&& t.deferred == match ev {
                Event::Moved { deferred, .. } => s.deferred + deferred@,
                _ => if looks && s.deferred.len() > 0 {
                    s.deferred.drop_first()
                } else {
                    s.deferred
                },
            }
            &&& looks && s.deferred.len() > 0 ==> acts == seq![Action::Reread(s.deferred[0])]
            &&& looks && s.deferred.len() == 0 ==> acts == seq![Action::Read]
        }),
{
    match ev {
        Event::Frame(Received::FileChunk { id, len, last, file_name }) => {
            assert(s.after(ev) == s.after_chunk(id, len, last, file_name));
        },
        _ => {},
    }
}

/// A connection begins with what the sharing machine wants first, under its own id; nothing is
/// expected, agreed to, written or put aside before that, and no transfer was announced.
pub proof fn law_connection_begins_at_the_beginning(slow: bool, id: i64, effects: Seq<Effect>)
    ensures
        ({
            let s = Serving::started(slow, id, effects);
            &&& s.batch == effects && s.pending.len() == 0 && s.deferred.len() == 0 && s.in_batch
            &&& s.expected.dom() == Set::<i64>::empty() && s.granted == Set::<i64>::empty()
            &&& s.sinks == Set::<i64>::empty() && s.asked.len() == 0 && s.written.len() == 0
            &&& s.done_bytes == 0 && s.reported_bytes == 0 && s.transfer_id == 0
            &&& s.bootstrap_is_slow == slow && !s.upgraded && s.id == id
        }),
{
    assert(Serving::started(slow, id, effects).expected.dom() =~= Set::<i64>::empty());
}

/// What means nothing to us is passed over, and the next thing is to go on: neither a frame that
/// is not complete, nor one of another kind, nor an answer to our own keep-alive changes
/// anything. Once all wishes are met a cancel is looked for.
pub proof fn law_other_frames_are_passed_over(s: Serving, f: Received)
    ensures
        f is Pending || f is OtherUpgrade || f is Other || (f is KeepAlive && f->ack) ==> s.after(
            Event::Frame(f),
        ) == (s, Seq::<Action>::empty()),
        s.batch.len() == 0 ==> s.after(Event::Proceed).1 == seq![Action::CheckCancelled],
{
}

/// A greeting goes its way: each frame that is due leads on, with the peer's yes to the keys, and
/// each that is not fails it with what was due instead.
pub proof fn law_greeting_goes_its_way(frame: Greeted)
    ensures
        Greeting::Request.after(frame) == (if frame is ConnectionRequest {
            Ok::<Greeting, GreetingError>(Greeting::ClientInit)
        } else {
            Err(GreetingError::ExpectedRequest)
        }),
        Greeting::ClientInit.after(frame) is Ok <==> frame is Handshake,
        Greeting::ClientFinished.after(frame) is Ok <==> frame is Handshake,
        Greeting::ClientInit.after(frame) matches Err(e) ==> e == GreetingError::ExpectedHandshake,
        Greeting::ClientFinished.after(frame) matches Err(e) ==> e
            == GreetingError::ExpectedHandshake,
        Greeting::Response.after(frame) == Err::<Greeting, GreetingError>(GreetingError::Declined)
            <==> frame == (Greeted::Response { accepted: false }),
        Greeting::Response.after(frame) is Ok <==> frame == (Greeted::Response { accepted: true }),
        greeting_after(
            seq![
                Greeted::ConnectionRequest,
                Greeted::Handshake,
                Greeted::Handshake,
                Greeted::Response { accepted: true },
            ],
        ) == Ok::<Greeting, GreetingError>(Greeting::Keys),
{
    let all = seq![
        Greeted::ConnectionRequest,
        Greeted::Handshake,
        Greeted::Handshake,
        Greeted::Response { accepted: true },
    ];
    let c = all.drop_last();
    let b = c.drop_last();
    let a = b.drop_last();
    assert(a.drop_last() =~= seq![]);
    assert(a.last() == Greeted::ConnectionRequest);
    assert(b.last() == Greeted::Handshake);
    assert(c.last() == Greeted::Handshake);
    reveal_with_fuel(greeting_after, 5);
}

/// A peer is called what its endpoint info says, and by the plain field only where that says
/// nothing; and it is always called something.
pub proof fn law_peer_has_a_name(info: Option<Seq<char>>, plain: Seq<char>)
    ensures
        info matches Some(n) ==> called(info, plain) == n,
        info is None && plain.len() > 0 && !text::white_space(plain[0]) && !text::white_space(
            plain.last(),
        ) ==> called(info, plain) == plain,
        info is None ==> called(info, plain).len() > 0,
{
    reveal_strlit("A nearby device");
    if plain.len() > 0 && !text::white_space(plain[0]) && !text::white_space(plain.last()) {
        text::law_trimming_takes_white_space(seq![], plain, seq![]);
        assert(Seq::<char>::empty() + plain + Seq::<char>::empty() =~= plain);
    }
}

// ----------------------------------------------------------------- payloads ---

/// One frame of a payload.
pub struct PayloadPart {
    pub total_size: i64,
    /// Whether the frame carries the flag that ends the payload.
    pub last: bool,
    pub offset: i64,
    pub body: Vec<u8>,
}

pub open spec fn bodies(parts: Seq<PayloadPart>) -> Seq<u8>
    decreases parts.len(),
{
    if parts.len() == 0 {
        seq![]
    } else {
        bodies(parts.drop_last()) + parts.last().body@
    }
}

/// Whether frames make up a payload that a stock receiver can put together: each begins where
/// the one before ended, and the last, alone, carries the flag and nothing else.
pub open spec fn whole_payload(parts: Seq<PayloadPart>) -> bool {
    &&& parts.len() > 0
    &&& parts.last().last
    &&& parts.last().body@.len() == 0
    &&& forall|i: int| 0 <= i < parts.len() - 1 ==> !(#[trigger] parts[i]).last
    &&& forall|i: int|
        0 <= i < parts.len() ==> (#[trigger] parts[i]).offset == bodies(
            parts.subrange(0, i),
        ).len()
}

/// Wrap one sharing frame as a payload: two frames.
///
/// The body and the flag that ends the payload do not travel together. A stock receiver
/// reassembles nothing from a fused frame: the payload never completes, so the sharing frame
/// inside it is never delivered.
///
/// The terminator's offset is the total size, not zero.
pub fn wrap_bytes(frame: &[u8]) -> (r: Vec<PayloadPart>)
    requires
        frame@.len() <= i64::MAX,
    ensures
        r@.len() == 2,
        whole_payload(r@),
        bodies(r@) == frame@,
        r@[0].total_size == frame@.len(),
        r@[1].total_size == frame@.len(),
        r@[1].offset == frame@.len(),
{
    let n: i64 = frame.len() as i64;
    let mut body: Vec<u8> = Vec::new();
    body.extend_from_slice(frame);
    let mut out: Vec<PayloadPart> = Vec::new();
    out.push(PayloadPart { total_size: n, last: false, offset: 0, body });
    out.push(PayloadPart { total_size: n, last: true, offset: n, body: Vec::new() });
    proof {
        reveal_with_fuel(bodies, 3);
        assert(out@.subrange(0, 0) =~= seq![]);
        assert(out@.subrange(0, 1) =~= seq![out@[0]]);
        assert(out@.drop_last() =~= seq![out@[0]]);
        assert(seq![out@[0]].drop_last() =~= seq![]);
        assert(bodies(seq![out@[0]]) =~= frame@);
        assert(bodies(out@) =~= frame@);
    }
    out
}

// ---------------------------------------------------------------- callbacks ---

/// What came of telling a client something.
#[derive(Debug, Clone, Copy, PartialEq, Eq, Structural)]
pub enum Delivery {
    Delivered,
    /// Nobody is at the other end any more.
    Dead,
    Failed,
}

/// Whether a client stays registered.
///
/// A dead one never will hear anything again, and progress is told per chunk. One that is
/// merely busy, or that threw, keeps its callback: the next event may well reach it.
pub fn stays_registered(d: Delivery) -> (r: bool)
    ensures
        r == (d != Delivery::Dead),
{
    match d {
        Delivery::Dead => false,
        _ => true,
    }
}

// -------------------------------------------------------------- waiting for a frame ---

/// What a waiter for a frame does next.
#[derive(Debug, Clone, Copy, PartialEq, Eq, Structural)]
pub enum Look {
    /// Take the frame that is there.
    Take,
    /// Wait so long for the transport to have something, and read it.
    Wait(u64),
    /// The time is up, which is no error.
    GiveUp,
}

pub open spec fn looking(decoded: bool, deadline: u64, now: u64) -> Look {
    if decoded {
        Look::Take
    } else {
        match clock::until(deadline as int, now) {
            Some(left) => Look::Wait(left as u64),
            None => Look::GiveUp,
        }
    }
}

/// A frame that is in hand is taken, even when the time is up; otherwise the wait is for what is
/// left of it, and no longer.
pub proof fn law_frame_in_hand_is_taken(decoded: bool, deadline: u64, now: u64)
    ensures
        looking(decoded, deadline, now) is Take <==> decoded,
        looking(decoded, deadline, now) is GiveUp <==> !decoded && now > deadline,
        looking(decoded, deadline, now) matches Look::Wait(d) ==> now + d == deadline,
{
}

/// What was decoded comes first: a whole frame may be in hand while the transport has nothing
/// left to offer.
pub fn next_within(decoded: bool, deadline: u64, now: u64) -> (r: Look)
    ensures
        r == looking(decoded, deadline, now),
{
    if decoded {
        return Look::Take;
    }
    match clock::left(deadline, now) {
        Some(left) => Look::Wait(left),
        None => Look::GiveUp,
    }
}

} // verus!
