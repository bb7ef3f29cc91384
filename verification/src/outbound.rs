//! Sending files over Quick Share: the client half of a connection we open.
//!
//! ```text
//!  1. us   -> ConnectionRequest        offline frame, PLAINTEXT
//!  2. us   -> UKEY2 ClientInit         plaintext
//!     peer -> UKEY2 ServerInit
//!  3. us   -> UKEY2 ClientFinished
//!  4. us   -> ConnectionResponse(ACCEPT)  plaintext -- WE GO FIRST
//!     peer -> ConnectionResponse
//!  5. ---- encrypted from here ----
//!  6. paired key both ways, our introduction, THEIR user's answer, then the files
//! ```
//!
//! The wait in the middle is a person on the other device: after the introduction goes out,
//! nothing arrives until someone taps accept. A refusal finishes the exchange cleanly.

use vstd::prelude::*;
use std::collections::VecDeque;
use crate::clock;
use crate::connection;
use crate::connection::{Effect, Input, PayloadPart};
use crate::endpoint;
use crate::endpoint::{DeviceType, EndpointInfo};
use crate::handover::{Medium, CANCEL_LOOK, UPGRADE_OFFER_WAIT};
use crate::plist;
use crate::random;
use crate::wire;

verus! {

/// Bytes per chunk. What stock Quick Share uses; large enough that the per-frame overhead
/// disappears, small enough that progress moves visibly.
pub const CHUNK: usize = 524288;

/// How long to wait for the socket's send queue to reach the peer before letting go.
pub const DRAIN_MAX: u64 = 30000;

/// How long a completed send leaves the socket open before closing it: a grace period for a
/// peer that is still reading, which nothing on the wire shows.
pub const LINGER_MAX: u64 = 1500;

/// How long a single write may make no progress before the transfer is called failed.
pub const WRITE_STALL_TIMEOUT: u64 = 20000;

// ------------------------------------------------------------ introductions ---

/// One file to send.
#[derive(Debug)]
pub struct OutFile {
    pub name: String,
    pub mime: String,
    pub size: i64,
}

/// A network a peer has stood up for us, and where to reach it once we are on it.
#[derive(Debug)]
pub struct WifiJoin<'a> {
    pub medium: Medium,
    pub ssid: &'a str,
    pub passphrase: &'a str,
    /// Where to connect once joined. Empty means the peer named no address and the joiner is
    /// to use the network's own gateway.
    pub gateway: &'a str,
    pub port: u16,
    /// The channel in MHz, or 0. A hint for the radio; never a reason to refuse.
    pub frequency: i32,
}

/// What is said of a file before it is sent.
#[derive(Debug)]
pub struct Attachment {
    pub name: String,
    pub mime: String,
    pub size: i64,
    pub payload_id: i64,
    /// The same value as `payload_id`: receivers key their books on it, and discard an
    /// attachment whose id matches nothing they were told about.
    pub id: i64,
}

/// Who we are, in the encoding a receiver advertises: it builds its prompt from this.
pub open spec fn sender_info(metadata: Seq<u8>, device_name: Seq<char>) -> endpoint::Advertised {
    endpoint::Advertised {
        version: 1,
        hidden: false,
        device_type: DeviceType::Phone,
        metadata,
        device_name: Some(device_name),
    }
}

/// The endpoint info a connection request carries.
pub fn request_info(metadata: [u8; 16], device_name: &str) -> (r: Vec<u8>)
    ensures
        r@ == sender_info(metadata@, device_name@).bytes(),
{
    let info = EndpointInfo {
        // Version 1, not 0. Zero is what a field left unset looks like.
        version: 1,
        hidden: false,
        device_type: DeviceType::Phone,
        metadata,
        device_name: Some(device_name.to_owned()),
    };
    info.encode()
}

/// The attachments of an introduction. Each payload id is drawn once: the introduction
/// announces it, and the transfer must use the same value.
pub fn attachments(files: &Vec<OutFile>, ids: &Vec<i64>) -> (r: Vec<Attachment>)
    requires
        files@.len() == ids@.len(),
    ensures
        r@.len() == files@.len(),
        forall|i: int|
            0 <= i < r@.len() ==> (#[trigger] r@[i]).name == files@[i].name && r@[i].mime
                == files@[i].mime && r@[i].size == files@[i].size && r@[i].payload_id == ids@[i]
                && r@[i].id == ids@[i],
{
    let mut out: Vec<Attachment> = Vec::new();
    let mut i: usize = 0;
    while i < files.len()
        invariant
            i <= files@.len(),
            files@.len() == ids@.len(),
            out@.len() == i,
            forall|j: int|
                0 <= j < i ==> (#[trigger] out@[j]).name == files@[j].name && out@[j].mime
                    == files@[j].mime && out@[j].size == files@[j].size && out@[j].payload_id
                    == ids@[j] && out@[j].id == ids@[j],
        decreases files@.len() - i,
    {
        out.push(
            Attachment {
                name: files[i].name.clone(),
                mime: files[i].mime.clone(),
                size: files[i].size,
                payload_id: ids[i],
                id: ids[i],
            },
        );
        i += 1;
    }
    out
}

/// Eight bytes, big-endian, as a signed number.
pub fn i64_of(b: &Vec<u8>) -> (r: i64)
    requires
        b@.len() == 8,
    ensures
        r == plist::signed_64(wire::be_value(b@)),
{
    proof {
        wire::lemma_be_value_bound(b@);
        wire::lemma_be_limits();
    }
    let v: u64 = wire::be(b.as_slice());
    if v < 0x8000_0000_0000_0000 {
        v as i64
    } else {
        let low: u64 = v - 0x8000_0000_0000_0000;
        low as i64 + i64::MIN
    }
}

/// The payload id that eight random bytes make. Without them there is none.
pub fn id_of(random: Option<Vec<u8>>) -> (r: Option<i64>)
    requires
        random matches Some(b) ==> b@.len() == 8,
    ensures
        match random {
            Some(b) => r is Some && r->0 == plist::signed_64(wire::be_value(b@)),
            None => r is None,
        },
{
    match random {
        Some(b) => Some(i64_of(&b)),
        None => None,
    }
}

/// A payload id nobody can guess, made by `id_of`. `None` when there is no randomness.
pub fn random_i64() -> (r: Option<i64>) {
    id_of(random::random_bytes(8))
}

// -------------------------------------------------------------------- sending ---

/// What a decrypted frame holds.
#[derive(Debug, Clone, Copy, PartialEq, Eq, Structural)]
pub enum Heard {
    /// A whole sharing frame: the peer's part of the key exchange, or its user's answer.
    Sharing,
    /// Any other part of a payload. A sender is offered no files.
    Payload,
    KeepAlive { ack: bool, seq_num: u32 },
    Disconnection { request_safe: bool },
    Upgrade,
    Other,
}

pub enum Event {
    /// What was asked for is done.
    Proceed,
    /// What the sharing machine wants.
    Effects(VecDeque<Effect>),
    /// The wait for an offer is over. These frames were read on the way.
    Waited(VecDeque<Vec<u8>>),
    /// Whether every file went. Otherwise the person cancelled.
    FilesSent(bool),
    /// The session was ended the way the peer wants it. Whether the sharing machine has come
    /// to its good end.
    Closed { done: bool },
    /// Whether a person confirmed the PIN.
    Pin(bool),
    CancelChecked(bool),
    Frame(Heard),
    /// An upgrade frame was dealt with. These frames were read on the way.
    UpgradeHandled(VecDeque<Vec<u8>>),
}

/// What to do. At most the last of a list is answered by an event; after a list that ends
/// otherwise, the event is `Proceed`.
pub enum Action {
    SendPayload { payload_id: i64, frame: Vec<u8> },
    Tell(Input),
    /// Hold the payload until the peer answers the upgrade request, or the deadline passes.
    WaitForUpgrade { deadline: u64 },
    SendFiles,
    /// End the session the way this peer requires.
    Close { peer_safe_disconnect: bool },
    /// Ask for a Wi-Fi Direct path.
    AskUpgrade,
    ConfirmPin,
    CheckCancelled,
    Read,
    /// Read this frame, which was decrypted earlier.
    Reread(Vec<u8>),
    SendKeepAlive { seq_num: u32 },
    HandleUpgrade,
    /// Say goodbye. Nobody minds if that fails.
    Goodbye { request_safe: bool },
    AckDisconnection,
    /// The send is over: whether the peer accepted and every file went.
    End(bool),
    EndRefused(String),
}

/// What there is to know of a send.
#[verifier::ext_equal]
pub struct Sending {
    /// Only worth upgrading FROM a slow transport.
    pub bootstrap_is_slow: bool,
    /// Whether the peer said that it can be disconnected safely.
    pub peer_safe_disconnect: bool,
    pub total: u64,
    pub next_payload_id: i64,
    pub solicited: bool,
    pub pin_checked: bool,
    /// How long the payload may be held back waiting for an offer, once asked for.
    pub upgrade_deadline: Option<u64>,
    pub in_batch: bool,
    pub batch: Seq<Effect>,
    pub pending: Seq<Effect>,
    pub deferred: Seq<Vec<u8>>,
}

impl Sending {
    pub open spec fn started(
        slow: bool,
        peer_safe_disconnect: bool,
        total: u64,
        effects: Seq<Effect>,
    ) -> Sending {
        Sending {
            bootstrap_is_slow: slow,
            peer_safe_disconnect,
            total,
            next_payload_id: 1,
            solicited: false,
            pin_checked: false,
            upgrade_deadline: None,
            in_batch: true,
            batch: effects,
            pending: seq![],
            deferred: seq![],
        }
    }

    pub open spec fn taken(self) -> Sending {
        Sending { in_batch: true, batch: self.pending, pending: seq![], ..self }
    }

    pub open spec fn after_effect(self, e: Effect) -> (Sending, Seq<Action>) {
        match e {
            Effect::Send(frame) => {
                let id = (self.next_payload_id + 1) as i64;
                (
                    Sending { next_payload_id: id, ..self },
                    seq![Action::SendPayload { payload_id: id, frame }],
                )
            },
            Effect::BeginSending => match self.upgrade_deadline {
                Some(deadline) => (
                    Sending { upgrade_deadline: None, ..self },
                    seq![Action::WaitForUpgrade { deadline }],
                ),
                None => (self, seq![Action::SendFiles]),
            },
            Effect::Done => (
                self,
                seq![Action::Close { peer_safe_disconnect: self.peer_safe_disconnect }],
            ),
            Effect::Cancelled => (self, seq![Action::End(false)]),
            Effect::Failed(why) => (self, seq![Action::EndRefused(why)]),
            Effect::AskUser { .. } | Effect::BeginReceiving(_) => (self, seq![]),
        }
    }

    /// The effects are gone through. The first time, a faster medium is asked for, if this one
    /// is slow, and then the PIN is confirmed: the group can form while a person reads.
    pub open spec fn after_batch(self, now: u64) -> (Sending, Seq<Action>) {
        (
            Sending {
                solicited: true,
                pin_checked: true,
                in_batch: false,
                upgrade_deadline: if !self.solicited && self.bootstrap_is_slow {
                    Some((now + UPGRADE_OFFER_WAIT) as u64)
                } else {
                    self.upgrade_deadline
                },
                ..self
            },
            (if !self.solicited && self.bootstrap_is_slow {
                seq![Action::AskUpgrade]
            } else {
                seq![]
            }) + (if !self.pin_checked {
                seq![Action::ConfirmPin]
            } else {
                seq![Action::CheckCancelled]
            }),
        )
    }

    pub open spec fn after_frame(self, f: Heard) -> (Sending, Seq<Action>) {
        match f {
            Heard::Sharing => (self, seq![Action::Tell(Input::Frame)]),
            Heard::KeepAlive { ack, seq_num } => (
                self,
                if ack {
                    seq![]
                } else {
                    seq![Action::SendKeepAlive { seq_num }]
                },
            ),
            Heard::Disconnection { request_safe } => (
                self,
                (if request_safe {
                    seq![Action::AckDisconnection]
                } else {
                    seq![]
                }) + seq![Action::End(false)],
            ),
            Heard::Upgrade => (self, seq![Action::HandleUpgrade]),
            Heard::Payload | Heard::Other => (self, seq![]),
        }
    }

    pub open spec fn after(self, ev: Event, now: u64) -> (Sending, Seq<Action>) {
        match ev {
            Event::Proceed => if self.batch.len() > 0 {
                Sending { batch: self.batch.drop_first(), ..self }.after_effect(self.batch[0])
            } else {
                self.after_batch(now)
            },
            Event::Effects(effects) => {
                let s = Sending { pending: self.pending + effects@, ..self };
                (
                    if self.in_batch {
                        s
                    } else {
                        s.taken()
                    },
                    seq![],
                )
            },
            Event::Waited(deferred) => (
                Sending { deferred: self.deferred + deferred@, ..self },
                seq![Action::SendFiles],
            ),
            Event::FilesSent(all) => (
                self,
                seq![
                    Action::Tell(
                        if all {
                            Input::TransferComplete
                        } else {
                            Input::UserCancelled
                        },
                    ),
                ],
            ),
            Event::Closed { done } => (self, seq![Action::End(done && self.total > 0)]),
            Event::Pin(confirmed) => (
                self,
                if confirmed {
                    seq![Action::CheckCancelled]
                } else {
                    seq![
                        Action::Goodbye { request_safe: self.peer_safe_disconnect },
                        Action::End(false),
                    ]
                },
            ),
            Event::CancelChecked(cancelled) => if cancelled {
                (self, seq![Action::Tell(Input::UserCancelled)])
            } else if self.pending.len() > 0 {
                (self.taken(), seq![])
            } else if self.deferred.len() > 0 {
                (
                    Sending { deferred: self.deferred.drop_first(), ..self },
                    seq![Action::Reread(self.deferred[0])],
                )
            } else {
                (self, seq![Action::Read])
            },
            Event::Frame(f) => self.after_frame(f),
            Event::UpgradeHandled(deferred) => (
                Sending {
                    upgrade_deadline: None,
                    deferred: self.deferred + deferred@,
                    ..self
                },
                seq![],
            ),
        }
    }
}

/// A send, from the point where the connection is encrypted.
pub struct Send {
    bootstrap_is_slow: bool,
    peer_safe_disconnect: bool,
    total: u64,
    next_payload_id: i64,
    solicited: bool,
    pin_checked: bool,
    upgrade_deadline: Option<u64>,
    in_batch: bool,
    batch: VecDeque<Effect>,
    pending: VecDeque<Effect>,
    deferred: VecDeque<Vec<u8>>,
}

impl Send {
    pub closed spec fn view(&self) -> Sending {
        Sending {
            bootstrap_is_slow: self.bootstrap_is_slow,
            peer_safe_disconnect: self.peer_safe_disconnect,
            total: self.total,
            next_payload_id: self.next_payload_id,
            solicited: self.solicited,
            pin_checked: self.pin_checked,
            upgrade_deadline: self.upgrade_deadline,
            in_batch: self.in_batch,
            batch: self.batch@,
            pending: self.pending@,
            deferred: self.deferred@,
        }
    }

    /// The connection is up. `total_size` is what the introduction adds up to.
    pub fn new(
        bootstrap_is_slow: bool,
        peer_safe_disconnect: bool,
        total_size: i64,
        effects: VecDeque<Effect>,
    ) -> (r: Send)
        ensures
            r@ == Sending::started(
                bootstrap_is_slow,
                peer_safe_disconnect,
                if total_size > 0 {
                    total_size as u64
                } else {
                    0
                },
                effects@,
            ),
    {
        let total: u64 = if total_size > 0 {
            total_size as u64
        } else {
            0
        };
        let r = Send {
            bootstrap_is_slow,
            peer_safe_disconnect,
            total,
            next_payload_id: 1,
            solicited: false,
            pin_checked: false,
            upgrade_deadline: None,
            in_batch: true,
            batch: effects,
            pending: VecDeque::new(),
            deferred: VecDeque::new(),
        };
        assert(r@ =~= Sending::started(bootstrap_is_slow, peer_safe_disconnect, total, effects@));
        r
    }

    /// Whether another payload id can be minted.
    pub fn has_room(&self) -> (r: bool)
        ensures
            r == (self@.next_payload_id < i64::MAX),
    {
        self.next_payload_id < i64::MAX
    }

    pub fn total(&self) -> (r: u64)
        ensures
            r == self@.total,
    {
        self.total
    }

    fn take(&mut self)
        ensures
            final(self)@ == old(self)@.taken(),
    {
        let mut none: VecDeque<Effect> = VecDeque::new();
        std::mem::swap(&mut none, &mut self.pending);
        self.batch = none;
        self.in_batch = true;
        assert(self@ =~= old(self)@.taken());
    }

    fn on_effect(&mut self, e: Effect) -> (r: Vec<Action>)
        requires
            old(self)@.next_payload_id < i64::MAX,
        ensures
            (final(self)@, r@) == old(self)@.after_effect(e),
    {
        let mut out: Vec<Action> = Vec::new();
        match e {
            Effect::Send(frame) => {
                self.next_payload_id = self.next_payload_id + 1;
                out.push(Action::SendPayload { payload_id: self.next_payload_id, frame });
            },
            Effect::BeginSending => {
                // Wait for the offer before committing to the slow transport: seconds spent
                // here are cheap against what they buy.
                match self.upgrade_deadline {
                    Some(deadline) => {
                        self.upgrade_deadline = None;
                        out.push(Action::WaitForUpgrade { deadline });
                    },
                    None => {
                        out.push(Action::SendFiles);
                    },
                }
            },
            Effect::Done => {
                out.push(Action::Close { peer_safe_disconnect: self.peer_safe_disconnect });
            },
            Effect::Cancelled => {
                out.push(Action::End(false));
            },
            Effect::Failed(why) => {
                out.push(Action::EndRefused(why));
            },
            // A sender is never asked and never receives.
            Effect::AskUser { .. } | Effect::BeginReceiving(_) => {},
        }
        assert(self@ =~= old(self)@.after_effect(e).0);
        assert(out@ =~= old(self)@.after_effect(e).1);
        out
    }

    /// One step of the conversation.
    pub fn step(&mut self, ev: Event, now: u64) -> (r: Vec<Action>)
        requires
            old(self)@.next_payload_id < i64::MAX,
            now + UPGRADE_OFFER_WAIT <= u64::MAX,
        ensures
            (final(self)@, r@) == old(self)@.after(ev, now),
    {
        let mut out: Vec<Action> = Vec::new();
        let ghost before = self@;
        match ev {
            Event::Proceed => {
                match self.batch.pop_front() {
                    Some(e) => {
                        assert(self@ =~= (Sending {
                            batch: before.batch.drop_first(),
                            ..before
                        }));
                        return self.on_effect(e);
                    },
                    None => {
                        self.in_batch = false;
                        if !self.solicited {
                            self.solicited = true;
                            // Before the PIN wait, not after: every second a person spends
                            // reading four digits is a second the group could be forming.
                            if self.bootstrap_is_slow {
                                self.upgrade_deadline = Some(now + UPGRADE_OFFER_WAIT);
                                out.push(Action::AskUpgrade);
                            }
                        }
                        if !self.pin_checked {
                            self.pin_checked = true;
                            out.push(Action::ConfirmPin);
                        } else {
                            out.push(Action::CheckCancelled);
                        }
                    },
                }
            },
            Event::Effects(effects) => {
                let mut more = effects;
                self.pending.append(&mut more);
                assert(self@ =~= (Sending { pending: before.pending + effects@, ..before }));
                if !self.in_batch {
                    self.take();
                }
            },
            Event::Waited(deferred) => {
                let mut more = deferred;
                self.deferred.append(&mut more);
                out.push(Action::SendFiles);
            },
            Event::FilesSent(all) => {
                // UserCancelled rather than TransferComplete, so that the peer gets its cancel
                // frame instead of a claim that the transfer finished.
                if all {
                    out.push(Action::Tell(Input::TransferComplete));
                } else {
                    out.push(Action::Tell(Input::UserCancelled));
                }
            },
            Event::Closed { done } => {
                out.push(Action::End(done && self.total > 0));
            },
            Event::Pin(confirmed) => {
                if confirmed {
                    out.push(Action::CheckCancelled);
                } else {
                    out.push(Action::Goodbye { request_safe: self.peer_safe_disconnect });
                    out.push(Action::End(false));
                }
            },
            Event::CancelChecked(cancelled) => {
                if cancelled {
                    out.push(Action::Tell(Input::UserCancelled));
                } else if self.pending.len() > 0 {
                    self.take();
                } else {
                    match self.deferred.pop_front() {
                        Some(f) => {
                            out.push(Action::Reread(f));
                        },
                        None => {
                            out.push(Action::Read);
                        },
                    }
                }
            },
            Event::Frame(f) => match f {
                Heard::Sharing => {
                    out.push(Action::Tell(Input::Frame));
                },
                Heard::KeepAlive { ack, seq_num } => {
                    if !ack {
                        out.push(Action::SendKeepAlive { seq_num });
                    }
                },
                Heard::Disconnection { request_safe } => {
                    // They asked; answering costs one frame and lets them close cleanly.
                    if request_safe {
                        out.push(Action::AckDisconnection);
                    }
                    out.push(Action::End(false));
                },
                Heard::Upgrade => {
                    out.push(Action::HandleUpgrade);
                },
                Heard::Payload | Heard::Other => {},
            },
            Event::UpgradeHandled(deferred) => {
                let mut more = deferred;
                self.deferred.append(&mut more);
                // Whatever came of it, stop holding the payload for one.
                self.upgrade_deadline = None;
            },
        }
        assert(self@ =~= before.after(ev, now).0);
        assert(out@ =~= before.after(ev, now).1);
        out
    }
}

/// A faster medium is asked for only from a slow one, and only the first time round.
pub proof fn law_upgrade_is_asked_once(s: Sending, ev: Event, now: u64)
    requires
        exists|k: int|
            0 <= k < s.after(ev, now).1.len() && #[trigger] s.after(ev, now).1[k] is AskUpgrade,
    ensures
        s.bootstrap_is_slow,
        !s.solicited,
        s.after(ev, now).0.solicited,
{
}

/// Once asked, always asked: no later step forgets it.
pub proof fn law_solicited_stays(s: Sending, ev: Event, now: u64)
    requires
        s.solicited,
    ensures
        s.after(ev, now).0.solicited,
        s.pin_checked ==> s.after(ev, now).0.pin_checked,
{
}

/// A PIN that was not confirmed ends the send, and nothing else is done but to say goodbye.
pub proof fn law_unconfirmed_pin_ends_it(s: Sending, now: u64)
    ensures
        s.after(Event::Pin(false), now) == (
            s,
            seq![
                Action::Goodbye { request_safe: s.peer_safe_disconnect },
                Action::End(false),
            ],
        ),
{
}

/// A send succeeds only when the sharing machine came to its good end and there was something
/// to send.
pub proof fn law_success_means_delivered(s: Sending, ev: Event, now: u64)
    requires
        exists|k: int|
            0 <= k < s.after(ev, now).1.len() && #[trigger] s.after(ev, now).1[k] == Action::End(
                true,
            ),
    ensures
        ev == (Event::Closed { done: true }),
        s.total > 0,
{
}

/// Nothing is read from the peer while there is anything left to do here: whether to read is
/// only settled once every effect of the batch is gone through, and then only if none is
/// pending.
pub proof fn law_effects_come_before_reading(s: Sending, ev: Event, now: u64)
    requires
        s.in_batch || s.batch.len() == 0,
    ensures
        s.after(ev, now).0.in_batch || s.after(ev, now).0.batch.len() == 0,
        forall|k: int|
            0 <= k < s.after(ev, now).1.len() ==> match #[trigger] s.after(ev, now).1[k] {
                Action::CheckCancelled => ev == Event::Pin(true) || (s.batch.len() == 0 && !s.after(
                    ev,
                    now,
                ).0.in_batch),
                Action::Read => ev == Event::CancelChecked(false) && s.pending.len() == 0,
                Action::Reread(_) => ev == Event::CancelChecked(false) && s.pending.len() == 0,
                _ => true,
            },
{
}

/// Files go only when the sharing machine says that the peer agreed: at once, or after the wait
/// for a faster medium that was begun on its word.
pub proof fn law_files_go_only_when_agreed(s: Sending, ev: Event, now: u64)
    ensures
        forall|k: int|
            0 <= k < s.after(ev, now).1.len() && ((#[trigger] s.after(ev, now).1[k]) is SendFiles
                || s.after(ev, now).1[k] is WaitForUpgrade) ==> ev is Waited || (ev is Proceed
                && s.batch.len() > 0 && s.batch[0] is BeginSending),
{
}

/// Whether some actions tell the sharing machine something.
pub open spec fn tells(acts: Seq<Action>, what: Input) -> bool {
    exists|k: int| 0 <= k < acts.len() && #[trigger] acts[k] == Action::Tell(what)
}

/// The sharing machine is told how it went, and nothing else: that the transfer is complete once
/// every file has gone and at no other time, that it was cancelled once a cancel stopped the
/// files or was found by a look, and the frames that are for it. A sender never answers for the
/// person at the other end.
pub proof fn law_machine_is_told_how_it_went(s: Sending, ev: Event, now: u64)
    ensures
        tells(s.after(ev, now).1, Input::TransferComplete) <==> ev == Event::FilesSent(true),
        tells(s.after(ev, now).1, Input::UserCancelled) <==> ev == Event::FilesSent(false) || ev
            == Event::CancelChecked(true),
        tells(s.after(ev, now).1, Input::Frame) <==> ev == Event::Frame(Heard::Sharing),
        !tells(s.after(ev, now).1, Input::UserAccepted),
        !tells(s.after(ev, now).1, Input::UserRejected),
{
    let acts = s.after(ev, now).1;
    match ev {
        Event::FilesSent(_) => {
            assert(acts[0] is Tell);
        },
        Event::CancelChecked(true) => {
            assert(acts[0] is Tell);
        },
        Event::Frame(Heard::Sharing) => {
            assert(acts[0] is Tell);
        },
        _ => {},
    }
}

/// A send ends with the session it is about, and tells what came of it: well only when the
/// session was closed after a good end and there was something to send; with the machine's own
/// word when that refused; otherwise not well. Nothing follows the end.
pub proof fn law_an_end_has_a_reason(s: Sending, ev: Event, now: u64, k: int)
    requires
        0 <= k < s.after(ev, now).1.len(),
    ensures
        ({
            let acts = s.after(ev, now).1;
            let first = if ev is Proceed && s.batch.len() > 0 {
                Some(s.batch[0])
            } else {
                None
            };
            &&& acts[k] is End || acts[k] is EndRefused ==> k == acts.len() - 1
            &&& acts[k] == Action::End(true) ==> ev == (Event::Closed { done: true })
            &&& acts[k] == Action::End(false) ==> ev is Closed || ev == Event::Pin(false) || (
            ev is Frame && ev->Frame_0 is Disconnection) || first == Some(Effect::Cancelled)
            &&& acts[k] is EndRefused ==> first == Some(Effect::Failed(acts[k]->EndRefused_0))
        }),
{
}

/// What ends a send ends it: the peer going, the machine cancelling or refusing, the session
/// being closed.
pub proof fn law_what_ends_a_send(s: Sending, ev: Event, now: u64)
    ensures
        ({
            let acts = s.after(ev, now).1;
            &&& ev is Closed ==> acts == seq![
                Action::End(ev == (Event::Closed { done: true }) && s.total != 0),
            ]
            &&& ev is Frame && ev->Frame_0 is Disconnection ==> acts.len() > 0 && acts.last()
                == Action::End(false)
            &&& ev is Proceed && s.batch.len() > 0 && s.batch[0] is Cancelled ==> acts
                == seq![Action::End(false)]
            &&& ev is Proceed && s.batch.len() > 0 && s.batch[0] is Failed ==> acts == seq![
                Action::EndRefused(s.batch[0]->Failed_0),
            ]
        }),
{
}

/// The peer is answered as it asks to be: a keep-alive that wants an answer gets one with its
/// own number, a request to part safely is acknowledged, an upgrade is dealt with. None of these
/// comes unasked, and the session is closed the way the peer said it wants, on a good end and at
/// no other time.
pub proof fn law_peer_is_answered(s: Sending, ev: Event, now: u64)
    ensures
        ({
            let acts = s.after(ev, now).1;
            &&& ev matches Event::Frame(Heard::KeepAlive { ack: false, seq_num }) ==> acts == seq![
                Action::SendKeepAlive { seq_num },
            ]
            &&& ev == Event::Frame(Heard::Upgrade) ==> acts == seq![Action::HandleUpgrade]
            &&& ev == Event::Frame(Heard::Disconnection { request_safe: true }) ==> acts[0]
                == Action::AckDisconnection
            &&& ev is Proceed && s.batch.len() > 0 && s.batch[0] is Done ==> acts == seq![
                Action::Close { peer_safe_disconnect: s.peer_safe_disconnect },
            ]
            &&& forall|k: int|
                0 <= k < acts.len() ==> match #[trigger] acts[k] {
                    Action::SendKeepAlive { seq_num } => ev == Event::Frame(
                        Heard::KeepAlive { ack: false, seq_num },
                    ),
                    Action::AckDisconnection => ev == Event::Frame(
                        Heard::Disconnection { request_safe: true },
                    ),
                    Action::HandleUpgrade => ev == Event::Frame(Heard::Upgrade),
                    Action::Close { peer_safe_disconnect } => ev is Proceed && s.batch.len() > 0
                        && s.batch[0] is Done && peer_safe_disconnect == s.peer_safe_disconnect,
                    Action::Goodbye { request_safe } => ev == Event::Pin(false) && request_safe
                        == s.peer_safe_disconnect,
                    _ => true,
                }
        }),
{
}

/// Nothing that the sharing machine wants is lost, done twice or out of turn: what it wants is
/// put at the end, the first of it is taken when its turn comes, and no other event touches it.
/// A frame of the machine's goes out as it is, under an id that no frame before it had.
pub proof fn law_wishes_are_met_in_turn(s: Sending, ev: Event, now: u64)
    requires
        s.in_batch || s.batch.len() == 0,
        ev is CancelChecked ==> s.batch.len() == 0,
        s.next_payload_id < i64::MAX,
    ensures
        ({
            let (t, acts) = s.after(ev, now);
            let wishes = s.batch + s.pending;
            &&& t.batch + t.pending == match ev {
                Event::Proceed => if s.batch.len() > 0 {
                    wishes.drop_first()
                } else {
                    wishes
                },
                Event::Effects(more) => wishes + more@,
                _ => wishes,
            }
            &&& t.next_payload_id >= s.next_payload_id
            &&& ev is Proceed && s.batch.len() > 0 && s.batch[0] is Send ==> acts.len() == 1
                && acts[0] is SendPayload && acts[0]->frame == s.batch[0]->Send_0
            &&& forall|k: int|
                0 <= k < acts.len() && (#[trigger] acts[k]) is SendPayload ==> ev is Proceed
                    && s.batch.len() > 0 && s.batch[0] is Send && s.next_payload_id
                    < acts[k]->payload_id == t.next_payload_id
        }),
{
    let (t, acts) = s.after(ev, now);
    let wishes = s.batch + s.pending;
    match ev {
        Event::Proceed => {
            if s.batch.len() > 0 {
                assert(t.batch + t.pending =~= wishes.drop_first());
            }
        },
        Event::Effects(more) => {
            assert(t.batch + t.pending =~= wishes + more@);
        },
        Event::CancelChecked(_) => {
            assert(t.batch + t.pending =~= wishes);
        },
        _ => {},
    }
}

/// No frame of the conversation is lost: those that were read during a wait or a handover are
/// read again, in the order in which they came, before any other.
pub proof fn law_deferred_frames_come_first(s: Sending, ev: Event, now: u64)
    ensures
        ({
            let (t, acts) = s.after(ev, now);
            let looks = ev == Event::CancelChecked(false) && s.pending.len() == 0;
            &&& t.deferred == match ev {
                Event::Waited(more) => s.deferred + more@,
                Event::UpgradeHandled(more) => s.deferred + more@,
                _ => if looks && s.deferred.len() > 0 {
                    s.deferred.drop_first()
                } else {
                    s.deferred
                },
            }
            &&& looks && s.deferred.len() > 0 ==> acts == seq![Action::Reread(s.deferred[0])]
            &&& looks && s.deferred.len() == 0 ==> acts == seq![Action::Read]
        }),
{
}

/// Files wait for a faster medium only if one was asked for and nothing came of it yet, and then
/// no longer than until the time that was set when it was asked for. Whatever comes of an offer,
/// the wait is over.
pub proof fn law_files_wait_for_an_offer(s: Sending, ev: Event, now: u64)
    requires
        now + UPGRADE_OFFER_WAIT <= u64::MAX,
    ensures
        ({
            let (t, acts) = s.after(ev, now);
            let begins = ev is Proceed && s.batch.len() > 0 && s.batch[0] is BeginSending;
            &&& begins ==> acts.len() == 1 && match s.upgrade_deadline {
                Some(d) => acts[0] == Action::WaitForUpgrade { deadline: d },
                None => acts[0] == Action::SendFiles,
            }
            &&& begins || ev is UpgradeHandled ==> t.upgrade_deadline is None
            &&& ev is Waited ==> acts == seq![Action::SendFiles]
            &&& t.upgrade_deadline is Some && t.upgrade_deadline != s.upgrade_deadline
                ==> acts.len() > 0 && acts[0] == Action::AskUpgrade && t.upgrade_deadline->0
                == now + UPGRADE_OFFER_WAIT
            &&& s.bootstrap_is_slow && !s.solicited && ev is Proceed && s.batch.len() == 0
                ==> acts.len() > 0 && acts[0] == Action::AskUpgrade && t.upgrade_deadline is Some
        }),
{
}

/// The PIN is asked for once, before anything is read; once it is confirmed, and every time the
/// wishes are met after that, a cancel is looked for.
pub proof fn law_pin_comes_before_reading(s: Sending, now: u64)
    requires
        s.batch.len() == 0,
    ensures
        s.after(Event::Proceed, now).1.len() > 0,
        s.after(Event::Proceed, now).1.last() == (if s.pin_checked {
            Action::CheckCancelled
        } else {
            Action::ConfirmPin
        }),
        s.after(Event::Proceed, now).0.pin_checked,
        s.after(Event::Pin(true), now) == (s, seq![Action::CheckCancelled]),
{
}

// ------------------------------------------------------------------ one file ---

/// A file on its way out, chunk by chunk.
pub struct FileStream {
    size: i64,
    offset: i64,
    sent: Ghost<Seq<PayloadPart>>,
}

impl FileStream {
    /// The frames that have been made.
    pub closed spec fn sent(&self) -> Seq<PayloadPart> {
        self.sent@
    }

    pub closed spec fn size(&self) -> i64 {
        self.size
    }

    pub closed spec fn offset(&self) -> i64 {
        self.offset
    }

    /// Every frame begins where the one before ended, and none of them ends the payload.
    pub open spec fn wf(&self) -> bool {
        &&& self.offset() == connection::bodies(self.sent()).len()
        &&& forall|i: int| 0 <= i < self.sent().len() ==> !(#[trigger] self.sent()[i]).last
        &&& forall|i: int|
            0 <= i < self.sent().len() ==> (#[trigger] self.sent()[i]).offset
                == connection::bodies(self.sent().subrange(0, i)).len()
    }

    pub fn new(size: i64) -> (r: FileStream)
        ensures
            r.wf(),
            r.size() == size,
            r.sent() == Seq::<PayloadPart>::empty(),
    {
        FileStream { size, offset: 0, sent: Ghost(Seq::empty()) }
    }

    /// How many bytes have gone into frames.
    pub fn position(&self) -> (r: i64)
        ensures
            r == self.offset(),
    {
        self.offset
    }

    /// The next frame. A data frame never carries the flag that ends the payload, not even the
    /// last: fusing them loses the file on a stock receiver.
    pub fn chunk(&mut self, body: Vec<u8>) -> (r: Option<PayloadPart>)
        requires
            old(self).wf(),
            old(self).offset() + body@.len() <= i64::MAX,
        ensures
            final(self).wf(),
            final(self).size() == old(self).size(),
            match r {
                Some(p) => body@.len() > 0 && p.body == body && p.total_size == old(self).size()
                    && !p.last && p.offset == old(self).offset() && final(self).sent() == old(
                    self).sent().push(p),
                None => body@.len() == 0 && final(self).sent() == old(self).sent(),
            },
            final(self).offset() == old(self).offset() + body@.len(),
    {
        if body.len() == 0 {
            return None;
        }
        let n: i64 = body.len() as i64;
        let part = PayloadPart { total_size: self.size, last: false, offset: self.offset, body };
        self.offset = self.offset + n;
        proof {
            let before = self.sent@;
            let after = before.push(part);
            self.sent@ = after;
            assert(after.drop_last() =~= before);
            assert forall|i: int| 0 <= i < after.len() implies (#[trigger] after[i]).offset
                == connection::bodies(after.subrange(0, i)).len() by {
                if i < before.len() {
                    assert(after.subrange(0, i) =~= before.subrange(0, i));
                } else {
                    assert(after.subrange(0, i) =~= before);
                }
            }
        }
        Some(part)
    }

    /// The frame that ends the payload: no body, the flag, and the final offset.
    pub fn end(&self) -> (r: PayloadPart)
        requires
            self.wf(),
        ensures
            connection::whole_payload(self.sent().push(r)),
            connection::bodies(self.sent().push(r)) == connection::bodies(self.sent()),
            r.total_size == self.size(),
            r.last,
            r.offset == self.offset(),
            r.body@.len() == 0,
    {
        let part = PayloadPart {
            total_size: self.size,
            last: true,
            offset: self.offset,
            body: Vec::new(),
        };
        proof {
            let before = self.sent@;
            let after = before.push(part);
            assert(after.drop_last() =~= before);
            assert(connection::bodies(before) + seq![] =~= connection::bodies(before));
            assert forall|i: int| 0 <= i < after.len() implies (#[trigger] after[i]).offset
                == connection::bodies(after.subrange(0, i)).len() by {
                if i < before.len() {
                    assert(after.subrange(0, i) =~= before.subrange(0, i));
                } else {
                    assert(after.subrange(0, i) =~= before);
                }
            }
        }
        part
    }

    /// Whether what was read is not what was declared: the receiver would wait for bytes that
    /// never come.
    pub fn falls_short(&self) -> (r: bool)
        ensures
            r == (self.size() > 0 && self.offset() != self.size()),
    {
        self.size > 0 && self.offset != self.size
    }
}

/// What the sending of a file is told.
pub enum FileEvent {
    /// Whether the person has cancelled.
    CancelChecked(bool),
    /// What a read came to: no more than was wanted, and nothing at the end of the file.
    Data(Vec<u8>),
}

/// What the sending of a file asks for.
pub enum FileAction {
    CheckCancelled,
    /// Read so many bytes at most.
    Read { want: usize },
    Send(PayloadPart),
    Report { done: u64, total: u64 },
    /// The person has cancelled, and nothing more is sent.
    Stop,
    /// The file is sent.
    Finished,
}

/// A frame of a file.
#[verifier::ext_equal]
pub struct FileFrame {
    pub total_size: i64,
    /// Whether the frame carries the flag that ends the payload.
    pub last: bool,
    pub offset: nat,
    pub body: Seq<u8>,
}

/// The same, of an action.
#[verifier::ext_equal]
pub enum FileAct {
    CheckCancelled,
    Read { want: nat },
    Send(FileFrame),
    Report { done: nat, total: u64 },
    Stop,
    Finished,
}

impl FileAction {
    pub open spec fn view(&self) -> FileAct {
        match *self {
            FileAction::CheckCancelled => FileAct::CheckCancelled,
            FileAction::Read { want } => FileAct::Read { want: want as nat },
            FileAction::Send(p) => FileAct::Send(
                FileFrame {
                    total_size: p.total_size,
                    last: p.last,
                    offset: p.offset as nat,
                    body: p.body@,
                },
            ),
            FileAction::Report { done, total } => FileAct::Report { done: done as nat, total },
            FileAction::Stop => FileAct::Stop,
            FileAction::Finished => FileAct::Finished,
        }
    }
}

pub open spec fn file_acts(acts: Seq<FileAction>) -> Seq<FileAct> {
    acts.map_values(|a: FileAction| a@)
}

/// A file on its way out, as far as it has come.
#[verifier::ext_equal]
pub struct FileSending {
    /// How much was declared.
    pub size: i64,
    /// How much of the file has gone out.
    pub offset: nat,
    /// How much of all the files has.
    pub done: nat,
    /// How much all the files come to.
    pub total: u64,
    /// What was read for the next chunk.
    pub buf: Seq<u8>,
}

impl FileSending {
    pub open spec fn started(size: i64, done: nat, total: u64) -> FileSending {
        FileSending { size, offset: 0, done, total, buf: seq![] }
    }

    pub open spec fn wf(self) -> bool {
        self.buf.len() < CHUNK
    }

    /// What was read goes out as a chunk, if it is anything, and is reported.
    pub open spec fn flushed(self) -> (FileSending, Seq<FileAct>) {
        if self.buf.len() == 0 {
            (self, seq![])
        } else {
            let done = self.done + self.buf.len();
            (
                FileSending {
                    offset: self.offset + self.buf.len(),
                    done,
                    buf: seq![],
                    ..self
                },
                seq![
                    FileAct::Send(
                        FileFrame {
                            total_size: self.size,
                            last: false,
                            offset: self.offset,
                            body: self.buf,
                        },
                    ),
                    FileAct::Report { done, total: self.total },
                ],
            )
        }
    }

    /// A read may come up short without being the end of the file, so a chunk is filled before
    /// it goes out. Whether the person has cancelled is looked at before each chunk. At the end
    /// of the file one frame follows that ends the payload and holds nothing.
    pub open spec fn after_data(self, data: Seq<u8>) -> (FileSending, Seq<FileAct>) {
        let all = self.buf + data;
        if data.len() == 0 {
            let (next, acts) = self.flushed();
            (
                next,
                acts + seq![
                    FileAct::Send(
                        FileFrame {
                            total_size: self.size,
                            last: true,
                            offset: next.offset,
                            body: seq![],
                        },
                    ),
                    FileAct::Finished,
                ],
            )
        } else if all.len() < CHUNK {
            (
                FileSending { buf: all, ..self },
                seq![FileAct::Read { want: (CHUNK - all.len()) as nat }],
            )
        } else {
            let (next, acts) = FileSending { buf: all, ..self }.flushed();
            (next, acts + seq![FileAct::CheckCancelled])
        }
    }

    pub open spec fn after_look(self, cancelled: bool) -> (FileSending, Seq<FileAct>) {
        (
            self,
            seq![
                if cancelled {
                    FileAct::Stop
                } else {
                    FileAct::Read { want: (CHUNK - self.buf.len()) as nat }
                },
            ],
        )
    }

    pub open spec fn after(self, ev: FileEvent) -> (FileSending, Seq<FileAct>) {
        match ev {
            FileEvent::CancelChecked(cancelled) => self.after_look(cancelled),
            FileEvent::Data(data) => self.after_data(data@),
        }
    }

    /// Whether an event brings no more than was wanted, and the counters can take it.
    pub open spec fn has_room(self, ev: FileEvent) -> bool {
        ev matches FileEvent::Data(data) ==> {
            &&& self.buf.len() + data@.len() <= CHUNK
            &&& self.offset + self.buf.len() + data@.len() <= i64::MAX
            &&& self.done + self.buf.len() + data@.len() <= u64::MAX
        }
    }
}

/// Sends one file. It begins with a look whether the person has cancelled.
pub struct FileSend {
    stream: FileStream,
    buf: Vec<u8>,
    done: u64,
    total: u64,
}

impl FileSend {
    pub closed spec fn view(&self) -> FileSending {
        FileSending {
            size: self.stream.size(),
            offset: self.stream.offset() as nat,
            done: self.done as nat,
            total: self.total,
            buf: self.buf@,
        }
    }

    pub closed spec fn wf(&self) -> bool {
        &&& self.stream.wf()
        &&& self@.wf()
    }

    /// A file of the declared size, after so many bytes of the files before it.
    pub fn new(size: i64, done: u64, total: u64) -> (r: FileSend)
        ensures
            r.wf(),
            r@ == FileSending::started(size, done as nat, total),
    {
        let r = FileSend { stream: FileStream::new(size), buf: Vec::new(), done, total };
        assert(r@ =~= FileSending::started(size, done as nat, total));
        r
    }

    /// Whether an event brings no more than was wanted, and the counters can take it.
    pub fn has_room(&self, ev: &FileEvent) -> (r: bool)
        requires
            self.wf(),
        ensures
            r == self@.has_room(*ev),
    {
        match ev {
            FileEvent::CancelChecked(_) => true,
            FileEvent::Data(data) => {
                if data.len() > CHUNK - self.buf.len() {
                    return false;
                }
                let n: usize = self.buf.len() + data.len();
                self.stream.position() <= i64::MAX - n as i64 && self.done <= u64::MAX - n as u64
            },
        }
    }

    /// How much of all the files has gone out.
    pub fn done(&self) -> (r: u64)
        ensures
            r == self@.done,
    {
        self.done
    }

    /// How much of this file has.
    pub fn position(&self) -> (r: i64)
        requires
            self.wf(),
        ensures
            r == self@.offset,
    {
        self.stream.position()
    }

    /// Whether what was read is not what was declared: the receiver would wait for bytes that
    /// never come.
    pub fn falls_short(&self) -> (r: bool)
        requires
            self.wf(),
        ensures
            r == (self@.size > 0 && self@.offset != self@.size),
    {
        self.stream.falls_short()
    }

    fn flush(&mut self, out: &mut Vec<FileAction>)
        requires
            old(self).stream.wf(),
            old(self).buf@.len() <= CHUNK,
            old(self)@.offset + old(self).buf@.len() <= i64::MAX,
            old(self)@.done + old(self).buf@.len() <= u64::MAX,
        ensures
            final(self).wf(),
            final(self)@ == old(self)@.flushed().0,
            file_acts(final(out)@) == file_acts(old(out)@) + old(self)@.flushed().1,
    {
        let ghost before = self@;
        let ghost had = out@;
        let n: u64 = self.buf.len() as u64;
        let mut body: Vec<u8> = Vec::new();
        std::mem::swap(&mut body, &mut self.buf);
        match self.stream.chunk(body) {
            Some(part) => {
                self.done = self.done + n;
                out.push(FileAction::Send(part));
                out.push(FileAction::Report { done: self.done, total: self.total });
            },
            None => {},
        }
        assert(self@ =~= before.flushed().0);
        assert(file_acts(out@) =~= file_acts(had) + before.flushed().1);
    }

    pub fn step(&mut self, ev: FileEvent) -> (r: Vec<FileAction>)
        requires
            old(self).wf(),
            old(self)@.has_room(ev),
        ensures
            final(self).wf(),
            (final(self)@, file_acts(r@)) == old(self)@.after(ev),
    {
        let ghost before = self@;
        let mut out: Vec<FileAction> = Vec::new();
        match ev {
            FileEvent::CancelChecked(cancelled) => {
                if cancelled {
                    out.push(FileAction::Stop);
                } else {
                    out.push(FileAction::Read { want: CHUNK - self.buf.len() });
                }
            },
            FileEvent::Data(data) => {
                if data.len() == 0 {
                    self.flush(&mut out);
                    let ghost flushed = out@;
                    let part = self.stream.end();
                    let ghost close = FileAction::Send(part);
                    out.push(FileAction::Send(part));
                    out.push(FileAction::Finished);
                    proof {
                        assert(close@->Send_0.body =~= seq![]);
                        assert(file_acts(out@) =~= file_acts(flushed).push(close@).push(
                            FileAct::Finished,
                        ));
                        assert(file_acts(flushed) =~= before.flushed().1);
                    }
                } else {
                    let mut more = data;
                    self.buf.append(&mut more);
                    assert(self@ =~= (FileSending { buf: before.buf + data@, ..before }));
                    if self.buf.len() < CHUNK {
                        out.push(FileAction::Read { want: CHUNK - self.buf.len() });
                    } else {
                        self.flush(&mut out);
                        let ghost flushed = out@;
                        out.push(FileAction::CheckCancelled);
                        assert(file_acts(out@) =~= file_acts(flushed).push(FileAct::CheckCancelled));
                    }
                }
            },
        }
        assert(self@ =~= before.after(ev).0);
        assert(file_acts(out@) =~= before.after(ev).1);
        out
    }
}

/// How many bytes of a file its first `i` chunks hold.
pub open spec fn chunk_end(data: Seq<u8>, i: int) -> int {
    if i * CHUNK < data.len() {
        i * CHUNK
    } else {
        data.len() as int
    }
}

/// How many chunks a file makes.
pub open spec fn chunk_count(data: Seq<u8>) -> nat {
    (data.len() + CHUNK - 1) as nat / CHUNK as nat
}

/// The frames of a file that was declared to be of some size: chunks that begin where the one
/// before ended, full but for the last, and one that ends the payload.
pub open spec fn file_frames(size: i64, data: Seq<u8>) -> Seq<FileFrame> {
    Seq::new(
        chunk_count(data),
        |i: int|
            FileFrame {
                total_size: size,
                last: false,
                offset: (i * CHUNK) as nat,
                body: data.subrange(i * CHUNK, chunk_end(data, i + 1)),
            },
    ).push(FileFrame { total_size: size, last: true, offset: data.len(), body: seq![] })
}

/// The frames among some actions.
pub open spec fn frames_in(acts: Seq<FileAct>) -> Seq<FileFrame>
    decreases acts.len(),
{
    if acts.len() == 0 {
        seq![]
    } else {
        match acts.last() {
            FileAct::Send(f) => frames_in(acts.drop_last()).push(f),
            _ => frames_in(acts.drop_last()),
        }
    }
}

/// The progress reported among some actions.
pub open spec fn reports_in(acts: Seq<FileAct>) -> Seq<nat>
    decreases acts.len(),
{
    if acts.len() == 0 {
        seq![]
    } else {
        match acts.last() {
            FileAct::Report { done, .. } => reports_in(acts.drop_last()).push(done),
            _ => reports_in(acts.drop_last()),
        }
    }
}

proof fn lemma_in_concat(a: Seq<FileAct>, b: Seq<FileAct>)
    ensures
        frames_in(a + b) == frames_in(a) + frames_in(b),
        reports_in(a + b) == reports_in(a) + reports_in(b),
    decreases b.len(),
{
    if b.len() == 0 {
        assert(a + b =~= a);
        assert(frames_in(a) + frames_in(b) =~= frames_in(a));
        assert(reports_in(a) + reports_in(b) =~= reports_in(a));
    } else {
        lemma_in_concat(a, b.drop_last());
        assert((a + b).drop_last() =~= a + b.drop_last());
        assert((a + b).last() == b.last());
        assert(frames_in(a + b) =~= frames_in(a) + frames_in(b));
        assert(reports_in(a + b) =~= reports_in(a) + reports_in(b));
    }
}

/// What some reads came to.
pub open spec fn together(reads: Seq<Seq<u8>>) -> Seq<u8>
    decreases reads.len(),
{
    if reads.len() == 0 {
        seq![]
    } else {
        together(reads.drop_last()) + reads.last()
    }
}

/// A file that nobody cancels, read in some pieces: every look is answered with no.
pub open spec fn file_read(s: FileSending, reads: Seq<Seq<u8>>) -> (FileSending, Seq<FileAct>)
    decreases reads.len(),
{
    if reads.len() == 0 {
        s.after_look(false)
    } else {
        let before = file_read(s, reads.drop_last());
        let now = before.0.after_data(reads.last());
        if now.0.buf.len() == 0 {
            let looked = now.0.after_look(false);
            (looked.0, before.1 + now.1 + looked.1)
        } else {
            (now.0, before.1 + now.1)
        }
    }
}

/// The same, to the end of the file.
pub open spec fn file_sent(s: FileSending, reads: Seq<Seq<u8>>) -> (FileSending, Seq<FileAct>) {
    let read = file_read(s, reads);
    let end = read.0.after_data(seq![]);
    (end.0, read.1 + end.1)
}

/// Whether every read brings something, and no more than was wanted.
pub open spec fn reads_fit(reads: Seq<Seq<u8>>) -> bool {
    forall|i: int|
        0 <= i < reads.len() ==> 0 < (#[trigger] reads[i]).len() <= CHUNK - together(
            reads.take(i),
        ).len() % CHUNK as nat
}

proof fn lemma_in_one(a: FileAct)
    ensures
        frames_in(seq![a]) == (match a {
            FileAct::Send(f) => seq![f],
            _ => Seq::<FileFrame>::empty(),
        }),
        reports_in(seq![a]) == (match a {
            FileAct::Report { done, .. } => seq![done],
            _ => Seq::<nat>::empty(),
        }),
{
    let one = seq![a];
    assert(one.drop_last() =~= Seq::<FileAct>::empty());
    reveal_with_fuel(frames_in, 2);
    reveal_with_fuel(reports_in, 2);
    assert(frames_in(Seq::<FileAct>::empty()) =~= Seq::<FileFrame>::empty());
    assert(reports_in(Seq::<FileAct>::empty()) =~= Seq::<nat>::empty());
}

/// A chunk that goes out is one frame and one report.
proof fn lemma_in_flushed(s: FileSending)
    requires
        s.buf.len() > 0,
    ensures
        frames_in(s.flushed().1) == seq![
            FileFrame { total_size: s.size, last: false, offset: s.offset, body: s.buf },
        ],
        reports_in(s.flushed().1) == seq![s.done + s.buf.len()],
{
    let a = s.flushed().1[0];
    let b = s.flushed().1[1];
    lemma_in_one(a);
    lemma_in_one(b);
    lemma_in_concat(seq![a], seq![b]);
    assert(s.flushed().1 =~= seq![a] + seq![b]);
    assert(frames_in(s.flushed().1) =~= seq![
        FileFrame { total_size: s.size, last: false, offset: s.offset, body: s.buf },
    ]);
    assert(reports_in(s.flushed().1) =~= seq![s.done + s.buf.len()]);
}

/// The full chunks of a file stay what they are when more of it comes.
proof fn lemma_full_frames(size: i64, old: Seq<u8>, more: Seq<u8>)
    ensures
        file_frames(size, old).take((old.len() / CHUNK as nat) as int) == file_frames(
            size,
            old + more,
        ).take((old.len() / CHUNK as nat) as int),
{
    let n = old.len() / CHUNK as nat;
    let data = old + more;
    let f = file_frames(size, old);
    let g = file_frames(size, data);
    assert forall|i: int| 0 <= i < n implies #[trigger] f[i] == g[i] by {
        assert(chunk_end(old, i + 1) == (i + 1) * CHUNK);
        assert(chunk_end(data, i + 1) == (i + 1) * CHUNK);
        assert(old.subrange(i * CHUNK, (i + 1) * CHUNK) =~= data.subrange(
            i * CHUNK,
            (i + 1) * CHUNK,
        ));
    }
    assert(f.take(n as int) =~= g.take(n as int));
}

/// What has been reported once so many full chunks have gone out.
spec fn full_sums(done: nat, full: nat) -> Seq<nat> {
    Seq::new(full, |i: int| (done + (i + 1) * CHUNK) as nat)
}

/// Once some of a file was read: the full chunks of it have gone out, and the rest waits.
spec fn read_so_far(size: i64, done: nat, total: u64, data: Seq<u8>) -> FileSending {
    let full = data.len() / CHUNK as nat;
    FileSending {
        size,
        offset: full * CHUNK as nat,
        done: done + full * CHUNK as nat,
        total,
        buf: data.skip(full * CHUNK),
    }
}

proof fn lemma_file_read(size: i64, done: nat, total: u64, reads: Seq<Seq<u8>>)
    requires
        reads_fit(reads),
    ensures
        ({
            let data = together(reads);
            let full = data.len() / CHUNK as nat;
            let (s, acts) = file_read(FileSending::started(size, done, total), reads);
            &&& s == read_so_far(size, done, total, data)
            &&& frames_in(acts) == file_frames(size, data).take(full as int)
            &&& reports_in(acts) == full_sums(done, full)
        }),
    decreases reads.len(),
{
    let s0 = FileSending::started(size, done, total);
    let data = together(reads);
    if reads.len() == 0 {
        let (s, acts) = file_read(s0, reads);
        lemma_in_one(acts[0]);
        assert(acts =~= seq![acts[0]]);
        assert(frames_in(acts) =~= file_frames(size, data).take(0));
        assert(reports_in(acts) =~= full_sums(done, 0));
        assert(data.skip(0) =~= data);
        assert(s =~= read_so_far(size, done, total, data));
    } else {
        let front = reads.drop_last();
        let last = reads.last();
        assert(reads_fit(front)) by {
            assert forall|i: int| 0 <= i < front.len() implies 0 < (#[trigger] front[i]).len()
                <= CHUNK - together(front.take(i)).len() % CHUNK as nat by {
                assert(front[i] == reads[i]);
                assert(front.take(i) =~= reads.take(i));
            }
        }
        lemma_file_read(size, done, total, front);
        assert(last == reads[reads.len() - 1]);
        assert(reads.take(reads.len() - 1) =~= front);
        lemma_one_read(size, done, total, front, last);
        assert(front.push(last) =~= reads);
        assert(data == together(front) + last);
    }
}

proof fn lemma_one_read(size: i64, done: nat, total: u64, front: Seq<Seq<u8>>, last: Seq<u8>)
    requires
        0 < last.len() <= CHUNK - together(front).len() % CHUNK as nat,
        ({
            let old = together(front);
            let full = old.len() / CHUNK as nat;
            let (s, acts) = file_read(FileSending::started(size, done, total), front);
            &&& s == read_so_far(size, done, total, old)
            &&& frames_in(acts) == file_frames(size, old).take(full as int)
            &&& reports_in(acts) == full_sums(done, full)
        }),
    ensures
        ({
            let data = together(front) + last;
            let full = data.len() / CHUNK as nat;
            let (s, acts) = file_read(FileSending::started(size, done, total), front.push(last));
            &&& s == read_so_far(size, done, total, data)
            &&& frames_in(acts) == file_frames(size, data).take(full as int)
            &&& reports_in(acts) == full_sums(done, full)
        }),
{
    let s0 = FileSending::started(size, done, total);
    let reads = front.push(last);
    assert(reads.drop_last() =~= front);
    let old = together(front);
    let data = old + last;
    let n = old.len() / CHUNK as nat;
    let full = data.len() / CHUNK as nat;
    let (t, had) = file_read(s0, front);
    let (s, acts) = file_read(s0, reads);
    let all = t.buf + last;
    assert(all =~= data.skip(n * CHUNK));
    let now = t.after_data(last);
    lemma_in_concat(had, now.1);
    lemma_full_frames(size, old, last);
    let f = file_frames(size, data);
    if all.len() < CHUNK {
        assert(full == n);
        lemma_in_one(now.1[0]);
        assert(now.1 =~= seq![now.1[0]]);
        assert(frames_in(acts) =~= f.take(full as int));
        assert(reports_in(acts) =~= full_sums(done, full));
        assert(s =~= read_so_far(size, done, total, data));
    } else {
        assert(all.len() == CHUNK);
        assert(full == n + 1);
        assert(data.len() == full * CHUNK);
        let ready = FileSending { buf: all, ..t };
        let flushed = ready.flushed().1;
        let look = seq![FileAct::CheckCancelled];
        lemma_in_flushed(ready);
        lemma_in_one(FileAct::CheckCancelled);
        lemma_in_concat(flushed, look);
        let looked = now.0.after_look(false);
        lemma_in_one(looked.1[0]);
        assert(looked.1 =~= seq![looked.1[0]]);
        lemma_in_concat(had + now.1, looked.1);
        let frame = FileFrame { total_size: size, last: false, offset: t.offset, body: all };
        assert(f[n as int] == frame) by {
            assert(chunk_end(data, (n + 1) as int) == (n + 1) * CHUNK);
            assert(data.subrange(n * CHUNK, (n + 1) * CHUNK) =~= all);
        }
        assert(frames_in(acts) =~= f.take(n as int).push(frame));
        assert(f.take(n as int).push(frame) =~= f.take(full as int));
        assert(reports_in(acts) =~= full_sums(done, n).push(t.done + all.len()));
        assert(reports_in(acts) =~= full_sums(done, full));
        assert(data.skip(full * CHUNK) =~= seq![]);
        assert(s =~= read_so_far(size, done, total, data));
    }
}

/// A file that nobody cancels goes out whole, however the reads came up: in chunks that hold
/// `CHUNK` bytes but for the last, each beginning where the one before ended, and then in one
/// frame that ends the payload. What is reported is the running sum, once for each chunk.
#[verifier::rlimit(60)]
pub proof fn law_file_is_sent_whole(size: i64, done: nat, total: u64, reads: Seq<Seq<u8>>)
    requires
        reads_fit(reads),
    ensures
        ({
            let data = together(reads);
            let (s, acts) = file_sent(FileSending::started(size, done, total), reads);
            &&& frames_in(acts) == file_frames(size, data)
            &&& reports_in(acts) == Seq::new(
                chunk_count(data),
                |i: int| (done + chunk_end(data, i + 1)) as nat,
            )
            &&& s.offset == data.len()
            &&& s.done == done + data.len()
            &&& acts.last() == FileAct::Finished
        }),
{
    lemma_file_read(size, done, total, reads);
    let s0 = FileSending::started(size, done, total);
    let data = together(reads);
    let n = data.len() / CHUNK as nat;
    let (t, had) = file_read(s0, reads);
    let (s, acts) = file_sent(s0, reads);
    let f = file_frames(size, data);
    let sums = Seq::new(chunk_count(data), |i: int| (done + chunk_end(data, i + 1)) as nat);
    let flushed = t.flushed().1;
    let close = FileFrame { total_size: size, last: true, offset: data.len(), body: seq![] };
    let send = seq![FileAct::Send(close)];
    let over = seq![FileAct::Finished];
    lemma_in_one(FileAct::Send(close));
    lemma_in_one(FileAct::Finished);
    lemma_in_concat(had, flushed);
    lemma_in_concat(had + flushed, send);
    lemma_in_concat(had + flushed + send, over);
    assert(t.flushed().0.offset == data.len());
    assert(t.after_data(seq![]).1 =~= flushed + send + over);
    assert(acts =~= had + flushed + send + over);
    assert forall|j: int| 0 <= j <= n implies #[trigger] chunk_end(data, j) == j * CHUNK by {
    }
    if t.buf.len() == 0 {
        assert(chunk_count(data) == n);
        assert(f.take(n as int).push(close) =~= f);
        assert(frames_in(acts) =~= f.take(n as int).push(close));
        assert(reports_in(acts) =~= full_sums(done, n));
        assert(full_sums(done, n) =~= sums);
    } else {
        assert(chunk_count(data) == n + 1);
        lemma_in_flushed(t);
        let frame = FileFrame { total_size: size, last: false, offset: t.offset, body: t.buf };
        assert(chunk_end(data, (n + 1) as int) == data.len());
        assert(f[n as int] == frame) by {
            assert(data.subrange(n * CHUNK, data.len() as int) =~= t.buf);
        }
        assert(frames_in(acts) =~= f.take(n as int).push(frame).push(close));
        assert(f.take(n as int).push(frame).push(close) =~= f);
        assert(reports_in(acts) =~= full_sums(done, n).push((done + data.len()) as nat));
        assert(full_sums(done, n).push((done + data.len()) as nat) =~= sums);
    }
}

/// The frames of a file hold the file: every chunk but the last is full, none is empty, each
/// byte stands where its offset says, and exactly one frame, the last, ends the payload.
pub proof fn law_frames_hold_the_file(size: i64, data: Seq<u8>)
    ensures
        ({
            let f = file_frames(size, data);
            let n = f.len() - 1;
            &&& f[n] == (FileFrame {
                total_size: size,
                last: true,
                offset: data.len(),
                body: seq![],
            })
            &&& forall|i: int| 0 <= i < n ==> !(#[trigger] f[i]).last && f[i].offset == i * CHUNK
            &&& forall|i: int| 0 <= i < n - 1 ==> (#[trigger] f[i]).body.len() == CHUNK
            &&& n > 0 ==> 0 < f[n - 1].body.len() <= CHUNK
            &&& forall|k: int|
                0 <= k < data.len() ==> #[trigger] data[k] == f[k / CHUNK as int].body[k
                    % CHUNK as int]
        }),
{
}

/// Whether the person has cancelled is looked at before each chunk: one is begun only right
/// after a look that found nothing, and a look that found something ends the file there.
pub proof fn law_cancel_is_looked_at(s: FileSending, ev: FileEvent)
    requires
        s.wf(),
        s.has_room(ev),
    ensures
        forall|k: int|
            0 <= k < s.after(ev).1.len() && #[trigger] s.after(ev).1[k] == (FileAct::Read {
                want: CHUNK as nat,
            }) ==> ev == FileEvent::CancelChecked(false),
        ev == FileEvent::CancelChecked(true) ==> s.after(ev) == (s, seq![FileAct::Stop]),
        s.after(ev).0.wf(),
{
}

/// What is read is what fills the chunk that is being filled, and it is read whenever there is
/// anything left to fill it with; and what is reported is reported against what all the files
/// come to.
pub proof fn law_chunk_is_filled(s: FileSending, ev: FileEvent)
    requires
        s.wf(),
        s.has_room(ev),
    ensures
        ({
            let (t, acts) = s.after(ev);
            let all = s.buf.len() + (match ev {
                FileEvent::Data(data) => data@.len(),
                _ => 0,
            });
            &&& forall|k: int|
                0 <= k < acts.len() ==> match #[trigger] acts[k] {
                    FileAct::Read { want } => want + t.buf.len() == CHUNK,
                    FileAct::Report { done, total } => total == s.total && done == t.done,
                    _ => true,
                }
            &&& ev == FileEvent::CancelChecked(false) ==> acts.len() == 1 && acts[0] is Read
            &&& (ev matches FileEvent::Data(data) && 0 < data@.len() && all < CHUNK)
                ==> acts.len() == 1 && acts[0] is Read
            &&& (ev matches FileEvent::Data(data) && 0 < data@.len() && all == CHUNK)
                ==> acts.last() is CheckCancelled
            &&& t.size == s.size && t.total == s.total
        }),
{
}

/// A send begins with what the sharing machine wants first, on the medium and towards the peer it
/// was begun with; nothing was asked for, sent or put aside before that.
pub proof fn law_send_begins_at_the_beginning(
    slow: bool,
    safe: bool,
    total: u64,
    effects: Seq<Effect>,
    now: u64,
)
    ensures
        ({
            let s = Sending::started(slow, safe, total, effects);
            &&& s.batch == effects && s.pending.len() == 0 && s.deferred.len() == 0 && s.in_batch
            &&& !s.solicited && !s.pin_checked && s.upgrade_deadline is None
            &&& s.bootstrap_is_slow == slow && s.peer_safe_disconnect == safe && s.total == total
            &&& effects.len() == 0 ==> s.after(Event::Proceed, now).1 == (if slow {
                seq![Action::AskUpgrade, Action::ConfirmPin]
            } else {
                seq![Action::ConfirmPin]
            })
        }),
{
    let s = Sending::started(slow, safe, total, effects);
    if effects.len() == 0 {
        assert(s.after(Event::Proceed, now).1 =~= (if slow {
            seq![Action::AskUpgrade, Action::ConfirmPin]
        } else {
            seq![Action::ConfirmPin]
        }));
    }
}

/// What means nothing to us is passed over: a payload, a frame of another kind and an answer to
/// our own keep-alive change nothing.
pub proof fn law_other_frames_are_passed_over(s: Sending, f: Heard, now: u64)
    ensures
        f is Payload || f is Other || (f is KeepAlive && f->ack) ==> s.after(Event::Frame(f), now)
            == (s, Seq::<Action>::empty()),
{
}

/// A receiver reads who is sending out of what a request carries: a phone, in the open, under the
/// name of this device as far as that can be sent.
pub proof fn law_receiver_reads_who_is_sending(metadata: Seq<u8>, device_name: Seq<char>)
    requires
        metadata.len() == 16,
        vstd::utf8::encode_utf8(device_name).len() <= 255,
    ensures
        ({
            let read = endpoint::advertised_in(sender_info(metadata, device_name).bytes());
            &&& read is Some
            &&& read->0.device_name == Some(device_name)
            &&& read->0.device_type == DeviceType::Phone
            &&& !read->0.hidden
            &&& read->0.version == 1
            &&& read->0.metadata == metadata
        }),
{
    endpoint::law_endpoint_round_trip(sender_info(metadata, device_name));
    endpoint::law_short_name_is_whole(device_name);
    vstd::utf8::encode_utf8_decode_utf8(device_name);
}

// ---------------------------------------------------------------- the waiting ---

/// What to do while waiting for an offer.
#[derive(Debug, Clone, Copy, PartialEq, Eq, Structural)]
pub enum Wait {
    Stop,
    /// Read for so long at most, so that a cancel is noticed.
    Read { within: u64 },
}

pub open spec fn waiting(deadline: u64, now: u64, cancelled: bool) -> Wait {
    match clock::until(deadline as int, now) {
        None => Wait::Stop,
        Some(left) => if cancelled {
            Wait::Stop
        } else if left < CANCEL_LOOK {
            Wait::Read { within: left as u64 }
        } else {
            Wait::Read { within: CANCEL_LOOK }
        },
    }
}

/// The wait for an offer stops when the time is up or the person cancels, and at no other time;
/// and it never reads past either.
pub proof fn law_wait_is_bounded(deadline: u64, now: u64, cancelled: bool)
    ensures
        waiting(deadline, now, cancelled) is Stop <==> cancelled || now > deadline,
        waiting(deadline, now, cancelled) matches Wait::Read { within } ==> within <= CANCEL_LOOK
            && now + within <= deadline && (within < CANCEL_LOOK ==> now + within == deadline),
{
}

/// Never fails for want of an offer: a peer that will not upgrade is the ordinary case.
pub fn wait_for_upgrade(deadline: u64, now: u64, cancelled: bool) -> (r: Wait)
    ensures
        r == waiting(deadline, now, cancelled),
{
    match clock::left(deadline, now) {
        None => Wait::Stop,
        Some(left) => if cancelled {
            Wait::Stop
        } else if left < CANCEL_LOOK {
            Wait::Read { within: left }
        } else {
            Wait::Read { within: CANCEL_LOOK }
        },
    }
}

pub open spec fn drains_on(unacked: Option<u32>, now: u64, by: u64) -> bool {
    unacked is Some && unacked != Some(0u32) && now < by
}

/// The wait for the send queue is over once it is empty, once the time is up, or where nobody can
/// tell; until then it goes on.
pub proof fn law_drain_ends(n: u32, now: u64, by: u64)
    ensures
        !drains_on(Some(0), now, by),
        !drains_on(None, now, by),
        now >= by ==> !drains_on(Some(n), now, by),
        n > 0 && now < by ==> drains_on(Some(n), now, by),
{
}

/// Whether to go on waiting for the socket's send queue to reach the peer. A socket that will
/// not report cannot be waited on.
pub fn keep_draining(unacked: Option<u32>, now: u64, by: u64) -> (r: bool)
    ensures
        r == drains_on(unacked, now, by),
{
    match unacked {
        None => false,
        Some(n) => n != 0 && now < by,
    }
}

/// What ends a session, in order.
#[derive(Debug, Clone, Copy, PartialEq, Eq, Structural)]
pub enum Closing {
    /// Wait for the send queue to empty.
    Drain { within: u64 },
    /// Say goodbye and ask for an answer.
    Disconnect,
    /// Leave the socket open for a while.
    Linger { for_ms: u64 },
}

pub open spec fn parting(peer_safe_disconnect: bool, can_drain: bool) -> Seq<Closing> {
    (if can_drain {
        seq![Closing::Drain { within: DRAIN_MAX }]
    } else {
        seq![]
    }) + (if peer_safe_disconnect {
        seq![Closing::Disconnect]
    } else {
        seq![]
    }) + seq![Closing::Linger { for_ms: LINGER_MAX }]
}

/// A peer that wants to be told is told, and one that does not is not; what was sent is let out
/// first, where that can be seen; and the socket is left open last.
pub proof fn law_peer_is_parted_from_as_it_wants(peer_safe_disconnect: bool, can_drain: bool)
    ensures
        ({
            let p = parting(peer_safe_disconnect, can_drain);
            let n = p.len() as int;
            &&& p.last() == Closing::Linger { for_ms: LINGER_MAX }
            &&& can_drain <==> p[0] == Closing::Drain { within: DRAIN_MAX }
            &&& peer_safe_disconnect <==> n >= 2 && p[n - 2] == Closing::Disconnect
            &&& n == 1 + (if can_drain {
                1int
            } else {
                0
            }) + (if peer_safe_disconnect {
                1int
            } else {
                0
            })
        }),
{
}

/// End the session the way THIS peer requires, which is not the same for every peer.
///
/// A peer that supports safe disconnection wants to be told: a bare close marks whatever is
/// still in its read pipeline as failed. One that does not wants the opposite: it takes a
/// disconnection that arrives before it has finished writing for a failed transfer.
pub fn finish_cleanly(peer_safe_disconnect: bool, can_drain: bool) -> (r: Vec<Closing>)
    ensures
        r@ == parting(peer_safe_disconnect, can_drain),
{
    let mut out: Vec<Closing> = Vec::new();
    if can_drain {
        out.push(Closing::Drain { within: DRAIN_MAX });
    }
    if peer_safe_disconnect {
        out.push(Closing::Disconnect);
    }
    out.push(Closing::Linger { for_ms: LINGER_MAX });
    out
}

/// Whether the peer's answer to our acceptance lets the send go on, and how it may end.
#[derive(Debug, Clone, Copy, PartialEq, Eq, Structural)]
pub enum Answer {
    Accepted { safe_disconnect: bool },
    Declined,
    NotAResponse,
}

pub open spec fn answer_in(response: Option<(bool, i32)>) -> Answer {
    match response {
        Some((true, version)) => Answer::Accepted { safe_disconnect: version >= 1 },
        Some((false, _)) => Answer::Declined,
        None => Answer::NotAResponse,
    }
}

/// A send goes on exactly with a peer that accepts, and parts safely exactly from one that speaks
/// a version of that.
pub proof fn law_answer_is_the_peers(response: Option<(bool, i32)>, version: i32)
    ensures
        answer_in(response) is Accepted <==> (response matches Some((yes, _)) && yes),
        answer_in(Some((true, version))) == (Answer::Accepted { safe_disconnect: version > 0 }),
        answer_in(Some((false, version))) == Answer::Declined,
        answer_in(response) == Answer::NotAResponse <==> response is None,
{
}

/// `response` is whether the frame was a connection response at all; if so, whether it accepts
/// and which version of safe disconnection the peer speaks.
pub fn read_answer(response: Option<(bool, i32)>) -> (r: Answer)
    ensures
        r == answer_in(response),
{
    match response {
        Some((accepted, version)) => if accepted {
            Answer::Accepted { safe_disconnect: version >= 1 }
        } else {
            Answer::Declined
        },
        None => Answer::NotAResponse,
    }
}

} // verus!
