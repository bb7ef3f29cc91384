//! A virtual socket over an L2CAP channel.
//!
//! An L2CAP channel is no byte stream: a peer will not say a word on it until a data connection
//! was asked for, the socket was introduced and a virtual socket was accepted. From then on
//! every frame is wrapped in a packet that says which service it is for.

use std::collections::VecDeque;
use vstd::prelude::*;
use crate::link;
use crate::quickshare::SERVICE_ID_HASH_PREFIX;
use crate::wire;

verus! {

/// "Give me a data connection."
pub const COMMAND_REQUEST_DATA_CONNECTION: u8 = 3;

/// "It is ready."
pub const COMMAND_RESPONSE_DATA_CONNECTION_READY: u8 = 23;

/// An answer of a couple of bytes. Anything longer is not this protocol.
pub const MAX_DATA_CONNECTION_RESPONSE: usize = 64;

/// How many packets are read past for an answer to the request for a socket.
pub const SETUP_PACKETS: u32 = 8;

// ------------------------------------------------------------------ protobuf fields ---

/// A numeric field.
pub open spec fn varint_field(number: nat, v: nat) -> Seq<u8> {
    link::varint(number * 8) + link::varint(v)
}

/// A field of bytes.
pub open spec fn bytes_field(number: nat, b: Seq<u8>) -> Seq<u8> {
    link::varint(number * 8 + 2) + link::varint(b.len()) + b
}

fn push_varint_field(out: &mut Vec<u8>, number: u32, v: u64)
    requires
        number < 0x1000_0000,
    ensures
        final(out)@ == old(out)@ + varint_field(number as nat, v as nat),
{
    let ghost was = out@;
    link::push_varint(out, number as u64 * 8);
    link::push_varint(out, v);
    assert(out@ =~= was + varint_field(number as nat, v as nat));
}

fn push_bytes_field(out: &mut Vec<u8>, number: u32, b: &[u8])
    requires
        number < 0x1000_0000,
    ensures
        final(out)@ == old(out)@ + bytes_field(number as nat, b@),
{
    let ghost was = out@;
    link::push_varint(out, number as u64 * 8 + 2);
    link::push_varint(out, b.len() as u64);
    out.extend_from_slice(b);
    assert(out@ =~= was + bytes_field(number as nat, b@));
}

// --------------------------------------------------------------------------- packets ---

/// The hash of the service, which says whose a packet is.
pub open spec fn service() -> Seq<u8> {
    SERVICE_ID_HASH_PREFIX@
}

/// All zeros is the control channel.
pub open spec fn control() -> Seq<u8> {
    seq![0u8, 0, 0]
}

/// The request for a data connection names the service: a bare command is refused.
pub open spec fn data_request() -> Seq<u8> {
    seq![COMMAND_REQUEST_DATA_CONNECTION] + service()
}

/// Tell the peer how much of its data we took. It stops sending when its count runs too far
/// ahead of ours.
pub open spec fn acknowledgement(received: nat) -> Seq<u8> {
    control() + varint_field(1, 3) + bytes_field(
        4,
        bytes_field(1, service()) + varint_field(2, received),
    )
}

/// Which service the socket is for, and that it speaks version two.
pub open spec fn introduction() -> Seq<u8> {
    control() + varint_field(1, 1) + bytes_field(
        2,
        bytes_field(1, service()) + varint_field(2, 2),
    )
}

/// A frame as a packet of this service. The frame carries its own length inside: one packet may
/// hold more than one.
pub open spec fn packed(frame: Seq<u8>) -> Seq<u8> {
    service() + wire::be_bytes(frame.len(), 4) + frame
}

fn control_start() -> (r: Vec<u8>)
    ensures
        r@ == control(),
{
    let r: Vec<u8> = vec![0, 0, 0];
    assert(r@ =~= control());
    r
}

fn service_hash() -> (r: [u8; 3])
    ensures
        r@ == service(),
{
    SERVICE_ID_HASH_PREFIX
}

pub fn request_packet() -> (r: Vec<u8>)
    ensures
        r@ == data_request(),
{
    let mut out: Vec<u8> = Vec::new();
    out.push(COMMAND_REQUEST_DATA_CONNECTION);
    let hash: [u8; 3] = service_hash();
    out.extend_from_slice(&hash);
    assert(out@ =~= data_request());
    out
}

pub fn packet_acknowledgement(received: usize) -> (r: Vec<u8>)
    ensures
        r@ == acknowledgement(received as nat),
{
    let hash: [u8; 3] = service_hash();
    let mut ack: Vec<u8> = Vec::new();
    push_bytes_field(&mut ack, 1, &hash);
    push_varint_field(&mut ack, 2, received as u64);
    assert(ack@ =~= bytes_field(1, service()) + varint_field(2, received as nat));
    let mut out = control_start();
    push_varint_field(&mut out, 1, 3);
    push_bytes_field(&mut out, 4, ack.as_slice());
    out
}

pub fn introduction_packet() -> (r: Vec<u8>)
    ensures
        r@ == introduction(),
{
    let hash: [u8; 3] = service_hash();
    let mut intro: Vec<u8> = Vec::new();
    push_bytes_field(&mut intro, 1, &hash);
    push_varint_field(&mut intro, 2, 2);
    assert(intro@ =~= bytes_field(1, service()) + varint_field(2, 2));
    let mut out = control_start();
    push_varint_field(&mut out, 1, 1);
    push_bytes_field(&mut out, 2, intro.as_slice());
    out
}

/// Wrap a frame as a packet of this service.
pub fn data_packet(frame: &[u8]) -> (r: Vec<u8>)
    requires
        frame@.len() <= u32::MAX,
    ensures
        r@ == packed(frame@),
{
    let hash: [u8; 3] = service_hash();
    let mut out: Vec<u8> = Vec::new();
    out.extend_from_slice(&hash);
    wire::write_uint(&mut out, frame.len() as u64, 4);
    out.extend_from_slice(frame);
    assert(out@ =~= packed(frame@));
    out
}

/// What a packet is.
#[derive(Debug)]
pub enum Packet {
    /// A control packet, or one for a service we did not ask for.
    NotOurs,
    /// One of ours that holds no frame. So many bytes are acknowledged.
    Empty(usize),
    /// A frame of ours.
    Frame(usize, Vec<u8>),
    /// A frame that claims more bytes than there are.
    Broken(usize),
}

/// What a packet is, told by its contents.
pub enum PacketIs {
    NotOurs,
    Empty(nat),
    Frame(nat, Seq<u8>),
    Broken(nat),
}

pub open spec fn unpacked(packet: Seq<u8>) -> PacketIs {
    if packet.len() < 3 || packet.take(3) == control() || packet.take(3) != service() {
        PacketIs::NotOurs
    } else {
        let payload = packet.skip(3);
        if payload.len() < 4 {
            PacketIs::Empty(payload.len())
        } else {
            let n = wire::be_value(payload.take(4));
            if 4 + n <= payload.len() {
                PacketIs::Frame(payload.len(), payload.subrange(4, (4 + n) as int))
            } else {
                PacketIs::Broken(payload.len())
            }
        }
    }
}

impl Packet {
    pub open spec fn says(&self) -> PacketIs {
        match self {
            Packet::NotOurs => PacketIs::NotOurs,
            Packet::Empty(n) => PacketIs::Empty(*n as nat),
            Packet::Frame(n, f) => PacketIs::Frame(*n as nat, f@),
            Packet::Broken(n) => PacketIs::Broken(*n as nat),
        }
    }
}

/// Strip a packet of its channel and hand back the frame inside.
pub fn read_data_packet(packet: &[u8]) -> (r: Packet)
    ensures
        r.says() == unpacked(packet@),
{
    let n: usize = packet.len();
    if n < 3 {
        return Packet::NotOurs;
    }
    let hash: [u8; 3] = service_hash();
    proof {
        assert(packet@.take(3) =~= seq![packet@[0], packet@[1], packet@[2]]);
        assert(hash@ =~= seq![hash@[0], hash@[1], hash@[2]]);
    }
    if packet[0] == 0 && packet[1] == 0 && packet[2] == 0 {
        assert(packet@.take(3) =~= control());
        return Packet::NotOurs;
    }
    if packet[0] != hash[0] || packet[1] != hash[1] || packet[2] != hash[2] {
        assert(packet@.take(3)[0] != service()[0] || packet@.take(3)[1] != service()[1]
            || packet@.take(3)[2] != service()[2]);
        return Packet::NotOurs;
    }
    proof {
        assert(packet@.take(3) =~= service());
        assert(packet@.take(3)[0] == packet@[0]);
        assert(packet@.take(3)[1] == packet@[1]);
        assert(packet@.take(3)[2] == packet@[2]);
        assert(packet@.take(3) != control());
    }
    let carried: usize = n - 3;
    if carried < 4 {
        return Packet::Empty(carried);
    }
    let ghost payload = packet@.skip(3);
    let head = vstd::slice::slice_subrange(packet, 3, 7);
    assert(head@ =~= payload.take(4));
    let len: u64 = wire::be(head);
    if len > (carried - 4) as u64 {
        return Packet::Broken(carried);
    }
    let end: usize = 7 + len as usize;
    let mut frame: Vec<u8> = Vec::new();
    frame.extend_from_slice(vstd::slice::slice_subrange(packet, 7, end));
    assert(frame@ =~= payload.subrange(4, (4 + len) as int));
    Packet::Frame(carried, frame)
}

/// A frame that was wrapped is what is read from the packet.
pub proof fn law_wrapped_is_read(frame: Seq<u8>)
    requires
        frame.len() <= u32::MAX,
    ensures
        unpacked(packed(frame)) == PacketIs::Frame(frame.len() + 4, frame),
{
    let p = packed(frame);
    let payload = p.skip(3);
    wire::lemma_be_limits();
    wire::law_be_round_trip(frame.len(), 4);
    assert(p.take(3) =~= service());
    assert(service()[0] == 0xFC && control()[0] == 0);
    assert(payload.take(4) =~= wire::be_bytes(frame.len(), 4));
    assert(payload.subrange(4, (4 + frame.len()) as int) =~= frame);
}

// ---------------------------------------------------------------- opening the socket ---

/// What a multiplex frame is.
#[derive(Debug)]
pub enum MuxFrame {
    Accepted,
    /// The peer is reachable and not sharing, or has another reason.
    Refused,
    Disconnection,
    Data(Vec<u8>),
    /// The peer's own request, or something we do not model.
    Other,
}

/// Why no socket was opened.
#[derive(Debug, Clone, Copy, PartialEq, Eq, Structural)]
pub enum MuxError {
    /// The answer to the first request is not of this protocol.
    NotThisProtocol,
    /// No data connection.
    NoDataConnection,
    Refused,
    ClosedDuringSetup,
    NeverAccepted,
    Broken,
}

/// How far the opening has come.
#[derive(Debug, Clone, Copy, PartialEq, Eq, Structural)]
pub enum OpenPhase {
    /// A data connection was asked for.
    Asked,
    /// A socket was asked for; so many packets may still be read.
    Requested(u32),
    /// A frame is being looked at; so many packets may still be read.
    Parsing(u32),
    Over,
}

/// What comes from the peer.
pub enum OpenEvent {
    Packet(Vec<u8>),
    /// What the frame is that was handed out.
    Parsed(MuxFrame),
}

/// What to do.
#[verifier::ext_equal]
pub enum OpenStep {
    /// Read a packet.
    Read,
    /// Send the introduction and the request for a socket, then read a packet.
    Introduce,
    /// Acknowledge so many bytes, then read a packet.
    AcknowledgeRead(nat),
    /// Acknowledge so many bytes, then find out what this frame is.
    AcknowledgeParse(nat, Seq<u8>),
    /// Acknowledge so many bytes; there will be no socket.
    AcknowledgeFail(nat, MuxError),
    /// The socket is open.
    Open,
    Fail(MuxError),
    Nothing,
}

/// What to do, in executable form.
pub enum OpenAction {
    Read,
    Introduce,
    AcknowledgeRead(usize),
    AcknowledgeParse(usize, Vec<u8>),
    AcknowledgeFail(usize, MuxError),
    Open,
    Fail(MuxError),
    Nothing,
}

impl OpenAction {
    pub open spec fn says(&self) -> OpenStep {
        match self {
            OpenAction::Read => OpenStep::Read,
            OpenAction::Introduce => OpenStep::Introduce,
            OpenAction::AcknowledgeRead(n) => OpenStep::AcknowledgeRead(*n as nat),
            OpenAction::AcknowledgeParse(n, f) => OpenStep::AcknowledgeParse(*n as nat, f@),
            OpenAction::AcknowledgeFail(n, e) => OpenStep::AcknowledgeFail(*n as nat, *e),
            OpenAction::Open => OpenStep::Open,
            OpenAction::Fail(e) => OpenStep::Fail(*e),
            OpenAction::Nothing => OpenStep::Nothing,
        }
    }
}

/// What follows a packet that was no answer, with so many left.
pub open spec fn read_on(left: u32) -> (OpenPhase, bool) {
    if left == 0 {
        (OpenPhase::Over, false)
    } else {
        (OpenPhase::Requested(left), true)
    }
}

impl OpenPhase {
    /// Two handshakes in this order: a data connection, then a socket. A peer may send other
    /// packets before it answers; they are read past, up to a point.
    pub open spec fn after(self, ev: OpenEvent) -> (OpenPhase, OpenStep) {
        match (self, ev) {
            (OpenPhase::Asked, OpenEvent::Packet(p)) => if p@.len()
                > MAX_DATA_CONNECTION_RESPONSE {
                (OpenPhase::Over, OpenStep::Fail(MuxError::NotThisProtocol))
            } else if p@.len() > 0 && p@[0] == COMMAND_RESPONSE_DATA_CONNECTION_READY {
                (OpenPhase::Requested(SETUP_PACKETS), OpenStep::Introduce)
            } else {
                (OpenPhase::Over, OpenStep::Fail(MuxError::NoDataConnection))
            },
            (OpenPhase::Requested(left), OpenEvent::Packet(p)) => if left == 0 {
                (OpenPhase::Over, OpenStep::Fail(MuxError::NeverAccepted))
            } else {
                let next = read_on((left - 1) as u32);
                match unpacked(p@) {
                    PacketIs::NotOurs => if next.1 {
                        (next.0, OpenStep::Read)
                    } else {
                        (next.0, OpenStep::Fail(MuxError::NeverAccepted))
                    },
                    PacketIs::Empty(n) => if next.1 {
                        (next.0, OpenStep::AcknowledgeRead(n))
                    } else {
                        (next.0, OpenStep::AcknowledgeFail(n, MuxError::NeverAccepted))
                    },
                    PacketIs::Frame(n, f) => (
                        OpenPhase::Parsing((left - 1) as u32),
                        OpenStep::AcknowledgeParse(n, f),
                    ),
                    PacketIs::Broken(n) => (
                        OpenPhase::Over,
                        OpenStep::AcknowledgeFail(n, MuxError::Broken),
                    ),
                }
            },
            (OpenPhase::Parsing(left), OpenEvent::Parsed(f)) => match f {
                MuxFrame::Accepted => (OpenPhase::Over, OpenStep::Open),
                MuxFrame::Refused => (OpenPhase::Over, OpenStep::Fail(MuxError::Refused)),
                MuxFrame::Disconnection => (
                    OpenPhase::Over,
                    OpenStep::Fail(MuxError::ClosedDuringSetup),
                ),
                _ => if read_on(left).1 {
                    (read_on(left).0, OpenStep::Read)
                } else {
                    (read_on(left).0, OpenStep::Fail(MuxError::NeverAccepted))
                },
            },
            _ => (self, OpenStep::Nothing),
        }
    }
}

/// Opening a socket. The first request is sent before the first packet is read.
pub struct Opening {
    pub phase: OpenPhase,
}

impl Opening {
    pub fn new() -> (r: Self)
        ensures
            r.phase == OpenPhase::Asked,
    {
        Opening { phase: OpenPhase::Asked }
    }

    pub fn step(&mut self, ev: OpenEvent) -> (r: OpenAction)
        ensures
            (final(self).phase, r.says()) == old(self).phase.after(ev),
    {
        match (self.phase, ev) {
            (OpenPhase::Asked, OpenEvent::Packet(p)) => {
                if p.len() > MAX_DATA_CONNECTION_RESPONSE {
                    self.phase = OpenPhase::Over;
                    OpenAction::Fail(MuxError::NotThisProtocol)
                } else if p.len() > 0 && p[0] == COMMAND_RESPONSE_DATA_CONNECTION_READY {
                    self.phase = OpenPhase::Requested(SETUP_PACKETS);
                    OpenAction::Introduce
                } else {
                    self.phase = OpenPhase::Over;
                    OpenAction::Fail(MuxError::NoDataConnection)
                }
            },
            (OpenPhase::Requested(left), OpenEvent::Packet(p)) => {
                if left == 0 {
                    self.phase = OpenPhase::Over;
                    return OpenAction::Fail(MuxError::NeverAccepted);
                }
                let more: u32 = left - 1;
                match read_data_packet(p.as_slice()) {
                    Packet::NotOurs => {
                        if self.go_on(more) {
                            OpenAction::Read
                        } else {
                            OpenAction::Fail(MuxError::NeverAccepted)
                        }
                    },
                    Packet::Empty(n) => {
                        if self.go_on(more) {
                            OpenAction::AcknowledgeRead(n)
                        } else {
                            OpenAction::AcknowledgeFail(n, MuxError::NeverAccepted)
                        }
                    },
                    Packet::Frame(n, f) => {
                        self.phase = OpenPhase::Parsing(more);
                        OpenAction::AcknowledgeParse(n, f)
                    },
                    Packet::Broken(n) => {
                        self.phase = OpenPhase::Over;
                        OpenAction::AcknowledgeFail(n, MuxError::Broken)
                    },
                }
            },
            (OpenPhase::Parsing(left), OpenEvent::Parsed(f)) => {
                match f {
                    MuxFrame::Accepted => {
                        self.phase = OpenPhase::Over;
                        OpenAction::Open
                    },
                    MuxFrame::Refused => {
                        self.phase = OpenPhase::Over;
                        OpenAction::Fail(MuxError::Refused)
                    },
                    MuxFrame::Disconnection => {
                        self.phase = OpenPhase::Over;
                        OpenAction::Fail(MuxError::ClosedDuringSetup)
                    },
                    _ => {
                        if self.go_on(left) {
                            OpenAction::Read
                        } else {
                            OpenAction::Fail(MuxError::NeverAccepted)
                        }
                    },
                }
            },
            _ => OpenAction::Nothing,
        }
    }

    fn go_on(&mut self, left: u32) -> (r: bool)
        ensures
            (final(self).phase, r) == read_on(left),
    {
        if left == 0 {
            self.phase = OpenPhase::Over;
            false
        } else {
            self.phase = OpenPhase::Requested(left);
            true
        }
    }
}

/// A socket is open only after the peer accepted it, and nothing of it is requested before the
/// data connection is ready.
pub proof fn law_open_means_accepted(phase: OpenPhase, ev: OpenEvent)
    ensures
        phase.after(ev).1 is Open <==> phase is Parsing && ev == OpenEvent::Parsed(
            MuxFrame::Accepted,
        ),
        phase.after(ev).1 is Introduce ==> phase is Asked && (ev matches OpenEvent::Packet(p)
            && p@[0] == COMMAND_RESPONSE_DATA_CONNECTION_READY),
{
}

/// How many more packets an opening may read.
pub open spec fn patience(phase: OpenPhase) -> nat {
    match phase {
        OpenPhase::Asked => (SETUP_PACKETS + 1) as nat,
        OpenPhase::Requested(left) => left as nat,
        OpenPhase::Parsing(left) => left as nat,
        OpenPhase::Over => 0,
    }
}

/// An opening ends: every packet takes some of its patience, and it never gets any back.
pub proof fn law_opening_ends(phase: OpenPhase, ev: OpenEvent)
    ensures
        patience(phase.after(ev).0) <= patience(phase),
        ev is Packet && phase is Requested && patience(phase) > 0 ==> patience(phase.after(ev).0)
            < patience(phase),
        ev is Packet && phase is Asked ==> patience(phase.after(ev).0) < patience(phase),
{
}

/// Each way in which an opening fails is told for what it is, and only for that.
pub proof fn law_opening_says_why(phase: OpenPhase, ev: OpenEvent)
    ensures
        ({
            let (next, step) = phase.after(ev);
            let first = phase == OpenPhase::Asked && ev is Packet;
            let p = ev->Packet_0@;
            &&& step == OpenStep::Fail(MuxError::NotThisProtocol) <==> first && p.len() > 64
            &&& step is Introduce <==> first && 0 < p.len() <= 64 && p[0] == 23
            &&& step == OpenStep::Fail(MuxError::NoDataConnection) <==> first && p.len() <= 64
                && !(p.len() > 0 && p[0] == 23)
            &&& step == OpenStep::Fail(MuxError::Refused) <==> phase is Parsing && ev
                == OpenEvent::Parsed(MuxFrame::Refused)
            &&& step == OpenStep::Fail(MuxError::ClosedDuringSetup) <==> phase is Parsing && ev
                == OpenEvent::Parsed(MuxFrame::Disconnection)
            &&& step is AcknowledgeFail && step->AcknowledgeFail_1 == MuxError::Broken
                <==> phase is Requested && patience(phase) > 0 && ev is Packet && unpacked(
                p,
            ) is Broken
            &&& step is Fail || step is AcknowledgeFail ==> next == OpenPhase::Over
        }),
{
}

/// While an answer is waited for, every packet of ours is acknowledged with all it carries, no
/// other is, and every frame is looked at; as long as there is patience left, the next packet is
/// read.
pub proof fn law_packets_are_acknowledged(left: u32, p: Vec<u8>, f: MuxFrame)
    requires
        left > 0,
    ensures
        ({
            let (next, step) = OpenPhase::Requested(left).after(OpenEvent::Packet(p));
            let acknowledged = match step {
                OpenStep::AcknowledgeRead(n) => Some(n),
                OpenStep::AcknowledgeParse(n, _) => Some(n),
                OpenStep::AcknowledgeFail(n, _) => Some(n),
                _ => None,
            };
            let ours = p@.len() >= 3 && p@.take(3) == service();
            &&& acknowledged is Some <==> ours
            &&& ours ==> acknowledged == Some((p@.len() - 3) as nat)
            &&& step is AcknowledgeParse <==> unpacked(p@) is Frame
            &&& step is AcknowledgeParse ==> next == OpenPhase::Parsing((left - 1) as u32)
            &&& !ours && left > 1 ==> next == OpenPhase::Requested((left - 1) as u32) && step
                == OpenStep::Read
            &&& !ours && left == 1 ==> step == OpenStep::Fail(MuxError::NeverAccepted)
        }),
        f is Data || f is Other ==> ({
            let (next, step) = OpenPhase::Parsing(left).after(OpenEvent::Parsed(f));
            next == OpenPhase::Requested(left) && step == OpenStep::Read
        }),
{
    assert(service()[0] == 0xFC && control()[0] == 0);
}

/// A packet of ours that claims to hold a frame holds it, whole, or is broken; and what is said of
/// how much it carries is all that stands behind its channel.
pub proof fn law_packet_holds_what_it_claims(claimed: nat, data: Seq<u8>)
    requires
        claimed <= u32::MAX,
    ensures
        ({
            let p = service() + wire::be_bytes(claimed, 4) + data;
            unpacked(p) == (if claimed <= data.len() {
                PacketIs::Frame(4 + data.len(), data.take(claimed as int))
            } else {
                PacketIs::Broken(4 + data.len())
            })
        }),
        data.len() < 4 ==> unpacked(service() + data) == PacketIs::Empty(data.len()),
        unpacked(control() + data) == PacketIs::NotOurs,
{
    let p = service() + wire::be_bytes(claimed, 4) + data;
    wire::lemma_be_limits();
    wire::law_be_round_trip(claimed, 4);
    wire::lemma_be_bytes_len(claimed, 4);
    assert(service().len() == 3 && service()[0] == 0xFC && control()[0] == 0);
    assert(p.take(3) =~= service());
    let payload = p.skip(3);
    assert(payload.take(4) =~= wire::be_bytes(claimed, 4));
    if claimed <= data.len() {
        assert(payload.subrange(4, (4 + claimed) as int) =~= data.take(claimed as int));
    }
    let q = service() + data;
    assert(q.take(3) =~= service());
    let c = control() + data;
    assert(c.take(3) =~= control());
}

/// What is said on the control channel is said there, and an acknowledgement ends in the number it
/// is of.
pub proof fn law_acknowledgement_says_how_much(received: nat)
    ensures
        ({
            let a = acknowledgement(received);
            let n = link::varint(received).len() as int;
            &&& a.take(3) == control()
            &&& a.len() > n + 3
            &&& link::varint_value(a.skip(a.len() - n)) == received
            &&& a.subrange(a.len() - n - 4, a.len() - n - 1) == service()
        }),
        introduction().take(3) == control(),
        data_request()[0] == COMMAND_REQUEST_DATA_CONNECTION,
        data_request().skip(1) == service(),
{
    let a = acknowledgement(received);
    let v = link::varint(received);
    let n = v.len() as int;
    link::law_varint_round_trip(received);
    let inner = bytes_field(1, service()) + varint_field(2, received);
    assert(service().len() == 3);
    assert(link::varint(16) =~= seq![16u8]);
    assert(link::varint(10) =~= seq![10u8]);
    assert(link::varint(3) =~= seq![3u8]);
    assert(link::varint(8) =~= seq![8u8]);
    assert(link::varint(18) =~= seq![18u8]);
    assert(inner =~= seq![10u8, 3] + service() + seq![16u8] + v);
    let head = control() + varint_field(1, 3) + (link::varint(34) + link::varint(inner.len()));
    assert(a =~= head + inner);
    assert(a.take(3) =~= control());
    assert(a.skip(a.len() - n) =~= v);
    assert(a.subrange(a.len() - n - 4, a.len() - n - 1) =~= service());
    assert(introduction().take(3) =~= control());
    assert(data_request().skip(1) =~= service());
}

// ---------------------------------------------------------------- the stream inside ---

/// The peer's data as a byte stream: what came in and was not handed out yet, and whether the
/// peer is done.
pub struct MuxReader {
    pub buf: VecDeque<u8>,
    pub done: bool,
}

impl MuxReader {
    pub fn new() -> (r: Self)
        ensures
            r.buf@.len() == 0,
            !r.done,
    {
        MuxReader { buf: VecDeque::new(), done: false }
    }

    /// Whether another packet has to be read before anything can be handed out.
    pub fn wants(&self) -> (r: bool)
        ensures
            r == (self.buf@.len() == 0 && !self.done),
    {
        self.buf.len() == 0 && !self.done
    }

    /// A frame came. Chatter on a socket that is open changes nothing.
    pub fn absorb(&mut self, f: MuxFrame)
        ensures
            final(self).buf@ == (match f {
                MuxFrame::Data(p) => old(self).buf@ + p@,
                _ => old(self).buf@,
            }),
            final(self).done == (old(self).done || f is Disconnection),
    {
        match f {
            MuxFrame::Data(p) => {
                let ghost was = self.buf@;
                let n: usize = p.len();
                let mut i: usize = 0;
                assert(was + p@.take(0) =~= was);
                while i < n
                    invariant
                        n == p@.len(),
                        i <= n,
                        self.buf@ == was + p@.take(i as int),
                        self.done == old(self).done,
                    decreases n - i,
                {
                    self.buf.push_back(p[i]);
                    assert(self.buf@ =~= was + p@.take(i + 1));
                    i = i + 1;
                }
                assert(p@.take(n as int) =~= p@);
            },
            MuxFrame::Disconnection => {
                self.done = true;
            },
            _ => {},
        }
    }

    /// Hand out what there is, up to so many bytes. Nothing at the end of the stream.
    pub fn take(&mut self, max: usize) -> (r: Vec<u8>)
        ensures
            r@.len() == (if max < old(self).buf@.len() {
                max as nat
            } else {
                old(self).buf@.len()
            }),
            r@ + final(self).buf@ == old(self).buf@,
            final(self).done == old(self).done,
    {
        let mut out: Vec<u8> = Vec::new();
        let ghost was = self.buf@;
        assert(out@ + self.buf@ =~= was);
        while out.len() < max && self.buf.len() > 0
            invariant
                out@.len() <= max,
                out@ + self.buf@ == was,
                self.done == old(self).done,
            decreases self.buf@.len(),
        {
            let ghost a = out@;
            let ghost b = self.buf@;
            match self.buf.pop_front() {
                Some(x) => {
                    out.push(x);
                    assert(out@ + self.buf@ =~= a + b);
                },
                None => {},
            }
        }
        out
    }
}

/// What is handed out is what came in, in order: taking before or after more data comes in
/// yields the same stream.
pub proof fn law_stream_keeps_its_order(buf: Seq<u8>, more: Seq<u8>, taken: Seq<u8>, rest: Seq<u8>)
    requires
        taken + rest == buf,
    ensures
        taken + (rest + more) == buf + more,
{
    assert(taken + (rest + more) =~= buf + more);
}

} // verus!
