//! Moving a running conversation onto a faster medium.
//!
//! The same encrypted channel goes on over a different socket: keys and sequence numbers
//! carry over. The order of the frames is not ours to choose:
//!
//! ```text
//!   connect the new socket
//!   joiner -> CLIENT_INTRODUCTION            NEW socket, PLAINTEXT
//!   host   -> CLIENT_INTRODUCTION_ACK        NEW socket, plaintext, only if promised
//!   each   -> LAST_WRITE_TO_PRIOR_CHANNEL    OLD socket, encrypted
//!   each   -> SAFE_TO_CLOSE_PRIOR_CHANNEL    OLD socket, encrypted
//! ```
//!
//! An upgrade is an optimisation: whatever goes wrong, the conversation stays where it is.

use vstd::prelude::*;
use std::collections::VecDeque;
use crate::address;
use crate::address::Address;
use crate::clock;
use crate::connection::WifiGroup;

verus! {

/// How long the sender has to join the group we stood up and introduce itself. It has to form
/// an association and open a socket, on a network that did not exist a moment ago.
pub const JOIN_WAIT: u64 = 25000;

/// How long a peer that connected has to introduce itself.
pub const INTRODUCTION_WAIT: u64 = 10000;

/// How long the peer has to acknowledge our introduction on the NEW socket.
pub const INTRODUCTION_ACK_WAIT: u64 = 10000;

/// How long to wait for the peer to release the OLD channel after we say we are done. A peer
/// that never answers costs five seconds rather than the whole transfer.
pub const SAFE_TO_CLOSE_WAIT: u64 = 5000;

/// How long the payload waits for an offer after asking for a faster medium.
pub const UPGRADE_OFFER_WAIT: u64 = 12000;

/// How often the wait for an offer looks whether the person has cancelled.
pub const CANCEL_LOOK: u64 = 500;

/// What carries a conversation.
#[derive(Debug, Clone, Copy, PartialEq, Eq, Structural)]
pub enum Medium {
    Bluetooth,
    WifiLan,
    WifiHotspot,
    WifiDirect,
    Other,
}

/// Only worth upgrading FROM a slow transport: on a LAN there is nothing faster to move to.
pub fn is_slow(m: Medium) -> (r: bool)
    ensures
        r == (m == Medium::Bluetooth),
{
    match m {
        Medium::Bluetooth => true,
        _ => false,
    }
}

/// A network to join, and where to reach its host.
#[derive(Debug)]
pub struct WifiPath {
    pub ssid: String,
    pub password: String,
    pub port: i32,
    pub gateway: String,
    pub frequency: i32,
}

/// A frame read from the old channel during a handover.
pub enum OldFrame {
    LastWrite,
    SafeToClose,
    /// Anything else, decrypted: it belongs to the conversation.
    Other(Vec<u8>),
}

// ---------------------------------------------------------------- the host ---

/// How far the host of a group has come.
#[derive(Debug, Clone, Copy, PartialEq, Eq, Structural)]
pub enum Hosting {
    /// A listener is to be opened.
    Start,
    /// It is open, on this port; the group is to be stood up.
    Group { port: u16 },
    /// The offer is out.
    Joining,
    /// The sender is on the new socket.
    Introduction,
    /// Both ends are leaving the old socket.
    Releasing { deadline: u64 },
    Over,
}

pub enum HostEvent {
    /// The port of the listener, if there is one.
    Listening(Option<u16>),
    Group(Option<WifiGroup>),
    Joined(bool),
    /// Whether the first frame on the new socket was an introduction. None came in time when
    /// this is `None`.
    Introduced(Option<bool>),
    /// A frame of the old channel. None came in time when this is `None`.
    Old(Option<OldFrame>),
}

/// What the host does, in this order.
pub enum HostAction {
    StandUpGroup,
    /// Offer the group on the old channel. An acknowledgement of the introduction is promised.
    OfferPath(WifiPath),
    Accept { within: u64 },
    ReadIntroduction { within: u64 },
    /// On the new socket, in plaintext.
    AckIntroduction,
    /// On the old channel. Unprompted: the sender waits for it before releasing.
    SendLastWrite,
    ReadOld { within: u64 },
    /// On the old channel.
    SendSafeToClose,
    /// The new socket replaces the old one.
    Swap,
    /// Say on the old channel that there will be no upgrade, and stay.
    Decline,
}

impl Hosting {
    /// The release of the old channel, as long as there is time for it.
    pub open spec fn releasing(deadline: int, now: u64) -> (Hosting, Seq<HostAction>) {
        match clock::until(deadline, now) {
            Some(left) => (
                Hosting::Releasing { deadline: deadline as u64 },
                seq![HostAction::ReadOld { within: left as u64 }],
            ),
            None => Self::released(),
        }
    }

    /// Ours goes out either way: the sender is owed it, and a lost or crossed frame must not
    /// leave us withholding the one thing it is waiting for.
    pub open spec fn released() -> (Hosting, Seq<HostAction>) {
        (Hosting::Over, seq![HostAction::SendSafeToClose, HostAction::Swap])
    }

    pub open spec fn after(self, ev: HostEvent, now: u64) -> (Hosting, Seq<HostAction>) {
        let declined = (Hosting::Over, seq![HostAction::Decline]);
        match (self, ev) {
            (Hosting::Start, HostEvent::Listening(Some(port))) => (
                Hosting::Group { port },
                seq![HostAction::StandUpGroup],
            ),
            (Hosting::Group { port }, HostEvent::Group(Some(g))) => (
                Hosting::Joining,
                seq![
                    HostAction::OfferPath(
                        WifiPath {
                            ssid: g.ssid,
                            password: g.passphrase,
                            port: port as i32,
                            gateway: g.go_address,
                            frequency: g.frequency,
                        },
                    ),
                    HostAction::Accept { within: JOIN_WAIT },
                ],
            ),
            (Hosting::Joining, HostEvent::Joined(true)) => (
                Hosting::Introduction,
                seq![HostAction::ReadIntroduction { within: INTRODUCTION_WAIT }],
            ),
            (Hosting::Introduction, HostEvent::Introduced(Some(true))) => {
                let (next, actions) = Self::releasing(now + SAFE_TO_CLOSE_WAIT, now);
                (next, seq![HostAction::AckIntroduction, HostAction::SendLastWrite] + actions)
            },
            (Hosting::Releasing { deadline }, HostEvent::Old(f)) => match f {
                None => Self::released(),
                Some(OldFrame::SafeToClose) => Self::released(),
                Some(_) => Self::releasing(deadline as int, now),
            },
            (Hosting::Over, _) => (Hosting::Over, seq![]),
            _ => declined,
        }
    }
}

/// What is kept for the conversation of the frames read during a handover.
pub open spec fn kept(deferred: Seq<Vec<u8>>, f: Option<OldFrame>) -> Seq<Vec<u8>> {
    match f {
        Some(OldFrame::Other(plain)) => deferred.push(plain),
        _ => deferred,
    }
}

/// The host side of a bandwidth upgrade: stand up a group, offer it, take the sender onto it.
pub struct GroupOffer {
    state: Hosting,
    deferred: VecDeque<Vec<u8>>,
}

impl GroupOffer {
    pub closed spec fn state(&self) -> Hosting {
        self.state
    }

    /// The frames that belong to the conversation.
    pub closed spec fn deferred(&self) -> Seq<Vec<u8>> {
        self.deferred@
    }

    /// A LISTENER FIRST, so the offer can never name a port nothing is on.
    pub fn new() -> (r: Self)
        ensures
            r.state() == Hosting::Start,
            r.deferred() == Seq::<Vec<u8>>::empty(),
    {
        GroupOffer { state: Hosting::Start, deferred: VecDeque::new() }
    }

    pub fn into_deferred(self) -> (r: VecDeque<Vec<u8>>)
        ensures
            r@ == self.deferred(),
    {
        self.deferred
    }

    fn release(&mut self, deadline: u64, now: u64, out: &mut Vec<HostAction>)
        ensures
            final(self).state() == Hosting::releasing(deadline as int, now).0,
            final(self).deferred() == old(self).deferred(),
            final(out)@ == old(out)@ + Hosting::releasing(deadline as int, now).1,
    {
        match clock::left(deadline, now) {
            Some(within) => {
                self.state = Hosting::Releasing { deadline };
                out.push(HostAction::ReadOld { within });
            },
            None => {
                self.state = Hosting::Over;
                out.push(HostAction::SendSafeToClose);
                out.push(HostAction::Swap);
            },
        }
        assert(out@ =~= old(out)@ + Hosting::releasing(deadline as int, now).1);
    }

    pub fn step(&mut self, ev: HostEvent, now: u64) -> (r: Vec<HostAction>)
        requires
            now + SAFE_TO_CLOSE_WAIT <= u64::MAX,
        ensures
            (final(self).state(), r@) == old(self).state().after(ev, now),
            final(self).deferred() == (match (old(self).state(), ev) {
                (Hosting::Releasing { .. }, HostEvent::Old(f)) => kept(old(self).deferred(), f),
                _ => old(self).deferred(),
            }),
    {
        let mut out: Vec<HostAction> = Vec::new();
        match self.state {
            Hosting::Start => match ev {
                HostEvent::Listening(Some(port)) => {
                    self.state = Hosting::Group { port };
                    out.push(HostAction::StandUpGroup);
                },
                _ => {
                    self.state = Hosting::Over;
                    out.push(HostAction::Decline);
                },
            },
            Hosting::Group { port } => match ev {
                HostEvent::Group(Some(g)) => {
                    self.state = Hosting::Joining;
                    out.push(
                        HostAction::OfferPath(
                            WifiPath {
                                ssid: g.ssid,
                                password: g.passphrase,
                                port: port as i32,
                                gateway: g.go_address,
                                frequency: g.frequency,
                            },
                        ),
                    );
                    out.push(HostAction::Accept { within: JOIN_WAIT });
                },
                _ => {
                    self.state = Hosting::Over;
                    out.push(HostAction::Decline);
                },
            },
            Hosting::Joining => match ev {
                HostEvent::Joined(true) => {
                    self.state = Hosting::Introduction;
                    out.push(HostAction::ReadIntroduction { within: INTRODUCTION_WAIT });
                },
                _ => {
                    self.state = Hosting::Over;
                    out.push(HostAction::Decline);
                },
            },
            Hosting::Introduction => match ev {
                HostEvent::Introduced(Some(true)) => {
                    out.push(HostAction::AckIntroduction);
                    out.push(HostAction::SendLastWrite);
                    self.release(now + SAFE_TO_CLOSE_WAIT, now, &mut out);
                },
                _ => {
                    self.state = Hosting::Over;
                    out.push(HostAction::Decline);
                },
            },
            Hosting::Releasing { deadline } => match ev {
                HostEvent::Old(Some(OldFrame::LastWrite)) => {
                    // Its LAST_WRITE crossing ours. Nothing to answer.
                    self.release(deadline, now, &mut out);
                },
                HostEvent::Old(Some(OldFrame::Other(plain))) => {
                    self.deferred.push_back(plain);
                    self.release(deadline, now, &mut out);
                },
                HostEvent::Old(_) => {
                    self.state = Hosting::Over;
                    out.push(HostAction::SendSafeToClose);
                    out.push(HostAction::Swap);
                },
                _ => {
                    self.state = Hosting::Over;
                    out.push(HostAction::Decline);
                },
            },
            Hosting::Over => {},
        }
        assert(out@ =~= old(self).state().after(ev, now).1);
        out
    }
}

/// A conversation is moved only together with our release of the old channel, and only by a
/// sender that introduced itself.
pub proof fn law_host_swaps_after_release(s: Hosting, ev: HostEvent, now: u64)
    requires
        exists|k: int|
            0 <= k < s.after(ev, now).1.len() && #[trigger] s.after(ev, now).1[k] is Swap,
    ensures
        s is Releasing || s is Introduction,
        s is Introduction ==> ev == HostEvent::Introduced(Some(true)),
        s.after(ev, now).1.len() >= 2,
        s.after(ev, now).1[s.after(ev, now).1.len() - 2] is SendSafeToClose,
        s.after(ev, now).1.last() is Swap,
        s.after(ev, now).0 is Over,
{
}

/// An offer that was not taken is always answered: the sender is told there will be no
/// upgrade, whatever it was that went wrong before the introduction.
pub proof fn law_host_never_goes_quiet(s: Hosting, ev: HostEvent, now: u64)
    requires
        !(s is Over),
        s.after(ev, now).0 is Over,
    ensures
        s.after(ev, now).1 == seq![HostAction::Decline] || s.after(ev, now).1.last() is Swap,
{
}

/// Everything that the host has done, one event after the other, each at its time.
pub open spec fn host_run(
    s: Hosting,
    evs: Seq<(HostEvent, u64)>,
) -> (Hosting, Seq<HostAction>)
    decreases evs.len(),
{
    if evs.len() == 0 {
        (s, seq![])
    } else {
        let before = host_run(s, evs.drop_last());
        let now = before.0.after(evs.last().0, evs.last().1);
        (now.0, before.1 + now.1)
    }
}

/// What is done but for the waiting.
pub open spec fn host_does(acts: Seq<HostAction>) -> Seq<HostAction>
    decreases acts.len(),
{
    if acts.len() == 0 {
        seq![]
    } else {
        let before = host_does(acts.drop_last());
        match acts.last() {
            HostAction::Accept { .. } | HostAction::ReadIntroduction { .. } | HostAction::ReadOld {
                ..
            } => before,
            a => before.push(a),
        }
    }
}

proof fn lemma_host_does_concat(a: Seq<HostAction>, b: Seq<HostAction>)
    ensures
        host_does(a + b) == host_does(a) + host_does(b),
    decreases b.len(),
{
    if b.len() == 0 {
        assert(a + b =~= a);
        assert(host_does(a) + host_does(b) =~= host_does(a));
    } else {
        lemma_host_does_concat(a, b.drop_last());
        assert((a + b).drop_last() =~= a + b.drop_last());
        assert((a + b).last() == b.last());
        assert(host_does(a + b) =~= host_does(a) + host_does(b));
    }
}

/// The steps of a move, in the one order there is.
pub open spec fn host_step_is(k: int, a: HostAction) -> bool {
    match a {
        HostAction::StandUpGroup => k == 0,
        HostAction::OfferPath(_) => k == 1,
        HostAction::AckIntroduction => k == 2,
        HostAction::SendLastWrite => k == 3,
        HostAction::SendSafeToClose => k == 4,
        HostAction::Swap => k == 5,
        _ => false,
    }
}

/// What was done but for saying that it is off.
pub open spec fn host_steps(done: Seq<HostAction>) -> Seq<HostAction> {
    if done.len() > 0 && done.last() is Decline {
        done.drop_last()
    } else {
        done
    }
}

/// How many of them are behind a host.
pub open spec fn host_steps_done(s: Hosting) -> int {
    match s {
        Hosting::Start => 0,
        Hosting::Group { .. } => 1,
        Hosting::Joining => 2,
        Hosting::Introduction => 2,
        Hosting::Releasing { .. } => 4,
        Hosting::Over => 6,
    }
}

proof fn lemma_host_step(s: Hosting, ev: HostEvent, now: u64)
    requires
        !(s is Over),
    ensures
        ({
            let (t, acts) = s.after(ev, now);
            let more = host_does(acts);
            let from = host_steps_done(s);
            ||| more == seq![HostAction::Decline] && t is Over
            ||| from + more.len() == host_steps_done(t) && forall|k: int|
                0 <= k < more.len() ==> host_step_is(from + k, #[trigger] more[k])
        }),
{
    let (t, acts) = s.after(ev, now);
    assert(acts.len() <= 4);
    reveal_with_fuel(host_does, 6);
    if acts.len() == 4 {
        assert(acts.drop_last() =~= seq![acts[0], acts[1], acts[2]]);
    }
    if acts.len() >= 3 {
        assert(acts.take(3).drop_last() =~= acts.take(2));
        assert(acts.take(2).drop_last() =~= acts.take(1));
        assert(acts.take(1).drop_last() =~= acts.take(0));
        assert(acts.len() == 4 ==> acts.drop_last() =~= acts.take(3));
        assert(acts.len() == 3 ==> acts.drop_last() =~= acts.take(2));
    }
    if acts.len() == 2 {
        assert(acts.drop_last() =~= acts.take(1));
        assert(acts.take(1).drop_last() =~= acts.take(0));
    }
    if acts.len() == 1 {
        assert(acts.drop_last() =~= acts.take(0));
        assert(host_does(acts.take(0)) =~= seq![]);
        assert(host_does(acts) =~= seq![] || host_does(acts) =~= seq![acts[0]]);
    }
}

/// The order of a move is kept, whatever comes: the group is stood up, offered, the introduction
/// acknowledged, our last write sent, the old channel released and the conversation moved, each
/// once and none without those before it. Short of the release it can be called off instead,
/// which is said once and is the end of it.
pub proof fn law_host_keeps_the_order(evs: Seq<(HostEvent, u64)>)
    ensures
        ({
            let (s, acts) = host_run(Hosting::Start, evs);
            let done = host_does(acts);
            let off = done.len() > 0 && done.last() is Decline;
            let good = host_steps(done);
            &&& forall|k: int| 0 <= k < good.len() ==> host_step_is(k, #[trigger] good[k])
            &&& off ==> good.len() <= 4
            &&& s is Over <==> off || good.len() == 6
            &&& good.len() <= 6
            &&& !(s is Over) ==> good.len() == host_steps_done(s)
        }),
    decreases evs.len(),
{
    if evs.len() > 0 {
        law_host_keeps_the_order(evs.drop_last());
        let (s, acts) = host_run(Hosting::Start, evs.drop_last());
        let (ev, now) = evs.last();
        let (t, more) = s.after(ev, now);
        lemma_host_does_concat(acts, more);
        let done = host_does(acts);
        let all = host_does(acts + more);
        if s is Over {
            assert(more =~= seq![]);
            assert(host_does(more) =~= seq![]);
            assert(all =~= done);
        } else {
            assert(host_steps(done) == done);
            assert(done.len() > 0 ==> host_step_is(done.len() - 1, done[done.len() - 1]));
            lemma_host_step(s, ev, now);
            let new = host_does(more);
            assert(all == done + new);
            if new == seq![HostAction::Decline] {
                assert(all.drop_last() =~= done);
                assert(all.last() is Decline);
            } else {
                assert forall|k: int| 0 <= k < all.len() implies host_step_is(
                    k,
                    #[trigger] all[k],
                ) by {
                    if k >= done.len() {
                        assert(all[k] == new[k - done.len()]);
                    } else {
                        assert(all[k] == done[k]);
                    }
                }
                assert(all.len() > 0 ==> host_step_is(all.len() - 1, all[all.len() - 1]));
            }
        }
    }
}

/// A host that meets with nothing but success moves the conversation: the sender joins within
/// the time it has, introduces itself, and after any number of other frames of the old channel,
/// as long as there is time, its release brings the swap. Each wait is no longer than it may be.
pub proof fn law_host_goes_through(port: u16, g: WifiGroup, now: u64, deadline: u64)
    requires
        now + SAFE_TO_CLOSE_WAIT <= u64::MAX,
    ensures
        ({
            let (a, stood) = Hosting::Start.after(HostEvent::Listening(Some(port)), now);
            let (b, offered) = a.after(HostEvent::Group(Some(g)), now);
            let (c, joined) = b.after(HostEvent::Joined(true), now);
            let (d, introduced) = c.after(HostEvent::Introduced(Some(true)), now);
            &&& stood == seq![HostAction::StandUpGroup]
            &&& offered.len() == 2 && offered[0] is OfferPath && offered[1]
                == HostAction::Accept { within: JOIN_WAIT }
            &&& joined == seq![HostAction::ReadIntroduction { within: INTRODUCTION_WAIT }]
            &&& introduced == seq![
                HostAction::AckIntroduction,
                HostAction::SendLastWrite,
                HostAction::ReadOld { within: SAFE_TO_CLOSE_WAIT },
            ]
            &&& d == Hosting::Releasing { deadline: (now + SAFE_TO_CLOSE_WAIT) as u64 }
        }),
        ({
            let waits = Hosting::Releasing { deadline };
            let ends = seq![HostAction::SendSafeToClose, HostAction::Swap];
            &&& waits.after(HostEvent::Old(Some(OldFrame::SafeToClose)), now).1 == ends
            &&& waits.after(HostEvent::Old(None), now).1 == ends
            &&& forall|f: OldFrame|
                !(f is SafeToClose) && now <= deadline ==> #[trigger] waits.after(
                    HostEvent::Old(Some(f)),
                    now,
                ) == (
                    waits,
                    seq![HostAction::ReadOld { within: (deadline - now) as u64 }],
                )
            &&& forall|f: OldFrame|
                now > deadline ==> (#[trigger] waits.after(HostEvent::Old(Some(f)), now)).1
                    == ends
        }),
{
    let (a, stood) = Hosting::Start.after(HostEvent::Listening(Some(port)), now);
    let (b, offered) = a.after(HostEvent::Group(Some(g)), now);
    let (c, joined) = b.after(HostEvent::Joined(true), now);
    let (d, introduced) = c.after(HostEvent::Introduced(Some(true)), now);
    assert(introduced =~= seq![
        HostAction::AckIntroduction,
        HostAction::SendLastWrite,
        HostAction::ReadOld { within: SAFE_TO_CLOSE_WAIT },
    ]);
}

/// What the conversation is handed of a handover's frames.
pub open spec fn kept_of_all(deferred: Seq<Vec<u8>>, fs: Seq<Option<OldFrame>>) -> Seq<Vec<u8>>
    decreases fs.len(),
{
    if fs.len() == 0 {
        deferred
    } else {
        kept(kept_of_all(deferred, fs.drop_last()), fs.last())
    }
}

/// No frame of the conversation that is read during a handover is lost or changes its place, and
/// none of the handover's own gets among them.
pub proof fn law_conversation_is_kept(deferred: Seq<Vec<u8>>, fs: Seq<Option<OldFrame>>)
    ensures
        kept_of_all(deferred, fs).len() >= deferred.len(),
        kept_of_all(deferred, fs).take(deferred.len() as int) == deferred,
        forall|i: int|
            0 <= i < fs.len() && fs[i] is Some && fs[i]->0 is Other
                ==> deferred.len() <= (#[trigger] kept_of_all(deferred, fs.take(i))).len()
                < kept_of_all(deferred, fs).len() && kept_of_all(
                deferred,
                fs,
            )[kept_of_all(deferred, fs.take(i)).len() as int] == fs[i]->0->Other_0,
        (forall|i: int| 0 <= i < fs.len() && (#[trigger] fs[i]) is Some ==> !(fs[i]->0 is Other))
            ==> kept_of_all(deferred, fs) == deferred,
    decreases fs.len(),
{
    if fs.len() == 0 {
        assert(deferred.take(deferred.len() as int) =~= deferred);
    } else {
        let front = fs.drop_last();
        law_conversation_is_kept(deferred, front);
        let before = kept_of_all(deferred, front);
        let all = kept_of_all(deferred, fs);
        let n = deferred.len() as int;
        assert(all.take(n) =~= before.take(n));
        assert forall|i: int|
            0 <= i < fs.len() && fs[i] is Some && fs[i]->0 is Other implies deferred.len() <= (
        #[trigger] kept_of_all(deferred, fs.take(i))).len() < all.len() && all[kept_of_all(
            deferred,
            fs.take(i),
        ).len() as int] == fs[i]->0->Other_0 by {
            if i == fs.len() - 1 {
                assert(fs.take(i) =~= front);
                assert(fs[i] == fs.last());
            } else {
                assert(fs.take(i) =~= front.take(i));
                assert(front[i] == fs[i]);
                let m = kept_of_all(deferred, front.take(i));
                assert(m.len() < before.len());
            }
        }
        assert((forall|i: int|
            0 <= i < fs.len() && (#[trigger] fs[i]) is Some ==> !(fs[i]->0 is Other)) ==> (forall|
            i: int,
        |
            0 <= i < front.len() && (#[trigger] front[i]) is Some ==> !(front[i]->0 is Other)))
            by {
            assert(forall|i: int| 0 <= i < front.len() ==> #[trigger] front[i] == fs[i]);
        }
        assert(fs.last() == fs[fs.len() - 1]);
    }
}

// --------------------------------------------------------------- the joiner ---

/// Where an offer leads.
#[derive(Debug)]
pub struct LanPath {
    pub ip: Vec<u8>,
    pub port: i32,
}

/// What to do about an offer.
#[derive(Debug)]
pub enum Way {
    /// Have the network joined, and take the socket.
    Join { ssid: String, passphrase: String, gateway: String, port: u16, frequency: i32 },
    /// Connect on the network we are on.
    Dial { ip: Address, port: u16 },
    /// An offer we cannot take.
    Decline,
}

pub open spec fn port_of(p: i32) -> Option<u16> {
    if 0 <= p <= 0xffff {
        Some(p as u16)
    } else {
        None
    }
}

/// "0.0.0.0" means "whatever the network's gateway turns out to be": it is not an address to
/// connect to.
pub open spec fn gateway_text(g: Seq<char>) -> Seq<char> {
    if g == "0.0.0.0"@ {
        seq![]
    } else {
        g
    }
}

fn checked_port(p: i32) -> (r: Option<u16>)
    ensures
        r == port_of(p),
{
    if 0 <= p && p <= 0xffff {
        Some(p as u16)
    } else {
        None
    }
}

/// Whether this is what to do about an offer. A network comes before a place on the one we are
/// on.
pub open spec fn leads_to(wifi: Option<WifiPath>, lan: Option<LanPath>, r: Way) -> bool {
    match wifi {
        Some(w) => match port_of(w.port) {
            Some(port) => r is Join && r->Join_ssid == w.ssid && r->Join_passphrase == w.password
                && r->Join_gateway@ == gateway_text(w.gateway@) && r->Join_port == port
                && r->Join_frequency == w.frequency,
            None => r is Decline,
        },
        None => match lan {
            Some(l) => if port_of(l.port) is Some && names_a_peer(l.ip@) {
                r is Dial && r->Dial_ip.octets() == l.ip@ && Some(r->Dial_port) == port_of(l.port)
                    && address::plausible(r->Dial_ip)
            } else {
                r is Decline
            },
            None => r is Decline,
        },
    }
}

/// Whether some octets are those of an address that could be a peer's.
pub open spec fn names_a_peer(ip: Seq<u8>) -> bool {
    exists|a: Address| #[trigger] a.octets() == ip && address::plausible(a)
}

/// Get onto the medium the peer offered.
///
/// Two ways, and the difference is whether a radio has to be joined. The peer chooses the
/// address, so it has to be checked: a bandwidth upgrade only ever addresses a peer that is
/// already link-adjacent.
pub fn acquire(wifi: Option<WifiPath>, lan: Option<LanPath>) -> (r: Way)
    ensures
        leads_to(wifi, lan, r),
        r is Decline && wifi is None && lan is Some ==> {
            ||| port_of(lan->0.port) is None
            ||| forall|a: Address|
                #[trigger] a.octets() == lan->0.ip@ ==> !address::plausible(a)
        },
{
    match wifi {
        Some(w) => {
            return match checked_port(w.port) {
                Some(port) => {
                    let zero = "0.0.0.0".to_owned();
                    let gateway: String = if w.gateway == zero {
                        String::new()
                    } else {
                        w.gateway
                    };
                    assert(gateway@ =~= gateway_text(w.gateway@));
                    Way::Join {
                        ssid: w.ssid,
                        passphrase: w.password,
                        gateway,
                        port,
                        frequency: w.frequency,
                    }
                },
                None => Way::Decline,
            };
        },
        None => {},
    }
    match lan {
        Some(l) => {
            let ip: Address = match Address::from_bytes(l.ip.as_slice()) {
                Some(a) => a,
                None => {
                    assert forall|a: Address| #[trigger] a.octets() == l.ip@ implies
                        !address::plausible(a) by {
                        match a {
                            Address::V4(o) => {
                                assert(o@.len() == 4);
                            },
                            Address::V6(o) => {
                                assert(o@.len() == 16);
                            },
                        }
                    }
                    return Way::Decline;
                },
            };
            match checked_port(l.port) {
                Some(port) => {
                    if address::is_plausible_peer(ip) {
                        assert(ip.octets() == l.ip@);
                        Way::Dial { ip, port }
                    } else {
                        proof {
                            lemma_same_octets(ip);
                        }
                        Way::Decline
                    }
                },
                None => Way::Decline,
            }
        },
        None => Way::Decline,
    }
}

/// What the host offers of a group is what a joiner makes of the offer: the group's network is
/// joined with the group's passphrase, on its frequency, and its own address is dialled, on the
/// port that the host listens on. An address of all zeros is left to the network to say.
pub proof fn law_joiner_takes_what_the_host_offers(
    port: u16,
    g: WifiGroup,
    now: u64,
    lan: Option<LanPath>,
    r: Way,
)
    requires
        ({
            let offered = (Hosting::Group { port }).after(HostEvent::Group(Some(g)), now).1;
            &&& offered.len() > 0
            &&& offered[0] is OfferPath
            &&& leads_to(Some(offered[0]->OfferPath_0), lan, r)
        }),
    ensures
        ({
            let path = (Hosting::Group { port }).after(
                HostEvent::Group(Some(g)),
                now,
            ).1[0]->OfferPath_0;
            &&& path.ssid@ == g.ssid@
            &&& path.password@ == g.passphrase@
            &&& path.gateway@ == g.go_address@
            &&& path.frequency == g.frequency
            &&& path.port == port
        }),
        r is Join,
        r->Join_ssid@ == g.ssid@,
        r->Join_passphrase@ == g.passphrase@,
        g.go_address@ != "0.0.0.0"@ ==> r->Join_gateway@ == g.go_address@,
        g.go_address@ == "0.0.0.0"@ ==> r->Join_gateway@.len() == 0,
        r->Join_port == port,
        r->Join_frequency == g.frequency,
{
}

/// A group that stands is offered, and nothing else is: one that could not be stood up is not.
pub proof fn law_only_a_group_is_offered(s: Hosting, ev: HostEvent, now: u64)
    ensures
        (exists|k: int|
            0 <= k < s.after(ev, now).1.len() && (#[trigger] s.after(ev, now).1[k]) is OfferPath)
            <==> s is Group && ev is Group && ev->Group_0 is Some,
        s is Group && ev is Group && ev->Group_0 is Some ==> s.after(ev, now).1[0] is OfferPath,
{
    if s is Group && ev is Group && ev->Group_0 is Some {
        assert(s.after(ev, now).1[0] is OfferPath);
    }
}

/// Whatever an offer names, we go only where a port is one and an address could be a neighbour's,
/// and then exactly there.
pub proof fn law_dials_what_was_offered(wifi: Option<WifiPath>, lan: Option<LanPath>, r: Way)
    requires
        leads_to(wifi, lan, r),
    ensures
        match r {
            Way::Join { ssid, passphrase, gateway, port, frequency } => wifi is Some && port
                == wifi->0.port && ssid@ == wifi->0.ssid@ && passphrase@ == wifi->0.password@
                && frequency == wifi->0.frequency && (gateway@ == wifi->0.gateway@ || (
            gateway@.len() == 0 && wifi->0.gateway@ == "0.0.0.0"@)),
            Way::Dial { ip, port } => wifi is None && lan is Some && ip.octets() == lan->0.ip@
                && port == lan->0.port && address::plausible(ip),
            Way::Decline => wifi is Some ==> !(0 <= wifi->0.port <= 0xffff),
        },
{
}

/// A neighbour that is offered on the network we are on is dialled, wherever that is an address
/// that a neighbour can have and a port that there is.
pub proof fn law_neighbour_is_dialled(a: Address, l: LanPath, r: Way)
    requires
        address::plausible(a),
        l.ip@ == a.octets(),
        0 <= l.port <= 0xffff,
        leads_to(None, Some(l), r),
    ensures
        r is Dial,
        r->Dial_ip.octets() == a.octets(),
        r->Dial_port == l.port,
{
    assert(names_a_peer(l.ip@));
}

/// Whether an address is plausible rests on its octets alone.
proof fn lemma_same_octets(a: Address)
    requires
        !address::plausible(a),
    ensures
        forall|b: Address| #[trigger] b.octets() == a.octets() ==> !address::plausible(b),
{
    assert forall|b: Address| #[trigger] b.octets() == a.octets() implies !address::plausible(
        b,
    ) by {
        match (a, b) {
            (Address::V4(x), Address::V4(y)) => {
                assert(x@ == y@);
            },
            (Address::V6(x), Address::V6(y)) => {
                assert(x@ == y@);
            },
            (Address::V4(x), Address::V6(y)) => {
                assert(x@.len() == 4 && y@.len() == 16);
            },
            (Address::V6(x), Address::V4(y)) => {
                assert(x@.len() == 16 && y@.len() == 4);
            },
        }
    }
}

/// How far the joiner has come.
#[derive(Debug, Clone, Copy, PartialEq, Eq, Structural)]
pub enum Joining {
    /// The new socket is to be acquired.
    Start { ack_promised: bool },
    /// Our introduction is out, and its acknowledgement was promised.
    Acknowledgement,
    /// Both ends are leaving the old socket.
    Releasing { deadline: u64, we_released: bool },
    Over,
}

pub enum JoinEvent {
    /// Whether there is a new socket.
    Acquired(bool),
    /// Whether the first frame on the new socket was an acknowledgement. None came in time
    /// when this is `None`.
    Acknowledged(Option<bool>),
    /// A frame of the old channel. None came in time when this is `None`.
    Old(Option<OldFrame>),
}

pub enum JoinAction {
    /// On the new socket, in plaintext.
    Introduce,
    ReadAcknowledgement { within: u64 },
    /// On the old channel.
    SendLastWrite,
    ReadOld { within: u64 },
    /// On the old channel. The peer will not touch the new socket until it has this.
    SendSafeToClose,
    Swap,
    /// Say on the old channel that there will be no upgrade, and stay.
    Decline,
    /// The attempt failed part-way. That is said too, and the conversation stays.
    Fail,
}

impl Joining {
    pub open spec fn releasing(
        deadline: int,
        we_released: bool,
        now: u64,
    ) -> (Joining, Seq<JoinAction>) {
        match clock::until(deadline, now) {
            Some(left) => (
                Joining::Releasing { deadline: deadline as u64, we_released },
                seq![JoinAction::ReadOld { within: left as u64 }],
            ),
            None => Self::released(we_released),
        }
    }

    /// The peer is owed our release, whether or not its own last write arrived.
    pub open spec fn released(we_released: bool) -> (Joining, Seq<JoinAction>) {
        (
            Joining::Over,
            if we_released {
                seq![JoinAction::Swap]
            } else {
                seq![JoinAction::SendSafeToClose, JoinAction::Swap]
            },
        )
    }

    pub open spec fn leaving(now: u64) -> (Joining, Seq<JoinAction>) {
        let (next, actions) = Self::releasing(now + SAFE_TO_CLOSE_WAIT, false, now);
        (next, seq![JoinAction::SendLastWrite] + actions)
    }

    pub open spec fn after(self, ev: JoinEvent, now: u64) -> (Joining, Seq<JoinAction>) {
        match (self, ev) {
            (Joining::Start { ack_promised }, JoinEvent::Acquired(true)) => if ack_promised {
                (
                    Joining::Acknowledgement,
                    seq![
                        JoinAction::Introduce,
                        JoinAction::ReadAcknowledgement { within: INTRODUCTION_ACK_WAIT },
                    ],
                )
            } else {
                let (next, actions) = Self::leaving(now);
                (next, seq![JoinAction::Introduce] + actions)
            },
            (Joining::Start { .. }, _) => (Joining::Over, seq![JoinAction::Decline]),
            (Joining::Acknowledgement, JoinEvent::Acknowledged(Some(true))) => Self::leaving(now),
            (Joining::Releasing { deadline, we_released }, JoinEvent::Old(f)) => match f {
                None => Self::released(we_released),
                Some(OldFrame::SafeToClose) => Self::released(we_released),
                Some(OldFrame::LastWrite) => {
                    let (next, actions) = Self::releasing(deadline as int, true, now);
                    (
                        next,
                        (if we_released {
                            seq![]
                        } else {
                            seq![JoinAction::SendSafeToClose]
                        }) + actions,
                    )
                },
                Some(OldFrame::Other(_)) => Self::releasing(deadline as int, we_released, now),
            },
            (Joining::Over, _) => (Joining::Over, seq![]),
            _ => (Joining::Over, seq![JoinAction::Fail]),
        }
    }
}

/// Move the conversation onto the medium the peer just offered.
pub struct Adoption {
    state: Joining,
    deferred: VecDeque<Vec<u8>>,
}

impl Adoption {
    pub closed spec fn state(&self) -> Joining {
        self.state
    }

    pub closed spec fn deferred(&self) -> Seq<Vec<u8>> {
        self.deferred@
    }

    pub fn new(ack_promised: bool) -> (r: Self)
        ensures
            r.state() == (Joining::Start { ack_promised }),
            r.deferred() == Seq::<Vec<u8>>::empty(),
    {
        Adoption { state: Joining::Start { ack_promised }, deferred: VecDeque::new() }
    }

    pub fn into_deferred(self) -> (r: VecDeque<Vec<u8>>)
        ensures
            r@ == self.deferred(),
    {
        self.deferred
    }

    fn release(
        &mut self,
        deadline: u64,
        we_released: bool,
        now: u64,
        out: &mut Vec<JoinAction>,
    )
        ensures
            final(self).state() == Joining::releasing(deadline as int, we_released, now).0,
            final(self).deferred() == old(self).deferred(),
            final(out)@ == old(out)@ + Joining::releasing(deadline as int, we_released, now).1,
    {
        match clock::left(deadline, now) {
            Some(within) => {
                self.state = Joining::Releasing { deadline, we_released };
                out.push(JoinAction::ReadOld { within });
            },
            None => {
                self.state = Joining::Over;
                if !we_released {
                    out.push(JoinAction::SendSafeToClose);
                }
                out.push(JoinAction::Swap);
            },
        }
        assert(out@ =~= old(out)@ + Joining::releasing(deadline as int, we_released, now).1);
    }

    pub fn step(&mut self, ev: JoinEvent, now: u64) -> (r: Vec<JoinAction>)
        requires
            now + SAFE_TO_CLOSE_WAIT <= u64::MAX,
        ensures
            (final(self).state(), r@) == old(self).state().after(ev, now),
            final(self).deferred() == (match (old(self).state(), ev) {
                (Joining::Releasing { .. }, JoinEvent::Old(f)) => kept(old(self).deferred(), f),
                _ => old(self).deferred(),
            }),
    {
        let mut out: Vec<JoinAction> = Vec::new();
        match self.state {
            Joining::Start { ack_promised } => match ev {
                JoinEvent::Acquired(true) => {
                    out.push(JoinAction::Introduce);
                    // Waiting for an acknowledgement that is not coming would abandon a
                    // working upgrade.
                    if ack_promised {
                        self.state = Joining::Acknowledgement;
                        out.push(
                            JoinAction::ReadAcknowledgement { within: INTRODUCTION_ACK_WAIT },
                        );
                    } else {
                        out.push(JoinAction::SendLastWrite);
                        self.release(now + SAFE_TO_CLOSE_WAIT, false, now, &mut out);
                    }
                },
                _ => {
                    self.state = Joining::Over;
                    out.push(JoinAction::Decline);
                },
            },
            Joining::Acknowledgement => match ev {
                JoinEvent::Acknowledged(Some(true)) => {
                    out.push(JoinAction::SendLastWrite);
                    self.release(now + SAFE_TO_CLOSE_WAIT, false, now, &mut out);
                },
                _ => {
                    self.state = Joining::Over;
                    out.push(JoinAction::Fail);
                },
            },
            Joining::Releasing { deadline, we_released } => match ev {
                JoinEvent::Old(Some(OldFrame::LastWrite)) => {
                    if !we_released {
                        out.push(JoinAction::SendSafeToClose);
                    }
                    self.release(deadline, true, now, &mut out);
                },
                JoinEvent::Old(Some(OldFrame::Other(plain))) => {
                    self.deferred.push_back(plain);
                    self.release(deadline, we_released, now, &mut out);
                },
                JoinEvent::Old(_) => {
                    self.state = Joining::Over;
                    if !we_released {
                        out.push(JoinAction::SendSafeToClose);
                    }
                    out.push(JoinAction::Swap);
                },
                _ => {
                    self.state = Joining::Over;
                    out.push(JoinAction::Fail);
                },
            },
            Joining::Over => {},
        }
        assert(out@ =~= old(self).state().after(ev, now).1);
        out
    }
}

/// How many times an action list releases the old channel.
pub open spec fn releases(actions: Seq<JoinAction>) -> nat
    decreases actions.len(),
{
    if actions.len() == 0 {
        0
    } else {
        releases(actions.drop_last()) + (if actions.last() is SendSafeToClose {
            1nat
        } else {
            0nat
        })
    }
}

pub open spec fn join_run(
    s: Joining,
    evs: Seq<(JoinEvent, u64)>,
) -> (Joining, Seq<JoinAction>)
    decreases evs.len(),
{
    if evs.len() == 0 {
        (s, seq![])
    } else {
        let before = join_run(s, evs.drop_last());
        let now = before.0.after(evs.last().0, evs.last().1);
        (now.0, before.1 + now.1)
    }
}

proof fn lemma_releases_concat(a: Seq<JoinAction>, b: Seq<JoinAction>)
    ensures
        releases(a + b) == releases(a) + releases(b),
    decreases b.len(),
{
    if b.len() == 0 {
        assert(a + b =~= a);
    } else {
        lemma_releases_concat(a, b.drop_last());
        assert((a + b).drop_last() =~= a + b.drop_last());
        assert((a + b).last() == b.last());
    }
}

/// The release is owed once, never twice, and the swap comes with it.
pub proof fn law_joiner_releases_once(ack_promised: bool, evs: Seq<(JoinEvent, u64)>)
    ensures
        ({
            let (s, actions) = join_run(Joining::Start { ack_promised }, evs);
            &&& releases(actions) <= 1
            &&& actions.contains(JoinAction::Swap) ==> releases(actions) == 1
        }),
{
    lemma_joiner_releases(ack_promised, evs);
}

/// Whether the release was sent while the old channel is being left.
spec fn sent_already(s: Joining) -> nat {
    match s {
        Joining::Releasing { we_released, .. } => if we_released {
            1nat
        } else {
            0nat
        },
        _ => 0nat,
    }
}

/// What one step adds: leaving owes the release once, and the swap is where it is paid.
proof fn lemma_join_step(s: Joining, ev: JoinEvent, now: u64)
    ensures
        ({
            let (n, more) = s.after(ev, now);
            &&& s is Over ==> n is Over && more.len() == 0
            &&& n is Releasing ==> sent_already(s) + releases(more) == sent_already(n)
                && !more.contains(JoinAction::Swap)
            &&& n is Over ==> sent_already(s) + releases(more) <= 1 && (more.contains(
                JoinAction::Swap,
            ) ==> sent_already(s) + releases(more) == 1)
            &&& n is Start || n is Acknowledgement ==> releases(more) == 0 && !more.contains(
                JoinAction::Swap,
            ) && !(s is Releasing)
        }),
{
    let (n, more) = s.after(ev, now);
    assert(more.len() <= 4);
    lemma_short_releases(more);
}

proof fn lemma_joiner_releases(ack_promised: bool, evs: Seq<(JoinEvent, u64)>)
    ensures
        ({
            let (s, actions) = join_run(Joining::Start { ack_promised }, evs);
            &&& releases(actions) <= 1
            &&& s is Over ==> (actions.contains(JoinAction::Swap) ==> releases(actions) == 1)
            &&& !(s is Over) ==> releases(actions) == sent_already(s) && !actions.contains(
                JoinAction::Swap,
            )
        }),
    decreases evs.len(),
{
    if evs.len() > 0 {
        lemma_joiner_releases(ack_promised, evs.drop_last());
        let (s, actions) = join_run(Joining::Start { ack_promised }, evs.drop_last());
        let (ev, now) = evs.last();
        let more = s.after(ev, now).1;
        lemma_join_step(s, ev, now);
        lemma_releases_concat(actions, more);
        lemma_swap_in_either(actions, more);
    }
}

proof fn lemma_swap_in_either(a: Seq<JoinAction>, b: Seq<JoinAction>)
    ensures
        (a + b).contains(JoinAction::Swap) <==> a.contains(JoinAction::Swap) || b.contains(
            JoinAction::Swap,
        ),
{
    let x = JoinAction::Swap;
    if a.contains(x) {
        let k = choose|k: int| 0 <= k < a.len() && a[k] == x;
        assert((a + b)[k] == x);
    }
    if b.contains(x) {
        let k = choose|k: int| 0 <= k < b.len() && b[k] == x;
        assert((a + b)[a.len() + k] == x);
    }
    if (a + b).contains(x) {
        let k = choose|k: int| 0 <= k < (a + b).len() && (a + b)[k] == x;
        if k < a.len() {
            assert(a[k] == x);
        } else {
            assert(b[k - a.len()] == x);
        }
    }
}

/// Releases of up to four actions, one by one.
proof fn lemma_short_releases(a: Seq<JoinAction>)
    requires
        a.len() <= 4,
    ensures
        releases(a) == (if a.len() > 0 && a[0] is SendSafeToClose {
            1nat
        } else {
            0nat
        }) + (if a.len() > 1 && a[1] is SendSafeToClose {
            1nat
        } else {
            0nat
        }) + (if a.len() > 2 && a[2] is SendSafeToClose {
            1nat
        } else {
            0nat
        }) + (if a.len() > 3 && a[3] is SendSafeToClose {
            1nat
        } else {
            0nat
        }),
{
    reveal_with_fuel(releases, 6);
}

/// What is done but for the waiting.
pub open spec fn join_does(acts: Seq<JoinAction>) -> Seq<JoinAction>
    decreases acts.len(),
{
    if acts.len() == 0 {
        seq![]
    } else {
        let before = join_does(acts.drop_last());
        match acts.last() {
            JoinAction::ReadAcknowledgement { .. } | JoinAction::ReadOld { .. } => before,
            a => before.push(a),
        }
    }
}

proof fn lemma_join_does_concat(a: Seq<JoinAction>, b: Seq<JoinAction>)
    ensures
        join_does(a + b) == join_does(a) + join_does(b),
    decreases b.len(),
{
    if b.len() == 0 {
        assert(a + b =~= a);
        assert(join_does(a) + join_does(b) =~= join_does(a));
    } else {
        lemma_join_does_concat(a, b.drop_last());
        assert((a + b).drop_last() =~= a + b.drop_last());
        assert((a + b).last() == b.last());
        assert(join_does(a + b) =~= join_does(a) + join_does(b));
    }
}

/// The steps of a move, in the one order there is.
pub open spec fn join_step_is(k: int, a: JoinAction) -> bool {
    match a {
        JoinAction::Introduce => k == 0,
        JoinAction::SendLastWrite => k == 1,
        JoinAction::SendSafeToClose => k == 2,
        JoinAction::Swap => k == 3,
        _ => false,
    }
}

/// What was done but for saying that it is off.
pub open spec fn join_steps(done: Seq<JoinAction>) -> Seq<JoinAction> {
    if done.len() > 0 && (done.last() is Decline || done.last() is Fail) {
        done.drop_last()
    } else {
        done
    }
}

/// How many of them are behind a joiner.
pub open spec fn join_steps_done(s: Joining) -> int {
    match s {
        Joining::Start { .. } => 0,
        Joining::Acknowledgement => 1,
        Joining::Releasing { we_released, .. } => if we_released {
            3
        } else {
            2
        },
        Joining::Over => 4,
    }
}

proof fn lemma_join_order(s: Joining, ev: JoinEvent, now: u64)
    requires
        !(s is Over),
    ensures
        ({
            let (t, acts) = s.after(ev, now);
            let more = join_does(acts);
            let from = join_steps_done(s);
            ||| (more == seq![JoinAction::Decline] || more == seq![JoinAction::Fail]) && t is Over
                && (more[0] is Decline <==> s is Start)
            ||| from + more.len() == join_steps_done(t) && forall|k: int|
                0 <= k < more.len() ==> join_step_is(from + k, #[trigger] more[k])
        }),
{
    let (t, acts) = s.after(ev, now);
    assert(acts.len() <= 4);
    reveal_with_fuel(join_does, 6);
    if acts.len() >= 3 {
        assert(acts.take(3).drop_last() =~= acts.take(2));
        assert(acts.take(2).drop_last() =~= acts.take(1));
        assert(acts.take(1).drop_last() =~= acts.take(0));
        assert(acts.len() == 4 ==> acts.drop_last() =~= acts.take(3));
        assert(acts.len() == 3 ==> acts.drop_last() =~= acts.take(2));
    }
    if acts.len() == 2 {
        assert(acts.drop_last() =~= acts.take(1));
        assert(acts.take(1).drop_last() =~= acts.take(0));
    }
    if acts.len() == 1 {
        assert(acts.drop_last() =~= acts.take(0));
        assert(join_does(acts.take(0)) =~= seq![]);
        assert(join_does(acts) =~= seq![] || join_does(acts) =~= seq![acts[0]]);
    }
}

/// The joiner keeps the order of a move, whatever comes: it introduces itself, sends its last
/// write, releases the old channel and moves the conversation, each once and none without those
/// before it. Short of the move it can give up, which is said once and is the end of it.
pub proof fn law_joiner_keeps_the_order(ack_promised: bool, evs: Seq<(JoinEvent, u64)>)
    ensures
        ({
            let (s, acts) = join_run(Joining::Start { ack_promised }, evs);
            let done = join_does(acts);
            let off = done.len() > 0 && (done.last() is Decline || done.last() is Fail);
            let good = join_steps(done);
            &&& forall|k: int| 0 <= k < good.len() ==> join_step_is(k, #[trigger] good[k])
            &&& off ==> good.len() <= 3 && (done.last() is Decline <==> good.len() == 0)
            &&& s is Over <==> off || good.len() == 4
            &&& good.len() <= 4
            &&& !(s is Over) ==> good.len() == join_steps_done(s)
        }),
    decreases evs.len(),
{
    if evs.len() > 0 {
        law_joiner_keeps_the_order(ack_promised, evs.drop_last());
        let (s, acts) = join_run(Joining::Start { ack_promised }, evs.drop_last());
        let (ev, now) = evs.last();
        let (t, more) = s.after(ev, now);
        lemma_join_does_concat(acts, more);
        let done = join_does(acts);
        let all = join_does(acts + more);
        if s is Over {
            assert(more =~= seq![]);
            assert(join_does(more) =~= seq![]);
            assert(all =~= done);
        } else {
            assert(join_steps(done) == done);
            assert(done.len() > 0 ==> join_step_is(done.len() - 1, done[done.len() - 1]));
            lemma_join_order(s, ev, now);
            let new = join_does(more);
            assert(all == done + new);
            if new == seq![JoinAction::Decline] || new == seq![JoinAction::Fail] {
                assert(all.drop_last() =~= done);
                assert(all.last() == new[0]);
            } else {
                assert forall|k: int| 0 <= k < all.len() implies join_step_is(
                    k,
                    #[trigger] all[k],
                ) by {
                    if k >= done.len() {
                        assert(all[k] == new[k - done.len()]);
                    } else {
                        assert(all[k] == done[k]);
                    }
                }
                assert(all.len() > 0 ==> join_step_is(all.len() - 1, all[all.len() - 1]));
            }
        }
    }
}

/// A joiner that meets with nothing but success moves the conversation. It waits for an
/// acknowledgement exactly where one was promised; the peer's last write is answered with our
/// release at once; and the peer's release, or the end of the time for it, brings the swap.
pub proof fn law_joiner_goes_through(now: u64, deadline: u64, we_released: bool)
    requires
        now + SAFE_TO_CLOSE_WAIT <= u64::MAX,
    ensures
        ({
            let leaves = seq![
                JoinAction::SendLastWrite,
                JoinAction::ReadOld { within: SAFE_TO_CLOSE_WAIT },
            ];
            let left = Joining::Releasing {
                deadline: (now + SAFE_TO_CLOSE_WAIT) as u64,
                we_released: false,
            };
            let unasked = (Joining::Start { ack_promised: false }).after(
                JoinEvent::Acquired(true),
                now,
            );
            let asked = (Joining::Start { ack_promised: true }).after(
                JoinEvent::Acquired(true),
                now,
            );
            let heard = asked.0.after(JoinEvent::Acknowledged(Some(true)), now);
            &&& unasked == (left, seq![JoinAction::Introduce] + leaves)
            &&& asked.1 == seq![
                JoinAction::Introduce,
                JoinAction::ReadAcknowledgement { within: INTRODUCTION_ACK_WAIT },
            ]
            &&& heard == (left, leaves)
        }),
        ({
            let waits = Joining::Releasing { deadline, we_released };
            let owed = if we_released {
                seq![]
            } else {
                seq![JoinAction::SendSafeToClose]
            };
            let ends = owed + seq![JoinAction::Swap];
            let again = seq![JoinAction::ReadOld { within: (deadline - now) as u64 }];
            &&& waits.after(JoinEvent::Old(Some(OldFrame::SafeToClose)), now).1 == ends
            &&& waits.after(JoinEvent::Old(None), now).1 == ends
            &&& forall|f: OldFrame|
                now > deadline ==> (#[trigger] waits.after(JoinEvent::Old(Some(f)), now)).1
                    == ends
            &&& now <= deadline ==> waits.after(JoinEvent::Old(Some(OldFrame::LastWrite)), now)
                == (Joining::Releasing { deadline, we_released: true }, owed + again)
            &&& forall|plain: Vec<u8>|
                now <= deadline ==> #[trigger] waits.after(
                    JoinEvent::Old(Some(OldFrame::Other(plain))),
                    now,
                ) == (waits, again)
        }),
{
    let unasked = (Joining::Start { ack_promised: false }).after(JoinEvent::Acquired(true), now);
    let asked = (Joining::Start { ack_promised: true }).after(JoinEvent::Acquired(true), now);
    let heard = asked.0.after(JoinEvent::Acknowledged(Some(true)), now);
    let leaves = seq![
        JoinAction::SendLastWrite,
        JoinAction::ReadOld { within: SAFE_TO_CLOSE_WAIT },
    ];
    assert(heard.1 =~= leaves);
    assert(unasked.1 =~= seq![JoinAction::Introduce] + leaves);
    let waits = Joining::Releasing { deadline, we_released };
    let owed = if we_released {
        seq![]
    } else {
        seq![JoinAction::SendSafeToClose]
    };
    let ends = owed + seq![JoinAction::Swap];
    let over = Joining::released(we_released).1;
    assert(over =~= ends);
    assert(seq![JoinAction::SendSafeToClose] + seq![JoinAction::Swap] =~= seq![
        JoinAction::SendSafeToClose,
        JoinAction::Swap,
    ]);
    assert(Joining::released(true).1 =~= seq![JoinAction::Swap]);
    assert(owed + Joining::released(true).1 =~= ends);
}

} // verus!
