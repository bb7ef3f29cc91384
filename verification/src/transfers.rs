//! The one transfer that can be in flight, across both protocols, and the answers people and
//! clients give about it.
//!
//! AirDrop and Quick Share share the device: the radio, the file store and the prompt. So
//! there is a single slot, and a request that finds it taken is turned away as busy.

use vstd::prelude::*;
use crate::clock;
use crate::connection::WifiGroup;
use crate::text;

verus! {

/// A claimed slot with no activity for this long is presumed dead and may be reclaimed.
pub const STALE_TRANSFER: u64 = 180_000;

/// How long Quick Share waits for AirDrop to be done with the radio, and how often it looks.
pub const RADIO_WAIT: u64 = 15_000;

pub const RADIO_LOOK: u64 = 200;

/// How long the link is given to come down, how often that is looked at, and
/// how long the teardown then takes.
pub const RELEASE_WAIT: u64 = 3_000;

pub const RELEASE_LOOK: u64 = 100;

pub const TEARDOWN: u64 = 1_000;

/// How often a waiter looks up, so that a cancel is noticed.
pub const WAKE: u64 = 500;

/// The state of the slot. `S` is the socket a client hands over for a bandwidth upgrade.
pub struct TransferState<S> {
    /// The answer to the offer on screen, once a person gives one.
    pub decision: Option<(i64, bool)>,
    /// The transfer in flight, 0 when idle.
    pub current: i64,
    pub cancelled: i64,
    /// The last id that was given out.
    pub next: i64,
    /// The real confirmation PIN, and the transfer it belongs to.
    pub pin: Option<(i64, String)>,
    /// The transfer whose PIN somebody typed correctly.
    pub pin_ok: Option<i64>,
    /// A client's answer to a request for a faster socket. No socket is a refusal.
    pub upgrade: Option<(i64, Option<S>)>,
    /// A client's answer to a request for a Wi-Fi Direct group. No group is a refusal.
    pub group: Option<(i64, Option<WifiGroup>)>,
    /// The transfer a group request is outstanding for, or 0.
    pub group_wanted: i64,
    /// Whether the transfer in flight rides the AWDL link: AirDrop does.
    pub needs_awdl: bool,
    /// Whether a Wi-Fi Direct group holds the link down: the chip runs one or the other.
    pub wifi_direct_active: bool,
    /// The AirDrop transfer that is active or waiting to be accepted, or 0.
    pub airdrop_pending: i64,
    /// When the current transfer last showed activity.
    pub last_activity: Option<u64>,
    /// The transfer in flight, if it is an offer that came in over AirDrop, or 0.
    pub offer: i64,
    /// That offer, once it was said yes to, or 0.
    pub accepted: i64,
}

/// What became of an attempt to take the radio for a Wi-Fi Direct group.
#[derive(Debug, Clone, Copy, PartialEq, Eq, Structural)]
pub enum Arm {
    /// It is held already.
    Held,
    /// It was taken just now, and the link has to come down first.
    Taken,
    /// AirDrop has it: look again.
    Wait,
    /// AirDrop has it and does not let go: present the device as busy.
    Refused,
}

/// What a waiter finds when it looks: an outcome, or how long it may sleep.
pub enum Poll<T> {
    Done(T),
    Wait(u64),
}

/// How long a waiter sleeps, given when it gives up.
pub open spec fn pause(deadline: u64, now: u64) -> Option<u64> {
    if now > deadline {
        None
    } else if deadline - now < WAKE {
        Some((deadline - now) as u64)
    } else {
        Some(WAKE)
    }
}

fn nap(deadline: u64, now: u64) -> (r: Option<u64>)
    ensures
        r == pause(deadline, now),
{
    match clock::left(deadline, now) {
        None => None,
        Some(l) => if l < WAKE {
            Some(l)
        } else {
            Some(WAKE)
        },
    }
}

impl<S> TransferState<S> {
    /// Ids are given out upwards from one, and those in use were given out. An offer is the
    /// transfer in flight, and only an offer is accepted.
    pub open spec fn wf(self) -> bool {
        &&& 0 <= self.current <= self.next
        &&& 0 <= self.airdrop_pending <= self.next
        &&& self.offer == 0 || self.offer == self.current
        &&& self.accepted == 0 || self.accepted == self.offer
    }

    /// Whether this is an offer over AirDrop that was said yes to.
    pub open spec fn offer_accepted(self, id: i64) -> bool {
        id != 0 && self.offer == id && self.accepted == id
    }

    /// The transfer in flight, if it is an offer that was accepted.
    pub open spec fn accepted_now(&self) -> i64 {
        if self.offer_accepted(self.current) {
            self.current
        } else {
            0
        }
    }

    /// After a yes was given to a transfer. It counts as one to an offer only if that is what
    /// the transfer is.
    pub open spec fn agreed(self, id: i64) -> Self {
        TransferState {
            accepted: if id != 0 && self.offer == id {
                id
            } else {
                self.accepted
            },
            ..self
        }
    }

    pub open spec fn stale(self, now: u64) -> bool {
        self.last_activity matches Some(t) && clock::since(now, t) > STALE_TRANSFER
    }

    /// After the end of a transfer.
    pub open spec fn finished(self, id: i64) -> Self {
        TransferState {
            current: if self.current == id {
                0
            } else {
                self.current
            },
            airdrop_pending: if self.airdrop_pending == id {
                0
            } else {
                self.airdrop_pending
            },
            upgrade: if self.upgrade is Some && self.upgrade->Some_0.0 == id {
                None
            } else {
                self.upgrade
            },
            wifi_direct_active: self.wifi_direct_active && self.outlives(id),
            last_activity: if self.outlives(id) {
                self.last_activity
            } else {
                None
            },
            offer: if self.offer == id {
                0
            } else {
                self.offer
            },
            accepted: if self.accepted == id {
                0
            } else {
                self.accepted
            },
            ..self
        }
    }

    /// Whether another transfer is in flight, which the end of this one leaves alone.
    pub open spec fn outlives(self, id: i64) -> bool {
        self.current != 0 && self.current != id
    }

    /// Whether a request finds the slot taken by a live transfer.
    pub open spec fn busy(self, now: u64) -> bool {
        self.current != 0 && !self.stale(now)
    }

    /// After the slot was claimed.
    pub open spec fn begun(self, needs_awdl: bool, now: u64) -> Self {
        let free = if self.current != 0 {
            self.finished(self.current)
        } else {
            self
        };
        let id = (self.next + 1) as i64;
        TransferState {
            next: id,
            current: id,
            needs_awdl,
            airdrop_pending: if needs_awdl {
                id
            } else {
                free.airdrop_pending
            },
            last_activity: Some(now),
            offer: 0,
            accepted: 0,
            ..free
        }
    }

    /// After the slot was claimed for an offer that came in over AirDrop.
    pub open spec fn offered(self, now: u64) -> Self {
        TransferState { offer: (self.next + 1) as i64, ..self.begun(true, now) }
    }

    pub fn new() -> (r: Self)
        ensures
            r.wf(),
            r.current == 0,
            r.next == 0,
            r.cancelled == 0,
            r.airdrop_pending == 0,
            r.group_wanted == 0,
            r.decision is None,
            r.pin is None,
            r.pin_ok is None,
            r.upgrade is None,
            r.group is None,
            !r.needs_awdl,
            !r.wifi_direct_active,
            r.last_activity is None,
            r.offer == 0,
            r.accepted == 0,
    {
        TransferState {
            decision: None,
            current: 0,
            cancelled: 0,
            next: 0,
            pin: None,
            pin_ok: None,
            upgrade: None,
            group: None,
            group_wanted: 0,
            needs_awdl: false,
            wifi_direct_active: false,
            airdrop_pending: 0,
            last_activity: None,
            offer: 0,
            accepted: 0,
        }
    }

    /// Claim the slot, exclusively. `None` while a live transfer has it, of either protocol. A
    /// slot whose transfer went stale, hung or closed without an end, is reclaimed.
    pub fn try_begin(&mut self, needs_awdl: bool, now: u64) -> (r: Option<i64>)
        requires
            old(self).wf(),
            old(self).next < i64::MAX,
        ensures
            final(self).wf(),
            old(self).busy(now) ==> r is None && *final(self) == *old(self),
            !old(self).busy(now) ==> r == Some((old(self).next + 1) as i64) && *final(self)
                == old(self).begun(needs_awdl, now),
    {
        let cur: i64 = self.current;
        if cur != 0 {
            if !self.is_stale(now) {
                return None;
            }
            self.finish(cur);
        }
        let id: i64 = self.next + 1;
        self.next = id;
        self.current = id;
        self.needs_awdl = needs_awdl;
        if needs_awdl {
            self.airdrop_pending = id;
        }
        self.offer = 0;
        self.accepted = 0;
        self.touch(now);
        Some(id)
    }

    /// Claim the slot for an offer that came in over AirDrop. Nobody has said yes to it.
    pub fn try_offer(&mut self, now: u64) -> (r: Option<i64>)
        requires
            old(self).wf(),
            old(self).next < i64::MAX,
        ensures
            final(self).wf(),
            old(self).busy(now) ==> r is None && *final(self) == *old(self),
            !old(self).busy(now) ==> r == Some((old(self).next + 1) as i64) && *final(self)
                == old(self).offered(now),
    {
        match self.try_begin(true, now) {
            Some(id) => {
                self.offer = id;
                Some(id)
            },
            None => None,
        }
    }

    /// The offer over AirDrop that was said yes to and is still the transfer in flight, or 0.
    #[verifier::when_used_as_spec(accepted_now)]
    pub fn accepted_offer(&self) -> (r: i64)
        ensures
            r == self.accepted_now(),
    {
        if self.current != 0 && self.offer == self.current && self.accepted == self.current {
            self.current
        } else {
            0
        }
    }

    pub open spec fn touched(self, now: u64) -> Self {
        TransferState { last_activity: Some(now), ..self }
    }

    /// Mark the current transfer as active now.
    pub fn touch(&mut self, now: u64)
        ensures
            *final(self) == old(self).touched(now),
    {
        self.last_activity = Some(now);
    }

    /// Whether the claimed transfer has shown no activity for too long.
    pub fn is_stale(&self, now: u64) -> (r: bool)
        ensures
            r == self.stale(now),
    {
        match self.last_activity {
            Some(t) => clock::elapsed(now, t) > STALE_TRANSFER,
            None => false,
        }
    }

    /// Whether a transfer that needs the AWDL link is in flight.
    pub fn current_needs_awdl(&self) -> (r: bool)
        ensures
            r == (self.current != 0 && self.needs_awdl),
    {
        self.current != 0 && self.needs_awdl
    }

    /// Whether AirDrop owns the radio: a transfer is active or waiting to be accepted.
    pub fn airdrop_busy(&self) -> (r: bool)
        ensures
            r == (self.airdrop_pending != 0),
    {
        self.airdrop_pending != 0
    }

    pub fn wifi_direct_active(&self) -> (r: bool)
        ensures
            r == self.wifi_direct_active,
    {
        self.wifi_direct_active
    }

    /// What an attempt to take the radio leads to. `since` is when the attempt began, and
    /// nothing at its first look.
    pub open spec fn arming(self, since: Option<u64>, now: u64) -> Arm {
        if since is None && self.wifi_direct_active {
            Arm::Held
        } else if self.airdrop_pending != 0 {
            if since is Some && now >= since->0 + RADIO_WAIT {
                Arm::Refused
            } else {
                Arm::Wait
            }
        } else if self.wifi_direct_active {
            Arm::Held
        } else {
            Arm::Taken
        }
    }

    /// After an attempt to take the radio.
    pub open spec fn armed(self, since: Option<u64>, now: u64) -> Self {
        TransferState {
            wifi_direct_active: self.wifi_direct_active || self.arming(since, now) is Taken,
            ..self
        }
    }

    /// Take the radio for a Wi-Fi Direct group. AirDrop has priority: the link is never taken
    /// down under a transfer, nor under an offer that waits to be accepted.
    pub fn arm_wifi_direct(&mut self, since: Option<u64>, now: u64) -> (r: Arm)
        ensures
            r == old(self).arming(since, now),
            *final(self) == old(self).armed(since, now),
    {
        if since.is_none() && self.wifi_direct_active {
            return Arm::Held;
        }
        if self.airdrop_busy() {
            match since {
                Some(t) => {
                    if now >= t && now - t >= RADIO_WAIT {
                        return Arm::Refused;
                    }
                },
                None => {},
            }
            return Arm::Wait;
        }
        if self.wifi_direct_active {
            Arm::Held
        } else {
            self.wifi_direct_active = true;
            Arm::Taken
        }
    }

    pub fn current(&self) -> (r: i64)
        ensures
            r == self.current,
    {
        self.current
    }

    /// The end of a transfer, however it ended: the slot is free, its claims on the radio are
    /// gone, and so are the consent to it and an answer that came too late for it. A transfer
    /// that has taken its place keeps what is its own.
    pub fn finish(&mut self, id: i64)
        ensures
            *final(self) == old(self).finished(id),
            old(self).wf() ==> final(self).wf(),
    {
        if self.current == 0 || self.current == id {
            self.wifi_direct_active = false;
            self.last_activity = None;
        }
        if self.current == id {
            self.current = 0;
        }
        if self.airdrop_pending == id {
            self.airdrop_pending = 0;
        }
        if self.offer == id {
            self.offer = 0;
        }
        if self.accepted == id {
            self.accepted = 0;
        }
        self.clear_upgrade(id);
    }

    /// After a transfer was cancelled.
    pub open spec fn told_to_stop(self, id: i64) -> Self {
        TransferState { cancelled: id, ..self }
    }

    /// Cancel by id rather than whatever is running: a stale tap must not stop the next one.
    pub fn cancel(&mut self, id: i64)
        ensures
            *final(self) == old(self).told_to_stop(id),
    {
        self.cancelled = id;
    }

    pub open spec fn stopped(self, id: i64) -> bool {
        id != 0 && self.cancelled == id
    }

    pub fn is_cancelled(&self, id: i64) -> (r: bool)
        ensures
            r == self.stopped(id),
    {
        id != 0 && self.cancelled == id
    }

    // ---------------------------------------------------------------- the PIN ---

    pub open spec fn pinned(self, id: i64, pin: String) -> Self {
        TransferState { pin: Some((id, pin)), ..self }
    }

    /// Park the real PIN of a transfer.
    pub fn set_pin(&mut self, id: i64, pin: String)
        ensures
            *final(self) == old(self).pinned(id, pin),
    {
        self.pin = Some((id, pin));
    }

    pub open spec fn pin_is(self, id: i64, typed: Seq<char>) -> bool {
        self.pin matches Some(p) && p.0 == id && p.1@ == typed
    }

    /// After somebody typed a PIN.
    pub open spec fn typed(self, id: i64, typed: Seq<char>) -> Self {
        if self.pin_is(id, typed) {
            TransferState { pin_ok: Some(id), ..self }
        } else {
            self
        }
    }

    /// Check what somebody typed. A mismatch clears nothing: mistyping is ordinary.
    pub fn confirm_pin(&mut self, id: i64, typed: &str) -> (r: bool)
        ensures
            r == old(self).pin_is(id, typed@),
            *final(self) == old(self).typed(id, typed@),
    {
        let matched: bool = match &self.pin {
            Some(p) => p.0 == id && text::same(p.1.as_str(), typed),
            None => false,
        };
        if matched {
            self.pin_ok = Some(id);
        }
        matched
    }

    pub open spec fn pin_found(self, id: i64, deadline: u64, now: u64) -> Poll<bool> {
        if self.pin_ok == Some(id) {
            Poll::Done(true)
        } else if self.stopped(id) {
            Poll::Done(false)
        } else {
            match pause(deadline, now) {
                Some(p) => Poll::Wait(p),
                None => Poll::Done(false),
            }
        }
    }

    /// After a look for a confirmation: it is used up.
    pub open spec fn pin_looked(self, id: i64) -> Self {
        if self.pin_ok == Some(id) {
            TransferState { pin_ok: None, ..self }
        } else {
            self
        }
    }

    /// One look of a waiter for the right digits: they came, the transfer was cancelled, or
    /// the wait ran out. A confirmation counts once.
    pub fn await_pin(&mut self, id: i64, deadline: u64, now: u64) -> (r: Poll<bool>)
        ensures
            r == old(self).pin_found(id, deadline, now),
            *final(self) == old(self).pin_looked(id),
    {
        let ok: bool = match self.pin_ok {
            Some(p) => p == id,
            None => false,
        };
        if ok {
            self.pin_ok = None;
            return Poll::Done(true);
        }
        if self.is_cancelled(id) {
            return Poll::Done(false);
        }
        match nap(deadline, now) {
            Some(p) => Poll::Wait(p),
            None => Poll::Done(false),
        }
    }

    /// After a transfer's PIN was forgotten.
    pub open spec fn unpinned(self, id: i64) -> Self {
        TransferState {
            pin: if self.pin is Some && self.pin->Some_0.0 == id {
                None
            } else {
                self.pin
            },
            pin_ok: if self.pin_ok == Some(id) {
                None
            } else {
                self.pin_ok
            },
            ..self
        }
    }

    /// Forget a transfer's PIN and its confirmation.
    pub fn clear_pin(&mut self, id: i64)
        ensures
            *final(self) == old(self).unpinned(id),
    {
        let parked: bool = match &self.pin {
            Some(p) => p.0 == id,
            None => false,
        };
        if parked {
            self.pin = None;
        }
        let ok: bool = match self.pin_ok {
            Some(p) => p == id,
            None => false,
        };
        if ok {
            self.pin_ok = None;
        }
    }

    // -------------------------------------------------------------- the group ---

    /// After a client's answer to a request for a group.
    pub open spec fn group_given(self, id: i64, group: Option<WifiGroup>) -> Self {
        if self.group_wanted == id {
            TransferState { group: Some((id, group)), ..self }
        } else {
            self
        }
    }

    /// After a group request was opened.
    pub open spec fn group_asked(self, id: i64) -> Self {
        TransferState { group_wanted: id, ..self }
    }

    /// After it was closed.
    pub open spec fn group_unasked(self) -> Self {
        TransferState { group_wanted: 0, ..self }
    }

    /// After a look for a group: an answer to this transfer is used up.
    pub open spec fn group_looked(self, id: i64) -> Self {
        if self.group is Some && self.group->Some_0.0 == id {
            TransferState { group: None, ..self }
        } else {
            self
        }
    }

    /// A client's answer to a request for a group. One that nobody asked for is no answer.
    pub fn provide_group(&mut self, id: i64, group: Option<WifiGroup>)
        ensures
            *final(self) == old(self).group_given(id, group),
    {
        if self.group_wanted != id {
            return;
        }
        self.group = Some((id, group));
    }

    /// Open a group request, so that an answer will be taken.
    pub fn want_group(&mut self, id: i64)
        ensures
            *final(self) == old(self).group_asked(id),
    {
        self.group_wanted = id;
    }

    /// Close it, whatever the outcome.
    pub fn stop_wanting_group(&mut self)
        ensures
            *final(self) == old(self).group_unasked(),
    {
        self.group_wanted = 0;
    }

    pub open spec fn group_found(self, id: i64, deadline: u64, now: u64) -> Poll<
        Option<WifiGroup>,
    > {
        if self.group is Some && self.group->Some_0.0 == id {
            Poll::Done(self.group->Some_0.1)
        } else if self.stopped(id) {
            Poll::Done(None)
        } else {
            match pause(deadline, now) {
                Some(p) => Poll::Wait(p),
                None => Poll::Done(None),
            }
        }
    }

    /// One look of a waiter for a group. Only an answer to this transfer is taken.
    pub fn await_group(&mut self, id: i64, deadline: u64, now: u64) -> (r: Poll<Option<WifiGroup>>)
        ensures
            r == old(self).group_found(id, deadline, now),
            *final(self) == old(self).group_looked(id),
    {
        let ours: bool = match &self.group {
            Some(g) => g.0 == id,
            None => false,
        };
        if ours {
            let mut taken: Option<(i64, Option<WifiGroup>)> = None;
            std::mem::swap(&mut taken, &mut self.group);
            return match taken {
                Some(g) => Poll::Done(g.1),
                None => Poll::Done(None),
            };
        }
        if self.is_cancelled(id) {
            return Poll::Done(None);
        }
        match nap(deadline, now) {
            Some(p) => Poll::Wait(p),
            None => Poll::Done(None),
        }
    }

    // ------------------------------------------------------------ the upgrade ---

    /// After a client's answer to a request for a socket.
    pub open spec fn upgrade_given(self, id: i64, sock: Option<S>) -> Self {
        TransferState { upgrade: Some((id, sock)), ..self }
    }

    /// After a look for a socket, or at the end of a transfer: an answer to it is gone.
    pub open spec fn upgrade_gone(self, id: i64) -> Self {
        if self.upgrade is Some && self.upgrade->Some_0.0 == id {
            TransferState { upgrade: None, ..self }
        } else {
            self
        }
    }

    /// A client's answer to a request for a faster socket.
    pub fn provide_upgrade(&mut self, id: i64, sock: Option<S>)
        ensures
            *final(self) == old(self).upgrade_given(id, sock),
    {
        self.upgrade = Some((id, sock));
    }

    pub open spec fn upgrade_found(self, id: i64, deadline: u64, now: u64) -> Poll<Option<S>> {
        if self.upgrade is Some && self.upgrade->Some_0.0 == id {
            Poll::Done(self.upgrade->Some_0.1)
        } else if self.stopped(id) {
            Poll::Done(None)
        } else {
            match pause(deadline, now) {
                Some(p) => Poll::Wait(p),
                None => Poll::Done(None),
            }
        }
    }

    /// One look of a waiter for a socket. No socket covers every way of not getting one:
    /// declined, cancelled, or nobody answered.
    pub fn await_upgrade(&mut self, id: i64, deadline: u64, now: u64) -> (r: Poll<Option<S>>)
        ensures
            r == old(self).upgrade_found(id, deadline, now),
            *final(self) == old(self).upgrade_gone(id),
    {
        let ours: bool = match &self.upgrade {
            Some(u) => u.0 == id,
            None => false,
        };
        if ours {
            let mut taken: Option<(i64, Option<S>)> = None;
            std::mem::swap(&mut taken, &mut self.upgrade);
            return match taken {
                Some(u) => Poll::Done(u.1),
                None => Poll::Done(None),
            };
        }
        if self.is_cancelled(id) {
            return Poll::Done(None);
        }
        match nap(deadline, now) {
            Some(p) => Poll::Wait(p),
            None => Poll::Done(None),
        }
    }

    /// Drop a parked answer of a transfer that ends.
    pub fn clear_upgrade(&mut self, id: i64)
        ensures
            *final(self) == old(self).upgrade_gone(id),
    {
        let ours: bool = match &self.upgrade {
            Some(u) => u.0 == id,
            None => false,
        };
        if ours {
            self.upgrade = None;
        }
    }

    // ------------------------------------------------------------- the answer ---

    /// After a person's answer to an offer.
    pub open spec fn answered(self, id: i64, accept: bool) -> Self {
        TransferState { decision: Some((id, accept)), ..self }
    }

    /// A person's answer to an offer.
    pub fn answer(&mut self, id: i64, accept: bool)
        ensures
            *final(self) == old(self).answered(id, accept),
    {
        self.decision = Some((id, accept));
    }

    /// Put a yes to a transfer on record.
    pub fn agree(&mut self, id: i64)
        ensures
            *final(self) == old(self).agreed(id),
            old(self).wf() ==> final(self).wf(),
    {
        if id != 0 && self.offer == id {
            self.accepted = id;
        }
    }

    pub open spec fn answer_found(self, id: i64, deadline: u64, now: u64) -> Poll<Option<bool>> {
        if self.decision is Some && self.decision->Some_0.0 == id {
            Poll::Done(Some(self.decision->Some_0.1))
        } else {
            match clock::until(deadline as int, now) {
                Some(d) => Poll::Wait(d as u64),
                None => Poll::Done(None),
            }
        }
    }

    /// After a look for an answer: it is used up, and a yes is put on record.
    pub open spec fn looked(self, id: i64) -> Self {
        let used = TransferState { decision: None, ..self };
        if self.decision == Some((id, true)) {
            used.agreed(id)
        } else {
            used
        }
    }

    /// One look of a waiter for an answer. No answer is a refusal, and an answer to another
    /// offer is dropped rather than let stand in for this one.
    pub fn await_answer(&mut self, id: i64, deadline: u64, now: u64) -> (r: Poll<Option<bool>>)
        ensures
            r == old(self).answer_found(id, deadline, now),
            *final(self) == old(self).looked(id),
            old(self).wf() ==> final(self).wf(),
    {
        let found = self.decision;
        self.decision = None;
        match found {
            Some(d) => {
                if d.0 == id {
                    if d.1 {
                        self.agree(id);
                    }
                    return Poll::Done(Some(d.1));
                }
            },
            None => {},
        }
        match clock::left(deadline, now) {
            Some(d) => Poll::Wait(d),
            None => Poll::Done(None),
        }
    }
}

pub open spec fn released(prop: Option<String>) -> bool {
    match prop {
        Some(v) => text::trim_text(v@) == "0"@,
        None => true,
    }
}

/// Whether the link was let go, as far as the property says. Absent counts: then it was
/// never up.
pub fn link_released(prop: &Option<String>) -> (r: bool)
    ensures
        r == released(*prop),
{
    match prop {
        Some(v) => text::same(text::trim(v.as_str()).as_str(), "0"),
        None => true,
    }
}

// ------------------------------------------------------------------------ laws ---

/// One transfer at a time: once a slot is claimed, no other claim succeeds until the transfer
/// ends or shows no activity for too long, whatever the protocol.
pub proof fn law_one_at_a_time<S>(t: TransferState<S>, needs_awdl: bool, now: u64, later: u64)
    requires
        t.wf(),
        t.next < i64::MAX,
        !t.busy(now),
    ensures
        t.begun(needs_awdl, now).wf(),
        t.begun(needs_awdl, now).busy(later) <==> clock::since(later, now) <= STALE_TRANSFER,
        !t.begun(needs_awdl, now).finished(t.begun(needs_awdl, now).current).busy(later),
{
}

/// Ids never repeat: a new transfer's is larger than every one given out before, so neither a
/// cancel nor an end that comes late for an older transfer touches it: not its place, not its
/// hold on the radio, not its clock.
pub proof fn law_late_words_touch_nothing<S>(
    t: TransferState<S>,
    needs_awdl: bool,
    now: u64,
    old_id: i64,
)
    requires
        t.wf(),
        t.next < i64::MAX,
        0 <= old_id <= t.next,
    ensures
        ({
            let new = t.begun(needs_awdl, now);
            &&& old_id < new.current
            &&& !(TransferState { cancelled: old_id, ..new }).stopped(new.current)
            &&& new.finished(old_id).current == new.current
            &&& needs_awdl ==> new.finished(old_id).airdrop_pending == new.current
            &&& new.finished(old_id).last_activity == Some(now)
            &&& (TransferState { wifi_direct_active: true, ..new }).finished(
                old_id,
            ).wifi_direct_active
        }),
{
}

/// The hold on the radio, the clock and the consent of the transfer in flight last until its
/// own end: the end of another changes none of them, and its own takes all of them away.
pub proof fn law_a_transfer_keeps_its_own<S>(t: TransferState<S>, other: i64)
    requires
        t.wf(),
        t.current != 0,
        other != t.current,
    ensures
        t.finished(other).current == t.current,
        t.finished(other).wifi_direct_active == t.wifi_direct_active,
        t.finished(other).last_activity == t.last_activity,
        t.finished(other).accepted_offer() == t.accepted_offer(),
        !t.finished(t.current).wifi_direct_active,
        t.finished(t.current).last_activity is None,
        t.finished(t.current).accepted_offer() == 0,
{
}

/// An offer counts as accepted only once somebody said yes to that very offer: a claim of the
/// slot, whatever for, begins without consent, no end gives any, and a look for an answer
/// gives it only where the answer was yes. A yes to what is no offer gives none.
pub proof fn law_consent_is_given<S>(
    t: TransferState<S>,
    needs_awdl: bool,
    id: i64,
    other: i64,
    now: u64,
)
    requires
        t.wf(),
        t.next < i64::MAX,
    ensures
        !t.begun(needs_awdl, now).offer_accepted(id),
        !t.offered(now).offer_accepted(id),
        t.begun(needs_awdl, now).agreed(id).accepted_offer() == 0,
        t.offered(now).agreed(id).accepted_offer() == (if id == t.offered(now).current {
            id
        } else {
            0
        }),
        t.finished(other).offer_accepted(id) ==> t.offer_accepted(id),
        t.agreed(other).offer_accepted(id) ==> t.offer_accepted(id) || other == id,
        t.looked(other).offer_accepted(id) ==> t.offer_accepted(id) || t.decision == Some(
            (id, true),
        ),
{
}

/// A transfer that died without an end does not block sharing for good.
pub proof fn law_a_dead_transfer_is_reclaimed<S>(
    t: TransferState<S>,
    needs_awdl: bool,
    then: u64,
    now: u64,
)
    requires
        t.last_activity == Some(then),
        clock::since(now, then) > STALE_TRANSFER,
    ensures
        !t.busy(now),
{
}

/// AirDrop keeps the radio: while one of its transfers is active or on offer, no attempt takes
/// the radio for a group; and a Quick Share transfer that comes and goes in the meantime
/// leaves AirDrop's claim as it was.
pub proof fn law_airdrop_keeps_the_radio<S>(
    t: TransferState<S>,
    since: Option<u64>,
    now: u64,
    other: i64,
)
    requires
        t.airdrop_pending != 0,
        other != t.airdrop_pending,
    ensures
        t.arming(since, now) !is Taken,
        t.finished(other).airdrop_pending == t.airdrop_pending,
        t.current == 0 ==> t.begun(false, now).airdrop_pending == t.airdrop_pending,
{
}

/// A waiter for the PIN is let through only by a confirmation of its own transfer, and what
/// was typed confirms a transfer only if it is that transfer's PIN. A confirmation is used up.
pub proof fn law_pin_is_typed_right<S>(
    t: TransferState<S>,
    id: i64,
    other: i64,
    typed: Seq<char>,
    deadline: u64,
    now: u64,
)
    ensures
        t.pin_found(id, deadline, now) == Poll::Done(true) <==> t.pin_ok == Some(id),
        t.pin_is(other, typed) && t.pin_ok != Some(id) ==> ((TransferState {
            pin_ok: Some(other),
            ..t
        }).pin_found(id, deadline, now) == Poll::Done(true) <==> id == other),
        (TransferState { pin_ok: None, ..t }).pin_found(id, deadline, now) != Poll::Done(true),
{
}

/// Nobody's silence is a yes: without an answer to this very offer, a waiter goes on waiting
/// or gives up, and an answer to another offer is used up by it.
pub proof fn law_silence_is_no<S>(t: TransferState<S>, id: i64, deadline: u64, now: u64)
    ensures
        t.answer_found(id, deadline, now) == Poll::Done(Some(true)) <==> t.decision == Some(
            (id, true),
        ),
        now > deadline && t.decision != Some((id, true)) && t.decision != Some((id, false))
            ==> t.answer_found(id, deadline, now) == Poll::<Option<bool>>::Done(None),
{
}

/// A waiter sleeps no longer than it may, and not beyond its deadline; it gives up exactly once
/// that has passed.
pub proof fn law_waiter_looks_up(deadline: u64, now: u64)
    ensures
        pause(deadline, now) is None <==> now > deadline,
        pause(deadline, now) matches Some(p) ==> p <= WAKE && now + p <= deadline && (p < WAKE
            ==> now + p == deadline),
{
}

/// A claim of the slot is the next id, and is what is in flight, active from now on: on the link
/// if it needs it, and an offer if it is one. What a person or a client said before stays where
/// it was, to be told from answers to this one by its id.
pub proof fn law_a_claim_is_new<S>(t: TransferState<S>, needs_awdl: bool, now: u64)
    requires
        t.wf(),
        t.next < i64::MAX,
    ensures
        ({
            let new = t.begun(needs_awdl, now);
            let offer = t.offered(now);
            &&& new.current == t.next + 1 && new.next == t.next + 1
            &&& new.needs_awdl == needs_awdl
            &&& needs_awdl ==> new.airdrop_pending == new.current
            &&& !needs_awdl ==> new.airdrop_pending != new.current
            &&& new.offer == 0
            &&& offer.current == t.next + 1 && offer.next == t.next + 1
            &&& offer.needs_awdl && offer.airdrop_pending == offer.current
            &&& offer.offer == offer.current
            &&& offer.last_activity == Some(now)
            &&& new.decision == t.decision && new.pin == t.pin && new.pin_ok == t.pin_ok
            &&& new.group == t.group && new.cancelled == t.cancelled
            &&& new.group_wanted == t.group_wanted
        }),
{
}

/// An end takes away what belongs to the transfer and nothing that belongs to another: the
/// claim of AirDrop, the consent and a parked socket go with the transfer whose they are.
pub proof fn law_an_end_takes_its_own<S>(t: TransferState<S>, id: i64)
    requires
        t.wf(),
        id != 0,
    ensures
        ({
            let over = t.finished(id);
            &&& over.current != id && over.airdrop_pending != id && over.offer != id
            &&& over.accepted != id
            &&& t.current != id ==> over.current == t.current
            &&& t.airdrop_pending != id ==> over.airdrop_pending == t.airdrop_pending
            &&& t.offer != id ==> over.offer == t.offer
            &&& t.accepted != id ==> over.accepted == t.accepted
            &&& t.upgrade matches Some(u) ==> over.upgrade == (if u.0 == id {
                None
            } else {
                t.upgrade
            })
            &&& t.upgrade is None ==> over.upgrade is None
            &&& over.decision == t.decision && over.pin == t.pin && over.pin_ok == t.pin_ok
            &&& over.group == t.group && over.cancelled == t.cancelled && over.next == t.next
            &&& over.group_wanted == t.group_wanted
        }),
{
}

/// The radio is taken exactly when nobody has it; it counts as held once a group has it; and
/// while AirDrop has it a group waits, for as long as it may and no longer. Nothing but the hold
/// changes, and no attempt loses it.
pub proof fn law_radio_is_shared<S>(t: TransferState<S>, since: Option<u64>, now: u64)
    ensures
        ({
            let arm = t.arming(since, now);
            let waited = since matches Some(s) && now >= s + RADIO_WAIT;
            &&& arm is Taken <==> t.airdrop_pending == 0 && !t.wifi_direct_active
            &&& arm is Held <==> t.wifi_direct_active && (t.airdrop_pending == 0 || since is None)
            &&& arm is Refused <==> t.airdrop_pending != 0 && waited
            &&& t.armed(since, now) == (TransferState {
                wifi_direct_active: t.wifi_direct_active || t.airdrop_pending == 0,
                ..t
            })
        }),
{
}

/// What a client provides reaches the transfer it is for and no other, once: a socket, or a group
/// while one is asked for. A refusal is an answer too.
pub proof fn law_answers_reach_their_transfer<S>(
    t: TransferState<S>,
    id: i64,
    other: i64,
    sock: Option<S>,
    group: Option<WifiGroup>,
    deadline: u64,
    now: u64,
)
    requires
        id != other,
    ensures
        t.upgrade_given(id, sock).upgrade_found(id, deadline, now) == Poll::Done(sock),
        t.group_asked(id).group_given(id, group).group_found(id, deadline, now) == Poll::Done(
            group,
        ),
        t.group_asked(other).group_given(id, group) == t.group_asked(other),
        id != 0 ==> t.group_unasked().group_given(id, group) == t.group_unasked(),
        ({
            let used = t.upgrade_given(id, sock).upgrade_gone(id);
            let looks = used.upgrade_found(id, deadline, now);
            &&& used.upgrade is None
            &&& looks is Done <==> now > deadline || (id != 0 && t.cancelled == id)
            &&& looks is Done ==> looks->Done_0 is None
        }),
        ({
            let used = t.group_asked(id).group_given(id, group).group_looked(id);
            let looks = used.group_found(id, deadline, now);
            &&& used.group is None
            &&& looks is Done <==> now > deadline || (id != 0 && t.cancelled == id)
            &&& looks is Done ==> looks->Done_0 is None
        }),
        ({
            let foreign = t.upgrade_given(other, sock);
            let looks = foreign.upgrade_found(id, deadline, now);
            &&& foreign.upgrade_gone(id) == foreign
            &&& looks is Done ==> looks->Done_0 is None
        }),
        ({
            let foreign = t.group_asked(other).group_given(other, group);
            let looks = foreign.group_found(id, deadline, now);
            &&& foreign.group_looked(id) == foreign
            &&& looks is Done ==> looks->Done_0 is None
        }),
{
}

/// A person's answer reaches the offer it is for, as it was given, and once; a yes is put on
/// record there and a no is not.
pub proof fn law_answer_reaches_the_offer<S>(
    t: TransferState<S>,
    id: i64,
    accept: bool,
    deadline: u64,
    now: u64,
)
    requires
        id != 0,
        t.wf(),
        t.current == id,
        t.offer == id,
        t.accepted == 0,
    ensures
        t.answered(id, accept).answer_found(id, deadline, now) == Poll::Done(Some(accept)),
        t.answered(id, accept).looked(id).accepted_offer() == (if accept {
            id
        } else {
            0
        }),
        t.answered(id, accept).looked(id).decision is None,
        t.answered(id, accept).looked(id).current == id,
        ({
            let looks = (TransferState { decision: None, ..t }).answer_found(id, deadline, now);
            &&& looks is Done <==> now > deadline
            &&& now <= deadline ==> looks == Poll::<Option<bool>>::Wait((deadline - now) as u64)
        }),
{
}

/// A cancel stops the transfer it names, from then on, and no other; every waiter of that
/// transfer gives up, unless what it waits for has come.
pub proof fn law_cancel_stops_its_own<S>(
    t: TransferState<S>,
    id: i64,
    other: i64,
    deadline: u64,
    now: u64,
)
    requires
        id != 0,
        other != id,
    ensures
        t.told_to_stop(id).stopped(id),
        !t.told_to_stop(id).stopped(other),
        t.told_to_stop(id).current == t.current,
        t.pin_ok != Some(id) ==> t.told_to_stop(id).pin_found(id, deadline, now) == Poll::Done(
            false,
        ),
        t.group is None ==> t.told_to_stop(id).group_found(id, deadline, now) == Poll::<
            Option<WifiGroup>,
        >::Done(None),
        t.upgrade is None ==> t.told_to_stop(id).upgrade_found(id, deadline, now) == Poll::<
            Option<S>,
        >::Done(None),
        t.pin_ok is None && t.cancelled != other && now <= deadline ==> t.told_to_stop(
            id,
        ).pin_found(other, deadline, now) is Wait,
{
}

/// The right PIN lets its transfer through, however often it was mistyped before, and once; the
/// wrong one, or the right one of another transfer, does not. Forgotten, it is good for nothing.
pub proof fn law_right_pin_lets_through<S>(
    t: TransferState<S>,
    id: i64,
    pin: String,
    wrong: Seq<char>,
    deadline: u64,
    now: u64,
)
    requires
        wrong != pin@,
        t.pin_ok != Some(id),
    ensures
        ({
            let set = t.pinned(id, pin);
            let right = set.typed(id, wrong).typed(id, pin@);
            &&& set.pin_is(id, pin@)
            &&& !set.pin_is(id, wrong)
            &&& right.pin_found(id, deadline, now) == Poll::Done(true)
            &&& right.pin_looked(id).pin_found(id, deadline, now) != Poll::Done(true)
            &&& set.typed(id, wrong).pin_found(id, deadline, now) != Poll::Done(true)
            &&& set.typed(id, wrong).pin == set.pin
            &&& !set.unpinned(id).pin_is(id, pin@)
            &&& right.unpinned(id).pin_found(id, deadline, now) != Poll::Done(true)
            &&& forall|other: i64|
                #![trigger set.unpinned(other)]
                other != id ==> set.unpinned(other).pin_is(id, pin@)
        }),
{
}

/// A transfer that shows activity is not taken for dead before its time.
pub proof fn law_activity_keeps_the_slot<S>(t: TransferState<S>, then: u64, now: u64)
    requires
        t.current != 0,
    ensures
        t.touched(then).busy(now) <==> now <= then + STALE_TRANSFER,
        t.touched(then).current == t.current,
{
}

} // verus!
