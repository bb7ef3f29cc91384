//! Requests to send and to receive: which are turned away, what a transfer's end is called,
//! and what a client is asked along the way.

use vstd::prelude::*;
use crate::connection::{ServeOutcome, WifiGroup};
use crate::httpd;
use crate::httpd::{Content, Plan, Reply, Request, Route};
use crate::naming;
use crate::policy;
use crate::policy::Refusal;
use crate::send::Target;
use crate::text;
use crate::transfers::{Arm, TransferState};

verus! {

pub const STATUS_OK: i32 = 0;

pub const STATUS_FAILED: i32 = -1;

/// Somebody said no, which is a normal answer and not an error.
pub const STATUS_DECLINED: i32 = -2;

pub const STATUS_CANCELLED: i32 = -3;

/// How long a person is given to answer an offer.
pub const ANSWER_WAIT: u64 = 60_000;

/// How long a client is given to join a network.
pub const JOIN_WAIT: u64 = 30_000;

/// How long a client is given to stand up a group, and how often it is asked again.
pub const GROUP_WAIT: u64 = 30_000;

pub const GROUP_ASK_INTERVAL: u64 = 2_000;

/// How long a peer on the LAN is given to answer the phone.
pub const DIAL_WAIT: u64 = 5_000;

/// How long a peer that stops reading may hold up a write.
pub const WRITE_WAIT: u64 = 20_000;

// --------------------------------------------------------------- requests to send ---

/// Whether a request to send over AirDrop is granted, before the slot is asked for: the policy
/// permits it, each file has a name, the peer is known, and the files could be taken.
pub open spec fn airdrop_refusal(
    mode: i32,
    files: usize,
    names: usize,
    target: Option<Target>,
    taken: bool,
) -> Option<Refusal> {
    if !policy::may_send(mode) {
        Some(Refusal::PermissionDenied)
    } else if files != names || target is None || !taken {
        Some(Refusal::IllegalArgument)
    } else {
        None
    }
}

/// What comes of a request to send over AirDrop, and the slot afterwards.
pub open spec fn airdrop_begun<S>(
    t: TransferState<S>,
    refusal: Option<Refusal>,
    now: u64,
) -> (Result<i64, Refusal>, TransferState<S>) {
    match refusal {
        Some(why) => (Err(why), t),
        None => if t.busy(now) {
            (Err(Refusal::WouldBlock), t)
        } else {
            (Ok((t.next + 1) as i64), t.begun(true, now))
        },
    }
}

/// What comes of a request to send over Quick Share, and the slot afterwards.
pub open spec fn quickshare_begun<S>(
    t: TransferState<S>,
    refusal: Option<Refusal>,
    now: u64,
) -> (Result<i64, Refusal>, TransferState<S>) {
    match refusal {
        Some(why) => (Err(why), t),
        None => if t.busy(now) {
            (Err(Refusal::WouldBlock), t)
        } else {
            (Ok((t.next + 1) as i64), t.begun(false, now))
        },
    }
}

/// What comes of a request to receive, and the slot afterwards.
pub open spec fn receive_begun<S>(
    t: TransferState<S>,
    mode: i32,
    taken: bool,
    now: u64,
) -> (Result<i64, Refusal>, TransferState<S>) {
    if !policy::may_receive(mode) {
        (Err(Refusal::PermissionDenied), t)
    } else if !taken || t.busy(now) {
        (Ok(0), t)
    } else {
        (Ok((t.next + 1) as i64), t.begun(false, now))
    }
}

/// What comes of a connection over the LAN, and the slot afterwards.
pub open spec fn lan_begun<S>(
    t: TransferState<S>,
    dialled: bool,
    taken: bool,
    now: u64,
) -> (Result<i64, Refusal>, TransferState<S>) {
    if !dialled {
        (Ok(0), t)
    } else if !taken {
        (Err(Refusal::BadValue), t)
    } else if t.busy(now) {
        (Err(Refusal::WouldBlock), t)
    } else {
        (Ok((t.next + 1) as i64), t.begun(false, now))
    }
}

/// Begin to send over AirDrop. The transfer's id, or why not.
pub fn begin_airdrop<S>(
    t: &mut TransferState<S>,
    mode: i32,
    files: usize,
    names: usize,
    target: &Option<Target>,
    taken: bool,
    now: u64,
) -> (r: Result<i64, Refusal>)
    requires
        old(t).wf(),
        old(t).next < i64::MAX,
    ensures
        final(t).wf(),
        (r, *final(t)) == airdrop_begun(
            *old(t),
            airdrop_refusal(mode, files, names, *target, taken),
            now,
        ),
{
    if !policy::allows_send(mode) {
        return Err(Refusal::PermissionDenied);
    }
    if files != names || target.is_none() || !taken {
        return Err(Refusal::IllegalArgument);
    }
    match t.try_begin(true, now) {
        Some(id) => Ok(id),
        None => Err(Refusal::WouldBlock),
    }
}

/// The same for Quick Share, over a socket that a client has connected.
pub open spec fn quickshare_refusal(mode: i32, files: usize, names: usize, taken: bool) -> Option<
    Refusal,
> {
    if !policy::may_send(mode) {
        Some(Refusal::PermissionDenied)
    } else if files != names || !taken {
        Some(Refusal::BadValue)
    } else {
        None
    }
}

/// Begin to send over Quick Share.
pub fn begin_quickshare<S>(
    t: &mut TransferState<S>,
    mode: i32,
    files: usize,
    names: usize,
    taken: bool,
    now: u64,
) -> (r: Result<i64, Refusal>)
    requires
        old(t).wf(),
        old(t).next < i64::MAX,
    ensures
        final(t).wf(),
        (r, *final(t)) == quickshare_begun(
            *old(t),
            quickshare_refusal(mode, files, names, taken),
            now,
        ),
{
    if !policy::allows_send(mode) {
        return Err(Refusal::PermissionDenied);
    }
    if files != names || !taken {
        return Err(Refusal::BadValue);
    }
    match t.try_begin(false, now) {
        Some(id) => Ok(id),
        None => Err(Refusal::WouldBlock),
    }
}

pub open spec fn dialled(
    mode: i32,
    files: usize,
    names: usize,
    route: Option<([u8; 4], u16)>,
) -> Result<Option<([u8; 4], u16)>, Refusal> {
    match quickshare_refusal(mode, files, names, true) {
        Some(why) => Err(why),
        None => Ok(route),
    }
}

/// Where to dial a Quick Share peer on the LAN. No route is no error: a peer that was found
/// only over Bluetooth has none, and the caller uses Bluetooth.
pub fn lan_target(mode: i32, files: usize, names: usize, route: Option<([u8; 4], u16)>) -> (r:
    Result<Option<([u8; 4], u16)>, Refusal>)
    ensures
        r == dialled(mode, files, names, route),
{
    if !policy::allows_send(mode) {
        return Err(Refusal::PermissionDenied);
    }
    if files != names {
        return Err(Refusal::BadValue);
    }
    Ok(route)
}

/// Begin to send over the LAN, once a connection was tried. 0 tells the caller to use
/// Bluetooth.
pub fn begin_lan<S>(t: &mut TransferState<S>, dialled: bool, taken: bool, now: u64) -> (r: Result<
    i64,
    Refusal,
>)
    requires
        old(t).wf(),
        old(t).next < i64::MAX,
    ensures
        final(t).wf(),
        (r, *final(t)) == lan_begun(*old(t), dialled, taken, now),
{
    if !dialled {
        return Ok(0);
    }
    if !taken {
        return Err(Refusal::BadValue);
    }
    match t.try_begin(false, now) {
        Some(id) => Ok(id),
        None => Err(Refusal::WouldBlock),
    }
}

/// The mediums claimed on the LAN: Wi-Fi LAN (5) alone, since there is nothing faster to move
/// to from there.
pub fn lan_mediums() -> (r: Vec<u64>)
    ensures
        r@ == seq![5u64],
{
    let r: Vec<u64> = vec![5];
    assert(r@ =~= seq![5u64]);
    r
}

pub open spec fn offered_under(name: Seq<char>) -> Seq<char> {
    match httpd::safe_leaf_in(name) {
        Some(l) => l,
        None => "file"@,
    }
}

/// The name a file is offered under: a leaf, since a name from a client has no business
/// steering a path on the peer's disk either.
pub fn item_name(name: &str) -> (r: String)
    ensures
        r@ == offered_under(name@),
{
    match httpd::safe_leaf(name) {
        Some(l) => l,
        None => "file".to_owned(),
    }
}

// ------------------------------------------------------------ requests to receive ---

/// Begin to receive on a socket that a client has accepted. 0 where there is nothing to do:
/// the socket could not be taken, or another transfer is running.
pub fn begin_receive<S>(t: &mut TransferState<S>, mode: i32, taken: bool, now: u64) -> (r: Result<
    i64,
    Refusal,
>)
    requires
        old(t).wf(),
        old(t).next < i64::MAX,
    ensures
        final(t).wf(),
        (r, *final(t)) == receive_begun(*old(t), mode, taken, now),
{
    if !policy::allows_receive(mode) {
        return Err(Refusal::PermissionDenied);
    }
    if !taken {
        return Ok(0);
    }
    match t.try_begin(false, now) {
        Some(id) => Ok(id),
        None => Ok(0),
    }
}

/// What comes of an offer over AirDrop, and the slot afterwards.
pub open spec fn offer_begun<S>(t: TransferState<S>, now: u64) -> (
    Result<i64, Reply>,
    TransferState<S>,
) {
    if t.busy(now) {
        (Err(httpd::refused()), t)
    } else {
        (Ok((t.next + 1) as i64), t.offered(now))
    }
}

/// Register an offer that has come in over AirDrop. One transfer runs at a time: while another
/// does, the offer is refused and nobody is asked.
pub fn begin_offer<S>(t: &mut TransferState<S>, now: u64) -> (r: Result<i64, Reply>)
    requires
        old(t).wf(),
        old(t).next < i64::MAX,
    ensures
        final(t).wf(),
        (r, *final(t)) == offer_begun(*old(t), now),
{
    match t.try_offer(now) {
        Some(id) => Ok(id),
        None => Err(Reply { status: 401, content: Content::Nothing, keep_alive: false }),
    }
}

/// The answer to an offer that needs no person, and the slot afterwards.
pub open spec fn settling<S>(t: TransferState<S>, id: i64, auto_accept: bool) -> (
    Option<bool>,
    TransferState<S>,
) {
    if auto_accept {
        (Some(true), t.answered(id, true).agreed(id))
    } else {
        (None, t)
    }
}

/// The answer to an offer that needs no person, when the policy asks for no confirmation: the
/// question is skipped and the record is not.
pub fn settled<S>(t: &mut TransferState<S>, id: i64, auto_accept: bool) -> (r: Option<bool>)
    ensures
        (r, *final(t)) == settling(*old(t), id, auto_accept),
        old(t).wf() ==> final(t).wf(),
{
    if auto_accept {
        t.answer(id, true);
        t.agree(id);
        Some(true)
    } else {
        None
    }
}

/// Decide on a request whose body has been read, as the books stand: an upload is bound to the
/// offer that was said yes to.
pub fn decide<S>(t: &TransferState<S>, req: Request, desynced: bool, visible: bool) -> (r: Plan)
    ensures
        r == httpd::plan_for(req, desynced, visible, t.accepted_offer()),
        r is Receive ==> t.offer_accepted(t.current) && r == (Plan::Receive { id: t.current }),
{
    httpd::handle(req, desynced, visible, t.accepted_offer())
}

/// The Bluetooth address to advertise Quick Share under. Nothing when receiving is not
/// permitted, so that a device which would refuse is not found, nor for what is no address.
pub fn advertised_mac(mode: i32, mac: &str) -> (r: Option<[u8; 6]>)
    ensures
        match r {
            Some(m) => policy::may_receive(mode) && naming::mac_in(mac@) == Some(m@),
            None => !policy::may_receive(mode) || naming::mac_in(mac@) is None,
        },
{
    if !policy::allows_receive(mode) {
        return None;
    }
    naming::parse_mac(mac)
}

// ------------------------------------------------------------------------- endings ---

/// What went wrong while sending.
#[derive(Debug, Clone, Copy, PartialEq, Eq, Structural)]
pub enum Fault {
    /// The other device said no.
    Denied,
    ConnectionRefused,
    ConnectionReset,
    TimedOut,
    Other,
}

/// How an AirDrop send ended, and whether the peer is to be forgotten: one that cannot be
/// reached is no longer there.
#[derive(Debug, Clone, Copy, PartialEq, Eq, Structural)]
pub struct Ending {
    pub status: i32,
    pub forget: bool,
}

pub open spec fn airdrop_ended(fault: Option<Fault>) -> Ending {
    match fault {
        None => Ending { status: STATUS_OK, forget: false },
        Some(Fault::Denied) => Ending { status: STATUS_DECLINED, forget: false },
        Some(Fault::Other) => Ending { status: STATUS_FAILED, forget: false },
        Some(_) => Ending { status: STATUS_FAILED, forget: true },
    }
}

pub fn airdrop_ending(fault: Option<Fault>) -> (r: Ending)
    ensures
        r == airdrop_ended(fault),
{
    match fault {
        None => Ending { status: STATUS_OK, forget: false },
        Some(Fault::Denied) => Ending { status: STATUS_DECLINED, forget: false },
        Some(Fault::Other) => Ending { status: STATUS_FAILED, forget: false },
        Some(_) => Ending { status: STATUS_FAILED, forget: true },
    }
}

pub open spec fn sent_status(outcome: Option<bool>, cancelled: bool) -> i32 {
    match outcome {
        Some(true) => STATUS_OK,
        Some(false) => if cancelled {
            STATUS_FAILED
        } else {
            STATUS_DECLINED
        },
        None => STATUS_FAILED,
    }
}

/// How a Quick Share send ended: `None` is a fault, and `false` a send that did not happen.
/// A cancel of our own is not the peer declining.
pub fn report_outcome(outcome: Option<bool>, cancelled: bool) -> (r: i32)
    ensures
        r == sent_status(outcome, cancelled),
{
    match outcome {
        Some(true) => STATUS_OK,
        Some(false) => if cancelled {
            STATUS_FAILED
        } else {
            STATUS_DECLINED
        },
        None => STATUS_FAILED,
    }
}

pub open spec fn served_status(outcome: Option<ServeOutcome>) -> i32 {
    match outcome {
        Some(ServeOutcome::Received(names)) => if names@.len() > 0 {
            STATUS_OK
        } else {
            STATUS_DECLINED
        },
        Some(ServeOutcome::Cancelled) => STATUS_CANCELLED,
        None => STATUS_FAILED,
    }
}

/// How a Quick Share transfer that was served ended; `None` is a fault. Nothing received is
/// a refusal, which is an answer.
pub fn serve_status(outcome: &Option<ServeOutcome>) -> (r: i32)
    ensures
        r == served_status(*outcome),
{
    match outcome {
        Some(ServeOutcome::Received(names)) => if names.len() > 0 {
            STATUS_OK
        } else {
            STATUS_DECLINED
        },
        Some(ServeOutcome::Cancelled) => STATUS_CANCELLED,
        None => STATUS_FAILED,
    }
}

// ------------------------------------------------------------------ asking a person ---

/// What to do about an offer.
#[derive(Debug, Clone, Copy, PartialEq, Eq, Structural)]
pub enum Prompt {
    /// Asking was turned off deliberately.
    Accept,
    /// An offer nobody can see must not be accepted on the person's behalf.
    Refuse,
    Ask,
}

pub open spec fn prompted(auto_accept: bool, clients: usize) -> Prompt {
    if auto_accept {
        Prompt::Accept
    } else if clients == 0 {
        Prompt::Refuse
    } else {
        Prompt::Ask
    }
}

pub fn prompt(auto_accept: bool, clients: usize) -> (r: Prompt)
    ensures
        r == prompted(auto_accept, clients),
{
    if auto_accept {
        Prompt::Accept
    } else if clients == 0 {
        Prompt::Refuse
    } else {
        Prompt::Ask
    }
}

/// What an answer means. A silent timeout is a refusal.
pub fn accepted(answer: Option<bool>) -> (r: bool)
    ensures
        r == (answer == Some(true)),
{
    match answer {
        Some(a) => a,
        None => false,
    }
}

/// How much is offered: the sizes together, where one below zero counts for nothing.
pub open spec fn total_of(sizes: Seq<i64>) -> int
    decreases sizes.len(),
{
    if sizes.len() == 0 {
        0
    } else {
        total_of(sizes.drop_last()) + (if sizes.last() > 0 {
            sizes.last() as int
        } else {
            0
        })
    }
}

proof fn lemma_total_grows(sizes: Seq<i64>, n: int)
    requires
        0 <= n <= sizes.len(),
    ensures
        0 <= total_of(sizes.take(n)) <= total_of(sizes),
    decreases sizes.len(),
{
    if n == sizes.len() {
        assert(sizes.take(n) =~= sizes);
        if sizes.len() > 0 {
            lemma_total_grows(sizes.drop_last(), n - 1);
        }
    } else {
        lemma_total_grows(sizes.drop_last(), n);
        assert(sizes.drop_last().take(n) =~= sizes.take(n));
    }
}

/// The total of an offer. `None` where no number holds it.
pub fn offered_total(sizes: &Vec<i64>) -> (r: Option<i64>)
    ensures
        match r {
            Some(t) => t == total_of(sizes@),
            None => total_of(sizes@) > i64::MAX,
        },
{
    let mut sum: i64 = 0;
    let n: usize = sizes.len();
    let mut i: usize = 0;
    assert(sizes@.take(0) =~= seq![]);
    while i < n
        invariant
            n == sizes@.len(),
            i <= n,
            sum == total_of(sizes@.take(i as int)),
            sum >= 0,
        decreases n - i,
    {
        proof {
            assert(sizes@.take(i + 1).drop_last() =~= sizes@.take(i as int));
            assert(sizes@.take(i + 1).last() == sizes@[i as int]);
        }
        let s: i64 = sizes[i];
        if s > 0 {
            if sum > i64::MAX - s {
                proof {
                    lemma_total_grows(sizes@, i + 1);
                }
                return None;
            }
            sum = sum + s;
        }
        i = i + 1;
    }
    assert(sizes@.take(n as int) =~= sizes@);
    Some(sum)
}

/// The files a connection created. A cancel removes exactly those, whatever they were named.
pub struct Inflow {
    pub created: Vec<String>,
}

impl Inflow {
    pub fn new() -> (r: Self)
        ensures
            r.created@.len() == 0,
    {
        Inflow { created: Vec::new() }
    }

    pub fn note(&mut self, path: String)
        ensures
            final(self).created@ == old(self).created@.push(path),
    {
        self.created.push(path);
    }

    /// The files to remove, once.
    pub fn discard(&mut self) -> (r: Vec<String>)
        ensures
            r@ == old(self).created@,
            final(self).created@.len() == 0,
    {
        let mut out: Vec<String> = Vec::new();
        std::mem::swap(&mut out, &mut self.created);
        out
    }
}

// ------------------------------------------------------------------ asking a client ---

pub open spec fn group_may_form(arm: Arm) -> Option<bool> {
    match arm {
        Arm::Held => Some(true),
        Arm::Taken => Some(true),
        Arm::Refused => Some(false),
        Arm::Wait => None::<bool>,
    }
}

/// What an attempt to take the radio comes to: a group may be formed, may not, or it is too
/// early to say.
pub fn may_form_group(arm: Arm) -> (r: Option<bool>)
    ensures
        r == group_may_form(arm),
{
    match arm {
        Arm::Held => Some(true),
        Arm::Taken => Some(true),
        Arm::Refused => Some(false),
        Arm::Wait => None,
    }
}

/// What to do about a network a peer stood up for us.
#[derive(Debug, Clone, Copy, PartialEq, Eq, Structural)]
pub enum Joining {
    /// No client, no radio: stay where we are.
    StayPut,
    /// A Wi-Fi Direct group needs the radio first.
    TakeRadio,
    AskClients,
}

pub open spec fn joining(clients: usize, wifi_direct: bool) -> Joining {
    if clients == 0 {
        Joining::StayPut
    } else if wifi_direct {
        Joining::TakeRadio
    } else {
        Joining::AskClients
    }
}

pub fn join_network(clients: usize, wifi_direct: bool) -> (r: Joining)
    ensures
        r == joining(clients, wifi_direct),
{
    if clients == 0 {
        Joining::StayPut
    } else if wifi_direct {
        Joining::TakeRadio
    } else {
        Joining::AskClients
    }
}

pub open spec fn group_in(group: WifiGroup) -> Option<WifiGroup> {
    if group.ssid@.len() == 0 {
        None
    } else {
        Some(group)
    }
}

/// A client's answer to a request for a group. One without a network is a refusal.
pub fn answered_group(group: WifiGroup) -> (r: Option<WifiGroup>)
    ensures
        r == group_in(group),
{
    let c = text::chars_of(group.ssid.as_str());
    if c.len() == 0 {
        None
    } else {
        Some(group)
    }
}

/// What the request for a group does next.
pub enum GroupStep {
    /// Open the request, tell every client, and wait this long for an answer.
    Ask(u64),
    /// Close the request. The group, if there is one.
    Done(Option<WifiGroup>),
}

/// Ask for a group, repeatedly. The question reaches whoever is listening at that instant and
/// nobody else, and on an incoming transfer the one who answers starts a moment later; so it
/// is asked again until an answer lands or the time is up.
pub open spec fn group_step(deadline: u64, now: u64, answer: Option<WifiGroup>) -> GroupStep {
    match answer {
        Some(g) => GroupStep::Done(Some(g)),
        None => if now < deadline {
            GroupStep::Ask(GROUP_ASK_INTERVAL)
        } else {
            GroupStep::Done(None)
        },
    }
}

pub fn host_group(deadline: u64, now: u64, answer: Option<WifiGroup>) -> (r: GroupStep)
    ensures
        r == group_step(deadline, now, answer),
{
    match answer {
        Some(g) => GroupStep::Done(Some(g)),
        None => if now < deadline {
            GroupStep::Ask(GROUP_ASK_INTERVAL)
        } else {
            GroupStep::Done(None)
        },
    }
}

// ---------------------------------------------------------------------- the link ---

/// Whether the AWDL link is up, as the kernel says.
pub fn link_up(operstate: &Option<String>) -> (r: bool)
    ensures
        r == (*operstate matches Some(s) && text::trim_text(s@).len() > 0),
{
    match operstate {
        Some(s) => {
            let c = text::chars_of(text::trim(s.as_str()).as_str());
            c.len() > 0
        },
        None => false,
    }
}

/// The link's version, as far as the library that runs it tells.
pub fn link_version(told: Option<String>) -> (r: String)
    ensures
        r@ == (match told {
            Some(v) => v@,
            None => "unknown"@,
        }),
{
    match told {
        Some(v) => v,
        None => "unknown".to_owned(),
    }
}

// ------------------------------------------------------------------------------ laws ---

/// A request to send is turned away wherever the policy does not permit sending, whatever else
/// it asks for.
pub proof fn law_nothing_begins_against_the_policy(
    mode: i32,
    files: usize,
    names: usize,
    target: Option<Target>,
    taken: bool,
)
    requires
        !policy::may_send(mode),
    ensures
        airdrop_refusal(mode, files, names, target, taken) == Some(Refusal::PermissionDenied),
        quickshare_refusal(mode, files, names, taken) == Some(Refusal::PermissionDenied),
{
}

/// Nobody walks past the prompt: whatever is on the books, of whichever protocol, and whoever
/// asks, bytes are taken in only for the transfer in flight, and only if that is an offer which
/// was said yes to.
pub proof fn law_no_bytes_without_a_yes<S>(
    t: TransferState<S>,
    req: Request,
    desynced: bool,
    visible: bool,
)
    ensures
        httpd::plan_for(req, desynced, visible, t.accepted_offer()) is Receive
            ==> t.offer_accepted(t.current),
        httpd::plan_for(req, desynced, visible, t.accepted_offer()) is Receive
            ==> httpd::plan_for(req, desynced, visible, t.accepted_offer()) == (Plan::Receive {
            id: t.current,
        }),
{
}

/// A transfer that is no offer, and an offer that nobody said yes to, let no upload in: a slot
/// claimed for Quick Share or for sending, an offer on screen, and one that was declined, went
/// unanswered or is over.
pub proof fn law_no_upload_into_another_transfer<S>(
    t: TransferState<S>,
    needs_awdl: bool,
    now: u64,
    answer: Option<bool>,
    keep_alive: bool,
    req: Request,
    visible: bool,
)
    requires
        t.wf(),
        t.next < i64::MAX,
        answer != Some(true),
        req.route == Route::Upload,
    ensures
        httpd::plan_for(req, false, visible, t.begun(needs_awdl, now).accepted_offer())
            == Plan::Answer(httpd::refused()),
        httpd::plan_for(req, false, visible, t.offered(now).accepted_offer()) == Plan::Answer(
            httpd::refused(),
        ),
        httpd::asked(answer, keep_alive) == (httpd::refused(), true),
        ({
            let offered = t.offered(now);
            let over = offered.finished(offered.current);
            &&& over.current == 0
            &&& over.airdrop_pending == 0
            &&& httpd::plan_for(req, false, visible, over.accepted_offer()) == Plan::Answer(
                httpd::refused(),
            )
        }),
{
}

/// Consent does not evaporate: an upload under an offer that was said yes to is taken in,
/// whether the device is still visible or not.
pub proof fn law_an_accepted_upload_is_received<S>(
    t: TransferState<S>,
    now: u64,
    req: Request,
    visible: bool,
)
    requires
        t.wf(),
        t.next < i64::MAX,
        req.route == Route::Upload,
    ensures
        ({
            let offered = t.offered(now);
            httpd::plan_for(
                req,
                false,
                visible,
                offered.agreed(offered.current).accepted_offer(),
            ) == (Plan::Receive { id: offered.current })
        }),
{
}

/// A request to send is granted exactly when nothing speaks against it, and the answer says what
/// does: the policy, or else what was asked for.
pub proof fn law_refusals_have_a_reason(
    mode: i32,
    files: usize,
    names: usize,
    target: Option<Target>,
    taken: bool,
)
    ensures
        ({
            let a = airdrop_refusal(mode, files, names, target, taken);
            let q = quickshare_refusal(mode, files, names, taken);
            &&& a is None <==> policy::may_send(mode) && files == names && target is Some && taken
            &&& a == Some(Refusal::PermissionDenied) <==> !policy::may_send(mode)
            &&& a matches Some(why) ==> why == Refusal::PermissionDenied || why
                == Refusal::IllegalArgument
            &&& q is None <==> policy::may_send(mode) && files == names && taken
            &&& q == Some(Refusal::PermissionDenied) <==> !policy::may_send(mode)
            &&& q matches Some(why) ==> why == Refusal::PermissionDenied || why
                == Refusal::BadValue
        }),
{
}

/// Whoever gets an id has the slot, with that id and nobody else's, and AirDrop alone has the
/// link with it; whoever does not leaves the slot as it was. Only a slot in use turns a good
/// request away.
pub proof fn law_an_id_is_a_slot<S>(
    t: TransferState<S>,
    mode: i32,
    refusal: Option<Refusal>,
    dialled: bool,
    taken: bool,
    now: u64,
)
    requires
        t.wf(),
        t.next < i64::MAX,
        refusal != Some(Refusal::WouldBlock),
    ensures
        ({
            let (r, after) = airdrop_begun(t, refusal, now);
            &&& r is Ok <==> refusal is None && !t.busy(now)
            &&& r is Ok ==> r->Ok_0 > t.next && after.current == r->Ok_0
                && after.airdrop_pending == r->Ok_0 && after.needs_awdl
            &&& r is Err ==> after == t
            &&& r == Err::<i64, Refusal>(Refusal::WouldBlock) <==> refusal is None && t.busy(now)
            &&& refusal is Some ==> r == Err::<i64, Refusal>(refusal->0)
        }),
        ({
            let (r, after) = quickshare_begun(t, refusal, now);
            &&& r is Ok <==> refusal is None && !t.busy(now)
            &&& r is Ok ==> r->Ok_0 > t.next && after.current == r->Ok_0
                && after.airdrop_pending != r->Ok_0 && !after.needs_awdl
            &&& r is Err ==> after == t
            &&& r == Err::<i64, Refusal>(Refusal::WouldBlock) <==> refusal is None && t.busy(now)
            &&& refusal is Some ==> r == Err::<i64, Refusal>(refusal->0)
        }),
        ({
            let (r, after) = receive_begun(t, mode, taken, now);
            &&& r is Err <==> !policy::may_receive(mode)
            &&& r is Ok && r->Ok_0 != 0 <==> policy::may_receive(mode) && taken && !t.busy(now)
            &&& r is Ok && r->Ok_0 != 0 ==> r->Ok_0 > t.next && after.current == r->Ok_0
                && after.airdrop_pending != r->Ok_0 && !after.needs_awdl
            &&& !(r is Ok && r->Ok_0 != 0) ==> after == t
            &&& r is Err ==> r->Err_0 == Refusal::PermissionDenied
        }),
        ({
            let (r, after) = lan_begun(t, dialled, taken, now);
            &&& r == Ok::<i64, Refusal>(0) <==> !dialled
            &&& r is Ok && r->Ok_0 != 0 <==> dialled && taken && !t.busy(now)
            &&& r is Ok && r->Ok_0 != 0 ==> r->Ok_0 > t.next && after.current == r->Ok_0
                && after.airdrop_pending != r->Ok_0 && !after.needs_awdl
            &&& !(r is Ok && r->Ok_0 != 0) ==> after == t
            &&& r == Err::<i64, Refusal>(Refusal::BadValue) <==> dialled && !taken
        }),
{
}

/// How a transfer ended is told as it ended. Success is what succeeded and nothing else; a no of
/// the other device is not a fault; a peer is forgotten exactly when it could not be reached.
pub proof fn law_endings_are_told_as_they_are(
    fault: Option<Fault>,
    outcome: Option<bool>,
    cancelled: bool,
    served: Option<ServeOutcome>,
)
    ensures
        ({
            let end = airdrop_ended(fault);
            &&& end.status == STATUS_OK <==> fault is None
            &&& end.status == STATUS_DECLINED <==> fault == Some(Fault::Denied)
            &&& end.status != STATUS_CANCELLED
            &&& end.forget <==> fault == Some(Fault::ConnectionRefused) || fault == Some(
                Fault::ConnectionReset,
            ) || fault == Some(Fault::TimedOut)
            &&& end.status == STATUS_OK || end.status == STATUS_DECLINED || end.status
                == STATUS_FAILED
        }),
        sent_status(outcome, cancelled) == STATUS_OK <==> outcome == Some(true),
        sent_status(outcome, cancelled) == STATUS_DECLINED <==> outcome == Some(false)
            && !cancelled,
        sent_status(outcome, cancelled) == STATUS_FAILED <==> outcome is None || (outcome == Some(
            false,
        ) && cancelled),
        served_status(served) == STATUS_OK <==> served is Some && served->0 is Received
            && served->0->Received_0@.len() > 0,
        served_status(served) == STATUS_DECLINED <==> served is Some && served->0 is Received
            && served->0->Received_0@.len() == 0,
        served_status(served) == STATUS_CANCELLED <==> served is Some && served->0 is Cancelled,
        served_status(served) == STATUS_FAILED <==> served is None,
{
}

/// Nobody is left out and nobody decides in a person's place: an offer is accepted unasked only
/// where asking is turned off, and a person is asked exactly where there is one to ask. A network
/// is joined only with a client to do it, and the radio is taken exactly for a group.
pub proof fn law_person_is_asked(auto_accept: bool, clients: usize, wifi_direct: bool, arm: Arm)
    ensures
        prompted(auto_accept, clients) == Prompt::Accept <==> auto_accept,
        prompted(auto_accept, clients) == Prompt::Ask <==> !auto_accept && clients > 0,
        joining(clients, wifi_direct) == Joining::StayPut <==> clients == 0,
        joining(clients, wifi_direct) == Joining::TakeRadio <==> clients > 0 && wifi_direct,
        group_may_form(arm) == Some(true) <==> arm == Arm::Held || arm == Arm::Taken,
        group_may_form(arm) == Some(false) <==> arm == Arm::Refused,
{
}

/// A group is asked for until one comes or the time is up, and no longer; what comes is what is
/// handed on.
pub proof fn law_group_is_asked_for(deadline: u64, now: u64, answer: Option<WifiGroup>)
    ensures
        group_step(deadline, now, answer) is Ask <==> answer is None && now < deadline,
        group_step(deadline, now, answer) matches GroupStep::Done(g) ==> g == answer,
        group_step(deadline, now, answer) matches GroupStep::Ask(wait) ==> wait
            == GROUP_ASK_INTERVAL,
{
}

/// The size of an offer is the sum of its sizes, in whatever parts it is counted; what claims to
/// be less than nothing adds nothing.
pub proof fn law_offer_size_is_the_sum(a: Seq<i64>, b: Seq<i64>, one: i64)
    ensures
        total_of(a + b) == total_of(a) + total_of(b),
        one >= 0 ==> total_of(seq![one]) == one,
        one < 0 ==> total_of(seq![one]) == 0,
    decreases b.len(),
{
    assert(seq![one].drop_last() =~= seq![]);
    reveal_with_fuel(total_of, 2);
    if b.len() == 0 {
        assert(a + b =~= a);
    } else {
        law_offer_size_is_the_sum(a, b.drop_last(), one);
        assert((a + b).drop_last() =~= a + b.drop_last());
        assert((a + b).last() == b.last());
    }
}

/// An offer takes the slot or is refused: with an id of its own, on the link, and as an offer that
/// nobody has said yes to. Where nobody is asked it is accepted at once, and otherwise not.
pub proof fn law_offer_takes_the_slot<S>(t: TransferState<S>, now: u64, auto_accept: bool)
    requires
        t.wf(),
        t.next < i64::MAX,
    ensures
        ({
            let (r, after) = offer_begun(t, now);
            let id = r->Ok_0;
            let (answer, then) = settling(after, id, auto_accept);
            &&& r is Err <==> t.busy(now)
            &&& r is Err ==> after == t && r->Err_0.status == 401
            &&& r is Ok ==> id > t.next && after.current == id && after.offer == id
                && after.airdrop_pending == id && after.accepted_offer() == 0
            &&& r is Ok ==> (answer == Some(true) <==> auto_accept) && then.current == id && (
            then.accepted_offer() == id <==> auto_accept)
            &&& !auto_accept ==> answer is None && then == after
        }),
{
}

/// A peer is dialled where it was found, if the request may be made at all, and none was found
/// only where none was.
pub proof fn law_found_route_is_dialled(
    mode: i32,
    files: usize,
    names: usize,
    route: Option<([u8; 4], u16)>,
)
    ensures
        dialled(mode, files, names, route) is Ok <==> policy::may_send(mode) && files == names,
        dialled(mode, files, names, route) matches Ok(r) ==> r == route,
        dialled(mode, files, names, route) == Err::<Option<([u8; 4], u16)>, Refusal>(
            Refusal::PermissionDenied,
        ) <==> !policy::may_send(mode),
{
}

/// A file is offered under a name that steers no path, and under its own where that is one.
pub proof fn law_offered_name_is_a_leaf(name: Seq<char>)
    ensures
        httpd::is_leaf(offered_under(name)),
        httpd::safe_leaf_in(name) matches Some(l) ==> offered_under(name) == l,
{
    reveal_strlit("file");
    reveal_strlit(".");
    reveal_strlit("..");
    assert("file"@.len() == 4 && "."@.len() == 1 && ".."@.len() == 2);
}

/// A group is an answer exactly if it has a network, and then as it was given.
pub proof fn law_group_needs_a_network(group: WifiGroup)
    ensures
        group_in(group) is Some <==> group.ssid@.len() > 0,
        group_in(group) matches Some(g) ==> g == group,
{
}

} // verus!
