//! What is said to the kernel about routes and radios, and what it answers.
//!
//! Netlink speaks in the byte order of the machine, which on every device this runs on is
//! least significant byte first.

use vstd::prelude::*;
use vstd::utf8::*;
use crate::wire;

verus! {

pub const RTM_NEWROUTE: u16 = 24;

pub const RTM_NEWRULE: u16 = 32;

pub const RTM_DELRULE: u16 = 33;

pub const NLM_F_REQUEST: u16 = 0x01;

/// A request that creates something, and must be told if it is there already.
pub const CREATE_FLAGS: u16 = 0x605;

/// A delete must not carry the flags of a creation.
pub const DELETE_FLAGS: u16 = 0x05;

pub const NLMSG_ERROR: u16 = 0x2;

pub const RTA_DST: u16 = 1;

pub const RTA_OIF: u16 = 4;

pub const RTA_TABLE: u16 = 15;

pub const FRA_PRIORITY: u16 = 6;

pub const FRA_TABLE: u16 = 15;

pub const FRA_OIFNAME: u16 = 17;

pub const FRA_UID_RANGE: u16 = 20;

pub const EEXIST: i32 = 17;

/// The controller family, which is the only id known ahead of time. nl80211's own id is
/// assigned at runtime and is not stable across boots.
pub const GENL_ID_CTRL: u16 = 16;

pub const CTRL_CMD_GETFAMILY: u8 = 3;

pub const CTRL_ATTR_FAMILY_ID: u16 = 1;

pub const CTRL_ATTR_FAMILY_NAME: u16 = 2;

pub const NL80211_CMD_GET_INTERFACE: u8 = 5;

pub const NL80211_ATTR_IFINDEX: u16 = 3;

pub const NL80211_ATTR_WIPHY_FREQ: u16 = 38;

pub const NLMSG_HDR_LEN: usize = 16;

pub const GENL_HDR_LEN: usize = 4;

/// Rule priority while the exemption is earned: after the rules of a VPN that is up, so that
/// it still claims traffic first, and before the one that prohibits everything else.
pub const RULE_PRIORITY: u32 = 13500;

/// Rule priority otherwise: behind the rule that prohibits what does not go through a VPN.
pub const RULE_PRIORITY_BELOW: u32 = 15000;

// --------------------------------------------------------------- attributes ---

pub open spec fn aligned(n: nat) -> nat {
    ((n + 3) / 4 * 4) as nat
}

pub fn align4(n: usize) -> (r: usize)
    requires
        n + 3 <= usize::MAX,
    ensures
        r == aligned(n as nat),
        r >= n,
        r < n + 4,
{
    (n + 3) / 4 * 4
}

pub open spec fn zeros(n: nat) -> Seq<u8> {
    Seq::new(n, |i: int| 0u8)
}

/// Some bytes, with zeros up to a multiple of four.
pub open spec fn padded(s: Seq<u8>) -> Seq<u8> {
    s + zeros((aligned(s.len()) - s.len()) as nat)
}

/// An attribute before its padding: its length, its type and its payload.
pub open spec fn attr(ty: u16, payload: Seq<u8>) -> Seq<u8> {
    wire::le_bytes((4 + payload.len()) % 0x1_0000, 2) + wire::le_bytes(ty as nat, 2) + payload
}

fn pad(buf: &mut Vec<u8>)
    requires
        old(buf)@.len() + 3 <= usize::MAX,
    ensures
        final(buf)@ == padded(old(buf)@),
{
    let ghost first = buf@;
    let n: usize = align4(buf.len());
    while buf.len() < n
        invariant
            first.len() <= buf@.len() <= n,
            buf@ == first + zeros((buf@.len() - first.len()) as nat),
        decreases n - buf@.len(),
    {
        buf.push(0);
        assert(buf@ =~= first + zeros((buf@.len() - first.len()) as nat));
    }
}

/// Append an attribute.
pub fn put_attr(buf: &mut Vec<u8>, ty: u16, payload: &[u8])
    requires
        old(buf)@.len() + payload@.len() + 7 <= usize::MAX,
    ensures
        final(buf)@ == padded(old(buf)@ + attr(ty, payload@)),
{
    let ghost before = buf@;
    let n: u64 = (payload.len() as u64 % 0x1_0000 + 4) % 0x1_0000;
    let ghost one = wire::le_bytes((4 + payload@.len()) % 0x1_0000, 2);
    let ghost two = wire::le_bytes(ty as nat, 2);
    proof {
        assert(n == (4 + payload@.len()) % 0x1_0000);
        wire::lemma_le_bytes_len((4 + payload@.len()) % 0x1_0000, 2);
        wire::lemma_le_bytes_len(ty as nat, 2);
    }
    wire::write_le(buf, n, 2);
    wire::write_le(buf, ty as u64, 2);
    buf.extend_from_slice(payload);
    proof {
        assert(buf@ =~= before + one + two + payload@);
        assert(before + one + two + payload@ =~= before + (one + two + payload@));
    }
    pad(buf);
}

/// The payload of the first attribute of a type, from `off` on. A zero or short length ends the
/// search rather than being trusted.
pub open spec fn attr_in(buf: Seq<u8>, off: nat, want: u16) -> Option<Seq<u8>>
    decreases buf.len() + 4 - off,
{
    if off + 4 > buf.len() {
        None
    } else {
        let len = wire::le_value(buf.subrange(off as int, (off + 2) as int));
        let ty = wire::le_value(buf.subrange((off + 2) as int, (off + 4) as int));
        if len < 4 || off + len > buf.len() {
            None
        } else if ty == want {
            Some(buf.subrange((off + 4) as int, (off + len) as int))
        } else {
            attr_in(buf, off + aligned(len), want)
        }
    }
}

/// Walk the attributes in `buf` and return the payload of the first one of type `want`.
pub fn find_attr(buf: &[u8], want: u16) -> (r: Option<&[u8]>)
    ensures
        match r {
            Some(p) => attr_in(buf@, 0, want) == Some(p@),
            None => attr_in(buf@, 0, want) is None,
        },
{
    let n: usize = buf.len();
    let mut off: usize = 0;
    while n >= 4 && off <= n - 4
        invariant
            n == buf@.len(),
            attr_in(buf@, off as nat, want) == attr_in(buf@, 0, want),
        decreases n + 4 - off,
    {
        let len: usize = buf[off] as usize + buf[off + 1] as usize * 256;
        let ty: u16 = buf[off + 2] as u16 + buf[off + 3] as u16 * 256;
        proof {
            wire::lemma_le_value_2(buf@.subrange(off as int, (off + 2) as int));
            wire::lemma_le_value_2(buf@.subrange((off + 2) as int, (off + 4) as int));
        }
        if len < 4 || len > n - off {
            return None;
        }
        if ty == want {
            return Some(vstd::slice::slice_subrange(buf, off + 4, off + len));
        }
        if len + 3 > n - off {
            // The next attribute would begin behind the end, or too close to it.
            assert(attr_in(buf@, off as nat + aligned(len as nat), want) is None);
            return None;
        }
        off = off + align4(len);
    }
    None
}

/// What was put in is found: the first attribute of its type, behind any number of others.
pub proof fn law_put_is_found(front: Seq<u8>, ty: u16, payload: Seq<u8>, rest: Seq<u8>)
    requires
        payload.len() + 4 < 0x1_0000,
        front.len() % 4 == 0,
    ensures
        attr_in(padded(front + attr(ty, payload)) + rest, front.len(), ty) == Some(payload),
        forall|other: u16|
            other != ty ==> attr_in(
                padded(front + attr(ty, payload)) + rest,
                front.len(),
                other,
            ) == #[trigger] attr_in(
                padded(front + attr(ty, payload)) + rest,
                padded(front + attr(ty, payload)).len(),
                other,
            ),
{
    let body = front + attr(ty, payload);
    let buf = padded(body) + rest;
    let off = front.len();
    let len = payload.len() + 4;
    wire::lemma_be_limits();
    wire::law_le_round_trip(len, 2);
    wire::law_le_round_trip(ty as nat, 2);
    assert(buf.subrange(off as int, (off + 2) as int) =~= wire::le_bytes(len, 2));
    assert(buf.subrange((off + 2) as int, (off + 4) as int) =~= wire::le_bytes(ty as nat, 2));
    assert(buf.subrange((off + 4) as int, (off + len) as int) =~= payload);
    assert(padded(body).len() == off + aligned(len));
}

// ----------------------------------------------------------------- messages ---

/// A netlink message: length, type, flags, sequence number one, and no port.
pub open spec fn message(ty: u16, flags: u16, body: Seq<u8>) -> Seq<u8> {
    wire::le_bytes(16 + body.len(), 4) + wire::le_bytes(ty as nat, 2) + wire::le_bytes(
        flags as nat,
        2,
    ) + seq![1u8, 0, 0, 0, 0, 0, 0, 0] + body
}

pub fn nl_message(ty: u16, body: &[u8], flags: u16) -> (r: Vec<u8>)
    requires
        body@.len() + 16 <= u32::MAX,
    ensures
        r@ == message(ty, flags, body@),
{
    let mut out: Vec<u8> = Vec::new();
    wire::write_le(&mut out, body.len() as u64 + 16, 4);
    wire::write_le(&mut out, ty as u64, 2);
    wire::write_le(&mut out, flags as u64, 2);
    out.push(1);
    out.push(0);
    out.push(0);
    out.push(0);
    out.push(0);
    out.push(0);
    out.push(0);
    out.push(0);
    out.extend_from_slice(body);
    assert(out@ =~= message(ty, flags, body@));
    out
}

/// A generic-netlink request: a command, version one, and its attributes.
pub open spec fn genl_message(family: u16, cmd: u8, body: Seq<u8>) -> Seq<u8> {
    message(family, NLM_F_REQUEST, seq![cmd, 1u8, 0, 0] + body)
}

pub fn genl_request(family: u16, cmd: u8, body: &[u8]) -> (r: Vec<u8>)
    requires
        body@.len() + 20 <= u32::MAX,
    ensures
        r@ == genl_message(family, cmd, body@),
{
    let mut inner: Vec<u8> = Vec::new();
    inner.push(cmd);
    inner.push(1);
    inner.push(0);
    inner.push(0);
    inner.extend_from_slice(body);
    assert(inner@ =~= seq![cmd, 1u8, 0, 0] + body@);
    nl_message(family, inner.as_slice(), NLM_F_REQUEST)
}

// ------------------------------------------------------------------ answers ---

/// What came of a request.
#[derive(Debug, Clone, Copy, PartialEq, Eq, Structural)]
pub enum NlError {
    Short,
    /// An acknowledgement where an answer was due.
    NoPayload,
    /// The kernel's error number.
    Os(i64),
    /// There is no such family.
    NoFamily,
}

pub open spec fn reply_type(resp: Seq<u8>) -> nat {
    wire::le_value(resp.subrange(4, 6))
}

/// The error code in a reply, as the kernel gives it: zero, or a negative error number.
pub open spec fn reply_code(resp: Seq<u8>) -> int {
    let v = wire::le_value(resp.subrange(16, 20));
    if v < 0x8000_0000 {
        v as int
    } else {
        v - 0x1_0000_0000
    }
}

/// Whether a generic-netlink reply is an answer.
pub open spec fn genl_reply(resp: Seq<u8>) -> Result<(), NlError> {
    if resp.len() < 16 {
        Err(NlError::Short)
    } else if reply_type(resp) != NLMSG_ERROR {
        Ok(())
    } else if resp.len() < 20 {
        Err(NlError::Short)
    } else if reply_code(resp) == 0 {
        Err(NlError::NoPayload)
    } else {
        Err(NlError::Os((-reply_code(resp)) as i64))
    }
}

/// What an acknowledgement says. Nothing but an error is one, and something that is already
/// there is none: every request here may be made twice.
pub open spec fn ack(resp: Seq<u8>) -> Result<(), NlError> {
    if resp.len() < 20 || reply_type(resp) != NLMSG_ERROR || reply_code(resp) == 0 || -reply_code(
        resp,
    ) == EEXIST {
        Ok(())
    } else {
        Err(NlError::Os((-reply_code(resp)) as i64))
    }
}

fn type_of(resp: &[u8]) -> (r: u16)
    requires
        resp@.len() >= 6,
    ensures
        r == reply_type(resp@),
{
    proof {
        wire::lemma_le_value_2(resp@.subrange(4, 6));
    }
    resp[4] as u16 + resp[5] as u16 * 256
}

fn code_of(resp: &[u8]) -> (r: i64)
    requires
        resp@.len() >= 20,
    ensures
        r == reply_code(resp@),
        -0x8000_0000 <= r < 0x8000_0000,
{
    proof {
        wire::lemma_le_value_4(resp@.subrange(16, 20));
    }
    let v: i64 = resp[16] as i64 + resp[17] as i64 * 0x100 + resp[18] as i64 * 0x1_0000
        + resp[19] as i64 * 0x100_0000;
    if v < 0x8000_0000 {
        v
    } else {
        v - 0x1_0000_0000
    }
}

pub fn read_genl(resp: &[u8]) -> (r: Result<(), NlError>)
    ensures
        r == genl_reply(resp@),
{
    if resp.len() < 16 {
        return Err(NlError::Short);
    }
    if type_of(resp) != NLMSG_ERROR {
        return Ok(());
    }
    if resp.len() < 20 {
        return Err(NlError::Short);
    }
    let e: i64 = code_of(resp);
    if e == 0 {
        Err(NlError::NoPayload)
    } else {
        Err(NlError::Os(-e))
    }
}

/// Interpret the acknowledgement of a route or rule request.
pub fn read_ack(resp: &[u8]) -> (r: Result<(), NlError>)
    ensures
        r == ack(resp@),
{
    if resp.len() < 20 {
        return Ok(());
    }
    if type_of(resp) != NLMSG_ERROR {
        return Ok(());
    }
    let e: i64 = code_of(resp);
    if e == 0 || -e == EEXIST as i64 {
        Ok(())
    } else {
        Err(NlError::Os(-e))
    }
}

/// The attributes of a generic-netlink reply.
pub open spec fn reply_attrs(resp: Seq<u8>) -> Seq<u8> {
    if resp.len() >= 20 {
        resp.subrange(20, resp.len() as int)
    } else {
        seq![]
    }
}

fn attrs_of(resp: &[u8]) -> (r: &[u8])
    ensures
        r@ == reply_attrs(resp@),
{
    let n: usize = resp.len();
    if n >= 20 {
        vstd::slice::slice_subrange(resp, 20, n)
    } else {
        let r = vstd::slice::slice_subrange(resp, n, n);
        assert(r@ =~= reply_attrs(resp@));
        r
    }
}

/// The request for nl80211's family id.
pub open spec fn family_request() -> Seq<u8> {
    genl_message(
        GENL_ID_CTRL,
        CTRL_CMD_GETFAMILY,
        padded(attr(CTRL_ATTR_FAMILY_NAME, seq![0x6Eu8, 0x6C, 0x38, 0x30, 0x32, 0x31, 0x31, 0])),
    )
}

pub fn ask_family() -> (r: Vec<u8>)
    ensures
        r@ == family_request(),
{
    // "nl80211", and a zero.
    let name: [u8; 8] = [0x6E, 0x6C, 0x38, 0x30, 0x32, 0x31, 0x31, 0];
    let mut body: Vec<u8> = Vec::new();
    put_attr(&mut body, CTRL_ATTR_FAMILY_NAME, &name);
    proof {
        let a = attr(
            CTRL_ATTR_FAMILY_NAME,
            seq![0x6Eu8, 0x6C, 0x38, 0x30, 0x32, 0x31, 0x31, 0],
        );
        assert(name@ =~= seq![0x6Eu8, 0x6C, 0x38, 0x30, 0x32, 0x31, 0x31, 0]);
        assert(Seq::<u8>::empty() + a =~= a);
        wire::lemma_le_bytes_len(12, 2);
        wire::lemma_le_bytes_len(CTRL_ATTR_FAMILY_NAME as nat, 2);
        assert(a.len() == 12);
    }
    genl_request(GENL_ID_CTRL, CTRL_CMD_GETFAMILY, body.as_slice())
}

pub open spec fn family_in(resp: Seq<u8>) -> Result<u16, NlError> {
    match attr_in(reply_attrs(resp), 0, CTRL_ATTR_FAMILY_ID) {
        Some(v) => if v.len() >= 2 {
            Ok((v[0] + v[1] * 256) as u16)
        } else {
            Err(NlError::NoFamily)
        },
        None => Err(NlError::NoFamily),
    }
}

/// nl80211's runtime-assigned family id, out of the controller's reply.
pub fn nl80211_family(resp: &[u8]) -> (r: Result<u16, NlError>)
    ensures
        r == family_in(resp@),
{
    match find_attr(attrs_of(resp), CTRL_ATTR_FAMILY_ID) {
        Some(v) => if v.len() >= 2 {
            Ok(v[0] as u16 + v[1] as u16 * 256)
        } else {
            Err(NlError::NoFamily)
        },
        None => Err(NlError::NoFamily),
    }
}

pub open spec fn interface_request(family: u16, ifindex: u32) -> Seq<u8> {
    genl_message(
        family,
        NL80211_CMD_GET_INTERFACE,
        padded(attr(NL80211_ATTR_IFINDEX, wire::le_bytes(ifindex as nat, 4))),
    )
}

/// The request for an interface.
pub fn ask_interface(family: u16, ifindex: u32) -> (r: Vec<u8>)
    ensures
        r@ == interface_request(family, ifindex),
{
    let mut idx: Vec<u8> = Vec::new();
    wire::write_le(&mut idx, ifindex as u64, 4);
    assert(idx@ =~= wire::le_bytes(ifindex as nat, 4));
    let mut body: Vec<u8> = Vec::new();
    proof {
        wire::lemma_le_bytes_len(ifindex as nat, 4);
        wire::lemma_le_bytes_len(8, 2);
        wire::lemma_le_bytes_len(NL80211_ATTR_IFINDEX as nat, 2);
        let a = attr(NL80211_ATTR_IFINDEX, idx@);
        assert(Seq::<u8>::empty() + a =~= a);
        assert(a.len() == 8);
    }
    put_attr(&mut body, NL80211_ATTR_IFINDEX, idx.as_slice());
    genl_request(family, NL80211_CMD_GET_INTERFACE, body.as_slice())
}

pub open spec fn frequency_in(resp: Seq<u8>) -> u32 {
    match attr_in(reply_attrs(resp), 0, NL80211_ATTR_WIPHY_FREQ) {
        Some(v) => if v.len() >= 4 {
            wire::le_value(v.subrange(0, 4)) as u32
        } else {
            0
        },
        None => 0,
    }
}

/// The frequency an interface is operating on, in MHz. One that is up but not associated has
/// no channel, so the attribute is absent and this is zero.
pub fn frequency_of(resp: &[u8]) -> (r: u32)
    ensures
        r == frequency_in(resp@),
{
    match find_attr(attrs_of(resp), NL80211_ATTR_WIPHY_FREQ) {
        Some(v) => if v.len() >= 4 {
            proof {
                wire::lemma_le_value_4(v@.subrange(0, 4));
            }
            v[0] as u32 + v[1] as u32 * 0x100 + v[2] as u32 * 0x1_0000 + v[3] as u32 * 0x100_0000
        } else {
            0
        },
        None => 0,
    }
}

// -------------------------------------------------------------- routes, rules ---

/// `fe80::/64 dev <ifindex> table <ifindex>`: a header (IPv6, 64 bits of destination, static,
/// link scope, unicast), then the destination, the interface and the table. Android names the
/// per-network table after the interface, and its id is the interface index.
pub open spec fn route_body(ifindex: u32) -> Seq<u8> {
    let head = seq![10u8, 64, 0, 0, 0, 4, 253, 1, 0, 0, 0, 0];
    let dst = seq![0xfeu8, 0x80] + zeros(14);
    let idx = wire::le_bytes(ifindex as nat, 4);
    padded(
        padded(padded(head + attr(RTA_DST, dst)) + attr(RTA_OIF, idx)) + attr(RTA_TABLE, idx),
    )
}

/// The header of a rule: IPv6, and "go to a table".
pub open spec fn rule_head() -> Seq<u8> {
    seq![10u8, 0, 0, 0, 0, 0, 0, 1, 0, 0, 0, 0]
}

/// Traffic of one user leaving an interface goes to that interface's table. The interface is
/// matched by name, so that the rule survives its being recreated with a new index; and the
/// rule is for a single user, so that nobody else reaches the link.
pub open spec fn rule_body(iface: Seq<char>, ifindex: u32, uid: u32, priority: u32) -> Seq<u8> {
    let name = encode_utf8(iface).push(0u8);
    let range = wire::le_bytes(uid as nat, 4) + wire::le_bytes(uid as nat, 4);
    let a = padded(rule_head() + attr(FRA_OIFNAME, name));
    let b = padded(a + attr(FRA_TABLE, wire::le_bytes(ifindex as nat, 4)));
    let c = padded(b + attr(FRA_PRIORITY, wire::le_bytes(priority as nat, 4)));
    padded(c + attr(FRA_UID_RANGE, range))
}

/// Whatever rule stands at a priority, without needing to know what index it had.
pub open spec fn delete_body(priority: u32) -> Seq<u8> {
    padded(rule_head() + attr(FRA_PRIORITY, wire::le_bytes(priority as nat, 4)))
}

proof fn lemma_attr_len(ty: u16, payload: Seq<u8>)
    ensures
        attr(ty, payload).len() == 4 + payload.len(),
{
    wire::lemma_le_bytes_len((4 + payload.len()) % 0x1_0000, 2);
    wire::lemma_le_bytes_len(ty as nat, 2);
}

fn number(v: u32) -> (r: Vec<u8>)
    ensures
        r@ == wire::le_bytes(v as nat, 4),
        r@.len() == 4,
{
    let mut out: Vec<u8> = Vec::new();
    wire::write_le(&mut out, v as u64, 4);
    proof {
        wire::lemma_le_bytes_len(v as nat, 4);
        assert(out@ =~= wire::le_bytes(v as nat, 4));
    }
    out
}

fn rule_start() -> (r: Vec<u8>)
    ensures
        r@ == rule_head(),
        r@.len() == 12,
{
    let r: Vec<u8> = vec![10, 0, 0, 0, 0, 0, 0, 1, 0, 0, 0, 0];
    assert(r@ =~= rule_head());
    r
}

/// The request that adds the link-local route.
pub fn add_link_local(ifindex: u32) -> (r: Vec<u8>)
    ensures
        r@ == message(RTM_NEWROUTE, CREATE_FLAGS, route_body(ifindex)),
{
    let mut body: Vec<u8> = vec![10, 64, 0, 0, 0, 4, 253, 1, 0, 0, 0, 0];
    assert(body@ =~= seq![10u8, 64, 0, 0, 0, 4, 253, 1, 0, 0, 0, 0]);
    let dst: Vec<u8> = vec![0xfe, 0x80, 0, 0, 0, 0, 0, 0, 0, 0, 0, 0, 0, 0, 0, 0];
    assert(dst@ =~= seq![0xfeu8, 0x80] + zeros(14));
    let idx = number(ifindex);
    proof {
        lemma_attr_len(RTA_DST, dst@);
        lemma_attr_len(RTA_OIF, idx@);
        lemma_attr_len(RTA_TABLE, idx@);
    }
    put_attr(&mut body, RTA_DST, dst.as_slice());
    put_attr(&mut body, RTA_OIF, idx.as_slice());
    put_attr(&mut body, RTA_TABLE, idx.as_slice());
    nl_message(RTM_NEWROUTE, body.as_slice(), CREATE_FLAGS)
}

pub open spec fn priority_of(exempt: bool) -> u32 {
    if exempt {
        RULE_PRIORITY
    } else {
        RULE_PRIORITY_BELOW
    }
}

/// The priority of our rule: above the kill-switch only while the exemption is earned.
pub fn rule_priority(exempt: bool) -> (r: u32)
    ensures
        r == priority_of(exempt),
{
    if exempt {
        RULE_PRIORITY
    } else {
        RULE_PRIORITY_BELOW
    }
}

/// The request that points traffic leaving an interface at that interface's table.
///
/// A route in a table nothing consults is invisible: Android selects tables with rules, and an
/// interface it does not manage gets none.
pub fn add_rule(iface: &str, ifindex: u32, uid: u32, exempt: bool) -> (r: Vec<u8>)
    requires
        rule_body(iface@, ifindex, uid, 0).len() + 16 <= u32::MAX,
    ensures
        r@ == message(
            RTM_NEWRULE,
            CREATE_FLAGS,
            rule_body(iface@, ifindex, uid, priority_of(exempt)),
        ),
{
    let mut body = rule_start();
    let mut name: Vec<u8> = Vec::new();
    name.extend_from_slice(iface.as_bytes());
    name.push(0);
    assert(name@ =~= encode_utf8(iface@).push(0u8));
    let table = number(ifindex);
    let priority = number(rule_priority(exempt));
    let mut range = number(uid);
    wire::write_le(&mut range, uid as u64, 4);
    proof {
        wire::lemma_le_bytes_len(uid as nat, 4);
        lemma_attr_len(FRA_OIFNAME, name@);
        lemma_attr_len(FRA_TABLE, table@);
        lemma_attr_len(FRA_PRIORITY, priority@);
        lemma_attr_len(FRA_UID_RANGE, range@);
    }
    put_attr(&mut body, FRA_OIFNAME, name.as_slice());
    put_attr(&mut body, FRA_TABLE, table.as_slice());
    put_attr(&mut body, FRA_PRIORITY, priority.as_slice());
    put_attr(&mut body, FRA_UID_RANGE, range.as_slice());
    nl_message(RTM_NEWRULE, body.as_slice(), CREATE_FLAGS)
}

/// The request that deletes one rule at a priority. It fails once none remain, which is the
/// signal to stop.
pub fn del_rule(priority: u32) -> (r: Vec<u8>)
    ensures
        r@ == message(RTM_DELRULE, DELETE_FLAGS, delete_body(priority)),
{
    let mut body = rule_start();
    let p = number(priority);
    proof {
        lemma_attr_len(FRA_PRIORITY, p@);
    }
    put_attr(&mut body, FRA_PRIORITY, p.as_slice());
    nl_message(RTM_DELRULE, body.as_slice(), DELETE_FLAGS)
}

/// Where a sweep of our rules is.
#[derive(Debug, Clone, Copy, PartialEq, Eq, Structural)]
pub enum SweepAt {
    /// At the priority of an exemption that is earned.
    Above,
    /// At the other one.
    Below,
    Over,
}

/// Takes our rules out, however many have accumulated, at both of our priorities: a rule that
/// is left behind leads to the table of an interface that is gone, and wins over the next one.
#[derive(Debug, Clone, Copy, PartialEq, Eq, Structural)]
pub struct Sweep {
    pub at: SweepAt,
    /// Whether there was any rule.
    pub found: bool,
}

impl Sweep {
    pub open spec fn started() -> Sweep {
        Sweep { at: SweepAt::Above, found: false }
    }

    /// After an attempt to delete one rule: on until none is left, then on to the next priority.
    pub open spec fn after(self, deleted: bool) -> Sweep {
        if deleted {
            Sweep { found: true, ..self }
        } else {
            Sweep {
                at: match self.at {
                    SweepAt::Above => SweepAt::Below,
                    _ => SweepAt::Over,
                },
                ..self
            }
        }
    }

    pub fn new() -> (r: Sweep)
        ensures
            r == Sweep::started(),
    {
        Sweep { at: SweepAt::Above, found: false }
    }

    pub open spec fn aims_at(self) -> Option<u32> {
        match self.at {
            SweepAt::Above => Some(RULE_PRIORITY),
            SweepAt::Below => Some(RULE_PRIORITY_BELOW),
            SweepAt::Over => None::<u32>,
        }
    }

    /// The priority to delete a rule at next. `None` once both are swept.
    pub fn next(&self) -> (r: Option<u32>)
        ensures
            r == self.aims_at(),
    {
        match self.at {
            SweepAt::Above => Some(RULE_PRIORITY),
            SweepAt::Below => Some(RULE_PRIORITY_BELOW),
            SweepAt::Over => None,
        }
    }

    /// Take note of whether a rule was deleted. That it was not is the signal that none is
    /// left.
    pub fn step(&mut self, deleted: bool)
        ensures
            *final(self) == old(self).after(deleted),
    {
        if deleted {
            self.found = true;
        } else {
            self.at = match self.at {
                SweepAt::Above => SweepAt::Below,
                _ => SweepAt::Over,
            };
        }
    }
}

/// Whether taking our rules back out succeeded: both priorities were swept, and there was a
/// rule.
pub fn remove_rule(sweep: &Sweep) -> (r: bool)
    ensures
        r == (sweep.at == SweepAt::Over && sweep.found),
{
    match sweep.at {
        SweepAt::Over => sweep.found,
        _ => false,
    }
}

/// A sweep over a kernel that holds so many of our rules at each priority, where a delete
/// succeeds while one is left: the sweep at its end, and how many rules are left at each.
pub open spec fn swept(s: Sweep, above: nat, below: nat) -> (Sweep, nat, nat)
    decreases
            above + below + match s.at {
                SweepAt::Above => 2int,
                SweepAt::Below => 1,
                SweepAt::Over => 0,
            },
{
    match s.aims_at() {
        Some(p) => if p == priority_of(true) && above > 0 {
            swept(s.after(true), (above - 1) as nat, below)
        } else if p == priority_of(false) && below > 0 {
            swept(s.after(true), above, (below - 1) as nat)
        } else {
            swept(s.after(false), above, below)
        },
        None => (s, above, below),
    }
}

/// However many of our rules there are, a sweep leaves none at either priority, and it has
/// found one exactly if there was one.
pub proof fn law_sweep_leaves_no_rule(above: nat, below: nat)
    ensures
        swept(Sweep::started(), above, below) == (
            Sweep { at: SweepAt::Over, found: above + below > 0 },
            0nat,
            0nat,
        ),
{
    lemma_swept(Sweep::started(), above, below);
}

proof fn lemma_swept(s: Sweep, above: nat, below: nat)
    requires
        s.at == SweepAt::Above || above == 0,
        s.at == SweepAt::Over ==> below == 0,
    ensures
        swept(s, above, below) == (
            Sweep { at: SweepAt::Over, found: s.found || above + below > 0 },
            0nat,
            0nat,
        ),
    decreases
            above + below + match s.at {
                SweepAt::Above => 2int,
                SweepAt::Below => 1,
                SweepAt::Over => 0,
            },
{
    match s.at {
        SweepAt::Above => if above > 0 {
            lemma_swept(s.after(true), (above - 1) as nat, below);
        } else {
            lemma_swept(s.after(false), above, below);
        },
        SweepAt::Below => if below > 0 {
            lemma_swept(s.after(true), above, (below - 1) as nat);
        } else {
            lemma_swept(s.after(false), above, below);
        },
        SweepAt::Over => {},
    }
}

/// The rule that is added names the user it is for, the table and the priority, and no others:
/// each is read back from the request.
pub proof fn law_rule_is_for_one_user(iface: Seq<char>, ifindex: u32, uid: u32, priority: u32)
    requires
        encode_utf8(iface).len() + 5 < 0x1_0000,
    ensures
        ({
            let attrs = rule_body(iface, ifindex, uid, priority).subrange(
                12,
                rule_body(iface, ifindex, uid, priority).len() as int,
            );
            &&& attr_in(attrs, 0, FRA_UID_RANGE) == Some(
                wire::le_bytes(uid as nat, 4) + wire::le_bytes(uid as nat, 4),
            )
            &&& attr_in(attrs, 0, FRA_PRIORITY) == Some(wire::le_bytes(priority as nat, 4))
            &&& attr_in(attrs, 0, FRA_TABLE) == Some(wire::le_bytes(ifindex as nat, 4))
            &&& attr_in(attrs, 0, FRA_OIFNAME) == Some(encode_utf8(iface).push(0u8))
        }),
{
    let name = encode_utf8(iface).push(0u8);
    let table = wire::le_bytes(ifindex as nat, 4);
    let prio = wire::le_bytes(priority as nat, 4);
    let range = wire::le_bytes(uid as nat, 4) + wire::le_bytes(uid as nat, 4);
    wire::lemma_le_bytes_len(ifindex as nat, 4);
    wire::lemma_le_bytes_len(priority as nat, 4);
    wire::lemma_le_bytes_len(uid as nat, 4);
    lemma_attr_len(FRA_OIFNAME, name);
    lemma_attr_len(FRA_TABLE, table);
    lemma_attr_len(FRA_PRIORITY, prio);
    lemma_attr_len(FRA_UID_RANGE, range);
    let e = Seq::<u8>::empty();
    let head = rule_head();
    let a0 = padded(e + attr(FRA_OIFNAME, name));
    let b0 = padded(a0 + attr(FRA_TABLE, table));
    let c0 = padded(b0 + attr(FRA_PRIORITY, prio));
    let d0 = padded(c0 + attr(FRA_UID_RANGE, range));
    let whole = rule_body(iface, ifindex, uid, priority);
    lemma_behind(head, e, FRA_OIFNAME, name);
    lemma_behind(head, a0, FRA_TABLE, table);
    lemma_behind(head, b0, FRA_PRIORITY, prio);
    lemma_behind(head, c0, FRA_UID_RANGE, range);
    assert(head + e =~= head);
    assert(whole == head + d0);
    assert(whole.subrange(12, whole.len() as int) =~= d0);
    let r1 = d0.subrange(a0.len() as int, d0.len() as int);
    let r2 = d0.subrange(b0.len() as int, d0.len() as int);
    let r3 = d0.subrange(c0.len() as int, d0.len() as int);
    assert(d0 =~= a0 + r1);
    assert(d0 =~= b0 + r2);
    assert(d0 =~= c0 + r3);
    assert(d0 =~= d0 + e);
    law_put_is_found(e, FRA_OIFNAME, name, r1);
    law_put_is_found(a0, FRA_TABLE, table, r2);
    law_put_is_found(b0, FRA_PRIORITY, prio, r3);
    law_put_is_found(c0, FRA_UID_RANGE, range, e);
}

/// Padding behind a header of a multiple of four bytes is the same as without the header.
proof fn lemma_behind(head: Seq<u8>, front: Seq<u8>, ty: u16, payload: Seq<u8>)
    requires
        head.len() % 4 == 0,
        front.len() % 4 == 0,
    ensures
        padded(head + front + attr(ty, payload)) == head + padded(front + attr(ty, payload)),
        padded(front + attr(ty, payload)).len() % 4 == 0,
{
    assert(padded(head + front + attr(ty, payload)) =~= head + padded(front + attr(ty, payload)));
}

/// The rule goes above the kill-switch exactly while the exemption is earned, and below it
/// otherwise; nothing that is deleted is anybody else's.
pub proof fn law_rule_is_above_only_if_earned(exempt: bool, s: Sweep)
    ensures
        priority_of(exempt) < 14000 <==> exempt,
        priority_of(true) != priority_of(false),
        s.aims_at() matches Some(p) ==> p == priority_of(true) || p == priority_of(false),
{
}

/// A message says of itself what it is: how long it is, of which type, with which flags, and what
/// stands behind its head is its body.
pub proof fn law_message_says_what_it_is(ty: u16, flags: u16, body: Seq<u8>)
    requires
        body.len() + 16 <= u32::MAX,
    ensures
        ({
            let m = message(ty, flags, body);
            &&& m.len() == 16 + body.len()
            &&& wire::le_value(m.subrange(0, 4)) == m.len()
            &&& wire::le_value(m.subrange(4, 6)) == ty
            &&& wire::le_value(m.subrange(6, 8)) == flags
            &&& m.subrange(16, m.len() as int) == body
        }),
{
    let m = message(ty, flags, body);
    wire::lemma_be_limits();
    wire::lemma_le_bytes_len(16 + body.len(), 4);
    wire::lemma_le_bytes_len(ty as nat, 2);
    wire::lemma_le_bytes_len(flags as nat, 2);
    wire::law_le_round_trip(16 + body.len(), 4);
    wire::law_le_round_trip(ty as nat, 2);
    wire::law_le_round_trip(flags as nat, 2);
    assert(m.subrange(0, 4) =~= wire::le_bytes(16 + body.len(), 4));
    assert(m.subrange(4, 6) =~= wire::le_bytes(ty as nat, 2));
    assert(m.subrange(6, 8) =~= wire::le_bytes(flags as nat, 2));
    assert(m.subrange(16, m.len() as int) =~= body);
}

/// The kernel's word is understood: an error number comes back as that error, that something is
/// there already is none, and neither is a zero or anything that is not an error message. Where
/// an answer was due, a zero is no answer.
pub proof fn law_kernel_is_understood(flags: u16, e: nat, rest: Seq<u8>, other: u16)
    requires
        0 < e < 0x8000_0000,
        rest.len() + 20 <= u32::MAX,
        other != NLMSG_ERROR,
    ensures
        ({
            let no = message(
                NLMSG_ERROR,
                flags,
                wire::le_bytes((0x1_0000_0000 - e) as nat, 4) + rest,
            );
            let yes = message(NLMSG_ERROR, flags, wire::le_bytes(0, 4) + rest);
            let answer = message(other, flags, rest);
            &&& ack(no) == (if e == EEXIST {
                Ok::<(), NlError>(())
            } else {
                Err(NlError::Os(e as i64))
            })
            &&& ack(yes) == Ok::<(), NlError>(())
            &&& ack(answer) == Ok::<(), NlError>(())
            &&& genl_reply(no) == Err::<(), NlError>(NlError::Os(e as i64))
            &&& genl_reply(yes) == Err::<(), NlError>(NlError::NoPayload)
            &&& genl_reply(answer) == Ok::<(), NlError>(())
        }),
{
    let code = (0x1_0000_0000 - e) as nat;
    wire::lemma_be_limits();
    wire::lemma_le_bytes_len(code, 4);
    wire::lemma_le_bytes_len(0, 4);
    wire::law_le_round_trip(code, 4);
    wire::law_le_round_trip(0, 4);
    let a = wire::le_bytes(code, 4) + rest;
    let b = wire::le_bytes(0, 4) + rest;
    law_message_says_what_it_is(NLMSG_ERROR, flags, a);
    law_message_says_what_it_is(NLMSG_ERROR, flags, b);
    law_message_says_what_it_is(other, flags, rest);
    let no = message(NLMSG_ERROR, flags, a);
    let yes = message(NLMSG_ERROR, flags, b);
    assert(no.subrange(16, 20) =~= no.subrange(16, no.len() as int).subrange(0, 4));
    assert(yes.subrange(16, 20) =~= yes.subrange(16, yes.len() as int).subrange(0, 4));
    assert(a.subrange(0, 4) =~= wire::le_bytes(code, 4));
    assert(b.subrange(0, 4) =~= wire::le_bytes(0, 4));
}

proof fn lemma_genl_attrs(family: u16, cmd: u8, body: Seq<u8>)
    requires
        body.len() + 20 <= u32::MAX,
    ensures
        reply_attrs(genl_message(family, cmd, body)) == body,
        genl_message(family, cmd, body).len() == 20 + body.len(),
        genl_message(family, cmd, body)[16] == cmd,
        reply_type(genl_message(family, cmd, body)) == family,
{
    let inner = seq![cmd, 1u8, 0, 0] + body;
    law_message_says_what_it_is(family, NLM_F_REQUEST, inner);
    let m = genl_message(family, cmd, body);
    assert(m.subrange(20, m.len() as int) =~= m.subrange(16, m.len() as int).subrange(
        4,
        inner.len() as int,
    ));
    assert(inner.subrange(4, inner.len() as int) =~= body);
    assert(m[16] == m.subrange(16, m.len() as int)[0]);
}

/// What the kernel says of a radio is read as it says it: the id of a family, and the frequency
/// of an interface; where it says nothing of these, there is none.
pub proof fn law_radio_is_read(family: u16, cmd: u8, id: u16, freq: u32)
    ensures
        family_in(
            genl_message(
                family,
                cmd,
                padded(attr(CTRL_ATTR_FAMILY_ID, wire::le_bytes(id as nat, 2))),
            ),
        ) == Ok::<u16, NlError>(id),
        frequency_in(
            genl_message(
                family,
                cmd,
                padded(attr(NL80211_ATTR_WIPHY_FREQ, wire::le_bytes(freq as nat, 4))),
            ),
        ) == freq,
        family_in(genl_message(family, cmd, seq![])) == Err::<u16, NlError>(NlError::NoFamily),
        frequency_in(genl_message(family, cmd, seq![])) == 0,
{
    let e = Seq::<u8>::empty();
    let i = wire::le_bytes(id as nat, 2);
    let f = wire::le_bytes(freq as nat, 4);
    wire::lemma_be_limits();
    wire::lemma_le_bytes_len(id as nat, 2);
    wire::lemma_le_bytes_len(freq as nat, 4);
    wire::law_le_round_trip(id as nat, 2);
    wire::law_le_round_trip(freq as nat, 4);
    wire::lemma_le_value_2(i);
    lemma_attr_len(CTRL_ATTR_FAMILY_ID, i);
    lemma_attr_len(NL80211_ATTR_WIPHY_FREQ, f);
    let a = padded(attr(CTRL_ATTR_FAMILY_ID, i));
    let b = padded(attr(NL80211_ATTR_WIPHY_FREQ, f));
    lemma_genl_attrs(family, cmd, a);
    lemma_genl_attrs(family, cmd, b);
    lemma_genl_attrs(family, cmd, e);
    law_put_is_found(e, CTRL_ATTR_FAMILY_ID, i, e);
    law_put_is_found(e, NL80211_ATTR_WIPHY_FREQ, f, e);
    assert(e + attr(CTRL_ATTR_FAMILY_ID, i) =~= attr(CTRL_ATTR_FAMILY_ID, i));
    assert(e + attr(NL80211_ATTR_WIPHY_FREQ, f) =~= attr(NL80211_ATTR_WIPHY_FREQ, f));
    assert(a + e =~= a);
    assert(b + e =~= b);
    assert(f.subrange(0, 4) =~= f);
}

/// A question about an interface names the family it is asked of, and the interface.
pub proof fn law_question_names_the_interface(family: u16, ifindex: u32)
    ensures
        ({
            let q = interface_request(family, ifindex);
            &&& reply_type(q) == family
            &&& q[16] == NL80211_CMD_GET_INTERFACE
            &&& attr_in(reply_attrs(q), 0, NL80211_ATTR_IFINDEX) == Some(
                wire::le_bytes(ifindex as nat, 4),
            )
        }),
        ({
            let q = family_request();
            &&& reply_type(q) == GENL_ID_CTRL
            &&& q[16] == CTRL_CMD_GETFAMILY
            &&& attr_in(reply_attrs(q), 0, CTRL_ATTR_FAMILY_NAME) == Some(
                seq![0x6Eu8, 0x6C, 0x38, 0x30, 0x32, 0x31, 0x31, 0],
            )
        }),
{
    let e = Seq::<u8>::empty();
    let i = wire::le_bytes(ifindex as nat, 4);
    let n = seq![0x6Eu8, 0x6C, 0x38, 0x30, 0x32, 0x31, 0x31, 0];
    wire::lemma_le_bytes_len(ifindex as nat, 4);
    lemma_attr_len(NL80211_ATTR_IFINDEX, i);
    lemma_attr_len(CTRL_ATTR_FAMILY_NAME, n);
    let a = padded(attr(NL80211_ATTR_IFINDEX, i));
    let b = padded(attr(CTRL_ATTR_FAMILY_NAME, n));
    lemma_genl_attrs(family, NL80211_CMD_GET_INTERFACE, a);
    lemma_genl_attrs(GENL_ID_CTRL, CTRL_CMD_GETFAMILY, b);
    law_put_is_found(e, NL80211_ATTR_IFINDEX, i, e);
    law_put_is_found(e, CTRL_ATTR_FAMILY_NAME, n, e);
    assert(e + attr(NL80211_ATTR_IFINDEX, i) =~= attr(NL80211_ATTR_IFINDEX, i));
    assert(e + attr(CTRL_ATTR_FAMILY_NAME, n) =~= attr(CTRL_ATTR_FAMILY_NAME, n));
    assert(a + e =~= a);
    assert(b + e =~= b);
}

/// The route that is added is the link-local one of IPv6, on the interface and in its own table:
/// each is read back from the request.
pub proof fn law_route_is_of_the_link(ifindex: u32)
    ensures
        ({
            let body = route_body(ifindex);
            let attrs = body.subrange(12, body.len() as int);
            &&& body[0] == 10 && body[1] == 64
            &&& attr_in(attrs, 0, RTA_DST) == Some(seq![0xfeu8, 0x80] + zeros(14))
            &&& attr_in(attrs, 0, RTA_OIF) == Some(wire::le_bytes(ifindex as nat, 4))
            &&& attr_in(attrs, 0, RTA_TABLE) == Some(wire::le_bytes(ifindex as nat, 4))
        }),
{
    let head = seq![10u8, 64, 0, 0, 0, 4, 253, 1, 0, 0, 0, 0];
    let dst = seq![0xfeu8, 0x80] + zeros(14);
    let idx = wire::le_bytes(ifindex as nat, 4);
    wire::lemma_le_bytes_len(ifindex as nat, 4);
    lemma_attr_len(RTA_DST, dst);
    lemma_attr_len(RTA_OIF, idx);
    lemma_attr_len(RTA_TABLE, idx);
    let e = Seq::<u8>::empty();
    let a0 = padded(e + attr(RTA_DST, dst));
    let b0 = padded(a0 + attr(RTA_OIF, idx));
    let c0 = padded(b0 + attr(RTA_TABLE, idx));
    let whole = route_body(ifindex);
    lemma_behind(head, e, RTA_DST, dst);
    lemma_behind(head, a0, RTA_OIF, idx);
    lemma_behind(head, b0, RTA_TABLE, idx);
    assert(head + e =~= head);
    assert(whole == head + c0);
    assert(whole.subrange(12, whole.len() as int) =~= c0);
    let r1 = c0.subrange(a0.len() as int, c0.len() as int);
    let r2 = c0.subrange(b0.len() as int, c0.len() as int);
    assert(c0 =~= a0 + r1);
    assert(c0 =~= b0 + r2);
    assert(c0 =~= c0 + e);
    law_put_is_found(e, RTA_DST, dst, r1);
    law_put_is_found(a0, RTA_OIF, idx, r2);
    law_put_is_found(b0, RTA_TABLE, idx, e);
}

/// What is deleted is a rule at the priority, whatever else it says.
pub proof fn law_delete_names_the_priority(priority: u32)
    ensures
        ({
            let body = delete_body(priority);
            let attrs = body.subrange(12, body.len() as int);
            &&& body.subrange(0, 12) == rule_head()
            &&& attr_in(attrs, 0, FRA_PRIORITY) == Some(wire::le_bytes(priority as nat, 4))
            &&& attr_in(attrs, 0, FRA_TABLE) is None
            &&& attr_in(attrs, 0, FRA_OIFNAME) is None
        }),
{
    let head = rule_head();
    let p = wire::le_bytes(priority as nat, 4);
    wire::lemma_le_bytes_len(priority as nat, 4);
    lemma_attr_len(FRA_PRIORITY, p);
    let e = Seq::<u8>::empty();
    let a0 = padded(e + attr(FRA_PRIORITY, p));
    lemma_behind(head, e, FRA_PRIORITY, p);
    assert(head + e =~= head);
    let whole = delete_body(priority);
    assert(whole == head + a0);
    assert(whole.subrange(12, whole.len() as int) =~= a0);
    assert(whole.subrange(0, 12) =~= head);
    assert(a0 + e =~= a0);
    law_put_is_found(e, FRA_PRIORITY, p, e);
    assert(attr_in(a0, a0.len(), FRA_TABLE) is None);
    assert(attr_in(a0, a0.len(), FRA_OIFNAME) is None);
}

} // verus!
