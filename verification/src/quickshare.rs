//! Quick Share identity: endpoint ids, and the mDNS instance names that carry them.

use vstd::prelude::*;
use vstd::utf8::*;
use crate::endpoint;
use crate::endpoint::{DeviceType, EndpointInfo};
use crate::text;

verus! {

/// First 3 bytes of sha256("NearbySharing"), which appear inside every instance name.
pub const SERVICE_ID_HASH_PREFIX: [u8; 3] = [0xFC, 0x9F, 0x5E];

/// Presence-and-control byte that opens the instance name.
pub const PCP: u8 = 0x23;

/// Raw length of a decoded instance name: PCP + 4 id + 3 hash prefix + 2 reserved.
pub const INSTANCE_RAW_LEN: usize = 10;

pub const ENDPOINT_ID_LEN: usize = 4;

/// TXT key of the endpoint info.
pub const TXT_ENDPOINT_INFO: &'static str = "n";

pub const TXT_IPV4: &'static str = "IPv4";

pub const TXT_WIFI_FREQ: &'static str = "f";

pub const TXT_BLUETOOTH_MAC: &'static str = "b";

// -------------------------------------------------------------------- base64 ---

/// The digit for six bits, in the URL-safe alphabet.
pub open spec fn sextet_char(v: nat) -> u8 {
    if v < 26 {
        (v + 65) as u8
    } else if v < 52 {
        (v - 26 + 97) as u8
    } else if v < 62 {
        (v - 52 + 48) as u8
    } else if v == 62 {
        0x2D
    } else {
        0x5F
    }
}

/// The six bits of a digit, in the URL-safe alphabet or the standard one.
pub open spec fn sextet_value(c: u8) -> Option<nat> {
    if 65 <= c <= 90 {
        Some((c - 65) as nat)
    } else if 97 <= c <= 122 {
        Some((c - 97 + 26) as nat)
    } else if 48 <= c <= 57 {
        Some((c - 48 + 52) as nat)
    } else if c == 0x2D || c == 0x2B {
        Some(62)
    } else if c == 0x5F || c == 0x2F {
        Some(63)
    } else {
        None
    }
}

/// Base64url without padding: four digits for each three bytes, and two or three for what
/// is left.
pub open spec fn base64_digits(b: Seq<u8>) -> Seq<u8>
    decreases b.len(),
{
    if b.len() == 0 {
        seq![]
    } else if b.len() == 1 {
        seq![sextet_char((b[0] / 4) as nat), sextet_char((b[0] % 4 * 16) as nat)]
    } else if b.len() == 2 {
        seq![
            sextet_char((b[0] / 4) as nat),
            sextet_char((b[0] % 4 * 16 + b[1] / 16) as nat),
            sextet_char((b[1] % 16 * 4) as nat),
        ]
    } else {
        seq![
            sextet_char((b[0] / 4) as nat),
            sextet_char((b[0] % 4 * 16 + b[1] / 16) as nat),
            sextet_char((b[1] % 16 * 4 + b[2] / 64) as nat),
            sextet_char((b[2] % 64) as nat),
        ] + base64_digits(b.subrange(3, b.len() as int))
    }
}

/// ASCII bytes as text.
pub open spec fn ascii_text(b: Seq<u8>) -> Seq<char> {
    Seq::new(b.len(), |i: int| b[i] as char)
}

/// What is decoded from `s` when `bits` bits, worth `held`, are left over from what came
/// before. Padding is skipped; any other foreign byte refuses the whole.
pub open spec fn base64_bytes(s: Seq<u8>, out: Seq<u8>, held: nat, bits: nat) -> Option<Seq<u8>>
    decreases s.len(),
{
    if s.len() == 0 {
        Some(out)
    } else if s[0] == 0x3D {
        base64_bytes(s.drop_first(), out, held, bits)
    } else {
        match sextet_value(s[0]) {
            None => None,
            Some(v) => {
                let x = held * 64 + v;
                if bits == 0 {
                    base64_bytes(s.drop_first(), out, x, 6)
                } else if bits == 2 {
                    base64_bytes(s.drop_first(), out.push(x as u8), 0, 0)
                } else if bits == 4 {
                    base64_bytes(s.drop_first(), out.push((x / 4) as u8), x % 4, 2)
                } else {
                    base64_bytes(s.drop_first(), out.push((x / 16) as u8), x % 16, 4)
                }
            },
        }
    }
}

proof fn lemma_sextet(v: nat)
    requires
        v < 64,
    ensures
        sextet_value(sextet_char(v)) == Some(v),
        sextet_char(v) != 0x3D,
        sextet_char(v) != 0x2E,
        sextet_char(v) < 0x80,
{
}

proof fn lemma_base64_digits_ascii(b: Seq<u8>)
    ensures
        forall|i: int|
            0 <= i < base64_digits(b).len() ==> (#[trigger] base64_digits(b)[i]) < 0x80
                && base64_digits(b)[i] != 0x2E,
    decreases b.len(),
{
    if b.len() >= 3 {
        lemma_base64_digits_ascii(b.subrange(3, b.len() as int));
        let d = base64_digits(b);
        let rest = base64_digits(b.subrange(3, b.len() as int));
        assert forall|i: int| 0 <= i < d.len() implies (#[trigger] d[i]) < 0x80 && d[i] != 0x2E by {
            if i >= 4 {
                assert(d[i] == rest[i - 4]);
            }
        }
    }
}

/// One digit is taken in.
proof fn lemma_base64_step(s: Seq<u8>, v: nat, out: Seq<u8>, held: nat, bits: nat)
    requires
        s.len() > 0,
        v < 64,
        s[0] == sextet_char(v),
    ensures
        base64_bytes(s, out, held, bits) == ({
            let x = held * 64 + v;
            if bits == 0 {
                base64_bytes(s.drop_first(), out, x, 6)
            } else if bits == 2 {
                base64_bytes(s.drop_first(), out.push(x as u8), 0, 0)
            } else if bits == 4 {
                base64_bytes(s.drop_first(), out.push((x / 4) as u8), x % 4, 2)
            } else {
                base64_bytes(s.drop_first(), out.push((x / 16) as u8), x % 16, 4)
            }
        }),
{
    lemma_sextet(v);
}

proof fn lemma_base64_run(b: Seq<u8>, out: Seq<u8>)
    ensures
        base64_bytes(base64_digits(b), out, 0, 0) == Some(out + b),
    decreases b.len(),
{
    let d = base64_digits(b);
    if b.len() == 0 {
        assert(out + b =~= out);
    } else {
        let v0 = (b[0] / 4) as nat;
        let d1 = d.drop_first();
        let d2 = d1.drop_first();
        lemma_base64_step(d, v0, out, 0, 0);
        if b.len() == 1 {
            let v1 = (b[0] % 4 * 16) as nat;
            lemma_base64_step(d1, v1, out, v0, 6);
            assert(d2 =~= seq![]);
            assert(((v0 * 64 + v1) / 16) as u8 == b[0]);
            assert(out.push(b[0]) =~= out + b);
        } else {
            let v1 = (b[0] % 4 * 16 + b[1] / 16) as nat;
            lemma_base64_step(d1, v1, out, v0, 6);
            assert(((v0 * 64 + v1) / 16) as u8 == b[0]);
            let h1 = (b[1] / 16) as nat;
            assert((v0 * 64 + v1) % 16 == h1);
            let out1 = out.push(b[0]);
            let d3 = d2.drop_first();
            if b.len() == 2 {
                let v2 = (b[1] % 16 * 4) as nat;
                lemma_base64_step(d2, v2, out1, h1, 4);
                assert(((h1 * 64 + v2) / 4) as u8 == b[1]);
                assert(d3 =~= seq![]);
                assert(out1.push(b[1]) =~= out + b);
            } else {
                let v2 = (b[1] % 16 * 4 + b[2] / 64) as nat;
                lemma_base64_step(d2, v2, out1, h1, 4);
                assert(((h1 * 64 + v2) / 4) as u8 == b[1]);
                let h2 = (b[2] / 64) as nat;
                assert((h1 * 64 + v2) % 4 == h2);
                let out2 = out1.push(b[1]);
                let v3 = (b[2] % 64) as nat;
                lemma_base64_step(d3, v3, out2, h2, 2);
                assert((h2 * 64 + v3) as u8 == b[2]);
                let rest = b.subrange(3, b.len() as int);
                assert(d3.drop_first() =~= base64_digits(rest));
                let out3 = out2.push(b[2]);
                lemma_base64_run(rest, out3);
                assert(out3 + rest =~= out + b);
            }
        }
    }
}

/// Bytes survive base64url.
pub proof fn law_base64_round_trip(b: Seq<u8>)
    ensures
        base64_bytes(base64_digits(b), seq![], 0, 0) == Some(b),
{
    lemma_base64_run(b, seq![]);
    assert(Seq::<u8>::empty() + b =~= b);
}

fn sextet_to_char(v: u8) -> (r: u8)
    requires
        v < 64,
    ensures
        r == sextet_char(v as nat),
{
    if v < 26 {
        v + 65
    } else if v < 52 {
        v - 26 + 97
    } else if v < 62 {
        v - 52 + 48
    } else if v == 62 {
        0x2D
    } else {
        0x5F
    }
}

fn char_to_sextet(c: u8) -> (r: Option<u8>)
    ensures
        match r {
            Some(v) => sextet_value(c) == Some(v as nat) && v < 64,
            None => sextet_value(c) is None,
        },
{
    if 65 <= c && c <= 90 {
        Some(c - 65)
    } else if 97 <= c && c <= 122 {
        Some(c - 97 + 26)
    } else if 48 <= c && c <= 57 {
        Some(c - 48 + 52)
    } else if c == 0x2D || c == 0x2B {
        Some(62)
    } else if c == 0x5F || c == 0x2F {
        Some(63)
    } else {
        None
    }
}

/// Base64url without padding, which is what appears in the instance label and in TXT.
pub fn base64url_encode(input: &[u8]) -> (r: String)
    ensures
        r@ == ascii_text(base64_digits(input@)),
{
    let mut out = String::new();
    let ghost mut digits: Seq<u8> = seq![];
    let mut i: usize = 0;
    let n: usize = input.len();
    assert(input@.subrange(0, n as int) =~= input@);
    assert(out@ =~= ascii_text(digits));
    assert(digits + base64_digits(input@) =~= base64_digits(input@));
    while i < n
        invariant
            i <= n == input@.len(),
            out@ == ascii_text(digits),
            digits + base64_digits(input@.subrange(i as int, n as int)) == base64_digits(input@),
        decreases n - i,
    {
        let ghost rest = input@.subrange(i as int, n as int);
        let b0: u8 = input[i];
        let c0: u8 = sextet_to_char(b0 / 4);
        out.push(c0 as char);
        if n - i == 1 {
            let c1: u8 = sextet_to_char(b0 % 4 * 16);
            out.push(c1 as char);
            proof {
                let before = digits;
                digits = digits.push(c0).push(c1);
                assert(out@ =~= ascii_text(digits));
                assert(input@.subrange(i + 1, n as int) =~= seq![]);
                assert(digits + base64_digits(seq![]) =~= before + base64_digits(rest));
            }
            i += 1;
        } else if n - i == 2 {
            let b1: u8 = input[i + 1];
            let c1: u8 = sextet_to_char(b0 % 4 * 16 + b1 / 16);
            let c2: u8 = sextet_to_char(b1 % 16 * 4);
            out.push(c1 as char);
            out.push(c2 as char);
            proof {
                let before = digits;
                digits = digits.push(c0).push(c1).push(c2);
                assert(out@ =~= ascii_text(digits));
                assert(input@.subrange(i + 2, n as int) =~= seq![]);
                assert(digits + base64_digits(seq![]) =~= before + base64_digits(rest));
            }
            i += 2;
        } else {
            let b1: u8 = input[i + 1];
            let b2: u8 = input[i + 2];
            let c1: u8 = sextet_to_char(b0 % 4 * 16 + b1 / 16);
            let c2: u8 = sextet_to_char(b1 % 16 * 4 + b2 / 64);
            let c3: u8 = sextet_to_char(b2 % 64);
            out.push(c1 as char);
            out.push(c2 as char);
            out.push(c3 as char);
            proof {
                let before = digits;
                digits = digits.push(c0).push(c1).push(c2).push(c3);
                assert(out@ =~= ascii_text(digits));
                let next = input@.subrange(i + 3, n as int);
                assert(rest.subrange(3, rest.len() as int) =~= next);
                assert(digits + base64_digits(next) =~= before + base64_digits(rest));
            }
            i += 3;
        }
    }
    assert(input@.subrange(i as int, n as int) =~= seq![]);
    assert(digits =~= base64_digits(input@));
    out
}

/// Decode base64 of either alphabet, padded or not.
pub fn base64_any_decode(input: &[u8]) -> (r: Option<Vec<u8>>)
    ensures
        match r {
            Some(v) => base64_bytes(input@, seq![], 0, 0) == Some(v@),
            None => base64_bytes(input@, seq![], 0, 0) is None,
        },
{
    let mut out: Vec<u8> = Vec::new();
    let mut held: u16 = 0;
    let mut bits: u8 = 0;
    let mut i: usize = 0;
    assert(input@.subrange(0, input@.len() as int) =~= input@);
    assert(out@ =~= seq![]);
    while i < input.len()
        invariant
            i <= input@.len(),
            bits == 0 || bits == 2 || bits == 4 || bits == 6,
            bits == 0 ==> held == 0,
            bits == 2 ==> held < 4,
            bits == 4 ==> held < 16,
            bits == 6 ==> held < 64,
            base64_bytes(
                input@.subrange(i as int, input@.len() as int),
                out@,
                held as nat,
                bits as nat,
            ) == base64_bytes(input@, seq![], 0, 0),
        decreases input@.len() - i,
    {
        let ghost rest = input@.subrange(i as int, input@.len() as int);
        assert(rest.drop_first() =~= input@.subrange(i + 1, input@.len() as int));
        // Accept the standard alphabet too: some responders emit `+` and `/`.
        let c: u8 = input[i];
        i += 1;
        if c != 0x3D {
            match char_to_sextet(c) {
                None => {
                    return None;
                },
                Some(v) => {
                    let x: u16 = held * 64 + v as u16;
                    if bits == 0 {
                        held = x;
                        bits = 6;
                    } else if bits == 2 {
                        out.push(x as u8);
                        held = 0;
                        bits = 0;
                    } else if bits == 4 {
                        out.push((x / 4) as u8);
                        held = x % 4;
                        bits = 2;
                    } else {
                        out.push((x / 16) as u8);
                        held = x % 16;
                        bits = 4;
                    }
                },
            }
        }
    }
    Some(out)
}

pub fn base64url_decode(input: &str) -> (r: Option<Vec<u8>>)
    ensures
        match r {
            Some(v) => base64_bytes(encode_utf8(input@), seq![], 0, 0) == Some(v@),
            None => base64_bytes(encode_utf8(input@), seq![], 0, 0) is None,
        },
{
    base64_any_decode(input.as_bytes())
}

// -------------------------------------------------------------------- naming ---

/// The ten bytes behind an instance name.
pub open spec fn instance_raw(id: Seq<u8>) -> Seq<u8> {
    seq![PCP] + id + seq![0xFCu8, 0x9F, 0x5E, 0, 0]
}

pub open spec fn instance_text(id: Seq<u8>) -> Seq<char> {
    ascii_text(base64_digits(instance_raw(id)))
}

/// The endpoint id in an instance name, when the name was built for this service.
pub open spec fn id_in_instance(instance: Seq<char>) -> Option<Seq<u8>> {
    match base64_bytes(encode_utf8(text::before_first(instance, '.')), seq![], 0, 0) {
        Some(raw) => if raw.len() >= 8 && raw[0] == PCP && raw[5] == 0xFC && raw[6] == 0x9F
            && raw[7] == 0x5E {
            Some(raw.subrange(1, 5))
        } else {
            None
        },
        None => None,
    }
}

/// Build the mDNS instance name for an endpoint id.
///
/// The name is base64url of ten bytes, so it is not human-readable and cannot be compared as
/// a string against an id -- decode it, do not pattern-match it.
pub fn instance_name(endpoint_id: &[u8; 4]) -> (r: String)
    ensures
        r@ == instance_text(endpoint_id@),
{
    let mut raw: Vec<u8> = Vec::new();
    raw.push(PCP);
    raw.push(endpoint_id[0]);
    raw.push(endpoint_id[1]);
    raw.push(endpoint_id[2]);
    raw.push(endpoint_id[3]);
    raw.push(0xFC);
    raw.push(0x9F);
    raw.push(0x5E);
    raw.push(0);
    raw.push(0);
    assert(raw@ =~= instance_raw(endpoint_id@));
    base64url_encode(raw.as_slice())
}

/// Recover an endpoint id from an instance name, rejecting anything that is not ours.
///
/// Checks the hash prefix rather than trusting the service name we browsed on: a responder
/// can put any instance under any service, and an id taken from a record that was not built
/// for this service is not an id at all.
pub fn endpoint_id_from_instance(instance: &str) -> (r: Option<[u8; 4]>)
    ensures
        match r {
            Some(id) => id_in_instance(instance@) == Some(id@),
            None => id_in_instance(instance@) is None,
        },
{
    let label = text::first_piece(instance, '.');
    let raw: Vec<u8> = match base64url_decode(label.as_str()) {
        Some(x) => x,
        None => {
            return None;
        },
    };
    if raw.len() < 8 || raw[0] != PCP {
        return None;
    }
    if raw[5] != 0xFC || raw[6] != 0x9F || raw[7] != 0x5E {
        return None;
    }
    let id: [u8; 4] = [raw[1], raw[2], raw[3], raw[4]];
    assert(id@ =~= raw@.subrange(1, 5));
    Some(id)
}

proof fn lemma_ascii_text(b: Seq<u8>)
    requires
        forall|i: int| 0 <= i < b.len() ==> (#[trigger] b[i]) < 0x80,
    ensures
        is_ascii_chars(ascii_text(b)),
        encode_utf8(ascii_text(b)) == b,
{
    let t = ascii_text(b);
    assert forall|i: int| 0 <= i < t.len() implies '\0' <= #[trigger] t[i] <= '\u{7f}' by {
        assert(b[i] < 0x80);
    }
    is_ascii_chars_encode_utf8(t);
    assert forall|i: int| 0 <= i < b.len() implies encode_utf8(t)[i] == b[i] by {
        assert(t[i] as u8 == encode_utf8(t)[i]);
        assert(b[i] < 0x80);
    }
    assert(encode_utf8(t) =~= b);
}

/// Base64 text is its digits, byte for byte.
pub proof fn lemma_base64_text(b: Seq<u8>)
    ensures
        is_ascii_chars(ascii_text(base64_digits(b))),
        encode_utf8(ascii_text(base64_digits(b))) == base64_digits(b),
        forall|i: int|
            0 <= i < base64_digits(b).len() ==> (#[trigger] ascii_text(base64_digits(b))[i])
                != '.',
{
    lemma_base64_digits_ascii(b);
    lemma_ascii_text(base64_digits(b));
    let d = base64_digits(b);
    assert forall|i: int| 0 <= i < d.len() implies (#[trigger] ascii_text(d)[i]) != '.' by {
        assert(d[i] != 0x2E && d[i] < 0x80);
    }
}

/// The instance name of an endpoint id, under any service, gives the id back.
pub proof fn law_instance_round_trip(id: Seq<u8>, service: Seq<char>)
    requires
        id.len() == 4,
    ensures
        id_in_instance(instance_text(id) + seq!['.'] + service) == Some(id),
        id_in_instance(instance_text(id)) == Some(id),
{
    let raw = instance_raw(id);
    let label = instance_text(id);
    lemma_base64_text(raw);
    law_base64_round_trip(raw);
    let whole = label + seq!['.'] + service;
    text::lemma_find_char_unique(whole, '.', label.len() as int);
    text::lemma_find_char_unique(label, '.', label.len() as int);
    assert(text::before_first(whole, '.') =~= label);
    assert(text::before_first(label, '.') =~= label);
    assert(raw.subrange(1, 5) =~= id);
}

/// The alphabet endpoint ids are drawn from: no `-` or `_`, so an id is always safe inside a
/// DNS label.
pub open spec fn id_char(v: nat) -> u8 {
    sextet_char(v % 62)
}

/// An endpoint id from four random bytes, drawn from the alphabet peers expect.
pub fn endpoint_id_of(random: [u8; 4]) -> (r: [u8; 4])
    ensures
        r@ == Seq::new(4, |i: int| id_char(random@[i] as nat)),
{
    let r: [u8; 4] = [
        sextet_to_char(random[0] % 62),
        sextet_to_char(random[1] % 62),
        sextet_to_char(random[2] % 62),
        sextet_to_char(random[3] % 62),
    ];
    assert(r@ =~= Seq::new(4, |i: int| id_char(random@[i] as nat)));
    r
}

/// An id drawn from random bytes is letters and digits only.
pub proof fn law_endpoint_id_is_plain(v: nat)
    ensures
        48 <= id_char(v) <= 57 || 65 <= id_char(v) <= 90 || 97 <= id_char(v) <= 122,
{
}

/// The identity line for a device of this name under this id.
pub open spec fn identity_text(id: Seq<u8>, device_name: Seq<char>) -> Seq<char> {
    let info = endpoint::Advertised {
        version: 0,
        hidden: false,
        device_type: DeviceType::Phone,
        metadata: Seq::new(16, |i: int| 0u8),
        device_name: Some(device_name),
    };
    "endpoint "@ + text::lossy_text(id) + " -> "@ + instance_text(id) + "."@
        + endpoint::SERVICE_TYPE@ + " ("@ + text::decimal(info.bytes().len())
        + " bytes of endpoint info)"@
}

/// One line describing what this device would advertise as a Quick Share endpoint.
///
/// Wrong derivation shows up here as a malformed instance name rather than as silence during
/// discovery, which is a much harder thing to debug.
pub fn describe_identity(id: &[u8; 4], device_name: &str) -> (r: String)
    ensures
        r@ == identity_text(id@, device_name@),
{
    let info = EndpointInfo {
        version: 0,
        hidden: false,
        device_type: DeviceType::Phone,
        metadata: [0u8; 16],
        device_name: Some(device_name.to_string()),
    };
    assert(info.metadata@ =~= Seq::new(16, |i: int| 0u8));
    let mut id_bytes: Vec<u8> = Vec::new();
    id_bytes.push(id[0]);
    id_bytes.push(id[1]);
    id_bytes.push(id[2]);
    id_bytes.push(id[3]);
    assert(id_bytes@ =~= id@);
    let n: usize = info.encode().len();
    let mut out = String::new();
    out.append("endpoint ");
    out.append(text::utf8_lossy(id_bytes.as_slice()).as_str());
    out.append(" -> ");
    out.append(instance_name(id).as_str());
    out.append(".");
    out.append(endpoint::SERVICE_TYPE);
    out.append(" (");
    text::push_decimal(&mut out, n as u64);
    out.append(" bytes of endpoint info)");
    assert(out@ =~= identity_text(id@, device_name@));
    out
}

/// The digits are those of the alphabet, in its order: large letters, small letters, numerals, and
/// two more, of which the other alphabet's are read too.
pub proof fn law_digits_are_in_order(c: u8)
    ensures
        sextet_value(65) == Some(0nat),
        65 <= c < 90 || 97 <= c < 122 || 48 <= c < 57 ==> sextet_value((c + 1) as u8) == Some(
            (sextet_value(c)->0 + 1) as nat,
        ),
        sextet_value(97) == Some((sextet_value(90)->0 + 1) as nat),
        sextet_value(48) == Some((sextet_value(122)->0 + 1) as nat),
        sextet_value(0x2D) == Some(62nat) && sextet_value(0x2B) == Some(62nat),
        sextet_value(0x5F) == Some(63nat) && sextet_value(0x2F) == Some(63nat),
        sextet_value(c) matches Some(v) ==> v < 64,
        sextet_char(62) == 0x2D && sextet_char(63) == 0x5F,
{
}

/// Four digits are three bytes: they are the same number, with the first byte in front.
pub proof fn law_four_digits_are_three_bytes(a: u8, b: u8, c: u8)
    ensures
        ({
            let d = base64_digits(seq![a, b, c]);
            &&& d.len() == 4
            &&& sextet_value(d[0]) is Some && sextet_value(d[1]) is Some && sextet_value(
                d[2],
            ) is Some && sextet_value(d[3]) is Some
            &&& sextet_value(d[0])->0 * 262144 + sextet_value(d[1])->0 * 4096 + sextet_value(
                d[2],
            )->0 * 64 + sextet_value(d[3])->0 == a * 65536 + b * 256 + c
        }),
{
    let s = seq![a, b, c];
    assert(s.subrange(3, 3) =~= seq![]);
    assert(base64_digits(s.subrange(3, 3)) =~= seq![]);
    lemma_sextet((a / 4) as nat);
    lemma_sextet((a % 4 * 16 + b / 16) as nat);
    lemma_sextet((b % 16 * 4 + c / 64) as nat);
    lemma_sextet((c % 64) as nat);
}

} // verus!
