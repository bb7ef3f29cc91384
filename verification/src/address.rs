//! Which addresses a peer may send us to.

use vstd::prelude::*;

verus! {

/// An internet address, in network order.
#[derive(Debug, Clone, Copy, PartialEq, Eq)]
pub enum Address {
    V4([u8; 4]),
    V6([u8; 16]),
}

/// 10/8, 172.16/12 and 192.168/16.
pub open spec fn private_v4(o: Seq<u8>) -> bool {
    ||| o[0] == 10
    ||| o[0] == 172 && 16 <= o[1] <= 31
    ||| o[0] == 192 && o[1] == 168
}

/// ::ffff:0:0/96, which carries an IPv4 address in its last four bytes.
pub open spec fn mapped_v4(o: Seq<u8>) -> bool {
    o.subrange(0, 12) == seq![0u8, 0, 0, 0, 0, 0, 0, 0, 0, 0, 0xff, 0xff]
}

/// A peer on a network we are attached to has a private address, or a unique-local one
/// (fc00::/7). An IPv4 address is the same address however it is written.
pub open spec fn plausible(a: Address) -> bool {
    match a {
        Address::V4(o) => private_v4(o@),
        Address::V6(o) => if mapped_v4(o@) {
            private_v4(o@.subrange(12, 16))
        } else {
            o@[0] == 0xfc || o@[0] == 0xfd
        },
    }
}

/// Loopback, unspecified, broadcast, multicast or link-local.
pub open spec fn reserved_v4(o: Seq<u8>) -> bool {
    ||| o[0] == 127
    ||| o == seq![0u8, 0, 0, 0]
    ||| o == seq![255u8, 255, 255, 255]
    ||| 224 <= o[0] <= 239
    ||| o[0] == 169 && o[1] == 254
}

/// Loopback, unspecified, multicast or link-local.
pub open spec fn reserved_v6(o: Seq<u8>) -> bool {
    ||| o == seq![0u8, 0, 0, 0, 0, 0, 0, 0, 0, 0, 0, 0, 0, 0, 0, 1]
    ||| o == seq![0u8, 0, 0, 0, 0, 0, 0, 0, 0, 0, 0, 0, 0, 0, 0, 0]
    ||| o[0] == 0xff
    ||| o[0] == 0xfe && 0x80 <= o[1] < 0xc0
}

/// Nothing reserved is ever a peer: not this device, not a group, not an address that means
/// nothing without an interface. Nor is it one in IPv6 clothing.
pub proof fn law_reserved_is_no_peer(a: Address)
    requires
        match a {
            Address::V4(o) => reserved_v4(o@),
            Address::V6(o) => reserved_v6(o@) || (mapped_v4(o@) && reserved_v4(
                o@.subrange(12, 16),
            )),
        },
    ensures
        !plausible(a),
{
    match a {
        Address::V4(o) => {},
        Address::V6(o) => {
            if mapped_v4(o@) {
                let m = seq![0u8, 0, 0, 0, 0, 0, 0, 0, 0, 0, 0xff, 0xff];
                assert(o@.subrange(0, 12)[0] == m[0]);
                assert(o@.subrange(0, 12)[10] == m[10]);
                assert(o@[0] == 0 && o@[10] == 0xff);
            }
        },
    }
}

/// An IPv4 address written as an IPv6 one is a peer exactly when the IPv4 address is.
pub proof fn law_mapped_is_the_same(v4: [u8; 4], v6: [u8; 16])
    requires
        v6@ == seq![0u8, 0, 0, 0, 0, 0, 0, 0, 0, 0, 0xff, 0xff] + v4@,
    ensures
        plausible(Address::V6(v6)) == plausible(Address::V4(v4)),
{
    assert(v6@.subrange(0, 12) =~= seq![0u8, 0, 0, 0, 0, 0, 0, 0, 0, 0, 0xff, 0xff]);
    assert(v6@.subrange(12, 16) =~= v4@);
}

fn all_zero(o: &[u8; 16], n: usize) -> (r: bool)
    requires
        n <= 16,
    ensures
        r == (forall|i: int| 0 <= i < n ==> o@[i] == 0),
{
    let mut i: usize = 0;
    while i < n
        invariant
            i <= n <= 16,
            forall|j: int| 0 <= j < i ==> o@[j] == 0,
        decreases n - i,
    {
        if o[i] != 0 {
            return false;
        }
        i += 1;
    }
    true
}

fn plausible_v4(o: [u8; 4]) -> (r: bool)
    ensures
        r == private_v4(o@),
{
    // RFC1918 only. Covers Wi-Fi Direct's 192.168.49.0/24 and every ordinary home or office
    // LAN, and leaves out everything reserved and everything public.
    o[0] == 10 || (o[0] == 172 && 16 <= o[1] && o[1] <= 31) || (o[0] == 192 && o[1] == 168)
}

/// Could this plausibly be a peer on a network we are attached to?
///
/// A bandwidth upgrade points at a device that is already link-adjacent: a Wi-Fi Direct group
/// owner on 192.168.49.0/24, or a peer on the same private LAN. Nothing else is ever a
/// legitimate answer, so everything else is refused: this device itself most of all.
pub fn is_plausible_peer(ip: Address) -> (r: bool)
    ensures
        r == plausible(ip),
{
    match ip {
        Address::V4(o) => plausible_v4(o),
        Address::V6(o) => {
            // An IPv4-mapped address would otherwise smuggle a public v4 target through the
            // v6 branch, so check it as v4.
            if all_zero(&o, 10) && o[10] == 0xff && o[11] == 0xff {
                let v4: [u8; 4] = [o[12], o[13], o[14], o[15]];
                assert(o@.subrange(0, 12) =~= seq![0u8, 0, 0, 0, 0, 0, 0, 0, 0, 0, 0xff, 0xff]);
                assert(v4@ =~= o@.subrange(12, 16));
                return plausible_v4(v4);
            }
            proof {
                if mapped_v4(o@) {
                    let m = seq![0u8, 0, 0, 0, 0, 0, 0, 0, 0, 0, 0xff, 0xff];
                    assert forall|i: int| 0 <= i < 12 implies o@[i] == m[i] by {
                        assert(o@.subrange(0, 12)[i] == m[i]);
                    }
                    assert(o@[10] == 0xff && o@[11] == 0xff);
                }
            }
            // fc00::/7 unique-local. Anything else is reserved or globally routable, so not a
            // peer.
            o[0] == 0xfc || o[0] == 0xfd
        },
    }
}

/// The address in `bytes`: four for IPv4, sixteen for IPv6. Anything else is no address.
pub open spec fn address_in(bytes: Seq<u8>) -> Option<Seq<u8>> {
    if bytes.len() == 4 || bytes.len() == 16 {
        Some(bytes)
    } else {
        None
    }
}

impl Address {
    pub open spec fn octets(self) -> Seq<u8> {
        match self {
            Address::V4(o) => o@,
            Address::V6(o) => o@,
        }
    }

    pub fn from_bytes(bytes: &[u8]) -> (r: Option<Address>)
        ensures
            match r {
                Some(a) => address_in(bytes@) == Some(a.octets()),
                None => address_in(bytes@) is None,
            },
    {
        if bytes.len() == 4 {
            let o: [u8; 4] = [bytes[0], bytes[1], bytes[2], bytes[3]];
            assert(o@ =~= bytes@);
            Some(Address::V4(o))
        } else if bytes.len() == 16 {
            let o: [u8; 16] = [
                bytes[0],
                bytes[1],
                bytes[2],
                bytes[3],
                bytes[4],
                bytes[5],
                bytes[6],
                bytes[7],
                bytes[8],
                bytes[9],
                bytes[10],
                bytes[11],
                bytes[12],
                bytes[13],
                bytes[14],
                bytes[15],
            ];
            assert(o@ =~= bytes@);
            Some(Address::V6(o))
        } else {
            None
        }
    }
}

/// Whether two IPv6 addresses are the same.
pub fn same_bytes(a: &[u8; 16], b: &[u8; 16]) -> (r: bool)
    ensures
        r == (a@ == b@),
{
    let mut i: usize = 0;
    while i < 16
        invariant
            i <= 16,
            forall|j: int| 0 <= j < i ==> a@[j] == b@[j],
        decreases 16 - i,
    {
        if a[i] != b[i] {
            return false;
        }
        i += 1;
    }
    assert(a@ =~= b@);
    true
}

/// Every address of a private network can be a peer's: 10/8, 172.16/12, 192.168/16, and fc00::/7.
pub proof fn law_private_is_a_peer(v4: [u8; 4], v6: [u8; 16])
    ensures
        v4@[0] == 10 ==> plausible(Address::V4(v4)),
        v4@[0] == 172 && v4@[1] & 0xf0 == 16 ==> plausible(Address::V4(v4)),
        v4@[0] == 192 && v4@[1] == 168 ==> plausible(Address::V4(v4)),
        v6@[0] & 0xfe == 0xfc ==> plausible(Address::V6(v6)),
        v4@[0] != 10 && v4@[0] != 172 && v4@[0] != 192 ==> !plausible(Address::V4(v4)),
        v4@[0] == 172 && v4@[1] & 0xf0 != 16 ==> !plausible(Address::V4(v4)),
{
    let b = v4@[1];
    let c = v6@[0];
    assert((b & 0xf0 == 16) <==> (16 <= b && b <= 31)) by (bit_vector);
    assert((c & 0xfe == 0xfc) <==> (c == 0xfc || c == 0xfd)) by (bit_vector);
    if c & 0xfe == 0xfc {
        let head = v6@.subrange(0, 12);
        assert(head[0] == c);
        assert(seq![0u8, 0, 0, 0, 0, 0, 0, 0, 0, 0, 0xff, 0xff][0] == 0);
    }
}

} // verus!
