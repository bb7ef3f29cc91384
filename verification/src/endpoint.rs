//! Quick Share endpoint identity: the service name, and the advertisement payload that
//! carries a device's name and type.

use vstd::prelude::*;
use vstd::utf8::*;
use crate::text;

verus! {

/// The string every Quick Share identifier is derived from.
pub const SERVICE_ID: &'static str = "NearbySharing";

/// mDNS service type: the first six bytes of the SHA-256 of the service id, in hex.
pub const SERVICE_TYPE: &'static str = "_FC9F5ED42C8A._tcp.local";

// Wire layout of the endpoint advertisement.
//
//   byte 0      version:3 | hidden:1 | device_type:3 | reserved:1
//   bytes 1..17 metadata, always 16 bytes (2 salt + 14 encrypted key)
//   if !hidden  1 byte name length, then that many bytes of UTF-8
pub const HEADER_LEN: usize = 1;

pub const METADATA_LEN: usize = 16;

/// What the peer says it is. Only used to pick an icon, so an unknown value is not an error
/// -- a device type we have never heard of is still a device.
#[derive(Debug, Clone, Copy, PartialEq, Eq, Structural)]
pub enum DeviceType {
    Unknown,
    Phone,
    Tablet,
    Laptop,
    Car,
    Foldable,
    Xr,
}

impl DeviceType {
    /// The three bits a device type takes.
    pub open spec fn code(self) -> nat {
        match self {
            DeviceType::Unknown => 0,
            DeviceType::Phone => 1,
            DeviceType::Tablet => 2,
            DeviceType::Laptop => 3,
            DeviceType::Car => 4,
            DeviceType::Foldable => 5,
            DeviceType::Xr => 6,
        }
    }

    pub fn from_raw(raw: u8) -> (r: Self)
        ensures
            raw <= 6 ==> r.code() == raw,
            raw > 6 ==> r == DeviceType::Unknown,
    {
        if raw == 1 {
            DeviceType::Phone
        } else if raw == 2 {
            DeviceType::Tablet
        } else if raw == 3 {
            DeviceType::Laptop
        } else if raw == 4 {
            DeviceType::Car
        } else if raw == 5 {
            DeviceType::Foldable
        } else if raw == 6 {
            DeviceType::Xr
        } else {
            DeviceType::Unknown
        }
    }

    pub fn raw(self) -> (r: u8)
        ensures
            r == self.code(),
    {
        match self {
            DeviceType::Unknown => 0,
            DeviceType::Phone => 1,
            DeviceType::Tablet => 2,
            DeviceType::Laptop => 3,
            DeviceType::Car => 4,
            DeviceType::Foldable => 5,
            DeviceType::Xr => 6,
        }
    }
}

#[derive(Debug)]
pub struct EndpointInfo {
    pub version: u8,
    /// Hidden means "advertise, but do not say who I am". The name is then absent from the
    /// wire entirely rather than blank, which is why `device_name` is an Option and not an
    /// empty string.
    pub hidden: bool,
    pub device_type: DeviceType,
    pub metadata: [u8; 16],
    pub device_name: Option<String>,
}

/// What an advertisement says.
pub struct Advertised {
    pub version: nat,
    pub hidden: bool,
    pub device_type: DeviceType,
    pub metadata: Seq<u8>,
    pub device_name: Option<Seq<char>>,
}

/// The largest index no greater than `c` at which no character of `b` is cut.
pub open spec fn char_start(b: Seq<u8>, c: int) -> int
    decreases c,
{
    if c <= 0 || !is_continuation_byte(b[c]) {
        c
    } else {
        char_start(b, c - 1)
    }
}

/// As much of a name as one length byte can count, cut between characters.
pub open spec fn name_part(name: Seq<char>) -> Seq<u8> {
    let b = encode_utf8(name);
    if b.len() <= 255 {
        b
    } else {
        b.subrange(0, char_start(b, 255))
    }
}

pub open spec fn header_byte(version: nat, hidden: bool, code: nat) -> u8 {
    ((version % 8) * 32 + (if hidden {
        16nat
    } else {
        0nat
    }) + code * 2) as u8
}

pub open spec fn type_of_code(code: nat) -> DeviceType {
    if code == 1 {
        DeviceType::Phone
    } else if code == 2 {
        DeviceType::Tablet
    } else if code == 3 {
        DeviceType::Laptop
    } else if code == 4 {
        DeviceType::Car
    } else if code == 5 {
        DeviceType::Foldable
    } else if code == 6 {
        DeviceType::Xr
    } else {
        DeviceType::Unknown
    }
}

impl Advertised {
    /// An absent name travels as an empty one; a hidden endpoint's not at all.
    pub open spec fn bytes(self) -> Seq<u8> {
        let head = seq![header_byte(self.version, self.hidden, self.device_type.code())]
            + self.metadata;
        if self.hidden {
            head
        } else {
            let part = name_part(
                match self.device_name {
                    Some(n) => n,
                    None => seq![],
                },
            );
            head + seq![part.len() as u8] + part
        }
    }
}

/// What a name record says, if all of it is there.
pub open spec fn name_in(b: Seq<u8>) -> Option<Seq<char>> {
    if b.len() > 17 && 18 + b[17] <= b.len() {
        Some(text::lossy_text(b.subrange(18, 18 + b[17] as int)))
    } else {
        None
    }
}

pub open spec fn advertised_in(b: Seq<u8>) -> Option<Advertised> {
    if b.len() < 17 {
        None
    } else {
        let hidden = b[0] / 16 % 2 == 1;
        Some(
            Advertised {
                version: (b[0] / 32) as nat,
                hidden,
                device_type: type_of_code((b[0] / 2 % 8) as nat),
                metadata: b.subrange(1, 17),
                device_name: if hidden {
                    None
                } else {
                    name_in(b)
                },
            },
        )
    }
}

proof fn lemma_char_start(b: Seq<u8>, c: int)
    requires
        0 <= c < b.len(),
    ensures
        0 <= char_start(b, c) <= c,
        char_start(b, c) > 0 ==> !is_continuation_byte(b[char_start(b, c)]),
    decreases c,
{
    if c > 0 && is_continuation_byte(b[c]) {
        lemma_char_start(b, c - 1);
    }
}

/// What is sent of a name is a prefix of it, in whole characters, that one byte can count.
pub proof fn law_name_part(name: Seq<char>)
    ensures
        valid_utf8(name_part(name)),
        name_part(name).len() <= 255,
        name_part(name) == encode_utf8(name).subrange(0, name_part(name).len() as int),
{
    let b = encode_utf8(name);
    encode_utf8_valid_utf8(name);
    if b.len() <= 255 {
        assert(b.subrange(0, b.len() as int) =~= b);
    } else {
        lemma_char_start(b, 255);
        let c = char_start(b, 255);
        if c > 0 {
            is_char_boundary_iff_not_is_continuation_byte(b, c);
        } else {
            is_char_boundary_start_end_of_seq(b);
        }
        valid_utf8_split(b, c);
        assert(b.subrange(0, c).len() == c);
    }
}

/// An advertisement reads back with its version's three bits and the part of the name that
/// could be sent. A hidden endpoint keeps its name to itself.
pub proof fn law_endpoint_round_trip(a: Advertised)
    requires
        a.metadata.len() == 16,
    ensures
        advertised_in(a.bytes()) == Some(
            Advertised {
                version: a.version % 8,
                hidden: a.hidden,
                device_type: a.device_type,
                metadata: a.metadata,
                device_name: if a.hidden {
                    None
                } else {
                    Some(
                        decode_utf8(
                            name_part(
                                match a.device_name {
                                    Some(n) => n,
                                    None => seq![],
                                },
                            ),
                        ),
                    )
                },
            },
        ),
{
    let b = a.bytes();
    let name = match a.device_name {
        Some(n) => n,
        None => seq![],
    };
    law_name_part(name);
    let part = name_part(name);
    assert(b.subrange(1, 17) =~= a.metadata);
    assert(b[0] == header_byte(a.version, a.hidden, a.device_type.code()));
    assert(type_of_code(a.device_type.code()) == a.device_type);
    if !a.hidden {
        assert(b[17] == part.len() as u8);
        assert(b.subrange(18, (18 + part.len()) as int) =~= part);
    }
}

impl EndpointInfo {
    pub open spec fn advertised(&self) -> Advertised {
        Advertised {
            version: self.version as nat,
            hidden: self.hidden,
            device_type: self.device_type,
            metadata: self.metadata@,
            device_name: match self.device_name {
                Some(n) => Some(n@),
                None => None,
            },
        }
    }

    pub fn encode(&self) -> (r: Vec<u8>)
        ensures
            r@ == self.advertised().bytes(),
    {
        let mut out: Vec<u8> = Vec::new();
        let flag: u8 = if self.hidden {
            16
        } else {
            0
        };
        out.push((self.version % 8) * 32 + flag + self.device_type.raw() * 2);
        let mut i: usize = 0;
        let ghost head = out@;
        while i < 16
            invariant
                i <= 16,
                out@ == head + self.metadata@.subrange(0, i as int),
            decreases 16 - i,
        {
            out.push(self.metadata[i]);
            i += 1;
            assert(out@ =~= head + self.metadata@.subrange(0, i as int));
        }
        assert(self.metadata@.subrange(0, 16) =~= self.metadata@);
        if !self.hidden {
            let empty = String::new();
            let name: &str = match &self.device_name {
                Some(n) => n.as_str(),
                None => empty.as_str(),
            };
            let b = name.as_bytes();
            // One length byte, so a name longer than 255 bytes cannot be expressed. Truncate
            // on a CHARACTER boundary -- cutting mid-codepoint would put invalid UTF-8 on the
            // wire and a peer would show mojibake or drop us.
            let mut cut: usize = b.len();
            if cut > 255 {
                cut = 255;
                while cut > 0 && 0x80 <= b[cut] && b[cut] <= 0xBF
                    invariant
                        cut <= 255 < b@.len(),
                        char_start(b@, cut as int) == char_start(b@, 255),
                    decreases cut,
                {
                    cut -= 1;
                }
            }
            let part = vstd::slice::slice_subrange(b, 0, cut);
            assert(part@ =~= name_part(name@));
            assert(name@ == (match self.advertised().device_name {
                Some(n) => n,
                None => seq![],
            }));
            out.push(part.len() as u8);
            out.extend_from_slice(part);
        }
        assert(out@ =~= self.advertised().bytes());
        out
    }

    /// Returns None only when the buffer cannot hold a header and metadata. Anything past
    /// that is best-effort: a truncated name yields an endpoint without a name rather than
    /// nothing, because a peer we can see but cannot name is still worth showing.
    pub fn parse(bytes: &[u8]) -> (r: Option<Self>)
        ensures
            match r {
                Some(i) => advertised_in(bytes@) == Some(i.advertised()),
                None => advertised_in(bytes@) is None,
            },
    {
        if bytes.len() < HEADER_LEN + METADATA_LEN {
            return None;
        }
        let header: u8 = bytes[0];
        let hidden: bool = header / 16 % 2 == 1;
        let mut metadata: [u8; 16] = [0u8; 16];
        let mut i: usize = 0;
        while i < 16
            invariant
                i <= 16,
                bytes@.len() >= 17,
                forall|j: int| 0 <= j < i ==> #[trigger] metadata@[j] == bytes@[j + 1],
            decreases 16 - i,
        {
            metadata[i] = bytes[i + 1];
            i += 1;
        }
        assert(metadata@ =~= bytes@.subrange(1, 17));
        let mut device_name: Option<String> = None;
        if !hidden && bytes.len() > 17 {
            let len: usize = bytes[17] as usize;
            if len <= bytes.len() - 18 {
                device_name = Some(
                    text::utf8_lossy(vstd::slice::slice_subrange(bytes, 18, 18 + len)),
                );
            }
        }
        Some(
            EndpointInfo {
                version: header / 32,
                hidden,
                device_type: DeviceType::from_raw(header / 2 % 8),
                metadata,
                device_name,
            },
        )
    }
}

/// What stands where in an advertisement: the version in the three highest bits of the first
/// byte, then whether it is hidden, then what kind of device it is; and behind the metadata the
/// length of the name, and the name, unless it is hidden.
pub proof fn law_advertisement_is_laid_out(a: Advertised)
    requires
        a.metadata.len() == 16,
    ensures
        ({
            let b = a.bytes();
            &&& b[0] / 32 == a.version % 8
            &&& (b[0] / 16) % 2 == (if a.hidden {
                1int
            } else {
                0
            })
            &&& (b[0] / 2) % 8 == a.device_type.code()
            &&& b[0] % 2 == 0
            &&& b.subrange(1, 17) == a.metadata
            &&& a.hidden ==> b.len() == 17
            &&& !a.hidden ==> b.len() == 18 + b[17] && b.subrange(18, b.len() as int)
                == name_part(
                match a.device_name {
                    Some(n) => n,
                    None => seq![],
                },
            )
        }),
        DeviceType::Phone.code() == 1 && DeviceType::Tablet.code() == 2
            && DeviceType::Laptop.code() == 3 && DeviceType::Unknown.code() == 0,
        DeviceType::Car.code() == 4 && DeviceType::Foldable.code() == 5 && DeviceType::Xr.code()
            == 6,
{
    let b = a.bytes();
    let name = match a.device_name {
        Some(n) => n,
        None => seq![],
    };
    law_name_part(name);
    assert(b.subrange(1, 17) =~= a.metadata);
    assert(b[0] == header_byte(a.version, a.hidden, a.device_type.code()));
    if !a.hidden {
        assert(b[17] == name_part(name).len() as u8);
        assert(b.subrange(18, b.len() as int) =~= name_part(name));
    }
}

/// A name that one byte can count is sent whole.
pub proof fn law_short_name_is_whole(name: Seq<char>)
    ensures
        encode_utf8(name).len() <= 255 ==> name_part(name) == encode_utf8(name),
{
}

/// A name that is not all there is no name, and neither is one that is not there; the rest of the
/// advertisement is read all the same. What is too short for that says nothing.
pub proof fn law_cut_name_is_no_name(b: Seq<u8>)
    ensures
        advertised_in(b) is Some <==> b.len() >= 17,
        b.len() == 17 ==> advertised_in(b)->0.device_name is None,
        b.len() > 17 && b.len() < 18 + b[17] ==> advertised_in(b)->0.device_name is None,
        b.len() > 17 && b.len() >= 18 + b[17] && (b[0] / 16) % 2 == 0 ==> advertised_in(
            b,
        )->0.device_name == Some(text::lossy_text(b.subrange(18, 18 + b[17] as int))),
        b.len() >= 17 && (b[0] / 16) % 2 == 1 ==> advertised_in(b)->0.device_name is None,
{
}

} // verus!
