//! AirDrop discovery by mDNS on the AWDL link.
//!
//! Peers advertise `_airdrop._tcp.local` over multicast on that interface. This keeps the
//! table of those that were heard, says who we are, and answers those who ask.

use vstd::prelude::*;
use vstd::utf8::*;
use crate::address;
use crate::clock;
use crate::discovery;
use crate::dns;
use crate::dns_laws;
use crate::text;
use crate::wire;

verus! {

pub const AIRDROP_SERVICE: &'static str = "_airdrop._tcp.local";

/// Port we claim in SRV.
pub const AIRDROP_PORT: u16 = 8770;

/// DNS-SD service enumeration.
pub const SERVICE_ENUM: &'static str = "_services._dns-sd._udp.local";

/// The TXT a working Android peer sends.
pub const AIRDROP_FLAGS: &'static str = "flags=489";

/// Seconds. Short enough that a peer walking away disappears reasonably soon.
pub const TTL: u32 = 120;

/// Any type will do.
pub const QTYPE_ANY: u16 = 255;

// ----------------------------------------------------------------- identity ---

pub open spec fn hex_digit(c: char) -> bool {
    '0' <= c <= '9' || 'a' <= c <= 'f' || 'A' <= c <= 'F'
}

/// Twelve hexadecimal digits, in small letters: the shape Apple uses.
pub open spec fn is_instance(s: Seq<char>) -> bool {
    s.len() == 12 && forall|i: int|
        0 <= i < 12 ==> ('0' <= #[trigger] s[i] <= '9' || 'a' <= s[i] <= 'f')
}

/// An instance written in either case.
pub open spec fn instance_in(s: Seq<char>) -> Option<Seq<char>> {
    if s.len() == 12 && forall|i: int| 0 <= i < 12 ==> hex_digit(#[trigger] s[i]) {
        Some(text::ascii_lower_text(s))
    } else {
        None
    }
}

/// A text without its colons.
pub open spec fn without_colons(s: Seq<char>) -> Seq<char>
    decreases s.len(),
{
    if s.len() == 0 {
        seq![]
    } else {
        let before = without_colons(s.drop_last());
        if s.last() == ':' {
            before
        } else {
            before.push(s.last())
        }
    }
}

/// The instance derived from an interface's MAC: a fixed placeholder when there is none.
pub open spec fn mac_instance(mac: Option<Seq<char>>) -> Seq<char> {
    match mac {
        Some(m) => match instance_in(without_colons(text::trim_text(m))) {
            Some(i) => i,
            None => "000000000000"@,
        },
        None => "000000000000"@,
    }
}

fn instance_of(s: &str) -> (r: Option<String>)
    ensures
        match r {
            Some(i) => instance_in(s@) == Some(i@) && is_instance(i@),
            None => instance_in(s@) is None,
        },
{
    let v = text::chars_of(s);
    if v.len() != 12 {
        return None;
    }
    let mut i: usize = 0;
    while i < 12
        invariant
            i <= 12,
            v@ == s@,
            v@.len() == 12,
            forall|j: int| 0 <= j < i ==> hex_digit(#[trigger] s@[j]),
        decreases 12 - i,
    {
        let c: char = v[i];
        if !(('0' <= c && c <= '9') || ('a' <= c && c <= 'f') || ('A' <= c && c <= 'F')) {
            assert(!hex_digit(s@[i as int]));
            return None;
        }
        i += 1;
    }
    let r = text::to_lower(s);
    assert forall|j: int| 0 <= j < 12 implies ('0' <= #[trigger] r@[j] <= '9' || 'a' <= r@[j]
        <= 'f') by {
        assert(hex_digit(s@[j]));
        let c = s@[j];
        if 'A' <= c <= 'F' {
            assert(r@[j] as u32 == c as u32 + 32);
        }
    }
    Some(r)
}

/// A 12-hex-character instance name derived from the interface MAC. The last resort when no
/// identity can be read or minted: a fixed placeholder is better than a random name that
/// changes every restart and litters peers' caches.
pub fn instance_name(mac: Option<&str>) -> (r: String)
    ensures
        r@ == mac_instance(
            match mac {
                Some(m) => Some(m@),
                None => None,
            },
        ),
        is_instance(r@),
{
    let placeholder = "000000000000".to_owned();
    proof {
        reveal_strlit("000000000000");
    }
    match mac {
        Some(m) => {
            let t = text::trim(m);
            let v = text::chars_of(t.as_str());
            let mut hex = String::new();
            let mut i: usize = 0;
            assert(v@.subrange(0, 0) =~= seq![]);
            assert(hex@ =~= seq![]);
            while i < v.len()
                invariant
                    i <= v@.len(),
                    hex@ == without_colons(v@.subrange(0, i as int)),
                decreases v@.len() - i,
            {
                assert(v@.subrange(0, i + 1).drop_last() =~= v@.subrange(0, i as int));
                if v[i] != ':' {
                    hex.push(v[i]);
                }
                i += 1;
            }
            assert(v@.subrange(0, i as int) =~= v@);
            match instance_of(hex.as_str()) {
                Some(x) => x,
                None => placeholder,
            }
        },
        None => placeholder,
    }
}

/// Where an instance name comes from.
#[derive(Debug, Clone, Copy, PartialEq, Eq, Structural)]
pub enum Source {
    Stored,
    /// Made up now, and to be stored.
    Minted,
    Interface,
}

proof fn lemma_hex_text(b: Seq<u8>)
    ensures
        text::hex_text(b).len() == 2 * b.len(),
        forall|i: int|
            0 <= i < text::hex_text(b).len() ==> ('0' <= #[trigger] text::hex_text(b)[i] <= '9'
                || 'a' <= text::hex_text(b)[i] <= 'f'),
    decreases b.len(),
{
    if b.len() > 0 {
        lemma_hex_text(b.drop_last());
    }
}

/// Which instance name it is, and where that is from.
pub open spec fn identity(
    stored: Option<Seq<char>>,
    random: Option<Seq<u8>>,
    mac: Option<Seq<char>>,
) -> (Seq<char>, Source) {
    let kept = match stored {
        Some(s) => instance_in(text::trim_text(s)),
        None => None,
    };
    match kept {
        Some(i) => (i, Source::Stored),
        None => match random {
            Some(b) => (text::hex_text(b), Source::Minted),
            None => (mac_instance(mac), Source::Interface),
        },
    }
}

/// A stable 12-hex instance name, kept across sessions.
///
/// The name is what an Apple peer keys its cache on. One derived from the interface changes
/// every time the radio is acquired, and the previous ones linger as unreachable tiles. So the
/// stored value is used if it is well-formed, else one is minted from six random bytes; without
/// randomness the interface's MAC has to do.
pub fn stable_instance(
    stored: Option<&str>,
    random: Option<[u8; 6]>,
    mac: Option<&str>,
) -> (r: (String, Source))
    ensures
        is_instance(r.0@),
        (r.0@, r.1) == identity(
            match stored {
                Some(s) => Some(s@),
                None => None,
            },
            match random {
                Some(b) => Some(b@),
                None => None,
            },
            match mac {
                Some(m) => Some(m@),
                None => None,
            },
        ),
{
    match stored {
        Some(s) => {
            let t = text::trim(s);
            match instance_of(t.as_str()) {
                Some(i) => {
                    return (i, Source::Stored);
                },
                None => {},
            }
        },
        None => {},
    }
    match random {
        Some(b) => {
            let mut v: Vec<u8> = Vec::new();
            v.push(b[0]);
            v.push(b[1]);
            v.push(b[2]);
            v.push(b[3]);
            v.push(b[4]);
            v.push(b[5]);
            assert(v@ =~= b@);
            proof {
                lemma_hex_text(b@);
            }
            (text::hex(v.as_slice()), Source::Minted)
        },
        None => (instance_name(mac), Source::Interface),
    }
}

/// An instance that was minted and stored is the one that is read next time.
pub proof fn law_identity_is_stable(b: Seq<u8>)
    requires
        b.len() == 6,
    ensures
        instance_in(text::trim_text(text::hex_text(b))) == Some(text::hex_text(b)),
{
    let h = text::hex_text(b);
    lemma_hex_text(b);
    assert(text::trim_text(h) == h) by {
        assert('0' <= h[0] <= '9' || 'a' <= h[0] <= 'f');
        assert('0' <= h[11] <= '9' || 'a' <= h[11] <= 'f');
    }
    assert forall|i: int| 0 <= i < 12 implies hex_digit(#[trigger] h[i]) by {}
    assert forall|i: int| 0 <= i < 12 implies text::ascii_lower(#[trigger] h[i]) == h[i] by {
        assert('0' <= h[i] <= '9' || 'a' <= h[i] <= 'f');
    }
    assert(text::ascii_lower_text(h) =~= h);
}

// ----------------------------------------------------------------- addresses ---

/// The lines of a text: what is behind the last line feed is one only if there is anything.
pub open spec fn lines_of(s: Seq<char>) -> Seq<Seq<char>> {
    let p = text::split_text(s, '\n');
    if p.last().len() == 0 {
        p.drop_last()
    } else {
        p
    }
}

pub open spec fn octet_at(s: Seq<char>, i: int) -> Option<nat> {
    text::parsed_uint(s.subrange(2 * i, 2 * i + 2), 16, 255)
}

/// The address in 32 hexadecimal digits.
pub open spec fn octets_in(s: Seq<char>) -> Option<Seq<u8>> {
    if s.len() == 32 && forall|i: int| 0 <= i < 16 ==> #[trigger] octet_at(s, i) is Some {
        Some(Seq::new(16, |i: int| octet_at(s, i)->0 as u8))
    } else {
        None
    }
}

/// The link-local address of an interface in the kernel's list: one line for each address, its
/// digits first and its interface last. A blank line ends the search.
pub open spec fn link_local_in(lines: Seq<Seq<char>>, iface: Seq<char>) -> Option<Seq<u8>>
    decreases lines.len(),
{
    if lines.len() == 0 {
        None
    } else {
        let w = text::words_text(lines[0]);
        if w.len() == 0 {
            None
        } else if w.last() != iface || encode_utf8(w[0]).len() != 32 || !text::starts_with_text(
            w[0],
            "fe80"@,
        ) {
            link_local_in(lines.drop_first(), iface)
        } else {
            octets_in(w[0])
        }
    }
}

fn read_octets(s: &str) -> (r: Option<[u8; 16]>)
    ensures
        match r {
            Some(o) => octets_in(s@) == Some(o@),
            None => octets_in(s@) is None,
        },
{
    let v = text::chars_of(s);
    if v.len() != 32 {
        return None;
    }
    let mut out: [u8; 16] = [0u8; 16];
    let mut i: usize = 0;
    while i < 16
        invariant
            i <= 16,
            v@ == s@,
            v@.len() == 32,
            forall|j: int|
                0 <= j < i ==> #[trigger] octet_at(s@, j) is Some && out@[j] == octet_at(
                    s@,
                    j,
                )->0,
        decreases 16 - i,
    {
        let two = text::text_of(&v, 2 * i, 2 * i + 2);
        match text::parse_uint(two.as_str(), 16, 255) {
            Some(n) => {
                assert(octet_at(s@, i as int) == Some(n as nat));
                out[i] = n as u8;
            },
            None => {
                assert(octet_at(s@, i as int) is None);
                return None;
            },
        }
        i += 1;
    }
    assert(out@ =~= Seq::new(16, |i: int| octet_at(s@, i)->0 as u8));
    Some(out)
}

/// The interface's IPv6 link-local address, out of the kernel's list of addresses.
pub fn link_local_of(data: &str, iface: &str) -> (r: Option<[u8; 16]>)
    ensures
        match r {
            Some(o) => link_local_in(lines_of(data@), iface@) == Some(o@),
            None => link_local_in(lines_of(data@), iface@) is None,
        },
{
    let pieces = text::split(data, '\n');
    let ghost all = text::texts(pieces@);
    proof {
        text::lemma_split_text_len(data@, '\n');
    }
    let n: usize = if pieces[pieces.len() - 1].as_str().is_empty() {
        pieces.len() - 1
    } else {
        pieces.len()
    };
    let ghost lines = all.subrange(0, n as int);
    assert(all.last() == pieces@[pieces@.len() - 1]@);
    assert(lines =~= lines_of(data@));
    let mut i: usize = 0;
    assert(lines.subrange(0, n as int) =~= lines);
    while i < n
        invariant
            i <= n <= pieces@.len(),
            all == text::texts(pieces@),
            lines == all.subrange(0, n as int),
            lines == lines_of(data@),
            link_local_in(lines.subrange(i as int, n as int), iface@) == link_local_in(
                lines,
                iface@,
            ),
        decreases n - i,
    {
        let ghost rest = lines.subrange(i as int, n as int);
        assert(rest.drop_first() =~= lines.subrange(i + 1, n as int));
        assert(rest[0] == pieces@[i as int]@);
        let w = text::words(pieces[i].as_str());
        let ghost ws = text::texts(w@);
        if w.len() == 0 {
            return None;
        }
        assert(ws[0] == w@[0]@);
        assert(ws.last() == w@[w@.len() - 1]@);
        let addr: &str = w[0].as_str();
        let name: &str = w[w.len() - 1].as_str();
        let digits: usize = addr.as_bytes().len();
        if text::same(name, iface) && digits == 32 && text::starts_with(addr, "fe80") {
            return read_octets(addr);
        }
        i += 1;
    }
    None
}

// -------------------------------------------------------------------- peers ---

/// A peer found by mDNS. Times are milliseconds on the caller's clock.
#[derive(Debug)]
pub struct Peer {
    /// The mDNS instance name, e.g. `abc123def456._airdrop._tcp.local`.
    pub instance: String,
    /// Host from the SRV record, if seen.
    pub host: String,
    pub port: u16,
    pub addr: Option<[u8; 16]>,
    pub last_seen: u64,
}

impl Clone for Peer {
    fn clone(&self) -> (r: Self)
        ensures
            r == *self,
    {
        Peer {
            instance: self.instance.clone(),
            host: self.host.clone(),
            port: self.port,
            addr: self.addr,
            last_seen: self.last_seen,
        }
    }
}

/// What is known of a peer.
pub struct Seen {
    pub instance: Seq<char>,
    pub host: Seq<char>,
    pub port: u16,
    pub addr: Option<Seq<u8>>,
    pub last_seen: u64,
}

pub open spec fn addr_view(a: Option<[u8; 16]>) -> Option<Seq<u8>> {
    match a {
        Some(o) => Some(o@),
        None => None,
    }
}

impl Peer {
    pub open spec fn seen(&self) -> Seen {
        Seen {
            instance: self.instance@,
            host: self.host@,
            port: self.port,
            addr: addr_view(self.addr),
            last_seen: self.last_seen,
        }
    }

    /// Apple's instance names are 12 hex characters, which is an identifier and not a name a
    /// person would recognise. Show it until there is something friendlier.
    pub fn short_id(&self) -> (r: String)
        ensures
            r@ == text::before_first(self.instance@, '.'),
    {
        text::first_piece(self.instance.as_str(), '.')
    }
}

pub open spec fn all_seen(v: Seq<Peer>) -> Seq<Seen> {
    Seq::new(v.len(), |i: int| v[i].seen())
}

pub open spec fn lists(peers: Seq<Seen>, instance: Seq<char>) -> bool {
    exists|i: int| 0 <= i < peers.len() && (#[trigger] peers[i]).instance == instance
}

pub open spec fn one_row_each(peers: Seq<Seen>) -> bool {
    forall|i: int, j: int|
        0 <= i < j < peers.len() ==> (#[trigger] peers[i]).instance != (
        #[trigger] peers[j]).instance
}

pub open spec fn touched(peers: Seq<Seen>, instance: Seq<char>, now: u64) -> Seq<Seen> {
    Seq::new(
        peers.len(),
        |i: int|
            if peers[i].instance == instance {
                Seen { last_seen: now, ..peers[i] }
            } else {
                peers[i]
            },
    )
}

pub open spec fn located(
    peers: Seq<Seen>,
    instance: Seq<char>,
    host: Seq<char>,
    port: u16,
    now: u64,
) -> Seq<Seen> {
    Seq::new(
        peers.len(),
        |i: int|
            if peers[i].instance == instance {
                Seen { host, port, last_seen: now, ..peers[i] }
            } else {
                peers[i]
            },
    )
}

pub open spec fn addressed(
    peers: Seq<Seen>,
    host: Seq<char>,
    addr: Seq<u8>,
    now: u64,
) -> Seq<Seen> {
    Seq::new(
        peers.len(),
        |i: int|
            if peers[i].host.len() > 0 && peers[i].host == host {
                Seen { addr: Some(addr), last_seen: now, ..peers[i] }
            } else {
                peers[i]
            },
    )
}

pub open spec fn not_on(peers: Seq<Seen>, host: Seq<char>) -> Seq<Seen> {
    peers.filter(|p: Seen| p.host != host)
}

/// An instance under the service.
pub open spec fn full_instance(instance: Seq<char>) -> Seq<char> {
    instance + seq!['.'] + AIRDROP_SERVICE@
}

/// Who is asking: ourselves, by the name we were built with or the one we would have now, and
/// by the address that is ours at this moment.
pub struct Us {
    pub instance: Seq<char>,
    pub now_instance: Seq<char>,
    pub addr: Option<Seq<u8>>,
}

impl Us {
    /// The two names disagree exactly when it matters.
    pub open spec fn is_instance(self, instance: Seq<char>) -> bool {
        instance == full_instance(self.instance) || instance == full_instance(self.now_instance)
    }
}

/// The table after one record.
pub open spec fn absorbed(
    us: Us,
    peers: Seq<Seen>,
    packet: Seq<u8>,
    rec: dns::Told,
    now: u64,
) -> Seq<Seen> {
    if rec.rtype == dns::TYPE_PTR && rec.name == AIRDROP_SERVICE@ {
        match dns::name_at(packet, rec.rdata_at, 0, seq![]) {
            None => peers,
            Some(instance) => if us.is_instance(instance) {
                peers
            } else if lists(peers, instance) {
                touched(peers, instance, now)
            } else {
                peers.push(
                    Seen { instance, host: seq![], port: 0, addr: None, last_seen: now },
                )
            },
        }
    } else if rec.rtype == dns::TYPE_SRV {
        if rec.rdata.len() >= 6 {
            let host = match dns::name_at(packet, rec.rdata_at + 6, 0, seq![]) {
                Some(h) => h,
                None => seq![],
            };
            located(peers, rec.name, host, (rec.rdata[4] * 256 + rec.rdata[5]) as u16, now)
        } else {
            peers
        }
    } else if rec.rtype == dns::TYPE_AAAA && rec.rdata.len() == 16 {
        if us.addr == Some(rec.rdata) {
            // An entry with a name and a port and no address is still offered to the client,
            // and is still us: drop it.
            not_on(peers, rec.name)
        } else {
            addressed(peers, rec.name, rec.rdata, now)
        }
    } else {
        peers
    }
}

/// The table after the first `n` records.
pub open spec fn absorbed_all(
    us: Us,
    peers: Seq<Seen>,
    packet: Seq<u8>,
    recs: Seq<dns::Told>,
    n: nat,
    now: u64,
) -> Seq<Seen>
    decreases n,
{
    if n == 0 {
        peers
    } else {
        absorbed(
            us,
            absorbed_all(us, peers, packet, recs, (n - 1) as nat, now),
            packet,
            recs[n - 1],
            now,
        )
    }
}

/// The table without those not heard of for `older_than`.
pub open spec fn kept(peers: Seq<Seen>, now: u64, older_than: u64) -> Seq<Seen> {
    peers.filter(|p: Seen| clock::since(now, p.last_seen) < older_than)
}

/// What is offered: nobody at our own address.
pub open spec fn others(peers: Seq<Seen>, me: Option<Seq<u8>>) -> Seq<Seen> {
    peers.filter(|p: Seen| p.addr is None || p.addr != me)
}

proof fn lemma_filter_rows(peers: Seq<Seen>, keep: spec_fn(Seen) -> bool)
    requires
        one_row_each(peers),
    ensures
        one_row_each(peers.filter(keep)),
        forall|i: int|
            0 <= i < peers.filter(keep).len() ==> peers.contains(#[trigger] peers.filter(keep)[i]),
    decreases peers.len(),
{
    reveal(Seq::filter);
    if peers.len() > 0 {
        let p = peers.drop_last();
        assert forall|i: int, j: int| 0 <= i < j < p.len() implies (#[trigger] p[i]).instance != (
        #[trigger] p[j]).instance by {
            assert(p[i] == peers[i] && p[j] == peers[j]);
        }
        lemma_filter_rows(p, keep);
        let f = p.filter(keep);
        let g = peers.filter(keep);
        assert forall|i: int| 0 <= i < g.len() implies peers.contains(#[trigger] g[i]) by {
            if i < f.len() {
                assert(g[i] == f[i]);
                assert(p.contains(f[i]));
                let k = choose|k: int| 0 <= k < p.len() && p[k] == f[i];
                assert(peers[k] == f[i]);
            } else {
                assert(peers[peers.len() - 1] == g[i]);
            }
        }
        assert forall|i: int, j: int| 0 <= i < j < g.len() implies (#[trigger] g[i]).instance != (
        #[trigger] g[j]).instance by {
            assert(g[i] == f[i]);
            if j < f.len() {
                assert(g[j] == f[j]);
            } else {
                assert(p.contains(f[i]));
                let k = choose|k: int| 0 <= k < p.len() && p[k] == f[i];
                assert(peers[k] == f[i]);
                assert(peers[peers.len() - 1] == g[j]);
            }
        }
    }
}

proof fn lemma_absorbed_rows(us: Us, peers: Seq<Seen>, packet: Seq<u8>, rec: dns::Told, now: u64)
    requires
        one_row_each(peers),
    ensures
        one_row_each(absorbed(us, peers, packet, rec, now)),
{
    let after = absorbed(us, peers, packet, rec, now);
    if rec.rtype == dns::TYPE_AAAA && rec.rdata.len() == 16 && us.addr == Some(rec.rdata) {
        lemma_filter_rows(peers, |p: Seen| p.host != rec.name);
    } else if after.len() == peers.len() {
        assert(forall|i: int|
            0 <= i < peers.len() ==> (#[trigger] after[i]).instance == peers[i].instance);
    } else {
        assert forall|i: int, j: int| 0 <= i < j < after.len() implies (
        #[trigger] after[i]).instance != (#[trigger] after[j]).instance by {
            assert(after[i] == peers[i]);
        }
    }
}

// --------------------------------------------------------------- our records ---

/// A host distinct from the rotating service identity.
pub open spec fn host_of(instance: Seq<char>) -> Seq<char> {
    "Android_"@ + text::ascii_upper_text(instance.subrange(0, 8)) + ".local"@
}

pub open spec fn upper_digit(d: nat) -> char {
    text::ascii_upper(text::digit_char(d))
}

/// The nibbles of an address from the last to the first, each with a dot.
pub open spec fn reversed_nibbles(b: Seq<u8>) -> Seq<char>
    decreases b.len(),
{
    if b.len() == 0 {
        seq![]
    } else {
        seq![upper_digit(b.last() as nat % 16), '.', upper_digit(b.last() as nat / 16), '.']
            + reversed_nibbles(b.drop_last())
    }
}

/// `fe80::1` -> `1.0.0....8.E.F.ip6.arpa`, the reverse-lookup name.
pub open spec fn reverse_text(addr: Seq<u8>) -> Seq<char> {
    reversed_nibbles(addr) + "ip6.arpa"@
}

pub fn reverse_name(a: &[u8; 16]) -> (r: String)
    ensures
        r@ == reverse_text(a@),
{
    let mut out = String::new();
    let mut i: usize = 16;
    assert(a@.subrange(0, 16) =~= a@);
    assert(out@ + reversed_nibbles(a@.subrange(0, 16)) =~= reversed_nibbles(a@));
    while i > 0
        invariant
            i <= 16,
            out@ + reversed_nibbles(a@.subrange(0, i as int)) == reversed_nibbles(a@),
        decreases i,
    {
        let ghost was = out@;
        let ghost part = a@.subrange(0, i as int);
        assert(part.drop_last() =~= a@.subrange(0, i - 1));
        assert(part.last() == a@[i - 1]);
        let b: u8 = a[i - 1];
        out.push(upper_nibble(b % 16));
        out.push('.');
        out.push(upper_nibble(b / 16));
        out.push('.');
        i -= 1;
        assert(out@ + reversed_nibbles(a@.subrange(0, i as int)) =~= was + reversed_nibbles(part));
    }
    assert(out@ =~= reversed_nibbles(a@));
    out.append("ip6.arpa");
    out
}

fn upper_nibble(d: u8) -> (r: char)
    requires
        d < 16,
    ensures
        r == upper_digit(d as nat),
{
    if d < 10 {
        (d + 48) as char
    } else {
        (d - 10 + 65) as char
    }
}

/// The record set that describes us: what we are, where, and how to reach us.
pub open spec fn our_records(
    instance: Seq<char>,
    addr: Option<Seq<u8>>,
    ttl: u32,
) -> Seq<dns_laws::Outgoing> {
    let inst = full_instance(instance);
    let host = host_of(instance);
    let first = seq![
        dns_laws::Outgoing {
            name: SERVICE_ENUM@,
            rtype: dns::TYPE_PTR,
            ttl,
            rdata: dns::name_bytes(AIRDROP_SERVICE@),
            flush: false,
        },
        dns_laws::Outgoing {
            name: AIRDROP_SERVICE@,
            rtype: dns::TYPE_PTR,
            ttl,
            rdata: dns::name_bytes(inst),
            flush: false,
        },
        dns_laws::Outgoing {
            name: inst,
            rtype: dns::TYPE_SRV,
            ttl,
            rdata: discovery::srv_rdata(AIRDROP_PORT, host),
            flush: true,
        },
        dns_laws::Outgoing {
            name: inst,
            rtype: dns::TYPE_TXT,
            ttl,
            rdata: dns::txt_entry(AIRDROP_FLAGS@),
            flush: true,
        },
    ];
    let where_ = match addr {
        Some(a) => seq![
            dns_laws::Outgoing {
                name: host,
                rtype: dns::TYPE_AAAA,
                ttl,
                rdata: a,
                flush: true,
            },
            // Reverse lookup.
            dns_laws::Outgoing {
                name: reverse_text(a),
                rtype: dns::TYPE_PTR,
                ttl,
                rdata: dns::name_bytes(host),
                flush: true,
            },
        ],
        None => seq![],
    };
    // The correct reply to a query for a type we do not have -- notably A on our host.
    let not_else = seq![
        dns_laws::Outgoing {
            name: inst,
            rtype: dns::TYPE_NSEC,
            ttl,
            rdata: dns::nsec_bytes(inst, seq![dns::TYPE_TXT, dns::TYPE_SRV]),
            flush: true,
        },
        dns_laws::Outgoing {
            name: host,
            rtype: dns::TYPE_NSEC,
            ttl,
            rdata: dns::nsec_bytes(host, seq![dns::TYPE_AAAA]),
            flush: true,
        },
    ];
    first + where_ + not_else
}

/// Whether a question is about us, and of a type that describes what it names. A query for A on
/// our host counts: Apple's stack asks for it even on an IPv6-only link, and silence looks like
/// a host that does not exist.
pub open spec fn about_us(instance: Seq<char>, q: dns::Asked) -> bool {
    if q.name == AIRDROP_SERVICE@ {
        q.qtype == dns::TYPE_PTR || q.qtype == QTYPE_ANY
    } else if q.name == full_instance(instance) {
        q.qtype == dns::TYPE_SRV || q.qtype == dns::TYPE_TXT || q.qtype == QTYPE_ANY
    } else if q.name == host_of(instance) {
        q.qtype == dns::TYPE_AAAA || q.qtype == dns::TYPE_A || q.qtype == QTYPE_ANY
    } else {
        false
    }
}

pub open spec fn asks_for_us(instance: Seq<char>, questions: Seq<dns::Asked>) -> bool {
    exists|i: int| 0 <= i < questions.len() && about_us(instance, #[trigger] questions[i])
}

/// How often a withdrawal is said: one that is lost has no second chance.
pub const GOODBYES: u32 = 3;

/// How far apart, in milliseconds.
pub const GOODBYE_GAP: u64 = 100;

pub open spec fn next_goodbye(said: u32) -> Option<u64> {
    if said >= GOODBYES {
        None
    } else if said == 0 {
        Some(0u64)
    } else {
        Some(GOODBYE_GAP)
    }
}

/// A withdrawal is said at once, and then again a tenth of a second apart, three times in all.
pub proof fn law_goodbye_is_said_three_times(said: u32)
    ensures
        next_goodbye(said) is Some <==> said < 3,
        next_goodbye(0) == Some(0u64),
        0 < said < 3 ==> next_goodbye(said) == Some(100u64),
{
}

/// How long to wait before a withdrawal is said again, after it was said so many times. `None`
/// once that is enough.
pub fn goodbye_wait(said: u32) -> (r: Option<u64>)
    ensures
        r == next_goodbye(said),
{
    if said >= GOODBYES {
        None
    } else if said == 0 {
        Some(0)
    } else {
        Some(GOODBYE_GAP)
    }
}

pub struct Browser {
    peers: Vec<Peer>,
    /// Our own instance name. Apple uses 12 hex characters and so do we, because peers display
    /// it and an unusual shape is a way to look wrong.
    instance: String,
    advertising: bool,
    /// Whether we hold port 5353. A responder MUST: a peer sends its query to :5353 and will
    /// not see an answer from anywhere else.
    can_respond: bool,
}

impl Browser {
    pub closed spec fn table(&self) -> Seq<Seen> {
        all_seen(self.peers@)
    }

    pub closed spec fn name(&self) -> Seq<char> {
        self.instance@
    }

    pub closed spec fn is_advertising(&self) -> bool {
        self.advertising
    }

    pub closed spec fn responds(&self) -> bool {
        self.can_respond
    }

    /// One row for each instance, and a name of our own in the usual shape.
    pub open spec fn wf(&self) -> bool {
        one_row_each(self.table()) && is_instance(self.name())
    }

    pub open spec fn us(&self, now_instance: Seq<char>, me: Option<Seq<u8>>) -> Us {
        Us { instance: self.name(), now_instance, addr: me }
    }

    pub open spec fn packet(&self, me: Option<Seq<u8>>, ttl: u32) -> Seq<u8> {
        dns::response_bytes(dns_laws::all_bytes(our_records(self.name(), me, ttl)))
    }

    pub fn new(instance: String, can_respond: bool) -> (r: Self)
        requires
            is_instance(instance@),
        ensures
            r.wf(),
            r.table() == Seq::<Seen>::empty(),
            r.name() == instance@,
            !r.is_advertising(),
            r.responds() == can_respond,
    {
        let r = Browser { peers: Vec::new(), instance, advertising: false, can_respond };
        assert(r.table() =~= Seq::<Seen>::empty());
        r
    }

    pub fn instance(&self) -> (r: &str)
        ensures
            r@ == self.name(),
    {
        self.instance.as_str()
    }

    /// Start advertising this device as an AirDrop peer: the announcement to send now. `None`
    /// when queries could not be answered.
    ///
    /// Announcing is not optional politeness: a peer that is already browsing has no reason to
    /// re-query.
    pub fn advertise(&mut self, me: Option<[u8; 16]>) -> (r: Option<Vec<u8>>)
        requires
            old(self).wf(),
        ensures
            final(self).wf(),
            final(self).table() == old(self).table(),
            final(self).name() == old(self).name(),
            final(self).responds() == old(self).responds(),
            r is Some <==> old(self).responds(),
            r matches Some(p) ==> p@ == old(self).packet(addr_view(me), TTL),
            final(self).is_advertising() == (old(self).is_advertising() || old(self).responds()),
    {
        if !self.can_respond {
            return None;
        }
        self.advertising = true;
        self.announce(me)
    }

    /// Stop advertising, and tell peers so rather than letting them time us out: the withdrawal
    /// to send, if there is anything to withdraw.
    pub fn stop_advertising(&mut self, me: Option<[u8; 16]>) -> (r: Option<Vec<u8>>)
        requires
            old(self).wf(),
        ensures
            final(self).wf(),
            final(self).table() == old(self).table(),
            final(self).name() == old(self).name(),
            final(self).responds() == old(self).responds(),
            !final(self).is_advertising(),
            r is Some <==> old(self).is_advertising(),
            r matches Some(p) ==> p@ == old(self).packet(addr_view(me), 0),
    {
        if !self.advertising {
            return None;
        }
        self.advertising = false;
        let recs = self.records_with_ttl(me, 0);
        Some(dns::response(recs.as_slice()))
    }

    /// Unsolicited announcement of our records, while we advertise.
    pub fn announce(&self, me: Option<[u8; 16]>) -> (r: Option<Vec<u8>>)
        requires
            self.wf(),
        ensures
            r is Some <==> self.is_advertising(),
            r matches Some(p) ==> p@ == self.packet(addr_view(me), TTL),
    {
        if !self.advertising {
            return None;
        }
        let recs = self.records_with_ttl(me, TTL);
        Some(dns::response(recs.as_slice()))
    }

    /// The packet that asks for peers.
    pub fn query(&self) -> (r: Vec<u8>)
        ensures
            r@ == dns::query_bytes(AIRDROP_SERVICE@),
    {
        dns::query(AIRDROP_SERVICE)
    }

    fn full(instance: &str) -> (r: String)
        ensures
            r@ == full_instance(instance@),
    {
        let mut out = String::new();
        out.append(instance);
        out.push('.');
        out.append(AIRDROP_SERVICE);
        assert(out@ =~= full_instance(instance@));
        out
    }

    fn host(&self) -> (r: String)
        requires
            is_instance(self.name()),
        ensures
            r@ == host_of(self.name()),
    {
        let v = text::chars_of(self.instance.as_str());
        let head = text::text_of(&v, 0, 8);
        proof {
            assert forall|i: int| 0 <= i < 8 implies '\0' <= #[trigger] head@[i] <= '\u{7f}' by {
                let c = self.name()[i];
                assert('0' <= c <= '9' || 'a' <= c <= 'f');
                assert(head@[i] == c);
            }
        }
        let upper = text::to_upper(head.as_str());
        let mut out = String::new();
        out.append("Android_");
        out.append(upper.as_str());
        out.append(".local");
        assert(out@ =~= host_of(self.name()));
        out
    }

    /// Our records at an arbitrary TTL. Zero is a withdrawal.
    pub fn records_with_ttl(&self, me: Option<[u8; 16]>, ttl: u32) -> (r: Vec<Vec<u8>>)
        requires
            self.wf(),
        ensures
            dns::byte_strings(r@) == dns_laws::all_bytes(
                our_records(self.name(), addr_view(me), ttl),
            ),
    {
        let inst = Browser::full(self.instance.as_str());
        let host = self.host();
        let mut out: Vec<Vec<u8>> = Vec::new();
        let service = dns::encode_name(AIRDROP_SERVICE);
        out.push(dns::record(SERVICE_ENUM, dns::TYPE_PTR, ttl, service.as_slice(), false));
        let named = dns::encode_name(inst.as_str());
        out.push(dns::record(AIRDROP_SERVICE, dns::TYPE_PTR, ttl, named.as_slice(), false));
        let mut srv: Vec<u8> = Vec::new();
        srv.push(0);  // priority
        srv.push(0);
        srv.push(0);  // weight
        srv.push(0);
        wire::write_uint(&mut srv, AIRDROP_PORT as u64, 2);
        let target = dns::encode_name(host.as_str());
        srv.extend_from_slice(target.as_slice());
        assert(srv@ =~= discovery::srv_rdata(AIRDROP_PORT, host@));
        out.push(dns::record(inst.as_str(), dns::TYPE_SRV, ttl, srv.as_slice(), true));
        let entries: [&str; 1] = [AIRDROP_FLAGS];
        let txt = dns::txt_rdata(&entries);
        proof {
            let all = Seq::new(1, |i: int| dns::txt_entry(entries@[i]@));
            reveal_with_fuel(dns::joined_bytes, 2);
            assert(all.drop_last() =~= seq![]);
            assert(txt@ =~= dns::txt_entry(AIRDROP_FLAGS@));
        }
        out.push(dns::record(inst.as_str(), dns::TYPE_TXT, ttl, txt.as_slice(), true));
        let ghost first = dns::byte_strings(out@);
        match me {
            Some(a) => {
                out.push(dns::record(host.as_str(), dns::TYPE_AAAA, ttl, &a, true));
                let back = reverse_name(&a);
                out.push(
                    dns::record(back.as_str(), dns::TYPE_PTR, ttl, target.as_slice(), true),
                );
            },
            None => {},
        }
        let kinds: [u16; 2] = [dns::TYPE_TXT, dns::TYPE_SRV];
        assert(kinds@ =~= seq![dns::TYPE_TXT, dns::TYPE_SRV]);
        let not_inst = dns::nsec_rdata(inst.as_str(), &kinds);
        out.push(dns::record(inst.as_str(), dns::TYPE_NSEC, ttl, not_inst.as_slice(), true));
        let only: [u16; 1] = [dns::TYPE_AAAA];
        assert(only@ =~= seq![dns::TYPE_AAAA]);
        let not_host = dns::nsec_rdata(host.as_str(), &only);
        out.push(dns::record(host.as_str(), dns::TYPE_NSEC, ttl, not_host.as_slice(), true));
        assert(dns::byte_strings(out@) =~= dns_laws::all_bytes(
            our_records(self.name(), addr_view(me), ttl),
        ));
        out
    }

    /// The packet that answers questions about us. Anything else is ignored rather than
    /// answered wrongly: it would pollute peers' caches with records nobody can back up.
    pub fn answer(&self, questions: &Vec<dns::Question>, me: Option<[u8; 16]>) -> (r: Option<
        Vec<u8>,
    >)
        requires
            self.wf(),
        ensures
            r is Some <==> asks_for_us(self.name(), dns::all_asked(questions@)),
            r matches Some(p) ==> p@ == self.packet(addr_view(me), TTL),
    {
        let inst = Browser::full(self.instance.as_str());
        let host = self.host();
        let ghost asked = dns::all_asked(questions@);
        let mut i: usize = 0;
        while i < questions.len()
            invariant
                i <= questions@.len(),
                self.wf(),
                asked == dns::all_asked(questions@),
                inst@ == full_instance(self.name()),
                host@ == host_of(self.name()),
                forall|j: int| 0 <= j < i ==> !about_us(self.name(), #[trigger] asked[j]),
            decreases questions@.len() - i,
        {
            let n: &str = questions[i].name.as_str();
            let t: u16 = questions[i].qtype;
            assert(asked[i as int] == questions@[i as int].asked());
            let mine: bool = if text::same(n, AIRDROP_SERVICE) {
                t == dns::TYPE_PTR || t == QTYPE_ANY
            } else if text::same(n, inst.as_str()) {
                t == dns::TYPE_SRV || t == dns::TYPE_TXT || t == QTYPE_ANY
            } else if text::same(n, host.as_str()) {
                t == dns::TYPE_AAAA || t == dns::TYPE_A || t == QTYPE_ANY
            } else {
                false
            };
            if mine {
                assert(about_us(self.name(), asked[i as int]));
                let recs = self.records_with_ttl(me, TTL);
                return Some(dns::response(recs.as_slice()));
            }
            i += 1;
        }
        None
    }

    /// Fold one packet into the peer table: the packet to answer with, if it asks for us and we
    /// advertise. A packet that cannot be read is ignored.
    pub fn poll(
        &mut self,
        packet: &[u8],
        now: u64,
        now_instance: &str,
        me: Option<[u8; 16]>,
    ) -> (r: Option<Vec<u8>>)
        requires
            old(self).wf(),
        ensures
            final(self).wf(),
            final(self).name() == old(self).name(),
            final(self).is_advertising() == old(self).is_advertising(),
            final(self).responds() == old(self).responds(),
            match dns::message_in(packet@) {
                Some((questions, records)) => {
                    &&& final(self).table() == absorbed_all(
                        old(self).us(now_instance@, addr_view(me)),
                        old(self).table(),
                        packet@,
                        records,
                        records.len(),
                        now,
                    )
                    &&& r is Some <==> old(self).is_advertising() && asks_for_us(
                        old(self).name(),
                        questions,
                    )
                },
                None => final(self).table() == old(self).table() && r is None,
            },
            r matches Some(p) ==> p@ == old(self).packet(addr_view(me), TTL),
    {
        match dns::parse(packet) {
            Some(m) => {
                self.absorb(packet, &m.records, now, now_instance, me);
                if self.advertising {
                    self.answer(&m.questions, me)
                } else {
                    None
                }
            },
            None => None,
        }
    }

    fn position(&self, instance: &str) -> (r: Option<usize>)
        ensures
            match r {
                Some(i) => i < self.peers@.len() && self.table()[i as int].instance == instance@,
                None => !lists(self.table(), instance@),
            },
    {
        let mut i: usize = 0;
        while i < self.peers.len()
            invariant
                i <= self.peers@.len(),
                forall|j: int|
                    0 <= j < i ==> (#[trigger] self.table()[j]).instance != instance@,
            decreases self.peers@.len() - i,
        {
            if text::same(self.peers[i].instance.as_str(), instance) {
                return Some(i);
            }
            i += 1;
        }
        None
    }

    pub fn absorb(
        &mut self,
        packet: &[u8],
        records: &Vec<dns::Record>,
        now: u64,
        now_instance: &str,
        me: Option<[u8; 16]>,
    )
        requires
            old(self).wf(),
        ensures
            final(self).wf(),
            final(self).name() == old(self).name(),
            final(self).is_advertising() == old(self).is_advertising(),
            final(self).responds() == old(self).responds(),
            final(self).table() == absorbed_all(
                old(self).us(now_instance@, addr_view(me)),
                old(self).table(),
                packet@,
                dns::all_told(records@),
                records@.len(),
                now,
            ),
    {
        let ghost told = dns::all_told(records@);
        let ghost us = self.us(now_instance@, addr_view(me));
        let ghost first = self.table();
        let mut i: usize = 0;
        while i < records.len()
            invariant
                i <= records@.len(),
                told == dns::all_told(records@),
                self.wf(),
                self.name() == old(self).name(),
                self.is_advertising() == old(self).is_advertising(),
                self.responds() == old(self).responds(),
                us == self.us(now_instance@, addr_view(me)),
                self.table() == absorbed_all(us, first, packet@, told, i as nat, now),
            decreases records@.len() - i,
        {
            assert(told[i as int] == records@[i as int].told());
            self.absorb_one(packet, &records[i], now, now_instance, me);
            i += 1;
        }
    }

    /// Is this address one of ours? The only self-test that does not drift: the address is
    /// looked up at the moment of the question.
    fn is_self_addr(a: &[u8; 16], me: Option<[u8; 16]>) -> (r: bool)
        ensures
            r == (addr_view(me) == Some(a@)),
    {
        match me {
            Some(m) => address::same_bytes(a, &m),
            None => false,
        }
    }

    fn absorb_one(
        &mut self,
        packet: &[u8],
        rec: &dns::Record,
        now: u64,
        now_instance: &str,
        me: Option<[u8; 16]>,
    )
        requires
            old(self).wf(),
        ensures
            final(self).wf(),
            final(self).name() == old(self).name(),
            final(self).is_advertising() == old(self).is_advertising(),
            final(self).responds() == old(self).responds(),
            final(self).table() == absorbed(
                old(self).us(now_instance@, addr_view(me)),
                old(self).table(),
                packet@,
                rec.told(),
                now,
            ),
    {
        let ghost before = self.table();
        let ghost us = self.us(now_instance@, addr_view(me));
        proof {
            lemma_absorbed_rows(us, before, packet@, rec.told(), now);
        }
        if rec.rtype == dns::TYPE_PTR && text::same(rec.name.as_str(), AIRDROP_SERVICE) {
            let mut r = dns::Reader { buf: packet, pos: rec.rdata_at };
            let instance: String = match r.name() {
                Some(x) => x,
                None => {
                    return;
                },
            };
            // Our own announcement comes back to us: listing ourselves as a peer would put this
            // device in its own share sheet.
            let ours = Browser::full(self.instance.as_str());
            let ours_now = Browser::full(now_instance);
            if text::same(instance.as_str(), ours.as_str()) || text::same(
                instance.as_str(),
                ours_now.as_str(),
            ) {
                return;
            }
            match self.position(instance.as_str()) {
                Some(i) => {
                    assert(before[i as int].instance == instance@);
                    self.peers[i].last_seen = now;
                    assert(self.table() =~= touched(before, instance@, now));
                },
                None => {
                    let p = Peer {
                        instance,
                        host: String::new(),
                        port: 0,
                        addr: None,
                        last_seen: now,
                    };
                    let ghost k = p.seen();
                    self.peers.push(p);
                    assert(self.table() =~= before.push(k));
                    assert(k.host =~= seq![]);
                },
            }
        } else if rec.rtype == dns::TYPE_SRV {
            if rec.rdata.len() < 6 {
                return;
            }
            let port: u16 = rec.rdata[4] as u16 * 256 + rec.rdata[5] as u16;
            let mut r = dns::Reader { buf: packet, pos: rec.rdata_at.saturating_add(6) };
            proof {
                if rec.rdata_at + 6 > usize::MAX {
                    assert(packet.len() <= usize::MAX);
                    assert(dns::name_at(packet@, rec.rdata_at + 6, 0, seq![]) is None);
                    assert(dns::name_at(packet@, usize::MAX as int, 0, seq![]) is None);
                }
            }
            let host: String = match r.name() {
                Some(h) => h,
                None => String::new(),
            };
            assert(host@ =~= (match dns::name_at(packet@, rec.rdata_at + 6, 0, seq![]) {
                Some(h) => h,
                None => seq![],
            }));
            match self.position(rec.name.as_str()) {
                Some(i) => {
                    assert(before[i as int].instance == rec.name@);
                    let ghost h = host@;
                    self.peers[i].port = port;
                    self.peers[i].host = host;
                    self.peers[i].last_seen = now;
                    assert(self.table() =~= located(before, rec.name@, h, port, now));
                },
                None => {
                    assert(before =~= located(before, rec.name@, host@, port, now));
                },
            }
        } else if rec.rtype == dns::TYPE_AAAA && rec.rdata.len() == 16 {
            let a: [u8; 16] = [
                rec.rdata[0],
                rec.rdata[1],
                rec.rdata[2],
                rec.rdata[3],
                rec.rdata[4],
                rec.rdata[5],
                rec.rdata[6],
                rec.rdata[7],
                rec.rdata[8],
                rec.rdata[9],
                rec.rdata[10],
                rec.rdata[11],
                rec.rdata[12],
                rec.rdata[13],
                rec.rdata[14],
                rec.rdata[15],
            ];
            assert(a@ =~= rec.rdata@);
            if Browser::is_self_addr(&a, me) {
                self.drop_host(rec.name.as_str());
                return;
            }
            // The AAAA name is the host, not the instance, so match on it.
            let ghost after = addressed(before, rec.name@, rec.rdata@, now);
            let ghost name = self.instance@;
            let mut i: usize = 0;
            while i < self.peers.len()
                invariant
                    i <= self.peers@.len(),
                    a@ == rec.rdata@,
                    before.len() == self.peers@.len(),
                    after == addressed(before, rec.name@, rec.rdata@, now),
                    forall|j: int| 0 <= j < i ==> self.table()[j] == #[trigger] after[j],
                    forall|j: int|
                        i <= j < before.len() ==> self.table()[j] == #[trigger] before[j],
                    self.name() == old(self).name(),
                    self.is_advertising() == old(self).is_advertising(),
                    self.responds() == old(self).responds(),
                decreases self.peers@.len() - i,
            {
                assert(self.table()[i as int] == before[i as int]);
                if !self.peers[i].host.as_str().is_empty() && text::same(
                    self.peers[i].host.as_str(),
                    rec.name.as_str(),
                ) {
                    self.peers[i].addr = Some(a);
                    self.peers[i].last_seen = now;
                }
                assert(self.table()[i as int] == after[i as int]);
                i += 1;
            }
            assert(self.table() =~= after);
        }
    }

    fn drop_host(&mut self, host: &str)
        ensures
            final(self).table() == not_on(old(self).table(), host@),
            final(self).name() == old(self).name(),
            final(self).is_advertising() == old(self).is_advertising(),
            final(self).responds() == old(self).responds(),
    {
        let ghost before = self.table();
        let ghost keep = |p: Seen| p.host != host@;
        let mut out: Vec<Peer> = Vec::new();
        let mut i: usize = 0;
        assert(before.subrange(0, 0).filter(keep) =~= seq![]) by {
            reveal(Seq::filter);
        }
        assert(all_seen(out@) =~= seq![]);
        while i < self.peers.len()
            invariant
                i <= self.peers@.len(),
                before == self.table(),
                before.len() == self.peers@.len(),
                *self == *old(self),
                keep == (|p: Seen| p.host != host@),
                all_seen(out@) == before.subrange(0, i as int).filter(keep),
            decreases self.peers@.len() - i,
        {
            let ghost sofar = all_seen(out@);
            let p = self.peers[i].clone();
            let ghost k = p.seen();
            assert(k == before[i as int]);
            if !text::same(p.host.as_str(), host) {
                out.push(p);
                assert(all_seen(out@) =~= sofar.push(k));
            }
            proof {
                let part = before.subrange(0, i + 1);
                assert(part.drop_last() =~= before.subrange(0, i as int));
                assert(part.last() == k);
                reveal(Seq::filter);
            }
            i += 1;
        }
        assert(before.subrange(0, i as int) =~= before);
        self.peers = out;
    }

    /// Forget every peer, so the next query rebuilds the table from scratch.
    pub fn forget_peers(&mut self)
        requires
            old(self).wf(),
        ensures
            final(self).wf(),
            final(self).table() == Seq::<Seen>::empty(),
            final(self).name() == old(self).name(),
            final(self).is_advertising() == old(self).is_advertising(),
            final(self).responds() == old(self).responds(),
    {
        self.peers = Vec::new();
        assert(self.table() =~= Seq::<Seen>::empty());
    }

    /// Drop peers not heard from recently. mDNS TTLs are advisory; a peer that walks away
    /// simply stops announcing.
    pub fn expire(&mut self, now: u64, older_than: u64)
        requires
            old(self).wf(),
        ensures
            final(self).wf(),
            final(self).table() == kept(old(self).table(), now, older_than),
            final(self).name() == old(self).name(),
            final(self).is_advertising() == old(self).is_advertising(),
            final(self).responds() == old(self).responds(),
    {
        let ghost before = self.table();
        let ghost keep = |p: Seen| clock::since(now, p.last_seen) < older_than;
        let mut out: Vec<Peer> = Vec::new();
        let mut i: usize = 0;
        assert(before.subrange(0, 0).filter(keep) =~= seq![]) by {
            reveal(Seq::filter);
        }
        assert(all_seen(out@) =~= seq![]);
        while i < self.peers.len()
            invariant
                i <= self.peers@.len(),
                before == self.table(),
                before.len() == self.peers@.len(),
                *self == *old(self),
                keep == (|p: Seen| clock::since(now, p.last_seen) < older_than),
                all_seen(out@) == before.subrange(0, i as int).filter(keep),
            decreases self.peers@.len() - i,
        {
            let ghost sofar = all_seen(out@);
            let p = self.peers[i].clone();
            let ghost k = p.seen();
            assert(k == before[i as int]);
            if clock::elapsed(now, p.last_seen) < older_than {
                out.push(p);
                assert(all_seen(out@) =~= sofar.push(k));
            }
            proof {
                let part = before.subrange(0, i + 1);
                assert(part.drop_last() =~= before.subrange(0, i as int));
                assert(part.last() == k);
                reveal(Seq::filter);
            }
            i += 1;
        }
        assert(before.subrange(0, i as int) =~= before);
        self.peers = out;
        proof {
            lemma_filter_rows(before, keep);
        }
    }

    /// The peers, without anyone at our own address: this holds even if some path adds an entry
    /// without going through `absorb`.
    pub fn peers(&self, me: Option<[u8; 16]>) -> (r: Vec<Peer>)
        ensures
            all_seen(r@) == others(self.table(), addr_view(me)),
    {
        let ghost before = self.table();
        let ghost keep = |p: Seen| p.addr is None || p.addr != addr_view(me);
        let mut out: Vec<Peer> = Vec::new();
        let mut i: usize = 0;
        assert(before.subrange(0, 0).filter(keep) =~= seq![]) by {
            reveal(Seq::filter);
        }
        assert(all_seen(out@) =~= seq![]);
        while i < self.peers.len()
            invariant
                i <= self.peers@.len(),
                before == self.table(),
                before.len() == self.peers@.len(),
                keep == (|p: Seen| p.addr is None || p.addr != addr_view(me)),
                all_seen(out@) == before.subrange(0, i as int).filter(keep),
            decreases self.peers@.len() - i,
        {
            let ghost sofar = all_seen(out@);
            let p = self.peers[i].clone();
            let ghost k = p.seen();
            assert(k == before[i as int]);
            let other: bool = match p.addr {
                Some(a) => !Browser::is_self_addr(&a, me),
                None => true,
            };
            if other {
                out.push(p);
                assert(all_seen(out@) =~= sofar.push(k));
            }
            proof {
                let part = before.subrange(0, i + 1);
                assert(part.drop_last() =~= before.subrange(0, i as int));
                assert(part.last() == k);
                reveal(Seq::filter);
            }
            i += 1;
        }
        assert(before.subrange(0, i as int) =~= before);
        out
    }
}

} // verus!
