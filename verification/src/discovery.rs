//! Browse for Quick Share peers on the Wi-Fi LAN, and answer those who browse for us.

use vstd::prelude::*;
use vstd::utf8::*;
use crate::clock;
use crate::dns;
use crate::dns_laws;
use crate::endpoint;
use crate::endpoint::{DeviceType, EndpointInfo};
use crate::quickshare;
use crate::random;
use crate::text;
use crate::wire;

verus! {

// ------------------------------------------------------------------ browsing ---

/// A peer found by mDNS. Times are milliseconds on the caller's clock.
#[derive(Debug)]
pub struct QsPeer {
    pub endpoint_id: String,
    pub instance: String,
    pub host: String,
    pub port: u16,
    pub addr: Option<[u8; 4]>,
    pub name: Option<String>,
    pub last_seen: u64,
}

impl Clone for QsPeer {
    fn clone(&self) -> (r: Self)
        ensures
            r == *self,
    {
        QsPeer {
            endpoint_id: self.endpoint_id.clone(),
            instance: self.instance.clone(),
            host: self.host.clone(),
            port: self.port,
            addr: self.addr,
            name: self.name.clone(),
            last_seen: self.last_seen,
        }
    }
}

/// What is known of a peer.
pub struct Known {
    pub endpoint_id: Seq<char>,
    pub instance: Seq<char>,
    pub host: Seq<char>,
    pub port: u16,
    pub addr: Option<Seq<u8>>,
    pub name: Option<Seq<char>>,
    pub last_seen: u64,
}

impl QsPeer {
    pub open spec fn known(&self) -> Known {
        Known {
            endpoint_id: self.endpoint_id@,
            instance: self.instance@,
            host: self.host@,
            port: self.port,
            addr: match self.addr {
                Some(a) => Some(a@),
                None => None,
            },
            name: match self.name {
                Some(n) => Some(n@),
                None => None,
            },
            last_seen: self.last_seen,
        }
    }
}

pub open spec fn all_known(v: Seq<QsPeer>) -> Seq<Known> {
    Seq::new(v.len(), |i: int| v[i].known())
}

/// The first `=` of an entry, or its length.
pub open spec fn first_equals(e: Seq<u8>) -> int
    decreases e.len(),
{
    if e.len() == 0 || e[0] == 0x3D {
        0
    } else {
        1 + first_equals(e.drop_first())
    }
}

/// The device name in TXT rdata from `i` on: the first `n=` entry decides.
pub open spec fn txt_name(rdata: Seq<u8>, i: int) -> Option<Seq<char>>
    decreases rdata.len() - i,
{
    if i < 0 || i >= rdata.len() {
        None
    } else {
        let next = i + 1 + rdata[i] as int;
        if next > rdata.len() {
            None
        } else {
            let entry = rdata.subrange(i + 1, next);
            let eq = first_equals(entry);
            if eq < entry.len() && entry.subrange(0, eq) == seq![0x6Eu8] {
                match quickshare::base64_bytes(
                    entry.subrange(eq + 1, entry.len() as int),
                    seq![],
                    0,
                    0,
                ) {
                    Some(raw) => match endpoint::advertised_in(raw) {
                        Some(a) => a.device_name,
                        None => None,
                    },
                    None => None,
                }
            } else {
                txt_name(rdata, next)
            }
        }
    }
}

proof fn lemma_first_equals(e: Seq<u8>, i: int)
    requires
        0 <= i <= e.len(),
        i < e.len() ==> e[i] == 0x3D,
        forall|j: int| 0 <= j < i ==> e[j] != 0x3D,
    ensures
        first_equals(e) == i,
    decreases e.len(),
{
    if e.len() > 0 && e[0] != 0x3D {
        let t = e.drop_first();
        assert forall|j: int| 0 <= j < i - 1 implies t[j] != 0x3D by {
            assert(t[j] == e[j + 1]);
        }
        lemma_first_equals(t, i - 1);
    }
}

fn find_equals(e: &[u8]) -> (r: usize)
    ensures
        r == first_equals(e@),
        r <= e@.len(),
{
    let mut i: usize = 0;
    while i < e.len()
        invariant
            i <= e@.len(),
            forall|j: int| 0 <= j < i ==> e@[j] != 0x3D,
        decreases e@.len() - i,
    {
        if e[i] == 0x3D {
            proof {
                lemma_first_equals(e@, i as int);
            }
            return i;
        }
        i += 1;
    }
    proof {
        lemma_first_equals(e@, i as int);
    }
    i
}

/// Pull the device name out of the TXT record's `n=` entry.
///
/// TXT rdata is a sequence of length-prefixed strings, and the value is base64 of the
/// endpoint info rather than a plain name -- so a peer with no parseable `n=` yields None and
/// stays nameless rather than being dropped.
pub fn name_from_txt(rdata: &[u8]) -> (r: Option<String>)
    ensures
        match r {
            Some(n) => txt_name(rdata@, 0) == Some(n@),
            None => txt_name(rdata@, 0) is None,
        },
{
    let mut i: usize = 0;
    while i < rdata.len()
        invariant
            i <= rdata@.len(),
            txt_name(rdata@, i as int) == txt_name(rdata@, 0),
        decreases rdata@.len() - i,
    {
        let len: usize = rdata[i] as usize;
        if len > rdata.len() - i - 1 {
            return None;
        }
        let entry = vstd::slice::slice_subrange(rdata, i + 1, i + 1 + len);
        let eq: usize = find_equals(entry);
        if eq < entry.len() && eq == 1 && entry[0] == 0x6E {
            assert(entry@.subrange(0, 1) =~= seq![0x6Eu8]);
            let raw: Vec<u8> = match quickshare::base64_any_decode(
                vstd::slice::slice_subrange(entry, eq + 1, entry.len()),
            ) {
                Some(x) => x,
                None => {
                    return None;
                },
            };
            return match EndpointInfo::parse(raw.as_slice()) {
                Some(info) => info.device_name,
                None => None,
            };
        }
        proof {
            if eq < entry@.len() && entry@.subrange(0, eq as int) == seq![0x6Eu8] {
                assert(entry@.subrange(0, eq as int).len() == 1);
                assert(entry@.subrange(0, eq as int)[0] == entry@[0]);
            }
        }
        i = i + 1 + len;
    }
    None
}

/// Whether a peer under this instance is in the table.
pub open spec fn lists(peers: Seq<Known>, instance: Seq<char>) -> bool {
    exists|i: int| 0 <= i < peers.len() && (#[trigger] peers[i]).instance == instance
}

/// No two rows for one instance.
pub open spec fn one_row_each(peers: Seq<Known>) -> bool {
    forall|i: int, j: int|
        0 <= i < j < peers.len() ==> (#[trigger] peers[i]).instance != (
        #[trigger] peers[j]).instance
}

/// The table after one record: a PTR brings a peer in, an SRV says where it is, a TXT what it
/// is called, and an A record gives every peer on that host its address.
pub open spec fn absorbed(
    peers: Seq<Known>,
    packet: Seq<u8>,
    rec: dns::Told,
    now: u64,
) -> Seq<Known> {
    if rec.rtype == dns::TYPE_PTR && rec.name == endpoint::SERVICE_TYPE@ {
        match dns::name_at(packet, rec.rdata_at, 0, seq![]) {
            None => peers,
            Some(instance) => match quickshare::id_in_instance(instance) {
                None => peers,
                Some(id) => if lists(peers, instance) {
                    touched(peers, instance, now)
                } else {
                    peers.push(
                        Known {
                            endpoint_id: text::lossy_text(id),
                            instance,
                            host: seq![],
                            port: 0,
                            addr: None,
                            name: None,
                            last_seen: now,
                        },
                    )
                },
            },
        }
    } else if rec.rtype == dns::TYPE_SRV && rec.rdata.len() >= 6 {
        let host = match dns::name_at(packet, rec.rdata_at + 6, 0, seq![]) {
            Some(h) => h,
            None => seq![],
        };
        located(peers, rec.name, host, (rec.rdata[4] * 256 + rec.rdata[5]) as u16, now)
    } else if rec.rtype == dns::TYPE_TXT {
        named(peers, rec.name, txt_name(rec.rdata, 0), now)
    } else if rec.rtype == dns::TYPE_A && rec.rdata.len() == 4 {
        addressed(peers, rec.name, rec.rdata, now)
    } else {
        peers
    }
}

pub open spec fn touched(peers: Seq<Known>, instance: Seq<char>, now: u64) -> Seq<Known> {
    Seq::new(
        peers.len(),
        |i: int|
            if peers[i].instance == instance {
                Known { last_seen: now, ..peers[i] }
            } else {
                peers[i]
            },
    )
}

pub open spec fn located(
    peers: Seq<Known>,
    instance: Seq<char>,
    host: Seq<char>,
    port: u16,
    now: u64,
) -> Seq<Known> {
    Seq::new(
        peers.len(),
        |i: int|
            if peers[i].instance == instance {
                Known { host, port, last_seen: now, ..peers[i] }
            } else {
                peers[i]
            },
    )
}

pub open spec fn named(
    peers: Seq<Known>,
    instance: Seq<char>,
    name: Option<Seq<char>>,
    now: u64,
) -> Seq<Known> {
    Seq::new(
        peers.len(),
        |i: int|
            if peers[i].instance == instance {
                Known {
                    name: if name is Some {
                        name
                    } else {
                        peers[i].name
                    },
                    last_seen: now,
                    ..peers[i]
                }
            } else {
                peers[i]
            },
    )
}

pub open spec fn addressed(
    peers: Seq<Known>,
    host: Seq<char>,
    addr: Seq<u8>,
    now: u64,
) -> Seq<Known> {
    Seq::new(
        peers.len(),
        |i: int|
            if peers[i].host.len() > 0 && peers[i].host == host {
                Known { addr: Some(addr), last_seen: now, ..peers[i] }
            } else {
                peers[i]
            },
    )
}

/// The table after the first `n` records.
pub open spec fn absorbed_all(
    peers: Seq<Known>,
    packet: Seq<u8>,
    recs: Seq<dns::Told>,
    n: nat,
    now: u64,
) -> Seq<Known>
    decreases n,
{
    if n == 0 {
        peers
    } else {
        absorbed(
            absorbed_all(peers, packet, recs, (n - 1) as nat, now),
            packet,
            recs[n - 1],
            now,
        )
    }
}

/// The table without those not heard of for `older_than`.
pub open spec fn kept(peers: Seq<Known>, now: u64, older_than: u64) -> Seq<Known> {
    peers.filter(|p: Known| clock::since(now, p.last_seen) < older_than)
}

proof fn lemma_absorbed_rows(peers: Seq<Known>, packet: Seq<u8>, rec: dns::Told, now: u64)
    requires
        one_row_each(peers),
    ensures
        one_row_each(absorbed(peers, packet, rec, now)),
{
    let after = absorbed(peers, packet, rec, now);
    if after.len() == peers.len() {
        assert(forall|i: int|
            0 <= i < peers.len() ==> (#[trigger] after[i]).instance == peers[i].instance);
    } else {
        let n = peers.len() as int;
        assert(forall|i: int| 0 <= i < n ==> after[i] == peers[i]);
        assert forall|i: int, j: int| 0 <= i < j < after.len() implies (
        #[trigger] after[i]).instance != (#[trigger] after[j]).instance by {
            assert(after[i] == peers[i]);
        }
    }
}

pub struct QsBrowser {
    peers: Vec<QsPeer>,
}

impl QsBrowser {
    pub closed spec fn table(&self) -> Seq<Known> {
        all_known(self.peers@)
    }

    /// One row for each instance.
    pub open spec fn wf(&self) -> bool {
        one_row_each(self.table())
    }

    pub fn new() -> (r: Self)
        ensures
            r.wf(),
            r.table() == Seq::<Known>::empty(),
    {
        let r = QsBrowser { peers: Vec::new() };
        assert(r.table() =~= Seq::<Known>::empty());
        r
    }

    /// The packet that asks for peers.
    pub fn query(&self) -> (r: Vec<u8>)
        ensures
            r@ == dns::query_bytes(endpoint::SERVICE_TYPE@),
    {
        dns::query(endpoint::SERVICE_TYPE)
    }

    /// Fold one packet into the peer table. A packet that cannot be read changes nothing.
    pub fn poll(&mut self, packet: &[u8], now: u64)
        requires
            old(self).wf(),
        ensures
            final(self).wf(),
            final(self).table() == (match dns::message_in(packet@) {
                Some((_, records)) => absorbed_all(
                    old(self).table(),
                    packet@,
                    records,
                    records.len(),
                    now,
                ),
                None => old(self).table(),
            }),
    {
        match dns::parse(packet) {
            Some(m) => {
                self.absorb(packet, &m.records, now);
            },
            None => {},
        }
    }

    fn position(&self, instance: &str) -> (r: Option<usize>)
        ensures
            match r {
                Some(i) => i < self.peers@.len() && self.table()[i as int].instance == instance@,
                None => !lists(self.table(), instance@),
            },
    {
        let mut i: usize = 0;
        while i < self.peers.len()
            invariant
                i <= self.peers@.len(),
                forall|j: int|
                    0 <= j < i ==> (#[trigger] self.table()[j]).instance != instance@,
            decreases self.peers@.len() - i,
        {
            if text::same(self.peers[i].instance.as_str(), instance) {
                return Some(i);
            }
            i += 1;
        }
        None
    }

    pub fn absorb(&mut self, packet: &[u8], records: &Vec<dns::Record>, now: u64)
        requires
            old(self).wf(),
        ensures
            final(self).wf(),
            final(self).table() == absorbed_all(
                old(self).table(),
                packet@,
                dns::all_told(records@),
                records@.len(),
                now,
            ),
    {
        let ghost told = dns::all_told(records@);
        let mut i: usize = 0;
        while i < records.len()
            invariant
                i <= records@.len(),
                told == dns::all_told(records@),
                self.wf(),
                self.table() == absorbed_all(old(self).table(), packet@, told, i as nat, now),
            decreases records@.len() - i,
        {
            assert(told[i as int] == records@[i as int].told());
            self.absorb_one(packet, &records[i], now);
            i += 1;
        }
    }

    fn absorb_one(&mut self, packet: &[u8], rec: &dns::Record, now: u64)
        requires
            old(self).wf(),
        ensures
            final(self).wf(),
            final(self).table() == absorbed(old(self).table(), packet@, rec.told(), now),
    {
        let ghost before = self.table();
        proof {
            lemma_absorbed_rows(before, packet@, rec.told(), now);
        }
        if rec.rtype == dns::TYPE_PTR && text::same(rec.name.as_str(), endpoint::SERVICE_TYPE) {
            let mut r = dns::Reader { buf: packet, pos: rec.rdata_at };
            let instance: String = match r.name() {
                Some(x) => x,
                None => {
                    return;
                },
            };
            // An instance whose label does not decode to our service is not ours, whatever
            // service it was published under.
            let id: [u8; 4] = match quickshare::endpoint_id_from_instance(instance.as_str()) {
                Some(x) => x,
                None => {
                    return;
                },
            };
            match self.position(instance.as_str()) {
                Some(i) => {
                    assert(before[i as int].instance == instance@);
                    self.peers[i].last_seen = now;
                    assert(self.table() =~= touched(before, instance@, now));
                },
                None => {
                    let mut idv: Vec<u8> = Vec::new();
                    idv.push(id[0]);
                    idv.push(id[1]);
                    idv.push(id[2]);
                    idv.push(id[3]);
                    assert(idv@ =~= id@);
                    let endpoint_id = text::utf8_lossy(idv.as_slice());
                    let p = QsPeer {
                        endpoint_id,
                        instance,
                        host: String::new(),
                        port: 0,
                        addr: None,
                        name: None,
                        last_seen: now,
                    };
                    let ghost k = p.known();
                    self.peers.push(p);
                    assert(self.table() =~= before.push(k));
                    assert(k.host =~= seq![]);
                },
            }
        } else if rec.rtype == dns::TYPE_SRV && rec.rdata.len() >= 6 {
            let port: u16 = rec.rdata[4] as u16 * 256 + rec.rdata[5] as u16;
            let mut r = dns::Reader { buf: packet, pos: rec.rdata_at.saturating_add(6) };
            proof {
                if rec.rdata_at + 6 > usize::MAX {
                    assert(packet.len() <= usize::MAX);
                    assert(dns::name_at(packet@, rec.rdata_at + 6, 0, seq![]) is None);
                    assert(dns::name_at(packet@, usize::MAX as int, 0, seq![]) is None);
                }
            }
            let host: String = match r.name() {
                Some(h) => h,
                None => String::new(),
            };
            assert(host@ =~= (match dns::name_at(packet@, rec.rdata_at + 6, 0, seq![]) {
                Some(h) => h,
                None => seq![],
            }));
            match self.position(rec.name.as_str()) {
                Some(i) => {
                    assert(before[i as int].instance == rec.name@);
                    let ghost h = host@;
                    self.peers[i].port = port;
                    self.peers[i].host = host;
                    self.peers[i].last_seen = now;
                    assert(self.table() =~= located(before, rec.name@, h, port, now));
                },
                None => {
                    assert(before =~= located(before, rec.name@, host@, port, now));
                },
            }
        } else if rec.rtype == dns::TYPE_TXT {
            let name: Option<String> = name_from_txt(rec.rdata.as_slice());
            let ghost n = txt_name(rec.rdata@, 0);
            match self.position(rec.name.as_str()) {
                Some(i) => {
                    assert(before[i as int].instance == rec.name@);
                    if name.is_some() {
                        self.peers[i].name = name;
                    }
                    self.peers[i].last_seen = now;
                    assert(self.table() =~= named(before, rec.name@, n, now));
                },
                None => {
                    assert(before =~= named(before, rec.name@, n, now));
                },
            }
        } else if rec.rtype == dns::TYPE_A && rec.rdata.len() == 4 {
            let a: [u8; 4] = [rec.rdata[0], rec.rdata[1], rec.rdata[2], rec.rdata[3]];
            assert(a@ =~= rec.rdata@);
            // A records name the HOST, not the instance, so match on it.
            let ghost after = addressed(before, rec.name@, rec.rdata@, now);
            let mut i: usize = 0;
            while i < self.peers.len()
                invariant
                    i <= self.peers@.len(),
                    a@ == rec.rdata@,
                    before.len() == self.peers@.len(),
                    after == addressed(before, rec.name@, rec.rdata@, now),
                    forall|j: int| 0 <= j < i ==> self.table()[j] == #[trigger] after[j],
                    forall|j: int|
                        i <= j < before.len() ==> self.table()[j] == #[trigger] before[j],
                decreases self.peers@.len() - i,
            {
                assert(self.table()[i as int] == before[i as int]);
                if !self.peers[i].host.as_str().is_empty() && text::same(
                    self.peers[i].host.as_str(),
                    rec.name.as_str(),
                ) {
                    self.peers[i].addr = Some(a);
                    self.peers[i].last_seen = now;
                }
                assert(self.table()[i as int] == after[i as int]);
                i += 1;
            }
            assert(self.table() =~= after);
        }
    }

    /// Drop peers not heard from recently.
    pub fn expire(&mut self, now: u64, older_than: u64)
        requires
            old(self).wf(),
        ensures
            final(self).wf(),
            final(self).table() == kept(old(self).table(), now, older_than),
    {
        let ghost before = self.table();
        let ghost keep = |p: Known| clock::since(now, p.last_seen) < older_than;
        let mut out: Vec<QsPeer> = Vec::new();
        let mut i: usize = 0;
        assert(before.subrange(0, 0).filter(keep) =~= seq![]) by {
            reveal(Seq::filter);
        }
        assert(all_known(out@) =~= seq![]);
        while i < self.peers.len()
            invariant
                i <= self.peers@.len(),
                before == self.table(),
                before.len() == self.peers@.len(),
                self.peers@ == old(self).peers@,
                keep == (|p: Known| clock::since(now, p.last_seen) < older_than),
                all_known(out@) == before.subrange(0, i as int).filter(keep),
            decreases self.peers@.len() - i,
        {
            let ghost sofar = all_known(out@);
            let p = self.peers[i].clone();
            let ghost k = p.known();
            assert(k == before[i as int]);
            if clock::elapsed(now, p.last_seen) < older_than {
                out.push(p);
                assert(all_known(out@) =~= sofar.push(k));
            }
            proof {
                let part = before.subrange(0, i + 1);
                assert(part.drop_last() =~= before.subrange(0, i as int));
                assert(part.last() == k);
                reveal(Seq::filter);
            }
            i += 1;
        }
        assert(before.subrange(0, i as int) =~= before);
        self.peers = out;
        proof {
            lemma_filter_rows(before, keep);
        }
    }

    /// A snapshot of the table.
    pub fn peers(&self) -> (r: Vec<QsPeer>)
        ensures
            all_known(r@) == self.table(),
    {
        let mut out: Vec<QsPeer> = Vec::new();
        let mut i: usize = 0;
        while i < self.peers.len()
            invariant
                i <= self.peers@.len(),
                out@.len() == i,
                forall|j: int| 0 <= j < i ==> (#[trigger] out@[j]).known() == self.table()[j],
            decreases self.peers@.len() - i,
        {
            out.push(self.peers[i].clone());
            i += 1;
        }
        assert(all_known(out@) =~= self.table());
        out
    }
}

proof fn lemma_filter_rows(peers: Seq<Known>, keep: spec_fn(Known) -> bool)
    requires
        one_row_each(peers),
    ensures
        one_row_each(peers.filter(keep)),
        forall|i: int|
            0 <= i < peers.filter(keep).len() ==> peers.contains(#[trigger] peers.filter(keep)[i]),
    decreases peers.len(),
{
    reveal(Seq::filter);
    if peers.len() > 0 {
        let p = peers.drop_last();
        assert forall|i: int, j: int| 0 <= i < j < p.len() implies (#[trigger] p[i]).instance != (
        #[trigger] p[j]).instance by {
            assert(p[i] == peers[i] && p[j] == peers[j]);
        }
        lemma_filter_rows(p, keep);
        let f = p.filter(keep);
        let g = peers.filter(keep);
        assert forall|i: int| 0 <= i < g.len() implies peers.contains(#[trigger] g[i]) by {
            if i < f.len() {
                assert(g[i] == f[i]);
                assert(p.contains(f[i]));
                let k = choose|k: int| 0 <= k < p.len() && p[k] == f[i];
                assert(peers[k] == f[i]);
            } else {
                assert(peers[peers.len() - 1] == g[i]);
            }
        }
        assert forall|i: int, j: int| 0 <= i < j < g.len() implies (#[trigger] g[i]).instance != (
        #[trigger] g[j]).instance by {
            assert(g[i] == f[i]);
            if j < f.len() {
                assert(g[j] == f[j]);
            } else {
                assert(g[j] == peers.last());
                assert(p.contains(f[i]));
                let k = choose|k: int| 0 <= k < p.len() && p[k] == f[i];
                assert(peers[k] == f[i]);
                assert(peers[peers.len() - 1] == g[j]);
            }
        }
    }
}

// --------------------------------------------------------------- advertising ---

/// How long a peer may cache our records. Short: an endpoint that goes away should stop
/// being offered promptly, and announcements are cheap.
pub const TTL_SECS: u32 = 120;

/// The name of an endpoint's instance.
pub open spec fn endpoint_instance(id: Seq<u8>) -> Seq<char> {
    quickshare::instance_text(id) + seq!['.'] + endpoint::SERVICE_TYPE@
}

/// The name an endpoint's SRV record points at. Derived from the endpoint id rather than from
/// the device name: that is the user's and may be anything, including characters a DNS label
/// cannot carry.
pub open spec fn endpoint_host(id: Seq<u8>) -> Seq<char> {
    "tarish-"@ + text::ascii_lower_text(quickshare::instance_text(id)) + ".local"@
}

/// What a device says of itself when it takes part.
pub open spec fn phone(metadata: Seq<u8>, device_name: Seq<char>) -> endpoint::Advertised {
    endpoint::Advertised {
        version: 0,
        hidden: false,
        device_type: DeviceType::Phone,
        metadata,
        device_name: Some(device_name),
    }
}

/// TXT rdata with one `n=` entry.
pub open spec fn info_txt(info: Seq<u8>) -> Seq<u8> {
    let entry = seq![0x6Eu8, 0x3D] + quickshare::base64_digits(info);
    seq![(entry.len() % 256) as u8] + entry
}

pub open spec fn srv_rdata(port: u16, host: Seq<char>) -> Seq<u8> {
    seq![0u8, 0, 0, 0] + wire::be_bytes(port as nat, 2) + dns::name_bytes(host)
}

/// The four records a sender needs, each of which answers a question the one before raised.
pub open spec fn endpoint_records(
    instance: Seq<char>,
    host: Seq<char>,
    addr: Seq<u8>,
    info: Seq<u8>,
    port: u16,
) -> Seq<dns_laws::Outgoing> {
    seq![
        dns_laws::Outgoing {
            name: endpoint::SERVICE_TYPE@,
            rtype: dns::TYPE_PTR,
            ttl: TTL_SECS,
            rdata: dns::name_bytes(instance),
            flush: false,
        },
        dns_laws::Outgoing {
            name: instance,
            rtype: dns::TYPE_SRV,
            ttl: TTL_SECS,
            rdata: srv_rdata(port, host),
            flush: true,
        },
        dns_laws::Outgoing {
            name: instance,
            rtype: dns::TYPE_TXT,
            ttl: TTL_SECS,
            rdata: info_txt(info),
            flush: true,
        },
        dns_laws::Outgoing {
            name: host,
            rtype: dns::TYPE_A,
            ttl: TTL_SECS,
            rdata: addr,
            flush: true,
        },
    ]
}

/// Whether anyone asks for the service, for this instance or for its host.
pub open spec fn asks_for(
    questions: Seq<dns::Asked>,
    instance: Seq<char>,
    host: Seq<char>,
) -> bool {
    exists|i: int|
        0 <= i < questions.len() && ((#[trigger] questions[i]).name == endpoint::SERVICE_TYPE@
            || questions[i].name == instance || questions[i].name == host)
}

/// The metadata that sixteen random bytes make. Without them it is zeros.
pub fn metadata_of(random: Option<Vec<u8>>) -> (r: [u8; 16])
    requires
        random matches Some(b) ==> b@.len() == 16,
    ensures
        r@ == (match random {
            Some(b) => b@,
            None => Seq::new(16, |i: int| 0u8),
        }),
{
    match random {
        Some(b) => [
            b[0],
            b[1],
            b[2],
            b[3],
            b[4],
            b[5],
            b[6],
            b[7],
            b[8],
            b[9],
            b[10],
            b[11],
            b[12],
            b[13],
            b[14],
            b[15],
        ],
        None => [0u8; 16],
    }
}

/// Sixteen bytes that tell one advertisement from another, made by `metadata_of`. When there
/// is no randomness they are zeros.
pub fn random_metadata() -> (r: [u8; 16]) {
    metadata_of(random::random_bytes(16))
}

/// Announces this device as a Quick Share endpoint on the Wi-Fi LAN, and answers queries for
/// it.
pub struct QsResponder {
    /// The instance label, which encodes our endpoint id.
    pub instance: String,
    /// `<something>.local` -- the name SRV points at and A resolves.
    pub host: String,
    pub addr: [u8; 4],
    pub endpoint_info: Vec<u8>,
    pub port: u16,
}

impl QsResponder {
    pub open spec fn records(&self) -> Seq<dns_laws::Outgoing> {
        endpoint_records(
            self.instance@,
            self.host@,
            self.addr@,
            self.endpoint_info@,
            self.port,
        )
    }

    pub open spec fn represents(
        &self,
        id: Seq<u8>,
        metadata: Seq<u8>,
        device_name: Seq<char>,
        addr: Seq<u8>,
        port: u16,
    ) -> bool {
        &&& self.instance@ == endpoint_instance(id)
        &&& self.host@ == endpoint_host(id)
        &&& self.addr@ == addr
        &&& self.endpoint_info@ == phone(metadata, device_name).bytes()
        &&& self.port == port
    }

    /// An endpoint with fresh metadata.
    pub fn new(id: &[u8; 4], device_name: &str, addr: [u8; 4], port: u16) -> (r: Self)
        ensures
            exists|metadata: Seq<u8>|
                metadata.len() == 16 && #[trigger] r.represents(
                    id@,
                    metadata,
                    device_name@,
                    addr@,
                    port,
                ),
    {
        let metadata = random_metadata();
        let r = QsResponder::with_metadata(id, metadata, device_name, addr, port);
        assert(r.represents(id@, metadata@, device_name@, addr@, port));
        r
    }

    pub fn with_metadata(
        id: &[u8; 4],
        metadata: [u8; 16],
        device_name: &str,
        addr: [u8; 4],
        port: u16,
    ) -> (r: Self)
        ensures
            r.represents(id@, metadata@, device_name@, addr@, port),
    {
        let label = quickshare::instance_name(id);
        let mut instance = label.clone();
        instance.push('.');
        instance.append(endpoint::SERVICE_TYPE);
        let lower = text::to_lower(label.as_str());
        let mut host = String::new();
        host.append("tarish-");
        host.append(lower.as_str());
        host.append(".local");
        assert(instance@ =~= endpoint_instance(id@));
        assert(host@ =~= endpoint_host(id@));
        let mut owned = String::new();
        owned.append(device_name);
        assert(owned@ =~= device_name@);
        let info = EndpointInfo {
            version: 0,
            hidden: false,
            device_type: DeviceType::Phone,
            metadata,
            device_name: Some(owned),
        };
        let endpoint_info = info.encode();
        QsResponder { instance, host, addr, endpoint_info, port }
    }

    /// The four records, as answers. Shared by the unsolicited announcement and by replies.
    pub fn answers(&self) -> (r: Vec<Vec<u8>>)
        ensures
            dns::byte_strings(r@) == dns_laws::all_bytes(self.records()),
    {
        let digits = quickshare::base64url_encode(self.endpoint_info.as_slice());
        let b = digits.as_str().as_bytes();
        proof {
            quickshare::lemma_base64_text(self.endpoint_info@);
        }
        let mut txt: Vec<u8> = Vec::new();
        let n: usize = b.len();
        txt.push(((n % 256 + 2) % 256) as u8);
        txt.push(0x6E);
        txt.push(0x3D);
        txt.extend_from_slice(b);
        assert(txt@ =~= info_txt(self.endpoint_info@));
        let mut srv: Vec<u8> = Vec::new();
        srv.push(0);  // priority
        srv.push(0);
        srv.push(0);  // weight
        srv.push(0);
        wire::write_uint(&mut srv, self.port as u64, 2);
        let host = dns::encode_name(self.host.as_str());
        srv.extend_from_slice(host.as_slice());
        assert(srv@ =~= srv_rdata(self.port, self.host@));
        let mut a: Vec<u8> = Vec::new();
        a.push(self.addr[0]);
        a.push(self.addr[1]);
        a.push(self.addr[2]);
        a.push(self.addr[3]);
        assert(a@ =~= self.addr@);
        let named = dns::encode_name(self.instance.as_str());
        let mut out: Vec<Vec<u8>> = Vec::new();
        out.push(
            dns::record(
                endpoint::SERVICE_TYPE,
                dns::TYPE_PTR,
                TTL_SECS,
                named.as_slice(),
                false,
            ),
        );
        out.push(
            dns::record(self.instance.as_str(), dns::TYPE_SRV, TTL_SECS, srv.as_slice(), true),
        );
        out.push(
            dns::record(self.instance.as_str(), dns::TYPE_TXT, TTL_SECS, txt.as_slice(), true),
        );
        out.push(dns::record(self.host.as_str(), dns::TYPE_A, TTL_SECS, a.as_slice(), true));
        assert(dns::byte_strings(out@) =~= dns_laws::all_bytes(self.records()));
        out
    }

    /// The packet that says we are here, unprompted.
    ///
    /// Unsolicited announcement matters as much as answering: a sender that is already
    /// browsing will not re-query just because we appeared, so a receiver that only ever
    /// replies stays invisible until the peer's next scheduled query.
    pub fn announce(&self) -> (r: Vec<u8>)
        ensures
            r@ == dns::response_bytes(dns_laws::all_bytes(self.records())),
    {
        let answers = self.answers();
        dns::response(answers.as_slice())
    }

    /// The packet to answer with, when this one asks for us.
    ///
    /// Questions only. Our own announcement comes back to us on the group, and answering an
    /// answer is how two responders talk each other into a loop.
    pub fn poll(&self, packet: &[u8]) -> (r: Option<Vec<u8>>)
        ensures
            match r {
                Some(p) => p@ == dns::response_bytes(dns_laws::all_bytes(self.records())),
                None => true,
            },
            r is Some <==> match dns::message_in(packet@) {
                Some((questions, _)) => asks_for(questions, self.instance@, self.host@),
                None => false,
            },
    {
        let msg: dns::Message = match dns::parse(packet) {
            Some(m) => m,
            None => {
                return None;
            },
        };
        let ghost asked = dns::all_asked(msg.questions@);
        let mut i: usize = 0;
        while i < msg.questions.len()
            invariant
                i <= msg.questions@.len(),
                asked == dns::all_asked(msg.questions@),
                dns::message_in(packet@) is Some,
                dns::message_in(packet@)->Some_0.0 == asked,
                forall|j: int|
                    0 <= j < i ==> (#[trigger] asked[j]).name != endpoint::SERVICE_TYPE@
                        && asked[j].name != self.instance@ && asked[j].name != self.host@,
            decreases msg.questions@.len() - i,
        {
            let name: &str = msg.questions[i].name.as_str();
            assert(asked[i as int].name == name@);
            if text::same(name, endpoint::SERVICE_TYPE) || text::same(
                name,
                self.instance.as_str(),
            ) || text::same(name, self.host.as_str()) {
                return Some(self.announce());
            }
            i += 1;
        }
        None
    }
}

} // verus!
