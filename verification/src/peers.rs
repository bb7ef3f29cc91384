//! The list of devices a person picks from, and the way back from a row to a device.
//!
//! Two protocols, two ways of finding a device, two tables. They meet in one list, where each
//! row carries the protocol that found it.

use vstd::prelude::*;
use crate::address;
use crate::clock;
use crate::discovery::QsPeer;
use crate::mdns;
use crate::mdns::Peer;
use crate::order;
use crate::send::Target;
use crate::text;

verus! {

/// How long a device seen over Bluetooth stays listed after its last advertisement. There is
/// no event for one that walks away: it simply stops.
pub const BLE_PEER_TTL: u64 = 20_000;

pub const PROTOCOL_AIRDROP: i32 = 0;

pub const PROTOCOL_QUICKSHARE: i32 = 1;

// -------------------------------------------------------------- learned names ---

/// A name that a peer gave when asked, under the address it was asked at. Not under its
/// instance, because that rotates.
pub struct Named {
    pub addr: [u8; 16],
    pub name: String,
}

pub struct Names {
    pub rows: Vec<Named>,
}

pub open spec fn name_in(rows: Seq<Named>, addr: Seq<u8>) -> Option<Seq<char>>
    decreases rows.len(),
{
    if rows.len() == 0 {
        None
    } else if rows[0].addr@ == addr {
        Some(rows[0].name@)
    } else {
        name_in(rows.drop_first(), addr)
    }
}

proof fn lemma_place(rows: Seq<Named>, addr: Seq<u8>, i: int)
    requires
        0 <= i <= rows.len(),
        forall|k: int| 0 <= k < i ==> (#[trigger] rows[k]).addr@ != addr,
        i < rows.len() ==> rows[i].addr@ == addr,
    ensures
        name_in(rows, addr) == (if i < rows.len() {
            Some(rows[i].name@)
        } else {
            None
        }),
    decreases i,
{
    if i > 0 {
        let rest = rows.drop_first();
        assert(rows[0].addr@ != addr);
        assert forall|k: int| 0 <= k < i - 1 implies (#[trigger] rest[k]).addr@ != addr by {
            assert(rest[k] == rows[k + 1]);
        }
        lemma_place(rest, addr, i - 1);
    }
}

proof fn lemma_other_names(a: Seq<Named>, b: Seq<Named>, addr: Seq<u8>, i: int)
    requires
        0 <= i < b.len(),
        b[i].addr@ != addr,
        i < a.len() ==> a[i].addr@ != addr && a.len() == b.len(),
        i >= a.len() ==> i == a.len() && b.len() == a.len() + 1,
        forall|k: int| 0 <= k < a.len() && k != i ==> a[k] == b[k],
    ensures
        name_in(a, addr) == name_in(b, addr),
    decreases b.len(),
{
    if i == 0 {
        if a.len() > 0 {
            assert(a.drop_first() =~= b.drop_first());
        } else {
            assert(b.drop_first() =~= a);
        }
    } else {
        assert(a[0] == b[0]);
        let x = a.drop_first();
        let y = b.drop_first();
        assert(y[i - 1] == b[i]);
        assert forall|k: int| 0 <= k < x.len() && k != i - 1 implies x[k] == y[k] by {
            assert(x[k] == a[k + 1] && y[k] == b[k + 1]);
        }
        lemma_other_names(x, y, addr, i - 1);
    }
}

impl Names {
    pub open spec fn at(self, addr: Seq<u8>) -> Option<Seq<char>> {
        name_in(self.rows@, addr)
    }

    pub fn new() -> (r: Self)
        ensures
            forall|a: Seq<u8>| #[trigger] r.at(a) is None,
    {
        Names { rows: Vec::new() }
    }

    fn find(&self, addr: &[u8; 16]) -> (r: usize)
        ensures
            r <= self.rows@.len(),
            forall|k: int| 0 <= k < r ==> (#[trigger] self.rows@[k]).addr@ != addr@,
            r < self.rows@.len() ==> self.rows@[r as int].addr@ == addr@,
    {
        let n: usize = self.rows.len();
        let mut i: usize = 0;
        while i < n
            invariant
                n == self.rows@.len(),
                i <= n,
                forall|k: int| 0 <= k < i ==> (#[trigger] self.rows@[k]).addr@ != addr@,
            decreases n - i,
        {
            if address::same_bytes(&self.rows[i].addr, addr) {
                return i;
            }
            i = i + 1;
        }
        n
    }

    pub fn name_at(&self, addr: &[u8; 16]) -> (r: Option<String>)
        ensures
            match r {
                Some(n) => self.at(addr@) == Some(n@),
                None => self.at(addr@) is None,
            },
    {
        let i: usize = self.find(addr);
        proof {
            lemma_place(self.rows@, addr@, i as int);
        }
        if i < self.rows.len() {
            Some(self.rows[i].name.clone())
        } else {
            None
        }
    }

    /// A peer gave its name. It replaces an earlier one.
    pub fn learn(&mut self, addr: [u8; 16], name: String)
        ensures
            forall|a: Seq<u8>| #[trigger]
                final(self).at(a) == (if a == addr@ {
                    Some(name@)
                } else {
                    old(self).at(a)
                }),
    {
        let i: usize = self.find(&addr);
        let ghost before = self.rows@;
        let ghost given = name@;
        if i < self.rows.len() {
            self.rows[i].name = name;
        } else {
            self.rows.push(Named { addr, name });
        }
        proof {
            let after = self.rows@;
            assert forall|a: Seq<u8>| #[trigger] self.at(a) == (if a == addr@ {
                Some(given)
            } else {
                old(self).at(a)
            }) by {
                if a == addr@ {
                    assert forall|k: int| 0 <= k < i implies (#[trigger] after[k]).addr@ != addr@ by {
                        assert(after[k] == before[k]);
                    }
                    lemma_place(after, addr@, i as int);
                } else {
                    lemma_other_names(before, after, a, i as int);
                }
            }
        }
    }

    pub fn forget_all(&mut self)
        ensures
            forall|a: Seq<u8>| #[trigger] final(self).at(a) is None,
    {
        self.rows = Vec::new();
    }
}

// --------------------------------------------------------------- Bluetooth rows ---

/// What a Bluetooth advertisement said.
#[derive(Debug)]
pub struct Advertisement {
    pub endpoint_id: String,
    pub device_name: Option<String>,
    pub bluetooth_mac: Option<String>,
    /// It carried the hash of the service it advertises.
    pub verified: bool,
    /// Where an L2CAP channel may be opened, if anywhere.
    pub psm: Option<u16>,
}

/// A Quick Share device seen over Bluetooth.
#[derive(Debug)]
pub struct BlePeer {
    pub id: String,
    pub name: Option<String>,
    /// How to reach it with no network.
    pub mac: Option<String>,
    /// Where the advertisement came from. It rotates.
    pub ble_address: String,
    /// Zero when it published none.
    pub psm: u16,
    pub seen: u64,
}

/// A row of the Bluetooth table.
pub struct BleRow {
    pub id: Seq<char>,
    pub name: Option<Seq<char>>,
    pub mac: Option<Seq<char>>,
    pub ble_address: Seq<char>,
    pub psm: u16,
    pub seen: u64,
}

pub open spec fn opt_text(t: Option<String>) -> Option<Seq<char>> {
    match t {
        Some(s) => Some(s@),
        None => None,
    }
}

impl BlePeer {
    pub open spec fn row(&self) -> BleRow {
        BleRow {
            id: self.id@,
            name: opt_text(self.name),
            mac: opt_text(self.mac),
            ble_address: self.ble_address@,
            psm: self.psm,
            seen: self.seen,
        }
    }
}

pub open spec fn ble_rows(v: Seq<BlePeer>) -> Seq<BleRow> {
    v.map_values(|p: BlePeer| p.row())
}

pub open spec fn fresh(p: BleRow, now: u64) -> bool {
    clock::since(now, p.seen) < BLE_PEER_TTL
}

/// Whether a row says nothing of the device that an advertisement is from: neither its id, nor
/// its Bluetooth address, which is the one thing that does not rotate.
pub open spec fn other_device(p: BleRow, id: Seq<char>, mac: Option<Seq<char>>) -> bool {
    p.id != id && (mac is Some ==> p.mac != mac)
}

/// The devices seen over Bluetooth.
pub struct BlePeers {
    pub peers: Vec<BlePeer>,
}

impl View for BlePeers {
    type V = Seq<BleRow>;

    open spec fn view(&self) -> Seq<BleRow> {
        ble_rows(self.peers@)
    }
}

/// One row for each device: no id twice, and no Bluetooth address twice.
pub open spec fn one_row_per_device(rows: Seq<BleRow>) -> bool {
    forall|i: int, j: int|
        0 <= i < j < rows.len() ==> (#[trigger] rows[i]).id != (#[trigger] rows[j]).id && (
        rows[i].mac is Some ==> rows[i].mac != rows[j].mac)
}

/// The table after an advertisement. One that can be neither reached nor trusted is dropped:
/// a device in the list that cannot be sent to is worse than one that is not there.
pub open spec fn reported(
    rows: Seq<BleRow>,
    a: Advertisement,
    address: Seq<char>,
    now: u64,
) -> Seq<BleRow> {
    let mac = opt_text(a.bluetooth_mac);
    if mac is None && !a.verified {
        rows
    } else {
        rows.filter(
            |p: BleRow| fresh(p, now) && other_device(p, a.endpoint_id@, mac),
        ).push(
            BleRow {
                id: a.endpoint_id@,
                name: opt_text(a.device_name),
                mac,
                ble_address: address,
                psm: match a.psm {
                    Some(p) => p,
                    None => 0,
                },
                seen: now,
            },
        )
    }
}

/// Which rows stay: the fresh ones, of other devices than the one that was heard of.
spec fn keeper(now: u64, a: Option<&Advertisement>) -> spec_fn(BleRow) -> bool {
    |p: BleRow|
        fresh(p, now) && (a matches Some(ad) ==> other_device(
            p,
            ad.endpoint_id@,
            opt_text(ad.bluetooth_mac),
        ))
}

fn same_mac(a: &Option<String>, b: &String) -> (r: bool)
    ensures
        r == (opt_text(*a) == Some(b@)),
{
    match a {
        Some(m) => text::same(m.as_str(), b.as_str()),
        None => false,
    }
}

impl BlePeers {
    pub fn new() -> (r: Self)
        ensures
            r@.len() == 0,
            one_row_per_device(r@),
    {
        BlePeers { peers: Vec::new() }
    }

    /// Keep the fresh rows of other devices, or all fresh rows.
    fn sift(&mut self, now: u64, a: Option<&Advertisement>)
        ensures
            final(self)@ == old(self)@.filter(keeper(now, a)),
    {
        let ghost keep = keeper(now, a);
        let ghost all = self@;
        let mut was: Vec<BlePeer> = Vec::new();
        std::mem::swap(&mut was, &mut self.peers);
        let ghost first = was@;
        let mut kept: Vec<BlePeer> = Vec::new();
        // Taken from the end, so that each row is moved once; then put back in order.
        let mut back: Vec<BlePeer> = Vec::new();
        let n: usize = was.len();
        let mut i: usize = n;
        while i > 0
            invariant
                i <= n,
                n == first.len(),
                was@ == first.take(i as int),
                back@ == first.skip(i as int).reverse(),
            decreases i,
        {
            match was.pop() {
                Some(p) => {
                    proof {
                        assert(first.take(i as int).last() == first[i - 1]);
                        assert(first.take(i as int).drop_last() =~= first.take(i - 1));
                    }
                    back.push(p);
                    assert(back@ =~= first.skip(i - 1).reverse());
                },
                None => {},
            }
            i = i - 1;
        }
        assert(ble_rows(kept@) =~= all.take(0).filter(keep)) by {
            reveal(Seq::filter);
        }
        assert(first.skip(0) =~= first);
        while i < n
            invariant
                i <= n,
                n == first.len(),
                all == ble_rows(first),
                back@ == first.skip(i as int).reverse(),
                keep == keeper(now, a),
                ble_rows(kept@) == all.take(i as int).filter(keep),
            decreases n - i,
        {
            let ghost so_far = ble_rows(kept@);
            proof {
                assert(back@.last() == first[i as int]);
                assert(back@.drop_last() =~= first.skip(i + 1).reverse());
                assert(all.take(i + 1).drop_last() =~= all.take(i as int));
                assert(all.take(i + 1).last() == first[i as int].row());
                reveal(Seq::filter);
            }
            match back.pop() {
                Some(p) => {
                    let stays: bool = clock::elapsed(now, p.seen) < BLE_PEER_TTL && match a {
                        None => true,
                        Some(ad) => !text::same(p.id.as_str(), ad.endpoint_id.as_str()) && match &ad.bluetooth_mac {
                            Some(m) => !same_mac(&p.mac, m),
                            None => true,
                        },
                    };
                    if stays {
                        kept.push(p);
                        assert(ble_rows(kept@) =~= so_far.push(p.row()));
                    }
                },
                None => {},
            }
            i = i + 1;
        }
        assert(all.take(n as int) =~= all);
        self.peers = kept;
    }

    /// An advertisement was heard.
    pub fn report(&mut self, address: &str, a: Advertisement, now: u64)
        ensures
            final(self)@ == reported(old(self)@, a, address@, now),
            one_row_per_device(old(self)@) ==> one_row_per_device(final(self)@),
    {
        if a.bluetooth_mac.is_none() && !a.verified {
            return;
        }
        let ghost before = self@;
        let ghost mac = opt_text(a.bluetooth_mac);
        let ghost keep = |p: BleRow| fresh(p, now) && other_device(p, a.endpoint_id@, mac);
        let ghost kept = before.filter(keep);
        self.sift(now, Some(&a));
        proof {
            assert(keep =~= keeper(now, Some(&a)));
        }
        let psm: u16 = match a.psm {
            Some(p) => p,
            None => 0,
        };
        let row = BlePeer {
            id: a.endpoint_id,
            name: a.device_name,
            mac: a.bluetooth_mac,
            ble_address: address.to_owned(),
            psm,
            seen: now,
        };
        let ghost new = row.row();
        self.peers.push(row);
        proof {
            assert(self@ =~= kept.push(new));
            if one_row_per_device(before) {
                lemma_sifted(before, keep);
                let after = self@;
                assert forall|i: int, j: int| 0 <= i < j < after.len() implies (
                #[trigger] after[i]).id != (#[trigger] after[j]).id && (after[i].mac is Some
                    ==> after[i].mac != after[j].mac) by {
                    assert(after[i] == kept[i]);
                    if j < kept.len() {
                        assert(after[j] == kept[j]);
                    } else {
                        before.lemma_filter_pred(keep, i);
                        assert(keep(kept[i]));
                    }
                }
            }
        }
    }

    /// Drop the devices that have not been heard of lately.
    pub fn expire(&mut self, now: u64)
        ensures
            final(self)@ == old(self)@.filter(|p: BleRow| fresh(p, now)),
            one_row_per_device(old(self)@) ==> one_row_per_device(final(self)@),
    {
        let ghost before = self@;
        self.sift(now, None);
        proof {
            let keep = |p: BleRow| fresh(p, now);
            assert(keep =~= keeper(now, None));
            if one_row_per_device(before) {
                lemma_sifted(before, keep);
            }
        }
    }
}

/// Rows that are kept were there, in the same order.
proof fn lemma_sifted(rows: Seq<BleRow>, keep: spec_fn(BleRow) -> bool)
    requires
        one_row_per_device(rows),
    ensures
        one_row_per_device(rows.filter(keep)),
        forall|i: int| 0 <= i < rows.filter(keep).len() ==> rows.contains(#[trigger] rows.filter(keep)[i]),
    decreases rows.len(),
{
    reveal(Seq::filter);
    let kept = rows.filter(keep);
    if rows.len() > 0 {
        let front = rows.drop_last();
        let last = rows.last();
        assert(one_row_per_device(front)) by {
            assert forall|i: int, j: int| 0 <= i < j < front.len() implies (#[trigger] front[i]).id
                != (#[trigger] front[j]).id && (front[i].mac is Some ==> front[i].mac
                != front[j].mac) by {
                assert(front[i] == rows[i] && front[j] == rows[j]);
            }
        }
        lemma_sifted(front, keep);
        let some = front.filter(keep);
        assert forall|i: int| 0 <= i < kept.len() implies rows.contains(#[trigger] kept[i]) by {
            if i < some.len() {
                assert(kept[i] == some[i]);
                let k = choose|k: int| 0 <= k < front.len() && front[k] == some[i];
                assert(rows[k] == kept[i]);
            } else {
                assert(rows[rows.len() - 1] == kept[i]);
            }
        }
        assert forall|i: int, j: int| 0 <= i < j < kept.len() implies (#[trigger] kept[i]).id != (
        #[trigger] kept[j]).id && (kept[i].mac is Some ==> kept[i].mac != kept[j].mac) by {
            assert(kept[i] == some[i]);
            if j < some.len() {
                assert(kept[j] == some[j]);
            } else {
                assert(kept[j] == last);
                let k = choose|k: int| 0 <= k < front.len() && front[k] == some[i];
                assert(rows[k] == some[i]);
                assert(rows[rows.len() - 1] == last);
            }
        }
    }
}

// -------------------------------------------------------------------- the list ---

/// A row of the list a person picks from.
#[derive(Debug)]
pub struct PeerRow {
    pub id: String,
    pub name: String,
    pub protocol: i32,
    pub bluetooth_mac: String,
    pub ble_address: String,
    pub psm: i32,
}

/// What a row says.
pub struct Row {
    pub id: Seq<char>,
    pub name: Seq<char>,
    pub protocol: i32,
    pub bluetooth_mac: Seq<char>,
    pub ble_address: Seq<char>,
    pub psm: int,
}

impl PeerRow {
    pub open spec fn row(&self) -> Row {
        Row {
            id: self.id@,
            name: self.name@,
            protocol: self.protocol,
            bluetooth_mac: self.bluetooth_mac@,
            ble_address: self.ble_address@,
            psm: self.psm as int,
        }
    }
}

pub open spec fn rows(v: Seq<PeerRow>) -> Seq<Row> {
    v.map_values(|r: PeerRow| r.row())
}

/// By name, and by id where names are the same. An unstable order makes a row move under a
/// finger.
pub open spec fn row_le(a: Row, b: Row) -> bool {
    if a.name == b.name {
        order::text_le(a.id, b.id)
    } else {
        order::text_le(a.name, b.name)
    }
}

pub open spec fn rows_in_order(v: Seq<Row>) -> bool {
    forall|i: int, j: int| 0 <= i <= j < v.len() ==> row_le(#[trigger] v[i], #[trigger] v[j])
}

proof fn lemma_row_total(a: Row, b: Row)
    ensures
        row_le(a, b) || row_le(b, a),
{
    order::law_text_order_is_total(a.name, b.name);
    order::law_text_order_is_total(a.id, b.id);
}

proof fn lemma_row_transitive(a: Row, b: Row, c: Row)
    requires
        row_le(a, b),
        row_le(b, c),
    ensures
        row_le(a, c),
{
    if a.name == b.name && b.name == c.name {
        order::law_text_order_is_transitive(a.id, b.id, c.id);
    } else if a.name != b.name && b.name != c.name {
        order::law_text_order_is_transitive(a.name, b.name, c.name);
        if a.name == c.name {
            order::law_text_order_is_antisymmetric(a.name, b.name);
        }
    }
}

fn row_before(a: &PeerRow, b: &PeerRow) -> (r: bool)
    ensures
        r == row_le(a.row(), b.row()),
{
    if text::same(a.name.as_str(), b.name.as_str()) {
        order::comes_before(a.id.as_str(), b.id.as_str())
    } else {
        order::comes_before(a.name.as_str(), b.name.as_str())
    }
}

/// Put one more row where it belongs.
fn place(sorted: &mut Vec<PeerRow>, row: PeerRow)
    requires
        rows_in_order(rows(old(sorted)@)),
    ensures
        rows_in_order(rows(final(sorted)@)),
        rows(final(sorted)@).to_multiset() == rows(old(sorted)@).to_multiset().insert(row.row()),
        final(sorted)@.len() == old(sorted)@.len() + 1,
{
    let ghost before = rows(sorted@);
    let ghost x = row.row();
    let mut pos: usize = 0;
    while pos < sorted.len() && row_before(&sorted[pos], &row)
        invariant
            pos <= sorted@.len(),
            before == rows(sorted@),
            x == row.row(),
            forall|k: int| 0 <= k < pos ==> row_le(#[trigger] before[k], x),
        decreases sorted@.len() - pos,
    {
        assert(before[pos as int] == sorted@[pos as int].row());
        pos += 1;
    }
    proof {
        if pos < sorted@.len() {
            assert(before[pos as int] == sorted@[pos as int].row());
            lemma_row_total(before[pos as int], x);
        }
        assert forall|j: int| pos <= j < before.len() implies row_le(x, #[trigger] before[j]) by {
            lemma_row_transitive(x, before[pos as int], before[j]);
        }
    }
    sorted.insert(pos, row);
    proof {
        let after = rows(sorted@);
        assert(after =~= before.insert(pos as int, x));
        before.insert_ensures(pos as int, x);
        assert forall|i: int, j: int| 0 <= i <= j < after.len() implies row_le(
            #[trigger] after[i],
            #[trigger] after[j],
        ) by {
            if i == j {
                lemma_row_total(after[i], after[i]);
            } else if i < pos && j < pos {
                assert(after[i] == before[i] && after[j] == before[j]);
            } else if i < pos && j == pos {
                assert(after[i] == before[i]);
            } else if i < pos && j > pos {
                assert(after[i] == before[i] && after[j] == before[j - 1]);
                lemma_row_transitive(before[i], x, before[j - 1]);
            } else if i == pos {
                assert(after[j] == before[j - 1]);
            } else {
                assert(after[i] == before[i - 1] && after[j] == before[j - 1]);
            }
        }
        after.to_multiset_ensures();
        assert(after.remove(pos as int) =~= before);
        assert(after[pos as int] == x);
        assert(after.contains(x));
        assert(before.to_multiset().insert(x) =~= after.to_multiset());
    }
}

/// The name a peer is shown under: what it gave, else its identifier.
pub open spec fn shown_name(p: mdns::Seen, names: Names) -> Seq<char> {
    if p.addr is Some && names.at(p.addr->0) is Some {
        names.at(p.addr->0)->0
    } else {
        text::before_first(p.instance, '.')
    }
}

/// What tells one device from another: the name it gave, else its instance.
pub open spec fn device_key(p: mdns::Seen, names: Names) -> Seq<char> {
    if p.addr is Some && names.at(p.addr->0) is Some {
        names.at(p.addr->0)->0
    } else {
        p.instance
    }
}

/// Whether a row is the newest of its device, and the first of those as new.
pub open spec fn newest(peers: Seq<mdns::Seen>, names: Names, i: int) -> bool {
    forall|j: int|
        0 <= j < peers.len() && device_key(#[trigger] peers[j], names) == device_key(
            peers[i],
            names,
        ) ==> peers[j].last_seen < peers[i].last_seen || peers[j].last_seen == peers[i].last_seen
            && i <= j
}

/// The row of an AirDrop peer.
pub open spec fn airdrop_row(p: mdns::Seen, names: Names) -> Row {
    Row {
        id: p.instance,
        name: shown_name(p, names),
        protocol: PROTOCOL_AIRDROP,
        bluetooth_mac: seq![],
        ble_address: seq![],
        psm: 0,
    }
}

/// One row for each device. Instances rotate, and for a moment after that both are live.
pub open spec fn airdrop_rows(peers: Seq<mdns::Seen>, names: Names, n: int) -> Seq<Row>
    decreases n,
{
    if n <= 0 {
        seq![]
    } else if newest(peers, names, n - 1) {
        airdrop_rows(peers, names, n - 1).push(airdrop_row(peers[n - 1], names))
    } else {
        airdrop_rows(peers, names, n - 1)
    }
}

/// The row of a device seen over Bluetooth.
pub open spec fn quickshare_row(p: BleRow) -> Row {
    Row {
        id: p.id,
        name: match p.name {
            Some(n) => n,
            None => p.id,
        },
        protocol: PROTOCOL_QUICKSHARE,
        bluetooth_mac: match p.mac {
            Some(m) => m,
            None => seq![],
        },
        ble_address: p.ble_address,
        psm: p.psm as int,
    }
}

pub open spec fn quickshare_rows(v: Seq<BleRow>) -> Seq<Row> {
    v.map_values(|p: BleRow| quickshare_row(p))
}

fn name_of(p: &Peer, names: &Names) -> (r: Option<String>)
    ensures
        match r {
            Some(n) => p.seen().addr is Some && names.at(p.seen().addr->0) == Some(n@),
            None => !(p.seen().addr is Some && names.at(p.seen().addr->0) is Some),
        },
{
    match p.addr {
        Some(a) => names.name_at(&a),
        None => None,
    }
}

fn key_of(p: &Peer, names: &Names) -> (r: String)
    ensures
        r@ == device_key(p.seen(), *names),
{
    match name_of(p, names) {
        Some(n) => n,
        None => p.instance.clone(),
    }
}

fn is_newest(peers: &Vec<Peer>, names: &Names, i: usize) -> (r: bool)
    requires
        i < peers@.len(),
    ensures
        r == newest(mdns::all_seen(peers@), *names, i as int),
{
    let ghost all = mdns::all_seen(peers@);
    let key = key_of(&peers[i], names);
    let n: usize = peers.len();
    let mut j: usize = 0;
    while j < n
        invariant
            n == peers@.len(),
            i < n,
            j <= n,
            all == mdns::all_seen(peers@),
            key@ == device_key(all[i as int], *names),
            forall|k: int|
                0 <= k < j && device_key(#[trigger] all[k], *names) == device_key(
                    all[i as int],
                    *names,
                ) ==> all[k].last_seen < all[i as int].last_seen || all[k].last_seen
                    == all[i as int].last_seen && i <= k,
        decreases n - j,
    {
        let other = key_of(&peers[j], names);
        assert(all[j as int] == peers@[j as int].seen());
        if text::same(key.as_str(), other.as_str()) {
            let mine: u64 = peers[i].last_seen;
            let its: u64 = peers[j].last_seen;
            if !(its < mine || (its == mine && i <= j)) {
                assert(device_key(all[j as int], *names) == device_key(all[i as int], *names));
                return false;
            }
        }
        j = j + 1;
    }
    true
}

fn airdrop_list(peers: &Vec<Peer>, names: &Names) -> (r: Vec<PeerRow>)
    ensures
        rows_in_order(rows(r@)),
        rows(r@).to_multiset() == airdrop_rows(
            mdns::all_seen(peers@),
            *names,
            peers@.len() as int,
        ).to_multiset(),
        r@.len() == airdrop_rows(mdns::all_seen(peers@), *names, peers@.len() as int).len(),
{
    let ghost all = mdns::all_seen(peers@);
    let mut out: Vec<PeerRow> = Vec::new();
    let n: usize = peers.len();
    let mut i: usize = 0;
    assert(rows(out@) =~= seq![]);
    while i < n
        invariant
            n == peers@.len(),
            i <= n,
            all == mdns::all_seen(peers@),
            rows_in_order(rows(out@)),
            rows(out@).to_multiset() == airdrop_rows(all, *names, i as int).to_multiset(),
            out@.len() == airdrop_rows(all, *names, i as int).len(),
        decreases n - i,
    {
        if is_newest(peers, names, i) {
            let p = &peers[i];
            let name = match name_of(p, names) {
                Some(n) => n,
                None => p.short_id(),
            };
            let row = PeerRow {
                id: p.instance.clone(),
                name,
                protocol: PROTOCOL_AIRDROP,
                bluetooth_mac: String::new(),
                ble_address: String::new(),
                psm: 0,
            };
            proof {
                let x = airdrop_row(all[i as int], *names);
                assert(row.bluetooth_mac@ =~= seq![]);
                assert(row.ble_address@ =~= seq![]);
                assert(row.row() == x);
                let so_far = airdrop_rows(all, *names, i as int);
                assert(airdrop_rows(all, *names, i + 1) == so_far.push(x));
                so_far.to_multiset_ensures();
            }
            place(&mut out, row);
        }
        i = i + 1;
    }
    out
}

fn quickshare_list(ble: &BlePeers) -> (r: Vec<PeerRow>)
    ensures
        rows_in_order(rows(r@)),
        rows(r@).to_multiset() == quickshare_rows(ble@).to_multiset(),
        r@.len() == ble@.len(),
{
    let ghost all = quickshare_rows(ble@);
    let mut out: Vec<PeerRow> = Vec::new();
    let n: usize = ble.peers.len();
    let mut i: usize = 0;
    assert(rows(out@) =~= all.take(0));
    while i < n
        invariant
            n == ble.peers@.len(),
            i <= n,
            all == quickshare_rows(ble@),
            rows_in_order(rows(out@)),
            rows(out@).to_multiset() == all.take(i as int).to_multiset(),
            out@.len() == i,
        decreases n - i,
    {
        let p = &ble.peers[i];
        let name: String = match &p.name {
            Some(n) => n.clone(),
            None => p.id.clone(),
        };
        let mac: String = match &p.mac {
            Some(m) => m.clone(),
            None => String::new(),
        };
        let row = PeerRow {
            id: p.id.clone(),
            name,
            protocol: PROTOCOL_QUICKSHARE,
            bluetooth_mac: mac,
            ble_address: p.ble_address.clone(),
            psm: p.psm as i32,
        };
        proof {
            assert(ble@[i as int] == p.row());
            let x = all[i as int];
            assert(x == quickshare_row(p.row()));
            if p.mac is None {
                assert(row.bluetooth_mac@ =~= seq![]);
            }
            assert(row.row() == x);
            assert(all.take(i + 1) =~= all.take(i as int).push(x));
            all.take(i as int).to_multiset_ensures();
        }
        place(&mut out, row);
        i = i + 1;
    }
    assert(all.take(n as int) =~= all);
    out
}

/// The list: AirDrop's devices in order, then Quick Share's in order, once those that walked
/// away are dropped.
pub fn get_peers(peers: &Vec<Peer>, names: &Names, ble: &mut BlePeers, now: u64) -> (r: Vec<
    PeerRow,
>)
    ensures
        final(ble)@ == old(ble)@.filter(|p: BleRow| fresh(p, now)),
        ({
            let first = airdrop_rows(mdns::all_seen(peers@), *names, peers@.len() as int);
            let second = quickshare_rows(final(ble)@);
            let n = first.len() as int;
            &&& r@.len() == first.len() + second.len()
            &&& rows_in_order(rows(r@).take(n))
            &&& rows(r@).take(n).to_multiset() == first.to_multiset()
            &&& rows_in_order(rows(r@).skip(n))
            &&& rows(r@).skip(n).to_multiset() == second.to_multiset()
        }),
{
    let mut out = airdrop_list(peers, names);
    ble.expire(now);
    let mut more = quickshare_list(ble);
    let ghost a = out@;
    let ghost b = more@;
    out.append(&mut more);
    proof {
        assert(rows(out@).take(a.len() as int) =~= rows(a));
        assert(rows(out@).skip(a.len() as int) =~= rows(b));
    }
    out
}

/// One row for each device: of two rows of the table with the same name, or without a name
/// and with the same instance, at most one is in the list.
pub proof fn law_one_row_per_name(peers: Seq<mdns::Seen>, names: Names, i: int, j: int)
    requires
        0 <= i < peers.len(),
        0 <= j < peers.len(),
        device_key(peers[i], names) == device_key(peers[j], names),
        newest(peers, names, i),
        newest(peers, names, j),
    ensures
        i == j,
{
}

/// The row that is in the list is the one that was heard of last: no other of the same device was
/// heard of later.
pub proof fn law_listed_row_is_the_newest(peers: Seq<mdns::Seen>, names: Names, i: int, j: int)
    requires
        0 <= i < peers.len(),
        0 <= j < peers.len(),
        device_key(peers[i], names) == device_key(peers[j], names),
        newest(peers, names, i),
    ensures
        peers[j].last_seen <= peers[i].last_seen,
{
}

/// A device is known by the name it gave, and by its instance until it gives one.
pub proof fn law_device_is_known_by_its_name(p: mdns::Seen, q: mdns::Seen, names: Names)
    ensures
        p.addr is Some && names.at(p.addr->0) is Some ==> device_key(p, names) == names.at(
            p.addr->0,
        )->0,
        p.addr is None || names.at(p.addr->0) is None ==> device_key(p, names) == p.instance,
        p.addr is None && q.addr is None && p.instance != q.instance ==> device_key(p, names)
            != device_key(q, names),
{
}

/// Every device of the table is in the list, by its newest row.
pub proof fn law_every_device_is_listed(peers: Seq<mdns::Seen>, names: Names, i: int)
    requires
        0 <= i < peers.len(),
    ensures
        exists|j: int|
            0 <= j < peers.len() && device_key(#[trigger] peers[j], names) == device_key(
                peers[i],
                names,
            ) && newest(peers, names, j) && airdrop_rows(
                peers,
                names,
                peers.len() as int,
            ).contains(airdrop_row(peers[j], names)),
{
    let j = lemma_some_newest(peers, names, i, peers.len() as int);
    lemma_listed(peers, names, j, peers.len() as int);
}

/// Among the first `n` rows there is a newest one of a device that occurs among them.
proof fn lemma_best(peers: Seq<mdns::Seen>, names: Names, key: Seq<char>, i: int, n: int) -> (j: int)
    requires
        0 <= i < n <= peers.len(),
        device_key(peers[i], names) == key,
    ensures
        0 <= j < n,
        device_key(peers[j], names) == key,
        forall|k: int|
            0 <= k < n && device_key(#[trigger] peers[k], names) == key ==> peers[k].last_seen
                < peers[j].last_seen || peers[k].last_seen == peers[j].last_seen && j <= k,
    decreases n,
{
    if i == n - 1 {
        if exists|k: int| 0 <= k < n - 1 && device_key(#[trigger] peers[k], names) == key {
            let k = choose|k: int| 0 <= k < n - 1 && device_key(#[trigger] peers[k], names) == key;
            let b = lemma_best(peers, names, key, k, n - 1);
            if peers[b].last_seen < peers[i].last_seen {
                i
            } else {
                b
            }
        } else {
            i
        }
    } else {
        let b = lemma_best(peers, names, key, i, n - 1);
        if device_key(peers[n - 1], names) == key && peers[b].last_seen < peers[n - 1].last_seen {
            n - 1
        } else {
            b
        }
    }
}

proof fn lemma_some_newest(peers: Seq<mdns::Seen>, names: Names, i: int, n: int) -> (j: int)
    requires
        0 <= i < peers.len(),
        n == peers.len(),
    ensures
        0 <= j < peers.len(),
        device_key(peers[j], names) == device_key(peers[i], names),
        newest(peers, names, j),
{
    lemma_best(peers, names, device_key(peers[i], names), i, n)
}

proof fn lemma_listed(peers: Seq<mdns::Seen>, names: Names, j: int, n: int)
    requires
        0 <= j < n <= peers.len(),
        newest(peers, names, j),
    ensures
        airdrop_rows(peers, names, n).contains(airdrop_row(peers[j], names)),
    decreases n,
{
    let all = airdrop_rows(peers, names, n);
    let x = airdrop_row(peers[j], names);
    if j == n - 1 {
        assert(all[all.len() - 1] == x);
    } else {
        lemma_listed(peers, names, j, n - 1);
        let front = airdrop_rows(peers, names, n - 1);
        let k = choose|k: int| 0 <= k < front.len() && front[k] == x;
        assert(all[k] == x);
    }
}

// ----------------------------------------------------------- from a row to a device ---

/// Whether a row of the table is the peer a client means.
pub open spec fn is_meant(p: mdns::Seen, peer_id: Seq<char>) -> bool {
    text::before_first(p.instance, '.') == peer_id || p.instance == peer_id
}

/// The first row that is meant, or the length.
pub open spec fn meant(peers: Seq<mdns::Seen>, peer_id: Seq<char>) -> int
    decreases peers.len(),
{
    if peers.len() == 0 || is_meant(peers[0], peer_id) {
        0
    } else {
        1 + meant(peers.drop_first(), peer_id)
    }
}

proof fn lemma_meant(peers: Seq<mdns::Seen>, peer_id: Seq<char>, i: int)
    requires
        0 <= i <= peers.len(),
        forall|k: int| 0 <= k < i ==> !is_meant(#[trigger] peers[k], peer_id),
        i < peers.len() ==> is_meant(peers[i], peer_id),
    ensures
        meant(peers, peer_id) == i,
    decreases i,
{
    if i > 0 {
        assert(!is_meant(peers[0], peer_id));
        let rest = peers.drop_first();
        assert forall|k: int| 0 <= k < i - 1 implies !is_meant(#[trigger] rest[k], peer_id) by {
            assert(rest[k] == peers[k + 1]);
        }
        lemma_meant(rest, peer_id, i - 1);
    }
}

/// Where to reach a peer: only once its address and its port were both seen, and never at
/// our own address.
pub open spec fn resolved(
    peers: Seq<mdns::Seen>,
    peer_id: Seq<char>,
    own: Option<Seq<u8>>,
    scope: Option<u32>,
) -> Option<(Seq<u8>, u16, u32)> {
    let i = meant(peers, peer_id);
    if i < peers.len() && peers[i].addr is Some && own != peers[i].addr && peers[i].port != 0
        && scope is Some {
        Some((peers[i].addr->0, peers[i].port, scope->0))
    } else {
        None
    }
}

pub fn resolve(
    peers: &Vec<Peer>,
    peer_id: &str,
    own: Option<[u8; 16]>,
    scope: Option<u32>,
) -> (r: Option<Target>)
    ensures
        match r {
            Some(t) => resolved(
                mdns::all_seen(peers@),
                peer_id@,
                mdns::addr_view(own),
                scope,
            ) == Some((t.addr@, t.port, t.scope)),
            None => resolved(
                mdns::all_seen(peers@),
                peer_id@,
                mdns::addr_view(own),
                scope,
            ) is None,
        },
{
    let ghost all = mdns::all_seen(peers@);
    let n: usize = peers.len();
    let mut i: usize = 0;
    while i < n
        invariant
            n == peers@.len(),
            i <= n,
            all == mdns::all_seen(peers@),
            forall|k: int| 0 <= k < i ==> !is_meant(#[trigger] all[k], peer_id@),
        decreases n - i,
    {
        let p = &peers[i];
        assert(all[i as int] == p.seen());
        if text::same(p.short_id().as_str(), peer_id) || text::same(p.instance.as_str(), peer_id) {
            proof {
                lemma_meant(all, peer_id@, i as int);
            }
            let addr: [u8; 16] = match p.addr {
                Some(a) => a,
                None => {
                    return None;
                },
            };
            match own {
                Some(o) => {
                    if address::same_bytes(&o, &addr) {
                        return None;
                    }
                },
                None => {},
            }
            if p.port == 0 {
                return None;
            }
            return match scope {
                Some(s) => Some(Target { addr, port: p.port, scope: s }),
                None => None,
            };
        }
        i = i + 1;
    }
    proof {
        lemma_meant(all, peer_id@, n as int);
    }
    None
}

/// This device is never sent to itself.
pub proof fn law_never_to_ourselves(
    peers: Seq<mdns::Seen>,
    peer_id: Seq<char>,
    own: Seq<u8>,
    scope: Option<u32>,
)
    ensures
        resolved(peers, peer_id, Some(own), scope) matches Some(t) ==> t.0 != own && t.1 != 0,
{
}

/// The first row of the LAN table with an endpoint id, or the length.
pub open spec fn lan_place(ids: Seq<Seq<char>>, id: Seq<char>) -> int
    decreases ids.len(),
{
    if ids.len() == 0 || ids[0] == id {
        0
    } else {
        1 + lan_place(ids.drop_first(), id)
    }
}

proof fn lemma_lan_place(ids: Seq<Seq<char>>, id: Seq<char>, i: int)
    requires
        0 <= i <= ids.len(),
        forall|k: int| 0 <= k < i ==> #[trigger] ids[k] != id,
        i < ids.len() ==> ids[i] == id,
    ensures
        lan_place(ids, id) == i,
    decreases i,
{
    if i > 0 {
        assert(ids[0] != id);
        let rest = ids.drop_first();
        assert forall|k: int| 0 <= k < i - 1 implies #[trigger] rest[k] != id by {
            assert(rest[k] == ids[k + 1]);
        }
        lemma_lan_place(rest, id, i - 1);
    }
}

pub open spec fn lan_ids(table: Seq<QsPeer>) -> Seq<Seq<char>> {
    table.map_values(|p: QsPeer| p.endpoint_id@)
}

/// Where a Quick Share peer is reached on the LAN: what the first row under its endpoint id
/// published, if that is an address and a port.
pub open spec fn lan_route_to(table: Seq<QsPeer>, id: Seq<char>) -> Option<(Seq<u8>, u16)> {
    let i = lan_place(lan_ids(table), id);
    if i < table.len() && table[i].addr is Some && table[i].port != 0 {
        Some((table[i].addr->0@, table[i].port))
    } else {
        None
    }
}

pub fn lan_route(table: &Vec<QsPeer>, id: &str) -> (r: Option<([u8; 4], u16)>)
    ensures
        match r {
            Some(a) => lan_route_to(table@, id@) == Some((a.0@, a.1)),
            None => lan_route_to(table@, id@) is None,
        },
{
    let ghost ids = lan_ids(table@);
    let n: usize = table.len();
    let mut i: usize = 0;
    while i < n
        invariant
            n == table@.len(),
            i <= n,
            ids == lan_ids(table@),
            forall|k: int| 0 <= k < i ==> #[trigger] ids[k] != id@,
        decreases n - i,
    {
        assert(ids[i as int] == table@[i as int].endpoint_id@);
        if text::same(table[i].endpoint_id.as_str(), id) {
            proof {
                lemma_lan_place(ids, id@, i as int);
            }
            return match table[i].addr {
                Some(a) => if table[i].port == 0 {
                    None
                } else {
                    Some((a, table[i].port))
                },
                None => None,
            };
        }
        i = i + 1;
    }
    proof {
        lemma_lan_place(ids, id@, n as int);
    }
    None
}

/// Four numbers between dots.
pub open spec fn dotted(a: Seq<u8>) -> Seq<char> {
    text::decimal(a[0] as nat) + seq!['.'] + text::decimal(a[1] as nat) + seq!['.']
        + text::decimal(a[2] as nat) + seq!['.'] + text::decimal(a[3] as nat)
}

/// How a LAN peer is told to a client: its id, its name and where it is.
pub open spec fn lan_text(p: QsPeer) -> Seq<char> {
    p.endpoint_id@ + seq!['|'] + (match p.name {
        Some(n) => n@,
        None => seq![],
    }) + seq!['|'] + (match p.addr {
        Some(a) => dotted(a@),
        None => p.host@,
    }) + seq![':'] + text::decimal(p.port as nat)
}

fn push_dotted(out: &mut String, a: &[u8; 4])
    ensures
        final(out)@ == old(out)@ + dotted(a@),
{
    let ghost was = out@;
    text::push_decimal(out, a[0] as u64);
    out.push('.');
    text::push_decimal(out, a[1] as u64);
    out.push('.');
    text::push_decimal(out, a[2] as u64);
    out.push('.');
    text::push_decimal(out, a[3] as u64);
    assert(out@ =~= was + dotted(a@));
}

pub fn lan_line(p: &QsPeer) -> (r: String)
    ensures
        r@ == lan_text(*p),
{
    let mut out = p.endpoint_id.clone();
    out.push('|');
    match &p.name {
        Some(n) => {
            out.append(n.as_str());
        },
        None => {},
    }
    out.push('|');
    match &p.addr {
        Some(a) => {
            push_dotted(&mut out, a);
        },
        None => {
            out.append(p.host.as_str());
        },
    }
    out.push(':');
    text::push_decimal(&mut out, p.port as u64);
    assert(out@ =~= lan_text(*p));
    out
}

// ------------------------------------------------------------------------ laws ---

proof fn lemma_no_dot_before_the_first(s: Seq<char>, t: Seq<char>)
    requires
        t.contains('.'),
    ensures
        text::before_first(s, '.') != t,
{
    text::lemma_find_char(s, '.');
    let b = text::before_first(s, '.');
    let k = choose|k: int| 0 <= k < t.len() && t[k] == '.';
    if b == t {
        assert(b[k] == s[k]);
    }
}

/// A row that is picked leads to the device it stands for: a full instance that is in the table
/// is reached at the address and the port it published, unless those are missing or are our own.
pub proof fn law_row_leads_to_its_device(
    peers: Seq<mdns::Seen>,
    i: int,
    names: Names,
    own: Option<Seq<u8>>,
    scope: u32,
)
    requires
        mdns::one_row_each(peers),
        0 <= i < peers.len(),
        peers[i].instance.contains('.'),
    ensures
        resolved(peers, airdrop_row(peers[i], names).id, own, Some(scope)) == (
        if peers[i].addr is None || peers[i].addr == own || peers[i].port == 0 {
            None
        } else {
            Some((peers[i].addr->0, peers[i].port, scope))
        }),
        resolved(peers, airdrop_row(peers[i], names).id, own, None) is None,
{
    let id = peers[i].instance;
    assert forall|k: int| 0 <= k < i implies !is_meant(#[trigger] peers[k], id) by {
        lemma_no_dot_before_the_first(peers[k].instance, id);
        assert(peers[k].instance != peers[i].instance);
    }
    lemma_meant(peers, id, i);
}

/// A device is shown under the name it gave, and under its short identifier until it gives one;
/// and what is shown does not change what it is picked by.
pub proof fn law_device_is_shown_by_its_name(p: mdns::Seen, names: Names, b: BleRow)
    ensures
        p.addr is Some && names.at(p.addr->0) is Some ==> Some(airdrop_row(p, names).name)
            == names.at(p.addr->0),
        p.addr is None || names.at(p.addr->0) is None ==> airdrop_row(p, names).name
            == text::before_first(p.instance, '.'),
        airdrop_row(p, names).id == p.instance,
        b.name matches Some(n) ==> quickshare_row(b).name == n,
        b.name is None ==> quickshare_row(b).name == b.id,
        quickshare_row(b).id == b.id,
        b.mac matches Some(m) ==> quickshare_row(b).bluetooth_mac == m,
        b.mac is None ==> quickshare_row(b).bluetooth_mac.len() == 0,
        quickshare_row(b).ble_address == b.ble_address,
        quickshare_row(b).psm == b.psm,
        airdrop_row(p, names).protocol == PROTOCOL_AIRDROP,
        quickshare_row(b).protocol == PROTOCOL_QUICKSHARE,
        airdrop_row(p, names).bluetooth_mac.len() == 0,
{
}

/// What a filter keeps is what was there and passes it.
pub proof fn lemma_kept_iff<A>(s: Seq<A>, keep: spec_fn(A) -> bool, x: A)
    ensures
        s.filter(keep).contains(x) <==> s.contains(x) && keep(x),
    decreases s.len(),
{
    reveal(Seq::filter);
    if s.len() > 0 {
        let d = s.drop_last();
        lemma_kept_iff(d, keep, x);
        let f = d.filter(keep);
        let g = s.filter(keep);
        if d.contains(x) {
            let k = choose|k: int| 0 <= k < d.len() && d[k] == x;
            assert(s[k] == x);
        }
        if s.contains(x) && !d.contains(x) {
            let k = choose|k: int| 0 <= k < s.len() && s[k] == x;
            if k < d.len() {
                assert(d[k] == x);
            }
            assert(x == s.last());
        }
        assert(s[s.len() - 1] == s.last());
        if keep(s.last()) {
            if f.contains(x) {
                let k = choose|k: int| 0 <= k < f.len() && f[k] == x;
                assert(g[k] == x);
            }
            assert(g[g.len() - 1] == s.last());
            if g.contains(x) && !f.contains(x) {
                let k = choose|k: int| 0 <= k < g.len() && g[k] == x;
                if k < f.len() {
                    assert(f[k] == x);
                }
                assert(x == s.last());
            }
        }
    }
}

/// What was heard is listed: after an advertisement that can be reached or trusted, there is one
/// row of that device, and it says what the advertisement said. Rows of other devices stay
/// exactly as long as they are fresh. An advertisement that can be neither changes nothing.
pub proof fn law_heard_device_is_listed(
    rows: Seq<BleRow>,
    a: Advertisement,
    address: Seq<char>,
    now: u64,
    x: BleRow,
)
    ensures
        ({
            let mac = opt_text(a.bluetooth_mac);
            let after = reported(rows, a, address, now);
            let new = after.last();
            let other = x.id != a.endpoint_id@ && (mac is None || x.mac != mac);
            if a.bluetooth_mac is None && !a.verified {
                after == rows
            } else {
                &&& after.len() > 0
                &&& new.id == a.endpoint_id@
                &&& new.mac == mac
                &&& new.name == opt_text(a.device_name)
                &&& new.ble_address == address
                &&& new.psm == (match a.psm {
                    Some(p) => p,
                    None => 0u16,
                })
                &&& new.seen == now
                &&& x != new ==> (after.contains(x) <==> rows.contains(x) && other && fresh(
                    x,
                    now,
                ))
            }
        }),
{
    let mac = opt_text(a.bluetooth_mac);
    if !(mac is None && !a.verified) {
        let keep = |p: BleRow| fresh(p, now) && other_device(p, a.endpoint_id@, mac);
        let kept = rows.filter(keep);
        let after = reported(rows, a, address, now);
        let new = after.last();
        lemma_kept_iff(rows, keep, x);
        assert(after == kept.push(new));
        if kept.contains(x) {
            let k = choose|k: int| 0 <= k < kept.len() && kept[k] == x;
            assert(after[k] == x);
        }
        if after.contains(x) && x != new {
            let k = choose|k: int| 0 <= k < after.len() && after[k] == x;
            assert(kept[k] == x);
        }
    }
}

/// A device that was heard of stays listed for twenty seconds, and no longer.
pub proof fn law_silent_device_goes(p: BleRow, now: u64)
    ensures
        now <= p.seen ==> fresh(p, now),
        now > p.seen ==> (fresh(p, now) <==> now - p.seen < 20_000),
{
}

/// A peer on the LAN is reached where it published itself, and one that published no address or
/// no port is not.
pub proof fn law_lan_peer_is_reached(table: Seq<QsPeer>, i: int, id: Seq<char>)
    requires
        0 <= i < table.len(),
        table[i].endpoint_id@ == id,
        forall|k: int| 0 <= k < i ==> (#[trigger] table[k]).endpoint_id@ != id,
    ensures
        table[i].addr is Some && table[i].port != 0 ==> lan_route_to(table, id) == Some(
            (table[i].addr->0@, table[i].port),
        ),
        table[i].addr is None || table[i].port == 0 ==> lan_route_to(table, id) is None,
{
    let ids = lan_ids(table);
    assert forall|k: int| 0 <= k < i implies #[trigger] ids[k] != id by {
        assert(ids[k] == table[k].endpoint_id@);
    }
    lemma_lan_place(ids, id, i);
}

/// Who is not in the table is not reached.
pub proof fn law_unknown_is_not_reached(
    peers: Seq<mdns::Seen>,
    table: Seq<QsPeer>,
    id: Seq<char>,
    own: Option<Seq<u8>>,
    scope: Option<u32>,
)
    requires
        forall|k: int| 0 <= k < peers.len() ==> !is_meant(#[trigger] peers[k], id),
        forall|k: int| 0 <= k < table.len() ==> (#[trigger] table[k]).endpoint_id@ != id,
    ensures
        resolved(peers, id, own, scope) is None,
        lan_route_to(table, id) is None,
{
    lemma_meant(peers, id, peers.len() as int);
    let ids = lan_ids(table);
    assert forall|k: int| 0 <= k < ids.len() implies #[trigger] ids[k] != id by {
        assert(ids[k] == table[k].endpoint_id@);
    }
    lemma_lan_place(ids, id, ids.len() as int);
}

/// Names decide the order, and identifiers only between equal names; a name comes before those
/// that go on from it.
pub proof fn law_list_goes_by_name(a: Row, b: Row, more: Seq<char>)
    ensures
        a.name != b.name && row_le(a, b) ==> order::text_le(a.name, b.name),
        a.name == b.name && row_le(a, b) ==> order::text_le(a.id, b.id),
        order::text_le(a.name, a.name + more),
{
    lemma_text_goes_on(a.name, more);
}

proof fn lemma_text_goes_on(a: Seq<char>, more: Seq<char>)
    ensures
        order::text_le(a, a + more),
    decreases a.len(),
{
    if a.len() > 0 {
        assert((a + more).drop_first() =~= a.drop_first() + more);
        lemma_text_goes_on(a.drop_first(), more);
    }
}

} // verus!
