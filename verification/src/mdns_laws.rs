//! A device that announces itself is found by others, and never by itself.

use vstd::prelude::*;
use vstd::utf8::*;
use crate::discovery;
use crate::discovery_laws;
use crate::dns;
use crate::dns_laws;
use crate::mdns;
use crate::mdns::{Seen, Us};
use crate::peers;
use crate::text;

verus! {

/// Whether labels make a simple name.
spec fn plain_labels(labels: Seq<Seq<char>>) -> bool {
    forall|i: int|
        0 <= i < labels.len() ==> is_ascii_chars(#[trigger] labels[i]) && 0 < labels[i].len()
            < 0xC0
}

proof fn lemma_plain_concat(a: Seq<Seq<char>>, b: Seq<Seq<char>>)
    requires
        plain_labels(a),
        plain_labels(b),
    ensures
        plain_labels(a + b),
{
    let c = a + b;
    assert forall|i: int| 0 <= i < c.len() implies is_ascii_chars(#[trigger] c[i]) && 0
        < c[i].len() < 0xC0 by {
        if i < a.len() {
            assert(c[i] == a[i]);
        } else {
            assert(c[i] == b[i - a.len()]);
        }
    }
}

/// A label, a dot, and more labels.
proof fn lemma_label_then(label: Seq<char>, rest: Seq<char>)
    requires
        is_ascii_chars(label),
        0 < label.len() < 0xC0,
        forall|i: int| 0 <= i < label.len() ==> (#[trigger] label[i]) != '.',
        is_ascii_chars(rest),
        plain_labels(text::split_text(rest, '.')),
    ensures
        is_ascii_chars(label + seq!['.'] + rest),
        plain_labels(text::split_text(label + seq!['.'] + rest, '.')),
{
    text::lemma_split_one(label, '.');
    text::lemma_split_concat(label, '.', rest);
    assert(plain_labels(seq![label]));
    lemma_plain_concat(seq![label], text::split_text(rest, '.'));
    let whole = label + seq!['.'] + rest;
    assert forall|i: int| 0 <= i < whole.len() implies '\0' <= #[trigger] whole[i]
        <= '\u{7f}' by {
        if i < label.len() {
            assert(whole[i] == label[i]);
        } else if i > label.len() {
            assert(whole[i] == rest[i - label.len() - 1]);
        }
    }
}

proof fn lemma_one_label(label: Seq<char>)
    requires
        is_ascii_chars(label),
        0 < label.len() < 0xC0,
        forall|i: int| 0 <= i < label.len() ==> (#[trigger] label[i]) != '.',
    ensures
        plain_labels(text::split_text(label, '.')),
{
    text::lemma_split_one(label, '.');
}

proof fn lemma_service()
    ensures
        dns_laws::simple_name(mdns::AIRDROP_SERVICE@),
        dns_laws::simple_name(mdns::SERVICE_ENUM@),
        mdns::AIRDROP_SERVICE@.len() == 19,
        mdns::SERVICE_ENUM@.len() == 28,
        mdns::AIRDROP_SERVICE@.last() == 'l',
{
    reveal_strlit("_airdrop._tcp.local");
    reveal_strlit("_services._dns-sd._udp.local");
    reveal_strlit("_airdrop");
    reveal_strlit("_tcp");
    reveal_strlit("local");
    reveal_strlit("_services");
    reveal_strlit("_dns-sd");
    reveal_strlit("_udp");
    let local = "local"@;
    lemma_one_label(local);
    lemma_label_then("_tcp"@, local);
    let t = "_tcp"@ + seq!['.'] + local;
    lemma_label_then("_airdrop"@, t);
    assert(mdns::AIRDROP_SERVICE@ =~= "_airdrop"@ + seq!['.'] + t);
    lemma_label_then("_udp"@, local);
    let u = "_udp"@ + seq!['.'] + local;
    lemma_label_then("_dns-sd"@, u);
    let s = "_dns-sd"@ + seq!['.'] + u;
    lemma_label_then("_services"@, s);
    assert(mdns::SERVICE_ENUM@ =~= "_services"@ + seq!['.'] + s);
}

proof fn lemma_instance_label(instance: Seq<char>)
    requires
        mdns::is_instance(instance),
    ensures
        is_ascii_chars(instance),
        forall|i: int| 0 <= i < instance.len() ==> (#[trigger] instance[i]) != '.',
{
    assert forall|i: int| 0 <= i < instance.len() implies '\0' <= #[trigger] instance[i]
        <= '\u{7f}' && instance[i] != '.' by {
        assert('0' <= instance[i] <= '9' || 'a' <= instance[i] <= 'f');
    }
}

proof fn lemma_our_names(instance: Seq<char>)
    requires
        mdns::is_instance(instance),
    ensures
        dns_laws::simple_name(mdns::full_instance(instance)),
        mdns::full_instance(instance).len() == 32,
        dns_laws::simple_name(mdns::host_of(instance)),
        0 < mdns::host_of(instance).len() <= 64,
{
    lemma_service();
    lemma_instance_label(instance);
    lemma_label_then(instance, mdns::AIRDROP_SERVICE@);
    reveal_strlit("Android_");
    reveal_strlit(".local");
    reveal_strlit("local");
    let up = text::ascii_upper_text(instance.subrange(0, 8));
    let first = "Android_"@ + up;
    assert forall|i: int| 0 <= i < first.len() implies '\0' <= #[trigger] first[i] <= '\u{7f}'
        && first[i] != '.' by {
        if i >= 8 {
            let c = instance[i - 8];
            assert('0' <= c <= '9' || 'a' <= c <= 'f');
            assert(first[i] == up[i - 8]);
            if 'a' <= c <= 'f' {
                assert(up[i - 8] as u32 == c as u32 - 32);
            }
        }
    }
    lemma_one_label("local"@);
    lemma_label_then(first, "local"@);
    assert(mdns::host_of(instance) =~= first + seq!['.'] + "local"@);
}

proof fn lemma_reverse(b: Seq<u8>, rest: Seq<char>)
    requires
        is_ascii_chars(rest),
        plain_labels(text::split_text(rest, '.')),
    ensures
        is_ascii_chars(mdns::reversed_nibbles(b) + rest),
        plain_labels(text::split_text(mdns::reversed_nibbles(b) + rest, '.')),
        mdns::reversed_nibbles(b).len() == 4 * b.len(),
    decreases b.len(),
{
    if b.len() == 0 {
        assert(mdns::reversed_nibbles(b) + rest =~= rest);
    } else {
        let d = b.drop_last();
        lemma_reverse(d, rest);
        let tail = mdns::reversed_nibbles(d) + rest;
        let lo = mdns::upper_digit(b.last() as nat % 16);
        let hi = mdns::upper_digit(b.last() as nat / 16);
        lemma_upper_digit(b.last() as nat % 16);
        lemma_upper_digit(b.last() as nat / 16);
        lemma_label_then(seq![hi], tail);
        let t = seq![hi] + seq!['.'] + tail;
        lemma_label_then(seq![lo], t);
        assert(mdns::reversed_nibbles(b) + rest =~= seq![lo] + seq!['.'] + t);
    }
}

proof fn lemma_upper_digit(d: nat)
    requires
        d < 16,
    ensures
        '0' <= mdns::upper_digit(d) <= 'F',
{
}

proof fn lemma_reverse_name(addr: Seq<u8>)
    requires
        addr.len() == 16,
    ensures
        dns_laws::simple_name(mdns::reverse_text(addr)),
        mdns::reverse_text(addr).len() == 72,
        mdns::reverse_text(addr).last() == 'a',
{
    reveal_strlit("ip6.arpa");
    reveal_strlit("ip6");
    reveal_strlit("arpa");
    lemma_one_label("arpa"@);
    lemma_label_then("ip6"@, "arpa"@);
    assert("ip6.arpa"@ =~= "ip6"@ + seq!['.'] + "arpa"@);
    lemma_reverse(addr, "ip6.arpa"@);
}

proof fn lemma_nsec_len(name: Seq<char>, types: Seq<u16>)
    requires
        dns::name_bytes(name).len() <= 0xff00,
        dns::largest(types) < 256,
    ensures
        dns::nsec_bytes(name, types).len() <= 0xffff,
{
}

/// Everything we announce can travel, and is read back as it is.
proof fn lemma_announcement(instance: Seq<char>, addr: Seq<u8>, ttl: u32)
    requires
        mdns::is_instance(instance),
        addr.len() == 16,
    ensures
        ({
            let rs = mdns::our_records(instance, Some(addr), ttl);
            let told = dns_laws::all_told(rs);
            &&& rs.len() == 8
            &&& dns::message_in(dns::response_bytes(dns_laws::all_bytes(rs))) == Some(
                (Seq::<dns::Asked>::empty(), told),
            )
            &&& told.len() == 8
            &&& told[0].rtype == dns::TYPE_PTR
            &&& told[0].name == mdns::SERVICE_ENUM@
            &&& told[1].rtype == dns::TYPE_PTR
            &&& told[1].name == mdns::AIRDROP_SERVICE@
            &&& told[2].rtype == dns::TYPE_SRV
            &&& told[2].name == mdns::full_instance(instance)
            &&& told[2].rdata == discovery::srv_rdata(
                mdns::AIRDROP_PORT,
                mdns::host_of(instance),
            )
            &&& told[3].rtype == dns::TYPE_TXT
            &&& told[4].rtype == dns::TYPE_AAAA
            &&& told[4].name == mdns::host_of(instance)
            &&& told[4].rdata == addr
            &&& told[5].rtype == dns::TYPE_PTR
            &&& told[5].name == mdns::reverse_text(addr)
            &&& told[6].rtype == dns::TYPE_NSEC
            &&& told[7].rtype == dns::TYPE_NSEC
        }),
{
    let inst = mdns::full_instance(instance);
    let host = mdns::host_of(instance);
    let rs = mdns::our_records(instance, Some(addr), ttl);
    lemma_sendable(instance, addr, ttl);
    dns_laws::law_response_round_trip(rs);
    lemma_service();
    lemma_our_names(instance);
    lemma_reverse_name(addr);
    dns_laws::law_simple_name(mdns::SERVICE_ENUM@);
    dns_laws::law_simple_name(mdns::AIRDROP_SERVICE@);
    dns_laws::law_simple_name(inst);
    dns_laws::law_simple_name(host);
    dns_laws::law_simple_name(mdns::reverse_text(addr));
    lemma_fields(instance, addr, ttl);
}

/// The records, one by one.
proof fn lemma_fields(instance: Seq<char>, addr: Seq<u8>, ttl: u32)
    ensures
        ({
            let rs = mdns::our_records(instance, Some(addr), ttl);
            let inst = mdns::full_instance(instance);
            let host = mdns::host_of(instance);
            &&& rs.len() == 8
            &&& rs[0].rtype == dns::TYPE_PTR && rs[0].name == mdns::SERVICE_ENUM@
            &&& rs[0].rdata == dns::name_bytes(mdns::AIRDROP_SERVICE@)
            &&& rs[1].rtype == dns::TYPE_PTR && rs[1].name == mdns::AIRDROP_SERVICE@
            &&& rs[1].rdata == dns::name_bytes(inst)
            &&& rs[2].rtype == dns::TYPE_SRV && rs[2].name == inst
            &&& rs[2].rdata == discovery::srv_rdata(mdns::AIRDROP_PORT, host)
            &&& rs[3].rtype == dns::TYPE_TXT && rs[3].name == inst
            &&& rs[3].rdata == dns::txt_entry(mdns::AIRDROP_FLAGS@)
            &&& rs[4].rtype == dns::TYPE_AAAA && rs[4].name == host && rs[4].rdata == addr
            &&& rs[5].rtype == dns::TYPE_PTR && rs[5].name == mdns::reverse_text(addr)
            &&& rs[5].rdata == dns::name_bytes(host)
            &&& rs[6].rtype == dns::TYPE_NSEC && rs[6].name == inst
            &&& rs[6].rdata == dns::nsec_bytes(inst, seq![dns::TYPE_TXT, dns::TYPE_SRV])
            &&& rs[7].rtype == dns::TYPE_NSEC && rs[7].name == host
            &&& rs[7].rdata == dns::nsec_bytes(host, seq![dns::TYPE_AAAA])
        }),
{
}

proof fn lemma_sendable(instance: Seq<char>, addr: Seq<u8>, ttl: u32)
    requires
        mdns::is_instance(instance),
        addr.len() == 16,
    ensures
        ({
            let rs = mdns::our_records(instance, Some(addr), ttl);
            forall|i: int| 0 <= i < rs.len() ==> (#[trigger] rs[i]).sendable()
        }),
{
    let rs = mdns::our_records(instance, Some(addr), ttl);
    let inst = mdns::full_instance(instance);
    let host = mdns::host_of(instance);
    lemma_fields(instance, addr, ttl);
    lemma_service();
    lemma_our_names(instance);
    lemma_reverse_name(addr);
    dns_laws::law_simple_name(mdns::SERVICE_ENUM@);
    dns_laws::law_simple_name(mdns::AIRDROP_SERVICE@);
    dns_laws::law_simple_name(inst);
    dns_laws::law_simple_name(host);
    dns_laws::law_simple_name(mdns::reverse_text(addr));
    discovery_laws::lemma_name_len(mdns::AIRDROP_SERVICE@);
    discovery_laws::lemma_name_len(inst);
    discovery_laws::lemma_name_len(host);
    discovery_laws::lemma_srv_rdata(mdns::AIRDROP_PORT, host);
    assert(dns::largest(seq![dns::TYPE_TXT, dns::TYPE_SRV]) < 256) by {
        reveal_with_fuel(dns::largest, 4);
    }
    assert(dns::largest(seq![dns::TYPE_AAAA]) < 256) by {
        reveal_with_fuel(dns::largest, 3);
    }
    lemma_nsec_len(inst, seq![dns::TYPE_TXT, dns::TYPE_SRV]);
    lemma_nsec_len(host, seq![dns::TYPE_AAAA]);
    assert(rs[2].rdata.len() <= 0xffff) by {
        crate::wire::lemma_be_bytes_len(mdns::AIRDROP_PORT as nat, 2);
    }
    assert forall|i: int| 0 <= i < rs.len() implies (#[trigger] rs[i]).sendable() by {
        assert(i == 0 || i == 1 || i == 2 || i == 3 || i == 4 || i == 5 || i == 6 || i == 7);
    }
}

/// The announcement of another device, absorbed by a browser that knows nobody, makes it know
/// exactly that device, and where it is.
pub proof fn law_announced_is_found(
    us: Us,
    instance: Seq<char>,
    addr: Seq<u8>,
    ttl: u32,
    now: u64,
)
    requires
        mdns::is_instance(instance),
        addr.len() == 16,
        !us.is_instance(mdns::full_instance(instance)),
        us.addr != Some(addr),
    ensures
        ({
            let rs = mdns::our_records(instance, Some(addr), ttl);
            let packet = dns::response_bytes(dns_laws::all_bytes(rs));
            let told = dns_laws::all_told(rs);
            &&& dns::message_in(packet) == Some((Seq::<dns::Asked>::empty(), told))
            &&& mdns::absorbed_all(us, seq![], packet, told, told.len(), now) == seq![
                Seen {
                    instance: mdns::full_instance(instance),
                    host: mdns::host_of(instance),
                    port: mdns::AIRDROP_PORT,
                    addr: Some(addr),
                    last_seen: now,
                },
            ]
        }),
{
    let rs = mdns::our_records(instance, Some(addr), ttl);
    let packet = dns::response_bytes(dns_laws::all_bytes(rs));
    let told = dns_laws::all_told(rs);
    let inst = mdns::full_instance(instance);
    let host = mdns::host_of(instance);
    lemma_announcement(instance, addr, ttl);
    lemma_fields(instance, addr, ttl);
    lemma_service();
    lemma_our_names(instance);
    lemma_reverse_name(addr);
    discovery_laws::lemma_srv_rdata(mdns::AIRDROP_PORT, host);
    assert(rs[1].rdata.subrange(0, rs[1].rdata.len() as int) =~= dns::name_bytes(inst));
    discovery_laws::lemma_name_in_rdata(rs, 1, 0, inst);
    discovery_laws::lemma_name_in_rdata(rs, 2, 6, host);
    lemma_eight(us, packet, told, inst, host, addr, now);
}

/// One record after another.
proof fn lemma_eight(
    us: Us,
    packet: Seq<u8>,
    told: Seq<dns::Told>,
    inst: Seq<char>,
    host: Seq<char>,
    addr: Seq<u8>,
    now: u64,
)
    requires
        told.len() == 8,
        told[0].rtype == dns::TYPE_PTR,
        told[0].name != mdns::AIRDROP_SERVICE@,
        told[1].rtype == dns::TYPE_PTR,
        told[1].name == mdns::AIRDROP_SERVICE@,
        dns::name_at(packet, told[1].rdata_at, 0, seq![]) == Some(inst),
        !us.is_instance(inst),
        told[2].rtype == dns::TYPE_SRV,
        told[2].name == inst,
        told[2].rdata.len() >= 6,
        told[2].rdata[4] * 256 + told[2].rdata[5] == mdns::AIRDROP_PORT,
        dns::name_at(packet, told[2].rdata_at + 6, 0, seq![]) == Some(host),
        host.len() > 0,
        told[3].rtype == dns::TYPE_TXT,
        told[4].rtype == dns::TYPE_AAAA,
        told[4].name == host,
        told[4].rdata == addr,
        addr.len() == 16,
        us.addr != Some(addr),
        told[5].rtype == dns::TYPE_PTR,
        told[5].name != mdns::AIRDROP_SERVICE@,
        told[6].rtype == dns::TYPE_NSEC,
        told[7].rtype == dns::TYPE_NSEC,
    ensures
        mdns::absorbed_all(us, seq![], packet, told, 8, now) == seq![
            Seen {
                instance: inst,
                host,
                port: mdns::AIRDROP_PORT,
                addr: Some(addr),
                last_seen: now,
            },
        ],
{
    let e = Seq::<Seen>::empty();
    let fresh = Seen { instance: inst, host: seq![], port: 0, addr: None, last_seen: now };
    let t0 = mdns::absorbed(us, e, packet, told[0], now);
    assert(t0 =~= e);
    let t1 = mdns::absorbed(us, t0, packet, told[1], now);
    assert(!mdns::lists(e, inst));
    assert(t1 =~= seq![fresh]);
    let t2 = mdns::absorbed(us, t1, packet, told[2], now);
    let placed = Seen { host, port: mdns::AIRDROP_PORT, ..fresh };
    assert(t2 =~= seq![placed]);
    let t3 = mdns::absorbed(us, t2, packet, told[3], now);
    let t4 = mdns::absorbed(us, t3, packet, told[4], now);
    let known = Seen { addr: Some(addr), ..placed };
    assert(t4 =~= seq![known]);
    let t5 = mdns::absorbed(us, t4, packet, told[5], now);
    let t6 = mdns::absorbed(us, t5, packet, told[6], now);
    let t7 = mdns::absorbed(us, t6, packet, told[7], now);
    assert(t7 == t4);
    reveal_with_fuel(mdns::absorbed_all, 9);
}

proof fn lemma_filter_lists(peers: Seq<Seen>, keep: spec_fn(Seen) -> bool, x: Seq<char>)
    requires
        mdns::lists(peers.filter(keep), x),
    ensures
        mdns::lists(peers, x),
    decreases peers.len(),
{
    reveal(Seq::filter);
    if peers.len() > 0 {
        let p = peers.drop_last();
        let f = p.filter(keep);
        let g = peers.filter(keep);
        let i = choose|i: int| 0 <= i < g.len() && (#[trigger] g[i]).instance == x;
        if i < f.len() {
            assert(f[i] == g[i]);
            lemma_filter_lists(p, keep, x);
            let k = choose|k: int| 0 <= k < p.len() && (#[trigger] p[k]).instance == x;
            assert(peers[k] == p[k]);
        } else {
            assert(peers[peers.len() - 1].instance == x);
        }
    }
}

/// A record that is not a PTR to somebody else brings nobody in.
proof fn lemma_step_lists(
    us: Us,
    peers: Seq<Seen>,
    packet: Seq<u8>,
    rec: dns::Told,
    now: u64,
    x: Seq<char>,
)
    requires
        rec.rtype == dns::TYPE_PTR && rec.name == mdns::AIRDROP_SERVICE@ ==> match dns::name_at(
            packet,
            rec.rdata_at,
            0,
            seq![],
        ) {
            Some(i) => us.is_instance(i),
            None => true,
        },
        mdns::lists(mdns::absorbed(us, peers, packet, rec, now), x),
    ensures
        mdns::lists(peers, x),
{
    let after = mdns::absorbed(us, peers, packet, rec, now);
    if rec.rtype == dns::TYPE_AAAA && rec.rdata.len() == 16 && us.addr == Some(rec.rdata) {
        lemma_filter_lists(peers, |p: Seen| p.host != rec.name, x);
    } else {
        let i = choose|i: int| 0 <= i < after.len() && (#[trigger] after[i]).instance == x;
        assert(peers[i].instance == x);
    }
}

/// Our own announcement comes back to us on the group. It lists nobody that was not listed
/// before, and in particular not us.
pub proof fn law_never_our_own_peer(
    us: Us,
    peers: Seq<Seen>,
    addr: Seq<u8>,
    ttl: u32,
    now: u64,
    x: Seq<char>,
)
    requires
        mdns::is_instance(us.instance),
        addr.len() == 16,
        ({
            let rs = mdns::our_records(us.instance, Some(addr), ttl);
            mdns::lists(
                mdns::absorbed_all(
                    us,
                    peers,
                    dns::response_bytes(dns_laws::all_bytes(rs)),
                    dns_laws::all_told(rs),
                    8,
                    now,
                ),
                x,
            )
        }),
    ensures
        mdns::lists(peers, x),
{
    let rs = mdns::our_records(us.instance, Some(addr), ttl);
    let packet = dns::response_bytes(dns_laws::all_bytes(rs));
    let told = dns_laws::all_told(rs);
    lemma_only_us(us, addr, ttl);
    lemma_run_lists(us, peers, packet, told, 8, now, x);
}

/// The one PTR for the service in our announcement names us.
proof fn lemma_only_us(us: Us, addr: Seq<u8>, ttl: u32)
    requires
        mdns::is_instance(us.instance),
        addr.len() == 16,
    ensures
        ({
            let rs = mdns::our_records(us.instance, Some(addr), ttl);
            let packet = dns::response_bytes(dns_laws::all_bytes(rs));
            let told = dns_laws::all_told(rs);
            &&& told.len() == 8
            &&& forall|i: int|
                0 <= i < told.len() ==> (#[trigger] told[i]).rtype == dns::TYPE_PTR
                    && told[i].name == mdns::AIRDROP_SERVICE@ ==> match dns::name_at(
                    packet,
                    told[i].rdata_at,
                    0,
                    seq![],
                ) {
                    Some(i) => us.is_instance(i),
                    None => true,
                }
        }),
{
    let rs = mdns::our_records(us.instance, Some(addr), ttl);
    let packet = dns::response_bytes(dns_laws::all_bytes(rs));
    let told = dns_laws::all_told(rs);
    let inst = mdns::full_instance(us.instance);
    lemma_announcement(us.instance, addr, ttl);
    assert(told[0].name != mdns::AIRDROP_SERVICE@ && told[5].name != mdns::AIRDROP_SERVICE@) by {
        lemma_service();
        lemma_reverse_name(addr);
    }
    assert(dns::name_at(packet, told[1].rdata_at, 0, seq![]) == Some(inst)) by {
        lemma_fields(us.instance, addr, ttl);
        lemma_our_names(us.instance);
        assert(rs[1].rdata.subrange(0, rs[1].rdata.len() as int) =~= dns::name_bytes(inst));
        discovery_laws::lemma_name_in_rdata(rs, 1, 0, inst);
    }
    assert forall|i: int|
        0 <= i < told.len() && (#[trigger] told[i]).rtype == dns::TYPE_PTR && told[i].name
            == mdns::AIRDROP_SERVICE@ implies i == 1 by {
        assert(i == 0 || i == 1 || i == 2 || i == 3 || i == 4 || i == 5 || i == 6 || i == 7);
    }
}

proof fn lemma_run_lists(
    us: Us,
    peers: Seq<Seen>,
    packet: Seq<u8>,
    told: Seq<dns::Told>,
    n: nat,
    now: u64,
    x: Seq<char>,
)
    requires
        n <= told.len(),
        forall|i: int|
            0 <= i < told.len() ==> (#[trigger] told[i]).rtype == dns::TYPE_PTR && told[i].name
                == mdns::AIRDROP_SERVICE@ ==> match dns::name_at(
                packet,
                told[i].rdata_at,
                0,
                seq![],
            ) {
                Some(i) => us.is_instance(i),
                None => true,
            },
        mdns::lists(mdns::absorbed_all(us, peers, packet, told, n, now), x),
    ensures
        mdns::lists(peers, x),
    decreases n,
{
    if n > 0 {
        let before = mdns::absorbed_all(us, peers, packet, told, (n - 1) as nat, now);
        lemma_step_lists(us, before, packet, told[n - 1], now, x);
        lemma_run_lists(us, peers, packet, told, (n - 1) as nat, now, x);
    }
}

/// Our names are three different names.
proof fn lemma_names_differ(instance: Seq<char>)
    requires
        mdns::is_instance(instance),
    ensures
        mdns::full_instance(instance) != mdns::AIRDROP_SERVICE@,
        mdns::host_of(instance) != mdns::AIRDROP_SERVICE@,
        mdns::host_of(instance) != mdns::full_instance(instance),
{
    lemma_service();
    lemma_our_names(instance);
    reveal_strlit("Android_");
    reveal_strlit(".local");
    reveal_strlit("_airdrop._tcp.local");
    assert(mdns::host_of(instance).len() == 22);
}

/// Whether a question is one that a record answers: it has the record's name, and asks for the
/// record's type or for any.
pub open spec fn answers(r: dns_laws::Outgoing, q: dns::Asked) -> bool {
    q.name == r.name && (q.qtype == r.rtype || q.qtype == mdns::QTYPE_ANY)
}

/// Whether a record is one that peers look us up by: where the service is, and of what kind and
/// on which host, not what others derive from these.
pub open spec fn looked_up(r: dns_laws::Outgoing) -> bool {
    r.rtype == dns::TYPE_SRV || r.rtype == dns::TYPE_TXT || r.rtype == dns::TYPE_AAAA || (r.rtype
        == dns::TYPE_PTR && r.name == mdns::AIRDROP_SERVICE@)
}

/// What we announce can be asked for: a question with the name and the type of any of the
/// records that we announce of our service, our place and our host is answered, wherever it
/// stands among other questions; and so is one for an IPv4 address of our host.
pub proof fn law_what_is_announced_is_answered(
    instance: Seq<char>,
    addr: Option<Seq<u8>>,
    ttl: u32,
    i: int,
    questions: Seq<dns::Asked>,
    j: int,
)
    requires
        mdns::is_instance(instance),
        addr matches Some(a) ==> a.len() == 16,
        0 <= i < mdns::our_records(instance, addr, ttl).len(),
        0 <= j < questions.len(),
        ({
            let r = mdns::our_records(instance, addr, ttl)[i];
            ||| looked_up(r) && answers(r, questions[j])
            ||| r.rtype == dns::TYPE_AAAA && questions[j].name == r.name && questions[j].qtype
                == dns::TYPE_A
        }),
    ensures
        mdns::asks_for_us(instance, questions),
{
    lemma_names_differ(instance);
    let rs = mdns::our_records(instance, addr, ttl);
    match addr {
        Some(a) => {
            lemma_fields(instance, a, ttl);
            lemma_service();
            lemma_our_names(instance);
            lemma_reverse_name(a);
            assert(i == 0 || i == 1 || i == 2 || i == 3 || i == 4 || i == 5 || i == 6 || i == 7);
        },
        None => {
            lemma_service();
            assert(i == 0 || i == 1 || i == 2 || i == 3 || i == 4 || i == 5);
        },
    }
    assert(mdns::about_us(instance, questions[j]));
}

/// Nothing else is answered: where we answer, one of the questions is answered by a record that
/// we announce, or asks for an IPv4 address of our host.
pub proof fn law_only_what_is_announced_is_answered(
    instance: Seq<char>,
    addr: Seq<u8>,
    ttl: u32,
    questions: Seq<dns::Asked>,
) -> (found: (int, int))
    requires
        mdns::is_instance(instance),
        addr.len() == 16,
        mdns::asks_for_us(instance, questions),
    ensures
        ({
            let rs = mdns::our_records(instance, Some(addr), ttl);
            let (i, j) = found;
            &&& 0 <= i < rs.len()
            &&& 0 <= j < questions.len()
            &&& looked_up(rs[i])
            &&& answers(rs[i], questions[j]) || (rs[i].rtype == dns::TYPE_AAAA
                && questions[j].name == rs[i].name && questions[j].qtype == dns::TYPE_A)
        }),
{
    lemma_names_differ(instance);
    lemma_fields(instance, addr, ttl);
    let j = choose|j: int|
        0 <= j < questions.len() && mdns::about_us(instance, #[trigger] questions[j]);
    let q = questions[j];
    let i: int = if q.name == mdns::AIRDROP_SERVICE@ {
        1
    } else if q.name == mdns::host_of(instance) {
        4
    } else if q.qtype == dns::TYPE_TXT {
        3
    } else {
        2
    };
    (i, j)
}

/// The answer holds what was asked for: whoever reads it finds a record of the name and the type
/// in the question, or, where there can be none, the word that there is none.
pub proof fn law_answer_holds_what_was_asked(
    instance: Seq<char>,
    addr: Seq<u8>,
    ttl: u32,
    q: dns::Asked,
) -> (k: int)
    requires
        mdns::is_instance(instance),
        addr.len() == 16,
        mdns::about_us(instance, q),
    ensures
        ({
            let packet = dns::response_bytes(
                dns_laws::all_bytes(mdns::our_records(instance, Some(addr), ttl)),
            );
            let read = dns::message_in(packet);
            let (_, told) = read->0;
            &&& read is Some
            &&& 0 <= k < told.len()
            &&& told[k].name == q.name
            &&& told[k].rtype == q.qtype || q.qtype == mdns::QTYPE_ANY || (q.qtype == dns::TYPE_A
                && told[k].rtype == dns::TYPE_NSEC)
        }),
{
    lemma_names_differ(instance);
    lemma_announcement(instance, addr, ttl);
    lemma_fields(instance, addr, ttl);
    lemma_our_names(instance);
    dns_laws::law_simple_name(mdns::full_instance(instance));
    dns_laws::law_simple_name(mdns::host_of(instance));
    if q.name == mdns::AIRDROP_SERVICE@ {
        1
    } else if q.name == mdns::host_of(instance) {
        if q.qtype == dns::TYPE_A {
            7
        } else {
            4
        }
    } else if q.qtype == dns::TYPE_TXT {
        3
    } else {
        2
    }
}

/// The query that one device sends is answered by another that advertises.
pub proof fn law_our_query_is_answered(instance: Seq<char>)
    requires
        mdns::is_instance(instance),
    ensures
        ({
            let read = dns::message_in(dns::query_bytes(mdns::AIRDROP_SERVICE@));
            let (questions, _) = read->0;
            read is Some && mdns::asks_for_us(instance, questions)
        }),
{
    lemma_service();
    dns_laws::law_simple_name(mdns::AIRDROP_SERVICE@);
    dns_laws::law_query_round_trip(mdns::AIRDROP_SERVICE@);
    let (questions, _) = dns::message_in(dns::query_bytes(mdns::AIRDROP_SERVICE@))->0;
    assert(mdns::about_us(instance, questions[0]));
}

/// A withdrawal takes back what was announced, all of it and nothing else: the records are the
/// same, but that they are to be kept for no time.
pub proof fn law_withdrawal_is_of_what_was_announced(
    instance: Seq<char>,
    addr: Option<Seq<u8>>,
    ttl: u32,
)
    ensures
        ({
            let said = mdns::our_records(instance, addr, ttl);
            let back = mdns::our_records(instance, addr, 0);
            &&& back.len() == said.len()
            &&& forall|i: int|
                0 <= i < said.len() ==> #[trigger] back[i] == (dns_laws::Outgoing {
                    ttl: 0,
                    ..said[i]
                }) && said[i].ttl == ttl
        }),
{
    let said = mdns::our_records(instance, addr, ttl);
    let back = mdns::our_records(instance, addr, 0);
    assert forall|i: int| 0 <= i < said.len() implies #[trigger] back[i] == (dns_laws::Outgoing {
        ttl: 0,
        ..said[i]
    }) && said[i].ttl == ttl by {
        assert(i == 0 || i == 1 || i == 2 || i == 3 || i == 4 || i == 5 || i == 6 || i == 7);
    }
}

/// The reverse name of an address says it nibble by nibble, from the last to the first.
pub proof fn law_reverse_name_is_the_address(addr: Seq<u8>, i: int)
    requires
        0 <= i < addr.len(),
    ensures
        ({
            let name = mdns::reverse_text(addr);
            let at = 4 * (addr.len() - 1 - i);
            &&& name.len() > at + 3
            &&& text::digit_value(name[at]) == addr[i] as nat % 16
            &&& name[at + 1] == '.'
            &&& text::digit_value(name[at + 2]) == addr[i] as nat / 16
            &&& name[at + 3] == '.'
        }),
{
    lemma_nibbles(addr, i);
    let d = addr[i];
    lemma_upper_value(d as nat % 16);
    lemma_upper_value(d as nat / 16);
}

proof fn lemma_upper_value(d: nat)
    requires
        d < 16,
    ensures
        text::digit_value(mdns::upper_digit(d)) == d,
{
}

proof fn lemma_nibbles(b: Seq<u8>, i: int)
    requires
        0 <= i < b.len(),
    ensures
        ({
            let name = mdns::reversed_nibbles(b);
            let at = 4 * (b.len() - 1 - i);
            &&& name.len() > at + 3
            &&& name[at] == mdns::upper_digit(b[i] as nat % 16)
            &&& name[at + 1] == '.'
            &&& name[at + 2] == mdns::upper_digit(b[i] as nat / 16)
            &&& name[at + 3] == '.'
        }),
    decreases b.len(),
{
    if i < b.len() - 1 {
        lemma_nibbles(b.drop_last(), i);
    }
}

/// A record changes what it is about and nothing else. Nobody is dropped but who turns out to be
/// ourselves; a row that changes was heard of now, and the record named its instance or its host;
/// and who is new was pointed to by the service and is not us.
pub proof fn law_record_changes_what_it_is_about(
    us: Us,
    peers: Seq<Seen>,
    packet: Seq<u8>,
    rec: dns::Told,
    now: u64,
    i: int,
)
    requires
        0 <= i < peers.len(),
        !(rec.rtype == dns::TYPE_AAAA && rec.rdata.len() == 16 && us.addr == Some(rec.rdata)),
    ensures
        ({
            let after = mdns::absorbed(us, peers, packet, rec, now);
            let pointed = dns::name_at(packet, rec.rdata_at, 0, seq![]);
            let is_ptr = rec.rtype == dns::TYPE_PTR && rec.name == mdns::AIRDROP_SERVICE@;
            &&& peers.len() <= after.len() <= peers.len() + 1
            &&& after[i].instance == peers[i].instance
            &&& after[i] != peers[i] ==> after[i].last_seen == now
            &&& after[i].host != peers[i].host || after[i].port != peers[i].port ==> rec.rtype
                == dns::TYPE_SRV && rec.name == peers[i].instance
            &&& after[i].addr != peers[i].addr ==> rec.rtype == dns::TYPE_AAAA && rec.name
                == peers[i].host && after[i].addr == Some(rec.rdata)
            &&& after.len() > peers.len() ==> is_ptr && pointed == Some(after.last().instance)
                && !us.is_instance(after.last().instance) && after.last().addr is None
            &&& is_ptr && pointed == Some(peers[i].instance) && !us.is_instance(
                peers[i].instance,
            ) ==> after[i].last_seen == now
            &&& rec.rtype == dns::TYPE_SRV && rec.rdata.len() >= 6 && rec.name
                == peers[i].instance ==> after[i].last_seen == now && after[i].port
                == rec.rdata[4] * 256 + rec.rdata[5]
            &&& rec.rtype == dns::TYPE_AAAA && rec.rdata.len() == 16 && rec.name == peers[i].host
                && rec.name.len() > 0 ==> after[i].addr == Some(rec.rdata) && after[i].last_seen
                == now
        }),
{
    let after = mdns::absorbed(us, peers, packet, rec, now);
    if rec.rtype == dns::TYPE_PTR && rec.name == mdns::AIRDROP_SERVICE@ {
        match dns::name_at(packet, rec.rdata_at, 0, seq![]) {
            Some(instance) => {
                if instance == peers[i].instance {
                    assert(mdns::lists(peers, instance));
                }
            },
            None => {},
        }
    }
}

/// Who was heard of stays for as long as that lasts, and goes after that; who is at our own
/// address is not offered, and everybody else is; and when an address turns out to be ours, it is
/// the rows of its host that go.
pub proof fn law_table_keeps_who_is_there(
    us: Us,
    peers: Seq<Seen>,
    packet: Seq<u8>,
    rec: dns::Told,
    now: u64,
    older_than: u64,
    x: Seen,
)
    ensures
        mdns::kept(peers, now, older_than).contains(x) <==> peers.contains(x) && (if now
            > x.last_seen {
            now - x.last_seen < older_than
        } else {
            older_than > 0
        }),
        mdns::others(peers, us.addr).contains(x) <==> peers.contains(x) && (x.addr is None
            || x.addr != us.addr),
        rec.rtype == dns::TYPE_AAAA && rec.rdata.len() == 16 && us.addr == Some(rec.rdata) ==> (
        mdns::absorbed(us, peers, packet, rec, now).contains(x) <==> peers.contains(x) && x.host
            != rec.name),
{
    peers::lemma_kept_iff(
        peers,
        |p: Seen| crate::clock::since(now, p.last_seen) < older_than,
        x,
    );
    peers::lemma_kept_iff(peers, |p: Seen| p.addr is None || p.addr != us.addr, x);
    peers::lemma_kept_iff(peers, |p: Seen| p.host != rec.name, x);
}

/// An identity that was stored is kept, whatever else there is; one that was not is minted and
/// then kept; and only without randomness the interface has to do.
pub proof fn law_identity_is_kept(
    stored: Seq<char>,
    random: Option<Seq<u8>>,
    mac: Option<Seq<char>>,
)
    requires
        mdns::is_instance(stored),
        random matches Some(b) ==> b.len() == 6,
    ensures
        mdns::identity(Some(stored), random, mac) == (stored, mdns::Source::Stored),
        random matches Some(b) ==> ({
            let (minted, from) = mdns::identity(None, random, mac);
            &&& from == mdns::Source::Minted
            &&& minted == text::hex_text(b)
            &&& mdns::identity(Some(minted), None, mac) == (minted, mdns::Source::Stored)
        }),
        random is None ==> mdns::identity(None, random, mac) == (
            mdns::mac_instance(mac),
            mdns::Source::Interface,
        ),
{
    assert('0' <= stored[0] <= '9' || 'a' <= stored[0] <= 'f');
    assert('0' <= stored[11] <= '9' || 'a' <= stored[11] <= 'f');
    text::law_trimming_takes_white_space(seq![], stored, seq![]);
    assert(Seq::<char>::empty() + stored + Seq::<char>::empty() =~= stored);
    assert forall|i: int| 0 <= i < 12 implies mdns::hex_digit(#[trigger] stored[i])
        && text::ascii_lower(stored[i]) == stored[i] by {
        assert('0' <= stored[i] <= '9' || 'a' <= stored[i] <= 'f');
    }
    assert(text::ascii_lower_text(stored) =~= stored);
    match random {
        Some(b) => {
            mdns::law_identity_is_stable(b);
        },
        None => {},
    }
}

proof fn lemma_octets(addr: Seq<u8>)
    requires
        addr.len() == 16,
    ensures
        mdns::octets_in(text::hex_text(addr)) == Some(addr),
        forall|i: int|
            0 <= i < 32 ==> ('0' <= #[trigger] text::hex_text(addr)[i] <= '9' || 'a'
                <= text::hex_text(addr)[i] <= 'f'),
        text::hex_text(addr).len() == 32,
{
    let h = text::hex_text(addr);
    lemma_hex_digits(addr);
    assert forall|i: int| 0 <= i < 16 implies #[trigger] mdns::octet_at(h, i) == Some(
        addr[i] as nat,
    ) by {
        text::law_hex_says_the_bytes(addr, i);
        let pair = h.subrange(2 * i, 2 * i + 2);
        let hi = h[2 * i];
        let lo = h[2 * i + 1];
        assert(pair =~= seq![hi, lo]);
        assert(hi != '+');
        assert(text::all_digits(pair, 16));
        reveal_with_fuel(text::digits_value, 3);
        assert(pair.drop_last() =~= seq![hi]);
        assert(seq![hi].drop_last() =~= seq![]);
    }
    text::law_hex_says_the_bytes(addr, 0);
    assert(Seq::new(16, |i: int| mdns::octet_at(h, i)->0 as u8) =~= addr);
}

proof fn lemma_hex_digits(b: Seq<u8>)
    ensures
        text::hex_text(b).len() == 2 * b.len(),
        forall|i: int|
            0 <= i < text::hex_text(b).len() ==> ('0' <= #[trigger] text::hex_text(b)[i] <= '9'
                || 'a' <= text::hex_text(b)[i] <= 'f'),
    decreases b.len(),
{
    if b.len() > 0 {
        lemma_hex_digits(b.drop_last());
    }
}

/// The link-local address of an interface is the one that stands in the interface's own line, and
/// begins as link-local ones do; lines of other interfaces, and addresses of other kinds, are
/// passed over.
#[verifier::rlimit(40)]
pub proof fn law_link_local_is_the_interfaces(
    addr: Seq<u8>,
    between: Seq<char>,
    iface: Seq<char>,
    rest: Seq<Seq<char>>,
    asked: Seq<char>,
)
    requires
        addr.len() == 16,
        between.len() > 0 && iface.len() > 0,
        forall|i: int| 0 <= i < between.len() ==> !text::white_space(#[trigger] between[i]),
        forall|i: int| 0 <= i < iface.len() ==> !text::white_space(#[trigger] iface[i]),
    ensures
        ({
            let line = text::joined(seq![text::hex_text(addr), between, iface]);
            mdns::link_local_in(seq![line] + rest, asked) == (if asked == iface && addr[0] == 0xfe
                && addr[1] == 0x80 {
                Some(addr)
            } else {
                mdns::link_local_in(rest, asked)
            })
        }),
{
    let h = text::hex_text(addr);
    let words = seq![h, between, iface];
    let line = text::joined(words);
    let lines = seq![line] + rest;
    lemma_octets(addr);
    lemma_hex_digits(addr);
    assert forall|i: int| 0 <= i < h.len() implies !text::white_space(#[trigger] h[i]) by {
        assert('0' <= h[i] <= '9' || 'a' <= h[i] <= 'f');
    }
    assert forall|i: int| 0 <= i < words.len() implies (#[trigger] words[i]).len() > 0 && forall|
        j: int,
    | 0 <= j < words[i].len() ==> !text::white_space(#[trigger] words[i][j]) by {
        assert(i == 0 || i == 1 || i == 2);
    }
    text::law_joined_words_are_the_words(words);
    assert(lines[0] == line);
    assert(lines.drop_first() =~= rest);
    assert(is_ascii_chars(h)) by {
        assert forall|i: int| 0 <= i < h.len() implies '\0' <= #[trigger] h[i] <= '\u{7f}' by {
            assert('0' <= h[i] <= '9' || 'a' <= h[i] <= 'f');
        }
    }
    is_ascii_chars_encode_utf8(h);
    reveal_strlit("fe80");
    text::law_hex_says_the_bytes(addr, 0);
    text::law_hex_says_the_bytes(addr, 1);
    let start = h.subrange(0, 4);
    assert(start =~= seq![h[0], h[1], h[2], h[3]]);
    assert("fe80"@ =~= seq!['f', 'e', '8', '0']);
    if start == "fe80"@ {
        assert(start[0] == 'f' && start[1] == 'e' && start[2] == '8' && start[3] == '0');
        assert(addr[0] == 0xfe && addr[1] == 0x80);
    }
    if addr[0] == 0xfe && addr[1] == 0x80 {
        assert(text::digit_value(h[0]) == 15 && text::digit_value(h[1]) == 14);
        assert(text::digit_value(h[2]) == 8 && text::digit_value(h[3]) == 0);
        assert('0' <= h[0] <= '9' || 'a' <= h[0] <= 'f');
        assert('0' <= h[1] <= '9' || 'a' <= h[1] <= 'f');
        assert('0' <= h[2] <= '9' || 'a' <= h[2] <= 'f');
        assert('0' <= h[3] <= '9' || 'a' <= h[3] <= 'f');
        assert(h[0] == 'f' && h[1] == 'e' && h[2] == '8' && h[3] == '0');
        assert(start =~= "fe80"@);
    }
}

/// Whether a record that we announce gives a name a type.
pub open spec fn gives(rs: Seq<dns_laws::Outgoing>, name: Seq<char>, t: u16) -> bool {
    exists|i: int| 0 <= i < rs.len() && (#[trigger] rs[i]).name == name && rs[i].rtype == t
}

/// The announcement is of one piece. What we say that a name has, and has not, is what we
/// announce of it; a pointer points to a name that we announce more of; and peers are told to
/// drop what they knew of a name exactly where the name is ours alone.
#[verifier::rlimit(40)]
pub proof fn law_announcement_is_of_one_piece(
    instance: Seq<char>,
    addr: Seq<u8>,
    ttl: u32,
    t: u16,
)
    requires
        mdns::is_instance(instance),
        addr.len() == 16,
        t < 40,
    ensures
        ({
            let rs = mdns::our_records(instance, Some(addr), ttl);
            let inst = mdns::full_instance(instance);
            let host = mdns::host_of(instance);
            &&& rs.len() == 8
            &&& forall|i: int|
                0 <= i < rs.len() ==> ((#[trigger] rs[i]).flush <==> rs[i].name
                    != mdns::SERVICE_ENUM@ && rs[i].name != mdns::AIRDROP_SERVICE@)
            &&& rs[0].rdata == dns::name_bytes(rs[1].name)
            &&& rs[1].rdata == dns::name_bytes(rs[2].name)
            &&& rs[5].rdata == dns::name_bytes(rs[4].name)
            &&& rs[2].rdata.skip(6) == dns::name_bytes(rs[4].name)
            &&& rs[6].rtype == dns::TYPE_NSEC && rs[7].rtype == dns::TYPE_NSEC
            &&& rs[6].name == inst && rs[7].name == host
            &&& rs[6].rdata == dns::nsec_bytes(inst, seq![dns::TYPE_TXT, dns::TYPE_SRV])
            &&& rs[7].rdata == dns::nsec_bytes(host, seq![dns::TYPE_AAAA])
            &&& gives(rs, inst, t) <==> seq![dns::TYPE_TXT, dns::TYPE_SRV].contains(t)
            &&& gives(rs, host, t) <==> seq![dns::TYPE_AAAA].contains(t)
        }),
{
    let rs = mdns::our_records(instance, Some(addr), ttl);
    let inst = mdns::full_instance(instance);
    let host = mdns::host_of(instance);
    lemma_fields(instance, addr, ttl);
    lemma_names_differ(instance);
    lemma_service();
    lemma_our_names(instance);
    lemma_reverse_name(addr);
    lemma_last_letters(instance);
    discovery_laws::lemma_srv_rdata(mdns::AIRDROP_PORT, host);
    assert forall|i: int| 0 <= i < rs.len() implies ((#[trigger] rs[i]).flush <==> rs[i].name
        != mdns::SERVICE_ENUM@ && rs[i].name != mdns::AIRDROP_SERVICE@) by {
        assert(i == 0 || i == 1 || i == 2 || i == 3 || i == 4 || i == 5 || i == 6 || i == 7);
    }
    crate::wire::lemma_be_bytes_len(mdns::AIRDROP_PORT as nat, 2);
    assert(rs[2].rdata.skip(6) =~= dns::name_bytes(host));
    let a = seq![dns::TYPE_TXT, dns::TYPE_SRV];
    let b = seq![dns::TYPE_AAAA];
    assert(a[0] == dns::TYPE_TXT && a[1] == dns::TYPE_SRV && b[0] == dns::TYPE_AAAA);
    assert(rs[2].name == inst && rs[3].name == inst && rs[4].name == host);
    if gives(rs, inst, t) {
        let i = choose|i: int|
            0 <= i < rs.len() && (#[trigger] rs[i]).name == inst && rs[i].rtype == t;
        assert(i == 0 || i == 1 || i == 2 || i == 3 || i == 4 || i == 5 || i == 6 || i == 7);
        assert(a.contains(t));
    }
    if gives(rs, host, t) {
        let i = choose|i: int|
            0 <= i < rs.len() && (#[trigger] rs[i]).name == host && rs[i].rtype == t;
        assert(i == 0 || i == 1 || i == 2 || i == 3 || i == 4 || i == 5 || i == 6 || i == 7);
        assert(b.contains(t));
    }
    if a.contains(t) {
        assert(t == dns::TYPE_TXT || t == dns::TYPE_SRV);
        assert(rs[2].rtype == dns::TYPE_SRV && rs[3].rtype == dns::TYPE_TXT);
    }
    if b.contains(t) {
        assert(rs[4].rtype == dns::TYPE_AAAA);
    }
}

proof fn lemma_last_letters(instance: Seq<char>)
    requires
        mdns::is_instance(instance),
    ensures
        mdns::full_instance(instance).last() == 'l',
        mdns::host_of(instance).last() == 'l',
        mdns::host_of(instance).len() == 22,
{
    lemma_service();
    reveal_strlit(".local");
    reveal_strlit("Android_");
}

/// Lines are read whether or not the last of them is ended: the lines of a text that is put
/// together of some are those.
pub proof fn law_lines_are_read(lines: Seq<Seq<char>>)
    requires
        lines.len() > 0,
        forall|i: int| 0 <= i < lines.len() ==> !(#[trigger] lines[i]).contains('\n'),
    ensures
        mdns::lines_of(text::joined_by(lines, '\n').push('\n')) == lines,
        lines.last().len() > 0 ==> mdns::lines_of(text::joined_by(lines, '\n')) == lines,
{
    let s = text::joined_by(lines, '\n');
    text::law_joining_is_undone(lines, '\n');
    let e = s.push('\n');
    assert(e.drop_last() =~= s);
    assert(text::split_text(e, '\n') == lines.push(seq![]));
    assert(lines.push(seq![]).drop_last() =~= lines);
}

} // verus!
