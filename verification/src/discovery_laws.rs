//! An endpoint that announces itself is found, named and reachable.

use vstd::prelude::*;
use vstd::utf8::*;
use crate::discovery;
use crate::discovery::Known;
use crate::dns;
use crate::dns_laws;
use crate::endpoint;
use crate::quickshare;
use crate::text;
use crate::wire;

verus! {

proof fn lemma_service_type()
    ensures
        text::split_text(endpoint::SERVICE_TYPE@, '.') == seq![
            "_FC9F5ED42C8A"@,
            "_tcp"@,
            "local"@,
        ],
        dns_laws::simple_name(endpoint::SERVICE_TYPE@),
        endpoint::SERVICE_TYPE@.len() == 24,
{
    reveal_strlit("_FC9F5ED42C8A._tcp.local");
    reveal_strlit("_FC9F5ED42C8A");
    reveal_strlit("_tcp");
    reveal_strlit("local");
    let a = "_FC9F5ED42C8A"@;
    let b = "_tcp"@;
    let c = "local"@;
    assert(endpoint::SERVICE_TYPE@ =~= a + seq!['.'] + (b + seq!['.'] + c));
    text::lemma_split_concat(a, '.', b + seq!['.'] + c);
    text::lemma_split_concat(b, '.', c);
    text::lemma_split_one(a, '.');
    text::lemma_split_one(b, '.');
    text::lemma_split_one(c, '.');
    assert(text::split_text(endpoint::SERVICE_TYPE@, '.') =~= seq![a, b, c]);
}

proof fn lemma_instance(id: Seq<u8>)
    requires
        id.len() == 4,
    ensures
        quickshare::instance_text(id).len() == 14,
        discovery::endpoint_instance(id).len() == 39,
        dns_laws::simple_name(discovery::endpoint_instance(id)),
{
    lemma_service_type();
    let raw = quickshare::instance_raw(id);
    let label = quickshare::instance_text(id);
    quickshare::lemma_base64_text(raw);
    lemma_base64_len(raw);
    reveal_strlit("_FC9F5ED42C8A");
    reveal_strlit("_tcp");
    reveal_strlit("local");
    let name = discovery::endpoint_instance(id);
    text::lemma_split_concat(label, '.', endpoint::SERVICE_TYPE@);
    text::lemma_split_one(label, '.');
    let p = text::split_text(name, '.');
    assert(p =~= seq![label, "_FC9F5ED42C8A"@, "_tcp"@, "local"@]);
    assert forall|i: int| 0 <= i < name.len() implies '\0' <= #[trigger] name[i] <= '\u{7f}' by {
        if i < label.len() {
            assert(name[i] == label[i]);
        } else if i > label.len() {
            assert(name[i] == endpoint::SERVICE_TYPE@[i - label.len() - 1]);
        }
    }
}

proof fn lemma_host(id: Seq<u8>)
    requires
        id.len() == 4,
    ensures
        dns_laws::simple_name(discovery::endpoint_host(id)),
        discovery::endpoint_host(id).len() > 0,
        discovery::endpoint_host(id).len() <= 64,
{
    lemma_instance(id);
    let label = quickshare::instance_text(id);
    quickshare::lemma_base64_text(quickshare::instance_raw(id));
    reveal_strlit("tarish-");
    reveal_strlit(".local");
    reveal_strlit("local");
    let low = text::ascii_lower_text(label);
    let first = "tarish-"@ + low;
    let name = discovery::endpoint_host(id);
    assert(name =~= first + seq!['.'] + "local"@);
    assert forall|i: int| 0 <= i < first.len() implies (#[trigger] first[i]) != '.' && '\0'
        <= first[i] <= '\u{7f}' by {
        if i >= 7 {
            assert(first[i] == low[i - 7]);
            assert(label[i - 7] != '.');
            let c = label[i - 7];
            if 'A' <= c <= 'Z' {
                assert(low[i - 7] as u32 == c as u32 + 32);
            }
        }
    }
    text::lemma_split_concat(first, '.', "local"@);
    text::lemma_split_one(first, '.');
    text::lemma_split_one("local"@, '.');
    assert(text::split_text(name, '.') =~= seq![first, "local"@]);
    assert forall|i: int| 0 <= i < name.len() implies '\0' <= #[trigger] name[i] <= '\u{7f}' by {
        if i < first.len() {
            assert(name[i] == first[i]);
        }
    }
}

/// How many digits there are.
proof fn lemma_base64_len(b: Seq<u8>)
    ensures
        quickshare::base64_digits(b).len() == (b.len() * 4 + 2) / 3,
    decreases b.len(),
{
    if b.len() >= 3 {
        lemma_base64_len(b.subrange(3, b.len() as int));
    }
}

/// A TXT record built from endpoint info, if one length byte can count it, yields the name
/// that the info holds.
pub proof fn law_txt_name(info: Seq<u8>)
    requires
        info.len() <= 189,
    ensures
        discovery::txt_name(discovery::info_txt(info), 0) == (match endpoint::advertised_in(
            info,
        ) {
            Some(a) => a.device_name,
            None => None,
        }),
{
    let d = quickshare::base64_digits(info);
    let entry = seq![0x6Eu8, 0x3D] + d;
    let rdata = discovery::info_txt(info);
    lemma_base64_len(info);
    quickshare::law_base64_round_trip(info);
    assert(rdata.subrange(1, 1 + rdata[0] as int) =~= entry);
    reveal_with_fuel(discovery::first_equals, 3);
    assert(entry.drop_first()[0] == 0x3D);
    assert(discovery::first_equals(entry) == 1);
    assert(entry.subrange(0, 1) =~= seq![0x6Eu8]);
    assert(entry.subrange(2, entry.len() as int) =~= d);
}

/// Where the rdata of record `i` lies in a response.
proof fn lemma_rdata_place(rs: Seq<dns_laws::Outgoing>, i: int)
    requires
        0 <= i < rs.len(),
    ensures
        ({
            let buf = dns::response_bytes(dns_laws::all_bytes(rs));
            let at = rs[i].told(dns_laws::record_start(rs, i)).rdata_at;
            &&& 0 <= at
            &&& at + rs[i].rdata.len() <= buf.len()
            &&& buf.subrange(at, at + rs[i].rdata.len()) == rs[i].rdata
        }),
{
    let parts = dns_laws::all_bytes(rs);
    let buf = dns::response_bytes(parts);
    let head = seq![0u8, 0, 0x84, 0, 0, 0] + wire::be_bytes(parts.len(), 2) + seq![0u8, 0, 0, 0];
    wire::lemma_be_bytes_len(parts.len(), 2);
    dns_laws::lemma_joined_split(parts, i);
    let before = dns::joined_bytes(parts.subrange(0, i));
    let after = dns::joined_bytes(parts.subrange(i + 1, parts.len() as int));
    assert(parts.subrange(0, i) =~= dns_laws::all_bytes(rs.subrange(0, i)));
    let r = rs[i];
    wire::lemma_be_bytes_len(r.rtype as nat, 2);
    wire::lemma_be_bytes_len(0x8001, 2);
    wire::lemma_be_bytes_len(0x0001, 2);
    wire::lemma_be_bytes_len(r.ttl as nat, 4);
    wire::lemma_be_bytes_len(r.rdata.len(), 2);
    let at = r.told(dns_laws::record_start(rs, i)).rdata_at;
    assert(buf =~= head + before + r.bytes() + after);
    let lead = r.bytes().len() - r.rdata.len();
    assert(r.bytes().subrange(lead, r.bytes().len() as int) =~= r.rdata);
    assert(at == head.len() + before.len() + lead);
    assert(buf.subrange(at, at + r.rdata.len()) =~= r.rdata);
}

/// A name that lies somewhere in a packet, between other bytes, is read from there.
proof fn lemma_name_inside(buf: Seq<u8>, at: int, name: Seq<char>)
    requires
        dns_laws::simple_name(name),
        0 <= at,
        at + dns::name_bytes(name).len() <= buf.len(),
        buf.subrange(at, at + dns::name_bytes(name).len()) == dns::name_bytes(name),
    ensures
        dns::name_at(buf, at, 0, seq![]) == Some(name),
{
    let nb = dns::name_bytes(name);
    let front = buf.subrange(0, at);
    let rest = buf.subrange(at + nb.len(), buf.len() as int);
    assert(buf =~= front + nb + rest);
    dns_laws::law_simple_name(name);
    dns_laws::law_name_round_trip(front, name, rest);
}

proof fn lemma_labels_bytes_len(labels: Seq<Seq<char>>)
    requires
        forall|i: int|
            0 <= i < labels.len() ==> is_ascii_chars(#[trigger] labels[i]) && labels[i].len()
                < 0xC0,
    ensures
        dns::labels_bytes(labels, true).len() <= 0xC0 * labels.len(),
    decreases labels.len(),
{
    if labels.len() > 0 {
        let t = labels.drop_first();
        assert forall|i: int| 0 <= i < t.len() implies is_ascii_chars(#[trigger] t[i])
            && t[i].len() < 0xC0 by {
            assert(t[i] == labels[i + 1]);
        }
        is_ascii_chars_encode_utf8(labels[0]);
        lemma_labels_bytes_len(t);
    }
}

/// The announcement of an endpoint, absorbed by a browser that knows nobody, makes it know
/// exactly that endpoint: its id, where it is and what it is called. The name must leave the
/// endpoint info short enough for one TXT entry.
pub proof fn law_announced_is_found(
    id: Seq<u8>,
    metadata: Seq<u8>,
    device_name: Seq<char>,
    addr: Seq<u8>,
    port: u16,
    now: u64,
)
    requires
        id.len() == 4,
        metadata.len() == 16,
        addr.len() == 4,
        encode_utf8(device_name).len() <= 171,
    ensures
        ({
            let records = discovery::endpoint_records(
                discovery::endpoint_instance(id),
                discovery::endpoint_host(id),
                addr,
                discovery::phone(metadata, device_name).bytes(),
                port,
            );
            let packet = dns::response_bytes(dns_laws::all_bytes(records));
            &&& dns::message_in(packet) == Some(
                (Seq::<dns::Asked>::empty(), dns_laws::all_told(records)),
            )
            &&& discovery::absorbed_all(
                seq![],
                packet,
                dns_laws::all_told(records),
                4,
                now,
            ) == seq![
                Known {
                    endpoint_id: text::lossy_text(id),
                    instance: discovery::endpoint_instance(id),
                    host: discovery::endpoint_host(id),
                    port,
                    addr: Some(addr),
                    name: Some(device_name),
                    last_seen: now,
                },
            ]
        }),
{
    let instance = discovery::endpoint_instance(id);
    let host = discovery::endpoint_host(id);
    let info = discovery::phone(metadata, device_name).bytes();
    lemma_instance(id);
    lemma_host(id);
    lemma_name_lens(id);
    lemma_info(metadata, device_name);
    quickshare::law_instance_round_trip(id, endpoint::SERVICE_TYPE@);
    let rs = discovery::endpoint_records(instance, host, addr, info, port);
    lemma_records_sendable(instance, host, addr, info, port);
    dns_laws::law_response_round_trip(rs);
    lemma_announcement(instance, host, addr, info, port);
    lemma_srv_rdata(port, host);
    assert(rs[0].rdata.subrange(0, rs[0].rdata.len() as int) =~= dns::name_bytes(instance));
    lemma_name_in_rdata(rs, 0, 0, instance);
    lemma_name_in_rdata(rs, 1, 6, host);
    lemma_four_records(
        dns::response_bytes(dns_laws::all_bytes(rs)),
        dns_laws::all_told(rs),
        id,
        instance,
        host,
        port,
        addr,
        device_name,
        now,
    );
}

/// The endpoint info of a device, and the name in it.
proof fn lemma_info(metadata: Seq<u8>, device_name: Seq<char>)
    requires
        metadata.len() == 16,
        encode_utf8(device_name).len() <= 171,
    ensures
        discovery::phone(metadata, device_name).bytes().len() <= 189,
        discovery::txt_name(
            discovery::info_txt(discovery::phone(metadata, device_name).bytes()),
            0,
        ) == Some(device_name),
{
    let a = discovery::phone(metadata, device_name);
    assert(a.bytes().len() == 18 + encode_utf8(device_name).len());
    endpoint::law_endpoint_round_trip(a);
    encode_utf8_decode_utf8(device_name);
    law_txt_name(a.bytes());
}

proof fn lemma_records_sendable(
    instance: Seq<char>,
    host: Seq<char>,
    addr: Seq<u8>,
    info: Seq<u8>,
    port: u16,
)
    requires
        dns_laws::simple_name(instance),
        dns_laws::simple_name(host),
        dns::name_bytes(instance).len() <= 0xffff,
        dns::name_bytes(host).len() <= 0xff00,
        addr.len() == 4,
        info.len() <= 189,
    ensures
        ({
            let rs = discovery::endpoint_records(instance, host, addr, info, port);
            &&& forall|i: int| 0 <= i < rs.len() ==> (#[trigger] rs[i]).sendable()
            &&& dns_laws::plain_name(endpoint::SERVICE_TYPE@) == endpoint::SERVICE_TYPE@
            &&& dns_laws::plain_name(instance) == instance
            &&& dns_laws::plain_name(host) == host
        }),
{
    let rs = discovery::endpoint_records(instance, host, addr, info, port);
    lemma_service_type();
    dns_laws::law_simple_name(endpoint::SERVICE_TYPE@);
    dns_laws::law_simple_name(instance);
    dns_laws::law_simple_name(host);
    lemma_base64_len(info);
    wire::lemma_be_bytes_len(port as nat, 2);
    assert forall|i: int| 0 <= i < rs.len() implies (#[trigger] rs[i]).sendable() by {
        assert(i == 0 || i == 1 || i == 2 || i == 3);
    }
}

/// What a receiver of the four records is told.
proof fn lemma_announcement(
    instance: Seq<char>,
    host: Seq<char>,
    addr: Seq<u8>,
    info: Seq<u8>,
    port: u16,
)
    requires
        dns_laws::plain_name(endpoint::SERVICE_TYPE@) == endpoint::SERVICE_TYPE@,
        dns_laws::plain_name(instance) == instance,
        dns_laws::plain_name(host) == host,
    ensures
        ({
            let rs = discovery::endpoint_records(instance, host, addr, info, port);
            let told = dns_laws::all_told(rs);
            &&& told.len() == 4
            &&& told[0].rtype == dns::TYPE_PTR
            &&& told[0].name == endpoint::SERVICE_TYPE@
            &&& told[1].rtype == dns::TYPE_SRV
            &&& told[1].name == instance
            &&& told[1].rdata == discovery::srv_rdata(port, host)
            &&& told[2].rtype == dns::TYPE_TXT
            &&& told[2].name == instance
            &&& told[2].rdata == discovery::info_txt(info)
            &&& told[3].rtype == dns::TYPE_A
            &&& told[3].name == host
            &&& told[3].rdata == addr
        }),
{
}

/// The port in SRV rdata, and the host behind it.
pub proof fn lemma_srv_rdata(port: u16, host: Seq<char>)
    ensures
        ({
            let rdata = discovery::srv_rdata(port, host);
            &&& rdata.len() >= 6
            &&& rdata[4] * 256 + rdata[5] == port
            &&& rdata.subrange(6, rdata.len() as int) == dns::name_bytes(host)
        }),
{
    let rdata = discovery::srv_rdata(port, host);
    wire::lemma_be_bytes_len(port as nat, 2);
    wire::lemma_be_bytes_2(port as nat);
    assert(rdata[4] == wire::be_bytes(port as nat, 2)[0]);
    assert(rdata[5] == wire::be_bytes(port as nat, 2)[1]);
    assert(rdata.subrange(6, rdata.len() as int) =~= dns::name_bytes(host));
}

/// A name in the rdata of record `i`, from `offset` on, can be read from the packet.
pub proof fn lemma_name_in_rdata(rs: Seq<dns_laws::Outgoing>, i: int, offset: int, name: Seq<char>)
    requires
        0 <= i < rs.len(),
        dns_laws::simple_name(name),
        0 <= offset <= rs[i].rdata.len(),
        rs[i].rdata.subrange(offset, rs[i].rdata.len() as int) == dns::name_bytes(name),
    ensures
        dns::name_at(
            dns::response_bytes(dns_laws::all_bytes(rs)),
            dns_laws::all_told(rs)[i].rdata_at + offset,
            0,
            seq![],
        ) == Some(name),
{
    let packet = dns::response_bytes(dns_laws::all_bytes(rs));
    let at = rs[i].told(dns_laws::record_start(rs, i)).rdata_at;
    let rdata = rs[i].rdata;
    let nb = dns::name_bytes(name);
    lemma_rdata_place(rs, i);
    assert(nb.len() == rdata.len() - offset);
    assert(packet.subrange(at + offset, at + offset + nb.len()) =~= packet.subrange(
        at,
        at + rdata.len(),
    ).subrange(offset, rdata.len() as int));
    lemma_name_inside(packet, at + offset, name);
}

/// One record after another.
proof fn lemma_four_records(
    packet: Seq<u8>,
    told: Seq<dns::Told>,
    id: Seq<u8>,
    instance: Seq<char>,
    host: Seq<char>,
    port: u16,
    addr: Seq<u8>,
    device_name: Seq<char>,
    now: u64,
)
    requires
        told.len() == 4,
        told[0].rtype == dns::TYPE_PTR,
        told[0].name == endpoint::SERVICE_TYPE@,
        dns::name_at(packet, told[0].rdata_at, 0, seq![]) == Some(instance),
        quickshare::id_in_instance(instance) == Some(id),
        told[1].rtype == dns::TYPE_SRV,
        told[1].name == instance,
        told[1].rdata.len() >= 6,
        told[1].rdata[4] * 256 + told[1].rdata[5] == port,
        dns::name_at(packet, told[1].rdata_at + 6, 0, seq![]) == Some(host),
        host.len() > 0,
        told[2].rtype == dns::TYPE_TXT,
        told[2].name == instance,
        discovery::txt_name(told[2].rdata, 0) == Some(device_name),
        told[3].rtype == dns::TYPE_A,
        told[3].name == host,
        told[3].rdata == addr,
        addr.len() == 4,
    ensures
        discovery::absorbed_all(seq![], packet, told, 4, now) == seq![
            Known {
                endpoint_id: text::lossy_text(id),
                instance,
                host,
                port,
                addr: Some(addr),
                name: Some(device_name),
                last_seen: now,
            },
        ],
{
    let fresh = Known {
        endpoint_id: text::lossy_text(id),
        instance,
        host: seq![],
        port: 0,
        addr: None,
        name: None,
        last_seen: now,
    };
    let t0 = discovery::absorbed(seq![], packet, told[0], now);
    assert(!discovery::lists(seq![], instance));
    assert(t0 =~= seq![fresh]);
    let t1 = discovery::absorbed(t0, packet, told[1], now);
    let placed = Known { host, port, ..fresh };
    assert(t1 =~= seq![placed]);
    let t2 = discovery::absorbed(t1, packet, told[2], now);
    let called = Known { name: Some(device_name), ..placed };
    assert(t2 =~= seq![called]);
    let t3 = discovery::absorbed(t2, packet, told[3], now);
    assert(t3 =~= seq![Known { addr: Some(addr), ..called }]);
    reveal_with_fuel(discovery::absorbed_all, 5);
}

proof fn lemma_name_lens(id: Seq<u8>)
    requires
        id.len() == 4,
    ensures
        dns::name_bytes(discovery::endpoint_instance(id)).len() <= 0xffff,
        dns::name_bytes(discovery::endpoint_host(id)).len() <= 0xff00,
{
    lemma_instance(id);
    lemma_host(id);
    lemma_name_len(discovery::endpoint_instance(id));
    lemma_name_len(discovery::endpoint_host(id));
}

proof fn lemma_split_count(s: Seq<char>, c: char)
    ensures
        text::split_text(s, c).len() <= s.len() + 1,
    decreases s.len(),
{
    text::lemma_split_text_len(s, c);
    if s.len() > 0 {
        text::lemma_split_text_len(s.drop_last(), c);
        lemma_split_count(s.drop_last(), c);
    }
}

pub proof fn lemma_name_len(name: Seq<char>)
    requires
        dns_laws::simple_name(name),
        name.len() <= 100,
    ensures
        dns::name_bytes(name).len() <= 0xff00,
{
    lemma_split_count(name, '.');
    lemma_labels_bytes_len(text::split_text(name, '.'));
}

/// What we announce can be asked for: a question for the name of any of the records that we
/// announce is answered, of whatever type and wherever it stands among others; and only such a
/// question is.
pub proof fn law_what_is_announced_is_answered(
    instance: Seq<char>,
    host: Seq<char>,
    addr: Seq<u8>,
    info: Seq<u8>,
    port: u16,
    questions: Seq<dns::Asked>,
)
    ensures
        ({
            let rs = discovery::endpoint_records(instance, host, addr, info, port);
            discovery::asks_for(questions, instance, host) <==> exists|i: int, j: int|
                0 <= i < rs.len() && 0 <= j < questions.len() && (#[trigger] rs[i]).name == (
                #[trigger] questions[j]).name
        }),
{
    let rs = discovery::endpoint_records(instance, host, addr, info, port);
    if discovery::asks_for(questions, instance, host) {
        let j = choose|j: int|
            0 <= j < questions.len() && ((#[trigger] questions[j]).name
                == endpoint::SERVICE_TYPE@ || questions[j].name == instance || questions[j].name
                == host);
        let i: int = if questions[j].name == endpoint::SERVICE_TYPE@ {
            0
        } else if questions[j].name == instance {
            1
        } else {
            3
        };
        assert(rs[i].name == questions[j].name);
    }
    if exists|i: int, j: int|
        0 <= i < rs.len() && 0 <= j < questions.len() && (#[trigger] rs[i]).name == (
        #[trigger] questions[j]).name {
        let (i, j) = choose|i: int, j: int|
            0 <= i < rs.len() && 0 <= j < questions.len() && (#[trigger] rs[i]).name == (
            #[trigger] questions[j]).name;
        assert(i == 0 || i == 1 || i == 2 || i == 3);
    }
}

/// A record changes what it is about and nothing else: nobody is dropped, a row that changes was
/// heard of now, and the record named its instance or its host; and who is new was pointed to by
/// the service, under an instance that tells its id.
pub proof fn law_record_changes_what_it_is_about(
    peers: Seq<discovery::Known>,
    packet: Seq<u8>,
    rec: dns::Told,
    now: u64,
    i: int,
)
    requires
        0 <= i < peers.len(),
    ensures
        ({
            let after = discovery::absorbed(peers, packet, rec, now);
            let pointed = dns::name_at(packet, rec.rdata_at, 0, seq![]);
            let is_ptr = rec.rtype == dns::TYPE_PTR && rec.name == endpoint::SERVICE_TYPE@;
            &&& peers.len() <= after.len() <= peers.len() + 1
            &&& after[i].instance == peers[i].instance && after[i].endpoint_id
                == peers[i].endpoint_id
            &&& after[i] != peers[i] ==> after[i].last_seen == now
            &&& after[i].host != peers[i].host || after[i].port != peers[i].port ==> rec.rtype
                == dns::TYPE_SRV && rec.name == peers[i].instance
            &&& after[i].name != peers[i].name ==> rec.rtype == dns::TYPE_TXT && rec.name
                == peers[i].instance && after[i].name == discovery::txt_name(rec.rdata, 0)
            &&& after[i].addr != peers[i].addr ==> rec.rtype == dns::TYPE_A && rec.name
                == peers[i].host && after[i].addr == Some(rec.rdata)
            &&& after.len() > peers.len() ==> is_ptr && pointed == Some(after.last().instance)
                && quickshare::id_in_instance(after.last().instance) is Some
            &&& is_ptr && pointed == Some(peers[i].instance) && quickshare::id_in_instance(
                peers[i].instance,
            ) is Some ==> after[i].last_seen == now
            &&& rec.rtype == dns::TYPE_SRV && rec.rdata.len() >= 6 && rec.name
                == peers[i].instance ==> after[i].last_seen == now && after[i].port
                == rec.rdata[4] * 256 + rec.rdata[5]
            &&& rec.rtype == dns::TYPE_TXT && rec.name == peers[i].instance
                ==> after[i].last_seen == now && (discovery::txt_name(rec.rdata, 0) is Some
                ==> after[i].name == discovery::txt_name(rec.rdata, 0))
            &&& rec.rtype == dns::TYPE_A && rec.rdata.len() == 4 && rec.name == peers[i].host
                && rec.name.len() > 0 ==> after[i].addr == Some(rec.rdata) && after[i].last_seen
                == now
        }),
{
    if rec.rtype == dns::TYPE_PTR && rec.name == endpoint::SERVICE_TYPE@ {
        match dns::name_at(packet, rec.rdata_at, 0, seq![]) {
            Some(instance) => {
                if instance == peers[i].instance {
                    assert(discovery::lists(peers, instance));
                }
            },
            None => {},
        }
    }
}

/// Who was heard of stays for as long as that lasts, and goes after that.
pub proof fn law_table_keeps_who_is_there(
    peers: Seq<discovery::Known>,
    now: u64,
    older_than: u64,
    x: discovery::Known,
)
    ensures
        discovery::kept(peers, now, older_than).contains(x) <==> peers.contains(x) && (if now
            > x.last_seen {
            now - x.last_seen < older_than
        } else {
            older_than > 0
        }),
{
    crate::peers::lemma_kept_iff(
        peers,
        |p: discovery::Known| crate::clock::since(now, p.last_seen) < older_than,
        x,
    );
}

/// The line that describes this device says what it would announce: the instance under which it is
/// found, and how much it says of itself there.
pub proof fn law_identity_is_what_is_announced(
    id: Seq<u8>,
    metadata: Seq<u8>,
    device_name: Seq<char>,
)
    requires
        metadata.len() == 16,
    ensures
        quickshare::identity_text(id, device_name) == "endpoint "@ + text::lossy_text(id) + " -> "@
            + discovery::endpoint_instance(id) + " ("@ + text::decimal(
            discovery::phone(metadata, device_name).bytes().len(),
        ) + " bytes of endpoint info)"@,
{
    reveal_strlit(".");
    assert("."@ =~= seq!['.']);
    let zeros = Seq::new(16, |i: int| 0u8);
    let a = discovery::phone(metadata, device_name).bytes();
    let b = discovery::phone(zeros, device_name).bytes();
    assert(a.len() == b.len());
    let info = endpoint::Advertised {
        version: 0,
        hidden: false,
        device_type: endpoint::DeviceType::Phone,
        metadata: zeros,
        device_name: Some(device_name),
    };
    assert(info == discovery::phone(zeros, device_name));
    assert(quickshare::identity_text(id, device_name) =~= "endpoint "@ + text::lossy_text(id)
        + " -> "@ + discovery::endpoint_instance(id) + " ("@ + text::decimal(a.len())
        + " bytes of endpoint info)"@);
}

} // verus!
