//! The link daemon's decisions: which channel, which country, which backend, and when to hold
//! the radio at all.
//!
//! The daemon runs with privileges and parses nothing from the network. What it reads are
//! system properties and what the kernel says of the Wi-Fi association.

use vstd::prelude::*;
use vstd::utf8::*;
use crate::text;

verus! {

/// The infrastructure interface whose channel the link has to schedule around.
pub const STA_IFACE: &'static str = "wlan0";

pub const WANT_PROP: &'static str = "tarish.awdl.wanted";

pub const EXEMPT_PROP: &'static str = "tarish.awdl.exempt";

pub const MAX_MDNS: u32 = 0x7fff_ffff;

/// How often the properties are looked at, in milliseconds.
pub const POLL: u64 = 500;

/// How long a failed attempt to bring the link up keeps the next one away.
pub const RETRY: u64 = 5000;

/// The interface appears a moment after the session is up.
pub const SETTLE: u64 = 2000;

// --------------------------------------------------------------- properties ---

/// What the property service gave: `n` bytes, which have to be text.
pub fn read_property(buf: &[u8], n: i32) -> (r: Option<String>)
    requires
        n <= buf@.len(),
    ensures
        r is Some <==> n > 0 && valid_utf8(buf@.subrange(0, n as int)),
        r matches Some(t) ==> t@ == decode_utf8(buf@.subrange(0, n as int)),
{
    if n <= 0 {
        return None;
    }
    text::utf8_text(vstd::slice::slice_subrange(buf, 0, n as usize))
}

/// The data interface: what the environment says, else the property, else `tlink0`.
pub open spec fn iface_text(env: Option<String>, prop: Option<String>) -> Seq<char> {
    match env {
        Some(e) => e@,
        None => match prop {
            Some(p) => p@,
            None => "tlink0"@,
        },
    }
}

pub fn iface(env: Option<String>, prop: Option<String>) -> (r: String)
    ensures
        r@ == iface_text(env, prop),
{
    match env {
        Some(e) => e,
        None => match prop {
            Some(p) => p,
            None => "tlink0".to_owned(),
        },
    }
}

/// Whether anything wants the radio. It is wanted when the property is absent: failing
/// towards working costs battery, and failing the other way costs the whole feature.
pub open spec fn wanted(prop: Option<String>) -> bool {
    match prop {
        Some(v) => text::trim_text(v@) != "0"@,
        None => true,
    }
}

pub fn wants_radio(prop: &Option<String>) -> (r: bool)
    ensures
        r == wanted(*prop),
{
    match prop {
        Some(v) => !text::same(text::trim(v.as_str()).as_str(), "0"),
        None => true,
    }
}

/// Whether the exemption is earned. Anything other than `1` is no.
pub fn exemption_earned(prop: &Option<String>) -> (r: bool)
    ensures
        r == (*prop matches Some(v) && v@ == "1"@),
{
    match prop {
        Some(v) => text::same(v.as_str(), "1"),
        None => false,
    }
}

/// How much is logged.
#[derive(Debug, Clone, Copy, PartialEq, Eq, Structural)]
pub enum Level {
    Error,
    Warn,
    Info,
    Debug,
    Trace,
}

pub open spec fn level(prop: Option<String>) -> Level {
    match prop {
        None => Level::Info,
        Some(v) => {
            let t = text::ascii_lower_text(text::trim_text(v@));
            if t == "error"@ {
                Level::Error
            } else if t == "warn"@ {
                Level::Warn
            } else if t == "debug"@ {
                Level::Debug
            } else if t == "trace"@ {
                Level::Trace
            } else {
                Level::Info
            }
        },
    }
}

pub fn log_level(prop: &Option<String>) -> (r: Level)
    ensures
        r == level(*prop),
{
    match prop {
        None => Level::Info,
        Some(v) => {
            let t = text::to_lower(text::trim(v.as_str()).as_str());
            if text::same(t.as_str(), "error") {
                Level::Error
            } else if text::same(t.as_str(), "warn") {
                Level::Warn
            } else if text::same(t.as_str(), "debug") {
                Level::Debug
            } else if text::same(t.as_str(), "trace") {
                Level::Trace
            } else {
                Level::Info
            }
        },
    }
}

// ----------------------------------------------------------------- channels ---

/// The social channel of the 2.4 GHz band, and those of the 5 GHz band in order of preference.
pub open spec fn channels_24() -> Seq<u8> {
    seq![6u8]
}

pub open spec fn channels_5() -> Seq<u8> {
    seq![149u8, 44]
}

/// The two lists in the order in which they are preferred: 5 GHz, except under a live
/// association there or above.
pub open spec fn preferred(sta: i32) -> Seq<Seq<u8>> {
    if sta >= 5000 {
        seq![channels_24(), channels_5()]
    } else {
        seq![channels_5(), channels_24()]
    }
}

pub open spec fn lists(v: Seq<Vec<u8>>) -> Seq<Seq<u8>> {
    v.map_values(|c: Vec<u8>| c@)
}

/// Pick the link's channel in the opposite band from the Wi-Fi association: the chip holds
/// 2.4 GHz and one upper band at once, and not two channels of one band.
pub fn channels_for(sta: i32) -> (r: Vec<Vec<u8>>)
    ensures
        lists(r@) == preferred(sta),
{
    let low: Vec<u8> = vec![6];
    let high: Vec<u8> = vec![149, 44];
    assert(low@ =~= channels_24());
    assert(high@ =~= channels_5());
    let mut r: Vec<Vec<u8>> = Vec::new();
    if sta >= 5000 {
        r.push(low);
        r.push(high);
    } else {
        r.push(high);
        r.push(low);
    }
    assert(lists(r@) =~= preferred(sta));
    r
}

pub open spec fn low_band(channel: u8) -> bool {
    channel <= 14
}

/// Whether every one of these channels is in the band of the association. 6 GHz counts with
/// 5: they share a radio chain.
pub open spec fn same_band(channels: Seq<u8>, sta: i32) -> bool {
    sta > 0 && forall|i: int|
        0 <= i < channels.len() ==> low_band(#[trigger] channels[i]) == (sta < 5000)
}

pub fn same_band_as_sta(channels: &[u8], sta: i32) -> (r: bool)
    ensures
        r == same_band(channels@, sta),
{
    if sta <= 0 {
        return false;
    }
    let n: usize = channels.len();
    let mut i: usize = 0;
    while i < n
        invariant
            n == channels@.len(),
            sta > 0,
            i <= n,
            forall|j: int| 0 <= j < i ==> low_band(#[trigger] channels@[j]) == (sta < 5000),
        decreases n - i,
    {
        let c: u8 = channels[i];
        if (c <= 14) != (sta < 5000) {
            assert(low_band(channels@[i as int]) != (sta < 5000));
            return false;
        }
        i = i + 1;
    }
    true
}

/// What is offered to the vendor library: what was forced, else the preferred lists without
/// those in the association's band. Losing the link beats losing Wi-Fi.
pub open spec fn offers(forced: Option<Seq<u8>>, sta: i32) -> Seq<Seq<u8>> {
    match forced {
        Some(c) => seq![c],
        None => preferred(sta).filter(|c: Seq<u8>| !same_band(c, sta)),
    }
}

/// The offered lists, and those withheld.
pub fn offered(forced: Option<Vec<u8>>, sta: i32) -> (r: Vec<Vec<u8>>)
    ensures
        lists(r@) == offers(
            match forced {
                Some(c) => Some(c@),
                None => None,
            },
            sta,
        ),
{
    let mut r: Vec<Vec<u8>> = Vec::new();
    match forced {
        Some(c) => {
            let ghost want = c@;
            r.push(c);
            assert(lists(r@) =~= seq![want]);
            r
        },
        None => {
            let all = channels_for(sta);
            let ghost keep = |c: Seq<u8>| !same_band(c, sta);
            let n: usize = all.len();
            let mut i: usize = 0;
            assert(lists(r@) =~= lists(all@).take(0).filter(keep)) by {
                reveal(Seq::filter);
            }
            while i < n
                invariant
                    n == all@.len(),
                    i <= n,
                    keep == (|c: Seq<u8>| !same_band(c, sta)),
                    lists(r@) == lists(all@).take(i as int).filter(keep),
                decreases n - i,
            {
                let ghost before = lists(r@);
                proof {
                    let upto = lists(all@).take(i + 1);
                    assert(upto.drop_last() =~= lists(all@).take(i as int));
                    assert(upto.last() == all@[i as int]@);
                    reveal(Seq::filter);
                }
                if !same_band_as_sta(all[i].as_slice(), sta) {
                    let c: Vec<u8> = all[i].clone();
                    proof {
                        assert(c@ =~= all@[i as int]@);
                    }
                    r.push(c);
                    assert(lists(r@) =~= before.push(c@));
                }
                i = i + 1;
            }
            assert(lists(all@).take(n as int) =~= lists(all@));
            r
        },
    }
}

/// Whatever the association, no offered list holds only channels of its band, unless channels
/// were forced; and what is offered is never nothing.
pub proof fn law_wifi_is_left_alone(sta: i32)
    ensures
        forall|i: int|
            0 <= i < offers(None, sta).len() ==> !same_band(#[trigger] offers(None, sta)[i], sta),
        offers(None, sta).len() > 0,
        sta >= 5000 ==> offers(None, sta) == seq![channels_24()],
        0 < sta < 5000 ==> offers(None, sta) == seq![channels_5()],
        sta <= 0 ==> offers(None, sta) == seq![channels_5(), channels_24()],
{
    let all = preferred(sta);
    let keep = |c: Seq<u8>| !same_band(c, sta);
    reveal(Seq::filter);
    assert(low_band(channels_24()[0]));
    assert(!low_band(channels_5()[0]));
    assert(!low_band(channels_5()[1]));
    assert(same_band(channels_24(), sta) == (0 < sta < 5000));
    assert(same_band(channels_5(), sta) == (sta >= 5000));
    let one = all.drop_last();
    let none = one.drop_last();
    assert(none.filter(keep) =~= seq![]);
    assert(one.filter(keep) =~= if keep(all[0]) {
        seq![all[0]]
    } else {
        seq![]
    });
    assert(all.filter(keep) =~= if keep(all[1]) {
        one.filter(keep).push(all[1])
    } else {
        one.filter(keep)
    });
    assert(sta >= 5000 ==> offers(None, sta) =~= seq![channels_24()]);
    assert(0 < sta < 5000 ==> offers(None, sta) =~= seq![channels_5()]);
    assert(sta <= 0 ==> offers(None, sta) =~= seq![channels_5(), channels_24()]);
}

/// Channels named in a property, separated by commas. What is no channel number is skipped,
/// and no channels at all is no override.
pub open spec fn channel_numbers(pieces: Seq<Seq<char>>) -> Seq<u8>
    decreases pieces.len(),
{
    if pieces.len() == 0 {
        seq![]
    } else {
        let rest = channel_numbers(pieces.drop_last());
        match text::parsed_uint(text::trim_text(pieces.last()), 10, 255) {
            Some(c) => rest.push(c as u8),
            None => rest,
        }
    }
}

pub fn channel_override(prop: &Option<String>) -> (r: Option<Vec<u8>>)
    ensures
        match *prop {
            None => r is None,
            Some(v) => {
                let list = channel_numbers(text::split_text(v@, ','));
                if list.len() == 0 {
                    r is None
                } else {
                    r matches Some(l) && l@ == list
                }
            },
        },
{
    match prop {
        None => None,
        Some(v) => {
            let pieces = text::split(v.as_str(), ',');
            let ghost all = text::texts(pieces@);
            let mut list: Vec<u8> = Vec::new();
            let n: usize = pieces.len();
            let mut i: usize = 0;
            while i < n
                invariant
                    n == pieces@.len(),
                    i <= n,
                    all == text::texts(pieces@),
                    list@ == channel_numbers(all.take(i as int)),
                decreases n - i,
            {
                proof {
                    assert(all.take(i + 1).drop_last() =~= all.take(i as int));
                    assert(all.take(i + 1).last() == pieces@[i as int]@);
                }
                match text::parse_uint(text::trim(pieces[i].as_str()).as_str(), 10, 255) {
                    Some(c) => {
                        list.push(c as u8);
                    },
                    None => {},
                }
                i = i + 1;
            }
            assert(all.take(n as int) =~= all);
            if list.len() == 0 {
                None
            } else {
                Some(list)
            }
        },
    }
}

// ---------------------------------------------------------------- the config ---

/// A protobuf varint: seven bits a byte, least significant first, and the high bit on all
/// but the last.
pub open spec fn varint(n: nat) -> Seq<u8>
    decreases n,
{
    if n < 128 {
        seq![n as u8]
    } else {
        seq![(n % 128 + 128) as u8] + varint(n / 128)
    }
}

/// What a varint's bytes spell.
pub open spec fn varint_value(s: Seq<u8>) -> nat
    decreases s.len(),
{
    if s.len() == 0 {
        0
    } else {
        (s[0] % 128) as nat + 128 * varint_value(s.drop_first())
    }
}

/// A varint spells the number it was made of, and only its last byte ends it.
pub proof fn law_varint_round_trip(n: nat)
    ensures
        varint_value(varint(n)) == n,
        varint(n).len() > 0,
        varint(n).last() < 128,
        forall|i: int| 0 <= i < varint(n).len() - 1 ==> #[trigger] varint(n)[i] >= 128,
    decreases n,
{
    let s = varint(n);
    if n < 128 {
        assert(s.drop_first() =~= seq![]);
        assert(varint_value(s.drop_first()) == 0);
    } else {
        law_varint_round_trip(n / 128);
        let rest = varint(n / 128);
        assert(s.drop_first() =~= rest);
        assert(s.last() == rest.last());
        assert forall|i: int| 0 <= i < s.len() - 1 implies #[trigger] s[i] >= 128 by {
            if i > 0 {
                assert(s[i] == rest[i - 1]);
            }
        }
    }
}

pub fn push_varint(out: &mut Vec<u8>, n: u64)
    ensures
        final(out)@ == old(out)@ + varint(n as nat),
    decreases n,
{
    let ghost was = out@;
    if n < 128 {
        out.push(n as u8);
    } else {
        out.push((n % 128 + 128) as u8);
        push_varint(out, n / 128);
    }
    assert(out@ =~= was + varint(n as nat));
}

/// The session's configuration: the chip runs two bands (field 1), where Wi-Fi is if that is
/// known (field 2), and the rate adapts (field 6).
pub open spec fn config(sta: i32) -> Seq<u8> {
    if sta > 0 {
        seq![0x08u8, 0x01, 0x10] + varint(sta as nat) + seq![0x30u8, 0x01]
    } else {
        seq![0x08u8, 0x01, 0x30, 0x01]
    }
}

/// Build the configuration, telling the scheduler which channel Wi-Fi is using.
pub fn mosey_config(sta: i32) -> (r: Vec<u8>)
    ensures
        r@ == config(sta),
{
    let mut v: Vec<u8> = vec![0x08, 0x01];
    if sta > 0 {
        v.push(0x10);
        push_varint(&mut v, sta as u64);
    }
    v.push(0x30);
    v.push(0x01);
    assert(v@ =~= config(sta));
    v
}

pub open spec fn squeezed(s: Seq<char>) -> Seq<char> {
    s.filter(|c: char| !text::white_space(c))
}

/// The bytes that pairs of hexadecimal digits spell, if all of them do.
pub open spec fn hex_pairs(s: Seq<char>) -> Option<Seq<u8>>
    decreases s.len(),
{
    if s.len() == 0 {
        Some(seq![])
    } else if s.len() == 1 {
        None
    } else {
        match (
            hex_pairs(s.take(s.len() - 2)),
            text::parsed_uint(s.skip(s.len() - 2), 16, 255),
        ) {
            (Some(front), Some(b)) => Some(front.push(b as u8)),
            _ => None,
        }
    }
}

fn squeeze(s: &str) -> (r: Vec<char>)
    ensures
        r@ == squeezed(s@),
{
    let v = text::chars_of(s);
    let ghost keep = |c: char| !text::white_space(c);
    let mut r: Vec<char> = Vec::new();
    let n: usize = v.len();
    let mut i: usize = 0;
    assert(r@ =~= v@.take(0).filter(keep)) by {
        reveal(Seq::filter);
    }
    while i < n
        invariant
            n == v@.len(),
            i <= n,
            keep == (|c: char| !text::white_space(c)),
            r@ == v@.take(i as int).filter(keep),
        decreases n - i,
    {
        proof {
            assert(v@.take(i + 1).drop_last() =~= v@.take(i as int));
            assert(v@.take(i + 1).last() == v@[i as int]);
            reveal(Seq::filter);
        }
        let c: char = v[i];
        if !text::is_space(c) {
            r.push(c);
        }
        i = i + 1;
    }
    assert(v@.take(n as int) =~= v@);
    r
}

/// A whole configuration given as hexadecimal, with spaces anywhere. It counts only when every
/// pair of digits is a byte.
pub fn config_override(prop: &Option<String>) -> (r: Option<Vec<u8>>)
    ensures
        match *prop {
            None => r is None,
            Some(v) => match hex_pairs(squeezed(v@)) {
                Some(bytes) => if squeezed(v@).len() == 0 {
                    r is None
                } else {
                    r matches Some(b) && b@ == bytes
                },
                None => r is None,
            },
        },
{
    match prop {
        None => None,
        Some(v) => {
            let hex = squeeze(v.as_str());
            let n: usize = hex.len();
            if n == 0 {
                return None;
            }
            if n % 2 != 0 {
                proof {
                    lemma_odd_is_no_hex(hex@);
                }
                return None;
            }
            let mut out: Vec<u8> = Vec::new();
            let mut i: usize = 0;
            assert(hex@.take(0) =~= seq![]);
            while i < n
                invariant
                    n == hex@.len(),
                    *prop == Some(*v),
                    hex@ == squeezed(v@),
                    n % 2 == 0,
                    i % 2 == 0,
                    i <= n,
                    hex_pairs(hex@.take(i as int)) == Some(out@),
                decreases n - i,
            {
                let pair = text::text_of(&hex, i, i + 2);
                proof {
                    let upto = hex@.take(i + 2);
                    assert(upto.take(upto.len() - 2) =~= hex@.take(i as int));
                    assert(upto.skip(upto.len() - 2) =~= pair@);
                }
                match text::parse_uint(pair.as_str(), 16, 255) {
                    Some(b) => {
                        out.push(b as u8);
                    },
                    None => {
                        proof {
                            lemma_bad_front(hex@, i + 2);
                        }
                        return None;
                    },
                }
                i = i + 2;
            }
            assert(hex@.take(n as int) =~= hex@);
            Some(out)
        },
    }
}

proof fn lemma_odd_is_no_hex(s: Seq<char>)
    requires
        s.len() % 2 == 1,
    ensures
        hex_pairs(s) is None,
    decreases s.len(),
{
    if s.len() > 1 {
        lemma_odd_is_no_hex(s.take(s.len() - 2));
    }
}

proof fn lemma_bad_front(s: Seq<char>, k: int)
    requires
        0 <= k <= s.len(),
        k % 2 == 0,
        s.len() % 2 == 0,
        hex_pairs(s.take(k)) is None,
    ensures
        hex_pairs(s) is None,
    decreases s.len() - k,
{
    if k == s.len() {
        assert(s.take(k) =~= s);
    } else {
        let more = s.take(k + 2);
        assert(more.take(more.len() - 2) =~= s.take(k));
        lemma_bad_front(s, k + 2);
    }
}

// ------------------------------------------------------------ the association ---

pub open spec fn wifi_range(f: int) -> bool {
    2000 <= f <= 7200
}

/// Where Wi-Fi is associated, in MHz: what a property forces, else what the kernel says, else
/// what the client last published. Zero is no association, and -1 is Wi-Fi switched off, which
/// only the client can tell.
pub open spec fn association(
    forced: Option<String>,
    kernel: Option<u32>,
    client: Option<String>,
) -> int {
    let f = match forced {
        Some(v) => text::parsed_uint(text::trim_text(v@), 10, u32::MAX as nat),
        None => None,
    };
    let c = match client {
        Some(v) => text::parsed_int(text::trim_text(v@), i32::MIN as int, i32::MAX as int),
        None => None,
    };
    if f is Some && wifi_range(f->0 as int) {
        f->0 as int
    } else if kernel is Some && wifi_range(kernel->0 as int) {
        kernel->0 as int
    } else if c is Some && wifi_range(c->0) {
        c->0
    } else if c is Some && c->0 < 0 {
        -1
    } else {
        0
    }
}

pub fn sta_frequency(forced: &Option<String>, kernel: Option<u32>, client: &Option<String>) -> (r:
    i32)
    ensures
        r == association(*forced, kernel, *client),
{
    match forced {
        Some(v) => {
            match text::parse_uint(text::trim(v.as_str()).as_str(), 10, u32::MAX as u64) {
                Some(f) => {
                    if 2000 <= f && f <= 7200 {
                        return f as i32;
                    }
                },
                None => {},
            }
        },
        None => {},
    }
    match kernel {
        Some(f) => {
            if 2000 <= f && f <= 7200 {
                return f as i32;
            }
        },
        None => {},
    }
    match client {
        Some(v) => {
            match text::parse_int(
                text::trim(v.as_str()).as_str(),
                i32::MIN as i64,
                i32::MAX as i64,
            ) {
                Some(f) => {
                    if 2000 <= f && f <= 7200 {
                        f as i32
                    } else if f < 0 {
                        -1
                    } else {
                        0
                    }
                },
                None => 0,
            }
        },
        None => 0,
    }
}

// ------------------------------------------------------------------ the country ---

/// The properties that may know the country, in order of authority: an explicit override, what
/// the Wi-Fi stack persisted, the network the SIM is registered on, the SIM's home country and
/// the boot default.
pub struct CountryProps {
    pub chosen: Option<String>,
    pub wifi: Option<String>,
    pub network: Option<String>,
    pub sim: Option<String>,
    pub boot: Option<String>,
}

/// A property's country: the first of its values, which multi-SIM devices separate by commas,
/// if that is two letters.
pub open spec fn country_in(raw: Option<String>) -> Option<Seq<char>> {
    match raw {
        None => None,
        Some(s) => {
            let v = text::upper_text(text::trim_text(text::before_first(s@, ',')));
            if v.len() == 2 && text::ascii_letter(v[0]) && text::ascii_letter(v[1]) {
                Some(v)
            } else {
                None
            }
        },
    }
}

pub open spec fn country(p: CountryProps) -> Option<Seq<char>> {
    if country_in(p.chosen) is Some {
        country_in(p.chosen)
    } else if country_in(p.wifi) is Some {
        country_in(p.wifi)
    } else if country_in(p.network) is Some {
        country_in(p.network)
    } else if country_in(p.sim) is Some {
        country_in(p.sim)
    } else {
        country_in(p.boot)
    }
}

fn country_from(raw: &Option<String>) -> (r: Option<String>)
    ensures
        match r {
            Some(c) => country_in(*raw) == Some(c@),
            None => country_in(*raw) is None,
        },
{
    match raw {
        None => None,
        Some(s) => {
            let first = text::first_piece(s.as_str(), ',');
            let v = text::to_upper(text::trim(first.as_str()).as_str());
            let c = text::chars_of(v.as_str());
            if c.len() == 2 && letter(c[0]) && letter(c[1]) {
                Some(v)
            } else {
                None
            }
        },
    }
}

fn letter(c: char) -> (r: bool)
    ensures
        r == text::ascii_letter(c),
{
    ('a' <= c && c <= 'z') || ('A' <= c && c <= 'Z')
}

/// The regulatory country. `None` only when nothing knows; `00`, the world domain, is no
/// country.
pub fn country_code(p: &CountryProps) -> (r: Option<String>)
    ensures
        match r {
            Some(c) => country(*p) == Some(c@),
            None => country(*p) is None,
        },
{
    let a = country_from(&p.chosen);
    if a.is_some() {
        return a;
    }
    let b = country_from(&p.wifi);
    if b.is_some() {
        return b;
    }
    let c = country_from(&p.network);
    if c.is_some() {
        return c;
    }
    let d = country_from(&p.sim);
    if d.is_some() {
        return d;
    }
    country_from(&p.boot)
}

// ------------------------------------------------------------------- the backend ---

/// Radio backend. Which of these a device offers is a vendor decision.
#[derive(Debug, Clone, Copy, PartialEq, Eq, Structural)]
pub enum OpMode {
    /// Rides an interface that is there already, `radiotap0`.
    Radiotap,
    /// Wants a wiphy named `wonder`, and creates `wonder0` from it.
    Netlink,
}

impl OpMode {
    /// The number the vendor library knows it by.
    pub fn number(self) -> (r: u32)
        ensures
            r == (match self {
                OpMode::Radiotap => 1u32,
                OpMode::Netlink => 2u32,
            }),
    {
        match self {
            OpMode::Radiotap => 1,
            OpMode::Netlink => 2,
        }
    }
}

/// An ordering, not a decision: both are always tried.
pub open spec fn modes(has_radiotap: bool) -> Seq<OpMode> {
    if has_radiotap {
        seq![OpMode::Radiotap, OpMode::Netlink]
    } else {
        seq![OpMode::Netlink, OpMode::Radiotap]
    }
}

pub fn radio_modes(has_radiotap: bool) -> (r: Vec<OpMode>)
    ensures
        r@ == modes(has_radiotap),
{
    let mut r: Vec<OpMode> = Vec::new();
    if has_radiotap {
        r.push(OpMode::Radiotap);
        r.push(OpMode::Netlink);
    } else {
        r.push(OpMode::Netlink);
        r.push(OpMode::Radiotap);
    }
    assert(r@ =~= modes(has_radiotap));
    r
}

/// A country has two bytes before anything is asked of the vendor library.
pub fn acceptable_country(c: &str) -> (r: bool)
    ensures
        r == (encode_utf8(c@).len() == 2),
{
    c.as_bytes().len() == 2
}

/// Where the vendor library is looked for: by its bare name, which lets the linker search, then
/// in the places it is shipped to, and last where the environment says, if it says anything.
pub open spec fn library_paths(env: Option<String>) -> Seq<Seq<char>> {
    seq![
        "libmosey_daemon_ffi.so"@,
        "/system_ext/lib64/libmosey_daemon_ffi.so"@,
        "/vendor/lib64/libmosey_daemon_ffi.so"@,
        "/system/lib64/libmosey_daemon_ffi.so"@,
    ] + (if env is Some && env->0@.len() > 0 {
        seq![env->0@]
    } else {
        seq![]
    })
}

pub fn libraries(env: Option<String>) -> (r: Vec<String>)
    ensures
        text::texts(r@) == library_paths(env),
{
    let mut r: Vec<String> = Vec::new();
    r.push("libmosey_daemon_ffi.so".to_owned());
    r.push("/system_ext/lib64/libmosey_daemon_ffi.so".to_owned());
    r.push("/vendor/lib64/libmosey_daemon_ffi.so".to_owned());
    r.push("/system/lib64/libmosey_daemon_ffi.so".to_owned());
    match env {
        Some(p) => {
            let c = text::chars_of(p.as_str());
            if c.len() > 0 {
                r.push(p);
            }
        },
        None => {},
    }
    assert(text::texts(r@) =~= library_paths(env));
    r
}

// -------------------------------------------------------------------- acquiring ---

/// One attempt at a session.
pub struct Attempt {
    pub mode: OpMode,
    pub channels: Vec<u8>,
}

/// The attempts in order: every list with the first backend, then every list with the next.
pub open spec fn attempts(modes: Seq<OpMode>, offered: Seq<Seq<u8>>) -> Seq<(OpMode, Seq<u8>)>
    decreases modes.len(),
{
    if modes.len() == 0 {
        seq![]
    } else {
        attempts(modes.drop_last(), offered) + offered.map_values(
            |c: Seq<u8>| (modes.last(), c),
        )
    }
}

pub open spec fn tries(v: Seq<Attempt>) -> Seq<(OpMode, Seq<u8>)> {
    v.map_values(|a: Attempt| (a.mode, a.channels@))
}

/// What it takes to bring the link up.
pub struct Plan {
    pub country: String,
    pub config: Vec<u8>,
    pub attempts: Vec<Attempt>,
}

fn search(modes: &Vec<OpMode>, offered: &Vec<Vec<u8>>) -> (r: Vec<Attempt>)
    ensures
        tries(r@) == attempts(modes@, lists(offered@)),
{
    let mut r: Vec<Attempt> = Vec::new();
    let n: usize = modes.len();
    let m: usize = offered.len();
    let mut i: usize = 0;
    assert(tries(r@) =~= attempts(modes@.take(0), lists(offered@)));
    while i < n
        invariant
            n == modes@.len(),
            m == offered@.len(),
            i <= n,
            tries(r@) == attempts(modes@.take(i as int), lists(offered@)),
        decreases n - i,
    {
        let mode: OpMode = modes[i];
        let ghost front = tries(r@);
        let ghost row = lists(offered@).map_values(|c: Seq<u8>| (mode, c));
        let mut j: usize = 0;
        assert(front + row.take(0) =~= front);
        while j < m
            invariant
                m == offered@.len(),
                j <= m,
                row == lists(offered@).map_values(|c: Seq<u8>| (mode, c)),
                tries(r@) == front + row.take(j as int),
            decreases m - j,
        {
            let channels: Vec<u8> = offered[j].clone();
            let ghost so_far = tries(r@);
            proof {
                assert(channels@ =~= offered@[j as int]@);
            }
            r.push(Attempt { mode, channels });
            proof {
                assert(tries(r@) =~= so_far.push((mode, channels@)));
                assert(row[j as int] == (mode, channels@));
                assert(row.take(j + 1) =~= row.take(j as int).push(row[j as int]));
                assert(tries(r@) =~= front + row.take(j + 1));
            }
            j = j + 1;
        }
        proof {
            assert(row.take(m as int) =~= row);
            assert(modes@.take(i + 1).drop_last() =~= modes@.take(i as int));
            assert(modes@.take(i + 1).last() == mode);
        }
        i = i + 1;
    }
    assert(modes@.take(n as int) =~= modes@);
    r
}

/// What to attempt, or nothing while no country is known: no channel is permitted in the
/// world domain.
pub fn acquire(
    country: Option<String>,
    sta: i32,
    config_forced: Option<Vec<u8>>,
    channels_forced: Option<Vec<u8>>,
    has_radiotap: bool,
) -> (r: Option<Plan>)
    ensures
        match country {
            None => r is None,
            Some(c) => r matches Some(p) && {
                &&& p.country == c
                &&& p.config@ == (match config_forced {
                    Some(f) => f@,
                    None => config(sta),
                })
                &&& tries(p.attempts@) == attempts(
                    modes(has_radiotap),
                    offers(
                        match channels_forced {
                            Some(f) => Some(f@),
                            None => None,
                        },
                        sta,
                    ),
                )
            },
        },
{
    let country: String = match country {
        Some(c) => c,
        None => {
            return None;
        },
    };
    let config: Vec<u8> = match config_forced {
        Some(f) => f,
        None => mosey_config(sta),
    };
    let lists = offered(channels_forced, sta);
    let modes = radio_modes(has_radiotap);
    let attempts = search(&modes, &lists);
    Some(Plan { country, config, attempts })
}

/// No attempt that is made on the daemon's own account takes the association's band.
pub proof fn law_attempts_leave_wifi_alone(has_radiotap: bool, sta: i32)
    ensures
        forall|i: int|
            0 <= i < attempts(modes(has_radiotap), offers(None, sta)).len() ==> !same_band(
                (#[trigger] attempts(modes(has_radiotap), offers(None, sta))[i]).1,
                sta,
            ),
        attempts(modes(has_radiotap), offers(None, sta)).len() > 0,
{
    law_wifi_is_left_alone(sta);
    lemma_attempts_offered(modes(has_radiotap), offers(None, sta));
    let ms = modes(has_radiotap);
    assert(attempts(ms, offers(None, sta)).len() > 0);
}

/// Every attempt is at one of the lists offered.
proof fn lemma_attempts_offered(modes: Seq<OpMode>, offered: Seq<Seq<u8>>)
    ensures
        forall|i: int|
            0 <= i < attempts(modes, offered).len() ==> offered.contains(
                (#[trigger] attempts(modes, offered)[i]).1,
            ),
    decreases modes.len(),
{
    if modes.len() > 0 {
        lemma_attempts_offered(modes.drop_last(), offered);
        let front = attempts(modes.drop_last(), offered);
        let row = offered.map_values(|c: Seq<u8>| (modes.last(), c));
        let all = attempts(modes, offered);
        assert forall|i: int| 0 <= i < all.len() implies offered.contains((#[trigger] all[i]).1) by {
            if i < front.len() {
                assert(all[i] == front[i]);
            } else {
                assert(all[i] == row[i - front.len()]);
                assert(offered[i - front.len()] == all[i].1);
            }
        }
    }
}

// ------------------------------------------------------------- holding the radio ---

/// What the daemon does about the link.
#[derive(Debug, Clone, Copy, PartialEq, Eq, Structural)]
pub enum LinkStep {
    Nothing,
    Acquire,
    Release,
}

/// What one look at the properties leads to: first the rule moves, if it has to, and then the
/// link comes or goes.
#[derive(Debug, Clone, Copy, PartialEq, Eq, Structural)]
pub struct Turn {
    /// Put the routing rule above the kill-switch, or below it.
    pub rule: Option<bool>,
    pub link: LinkStep,
}

/// The daemon: the link is held only while something wants it.
pub struct Daemon {
    pub linked: bool,
    pub last_want: Option<bool>,
    pub last_exempt: Option<bool>,
    pub retry_at: u64,
    pub last_error: String,
}

impl Daemon {
    pub open spec fn retry_then(self, want: bool, now: u64) -> u64 {
        if self.last_want == Some(want) {
            self.retry_at
        } else {
            now
        }
    }

    /// What a look at the properties leads to.
    pub open spec fn turn(self, want: bool, exempt: bool, now: u64) -> Turn {
        Turn {
            rule: if self.linked && self.last_exempt != Some(exempt) {
                Some(exempt)
            } else {
                None
            },
            link: if want && !self.linked && now >= self.retry_then(want, now) {
                LinkStep::Acquire
            } else if !want && self.linked {
                LinkStep::Release
            } else {
                LinkStep::Nothing
            },
        }
    }

    pub fn new(now: u64) -> (r: Self)
        ensures
            !r.linked,
            r.last_want is None,
            r.last_exempt is None,
            r.retry_at == now,
            r.last_error@.len() == 0,
    {
        Daemon {
            linked: false,
            last_want: None,
            last_exempt: None,
            retry_at: now,
            last_error: String::new(),
        }
    }

    /// Look at the properties.
    pub fn look(&mut self, want: bool, exempt: bool, now: u64) -> (r: Turn)
        ensures
            r == old(self).turn(want, exempt, now),
            final(self).linked == (old(self).linked && want),
            final(self).last_want == Some(want),
            final(self).last_exempt == Some(exempt),
            final(self).retry_at == old(self).retry_then(want, now),
            final(self).last_error == old(self).last_error,
    {
        let fresh: bool = match self.last_want {
            Some(w) => w != want,
            None => true,
        };
        if fresh {
            self.last_want = Some(want);
            // A fresh request retries at once.
            self.retry_at = now;
        }
        let moved: bool = match self.last_exempt {
            Some(e) => e != exempt,
            None => true,
        };
        let rule: Option<bool> = if moved && self.linked {
            Some(exempt)
        } else {
            None
        };
        self.last_exempt = Some(exempt);
        let link: LinkStep = if want && !self.linked && now >= self.retry_at {
            LinkStep::Acquire
        } else if !want && self.linked {
            self.linked = false;
            LinkStep::Release
        } else {
            LinkStep::Nothing
        };
        Turn { rule, link }
    }

    /// The link is up.
    pub fn acquired(&mut self)
        ensures
            final(self).linked,
            final(self).last_error@.len() == 0,
            final(self).last_want == old(self).last_want,
            final(self).last_exempt == old(self).last_exempt,
            final(self).retry_at == old(self).retry_at,
    {
        self.linked = true;
        self.last_error = String::new();
    }

    /// The link did not come up. Whether that is worth saying: once for each distinct cause.
    pub fn failed(&mut self, cause: String, now: u64) -> (r: bool)
        requires
            now <= u64::MAX - RETRY,
        ensures
            r == (cause@ != old(self).last_error@),
            final(self).last_error@ == cause@,
            final(self).retry_at == now + RETRY,
            final(self).linked == old(self).linked,
            final(self).last_want == old(self).last_want,
            final(self).last_exempt == old(self).last_exempt,
    {
        let news: bool = !text::same(cause.as_str(), self.last_error.as_str());
        if news {
            self.last_error = cause;
        }
        self.retry_at = now + RETRY;
        news
    }
}

/// The radio is asked for only when it is wanted, and let go as soon as it is not.
pub proof fn law_radio_follows_the_request(d: Daemon, want: bool, exempt: bool, now: u64)
    ensures
        d.turn(want, exempt, now).link is Acquire ==> want && !d.linked,
        d.turn(want, exempt, now).link is Release <==> !want && d.linked,
        want && !d.linked && d.last_want != Some(true) ==> d.turn(
            want,
            exempt,
            now,
        ).link is Acquire,
{
}

/// While the link is up, a change of the exemption moves the rule at the next look, up or
/// down; and an exemption that stays as it was never does.
pub proof fn law_rule_follows_the_exemption(d: Daemon, want: bool, exempt: bool, now: u64)
    ensures
        d.linked && d.last_exempt != Some(exempt) <==> d.turn(want, exempt, now).rule == Some(
            exempt,
        ),
        d.turn(want, exempt, now).rule is Some ==> d.turn(want, exempt, now).rule == Some(exempt),
{
}

/// A failed attempt keeps the next one away for five seconds and no longer, as long as the request
/// stays the same; a request that is new is met at once.
pub proof fn law_failed_link_is_tried_again(
    d: Daemon,
    exempt: bool,
    failed_at: u64,
    now: u64,
)
    requires
        !d.linked,
        failed_at <= u64::MAX - RETRY,
        d.retry_at == failed_at + RETRY,
    ensures
        d.last_want == Some(true) ==> (d.turn(true, exempt, now).link is Acquire <==> now
            >= failed_at + 5000),
        d.last_want != Some(true) ==> d.turn(true, exempt, now).link is Acquire,
        d.turn(false, exempt, now).link is Nothing,
        d.turn(true, exempt, now).rule is None,
{
}

/// The link that is up stays up while it is wanted.
pub proof fn law_link_stays_while_wanted(d: Daemon, exempt: bool, now: u64)
    requires
        d.linked,
    ensures
        d.turn(true, exempt, now).link is Nothing,
{
}

/// Everything is tried: each backend with each list, all lists with the first backend before any
/// with the next, and both in their order.
pub proof fn law_everything_is_tried(modes: Seq<OpMode>, offered: Seq<Seq<u8>>, i: int, j: int)
    requires
        0 <= i < modes.len(),
        0 <= j < offered.len(),
    ensures
        attempts(modes, offered).len() == modes.len() * offered.len(),
        0 <= i * offered.len() + j < attempts(modes, offered).len(),
        attempts(modes, offered)[i * offered.len() + j] == (modes[i], offered[j]),
    decreases modes.len(),
{
    lemma_attempts_len(modes, offered);
    let front = modes.drop_last();
    lemma_attempts_len(front, offered);
    let n = offered.len() as int;
    let m = modes.len() as int;
    assert(m * n == (m - 1) * n + n) by (nonlinear_arith);
    if i < m - 1 {
        law_everything_is_tried(front, offered, i, j);
    } else {
        assert(i == m - 1);
    }
}

proof fn lemma_attempts_len(modes: Seq<OpMode>, offered: Seq<Seq<u8>>)
    ensures
        attempts(modes, offered).len() == modes.len() * offered.len(),
    decreases modes.len(),
{
    if modes.len() > 0 {
        lemma_attempts_len(modes.drop_last(), offered);
        let n = offered.len() as int;
        let m = modes.len() as int;
        assert(m * n == (m - 1) * n + n) by (nonlinear_arith);
    } else {
        assert(0 * offered.len() == 0) by (nonlinear_arith);
    }
}

/// Both backends are tried, the one that rides an interface which is there first if it is.
pub proof fn law_both_backends_are_tried(has_radiotap: bool)
    ensures
        modes(has_radiotap).len() == 2,
        modes(has_radiotap)[0] == OpMode::Radiotap <==> has_radiotap,
        modes(has_radiotap)[0] != modes(has_radiotap)[1],
{
}

/// Who says where Wi-Fi is: what is forced counts before what the kernel says, and that before
/// what the client says, as long as it is a frequency that Wi-Fi has. Only the client can say
/// that it is off, and where nobody says anything it is nowhere.
pub proof fn law_band_is_heard_from_the_best(
    forced: Option<String>,
    kernel: Option<u32>,
    client: Option<String>,
    f: nat,
    c: nat,
)
    ensures
        forced matches Some(v) && v@ == text::decimal(f) && 2000 <= f <= 7200 ==> association(
            forced,
            kernel,
            client,
        ) == f,
        forced is None && (kernel matches Some(k) && 2000 <= k <= 7200) ==> association(
            forced,
            kernel,
            client,
        ) == kernel->0,
        forced is None && kernel is None && (client matches Some(v) && v@ == text::decimal(c))
            && 2000 <= c <= 7200 ==> association(forced, kernel, client) == c,
        forced is None && kernel is None && (client matches Some(v) && v@ == seq!['-']
            + text::decimal(c)) && 0 < c <= 0x7fff_ffff ==> association(forced, kernel, client)
            == -1,
        forced is None && kernel is None && client is None ==> association(forced, kernel, client)
            == 0,
        association(forced, kernel, client) == -1 || association(forced, kernel, client) == 0
            || 2000 <= association(forced, kernel, client) <= 7200,
{
    match forced {
        Some(v) => {
            if v@ == text::decimal(f) && 2000 <= f <= 7200 {
                lemma_decimal_is_trimmed(f);
                text::law_decimal_parses(f, u32::MAX as nat);
            }
        },
        None => {},
    }
    match client {
        Some(v) => {
            if v@ == text::decimal(c) && 2000 <= c <= 7200 {
                lemma_decimal_is_trimmed(c);
                text::law_negative_parses(c, i32::MIN as int, i32::MAX as int);
            }
            if v@ == seq!['-'] + text::decimal(c) && 0 < c <= 0x7fff_ffff {
                lemma_decimal_is_trimmed(c);
                text::law_negative_parses(c, i32::MIN as int, i32::MAX as int);
            }
        },
        None => {},
    }
}

proof fn lemma_decimal_is_trimmed(n: nat)
    ensures
        text::trim_text(text::decimal(n)) == text::decimal(n),
        text::trim_text(seq!['-'] + text::decimal(n)) == seq!['-'] + text::decimal(n),
{
    let d = text::decimal(n);
    text::law_decimal_parses(n, n);
    assert(text::digit_value(d[0]) < 10) by {
        if d[0] == '+' {
            lemma_no_sign(n);
        }
    }
    lemma_no_sign(n);
    assert(text::digit_value(d[0]) < 10 && text::digit_value(d[d.len() - 1]) < 10);
    text::law_trimming_takes_white_space(seq![], d, seq![]);
    assert(Seq::<char>::empty() + d + Seq::<char>::empty() =~= d);
    let m = seq!['-'] + d;
    assert(m[0] == '-' && m.last() == d.last());
    text::law_trimming_takes_white_space(seq![], m, seq![]);
    assert(Seq::<char>::empty() + m + Seq::<char>::empty() =~= m);
}

proof fn lemma_no_sign(n: nat)
    ensures
        text::decimal(n).len() > 0,
        text::all_digits(text::decimal(n), 10),
        text::decimal(n)[0] != '+',
    decreases n,
{
    let s = text::decimal(n);
    if n >= 10 {
        lemma_no_sign(n / 10);
        let p = text::decimal(n / 10);
        assert forall|i: int| 0 <= i < s.len() implies text::digit_value(#[trigger] s[i]) < 10 by {
            if i < p.len() {
                assert(s[i] == p[i]);
            }
        }
        assert(s[0] == p[0]);
    }
}

/// The country is that of the first who knows one, in the order of their authority.
pub proof fn law_country_is_of_the_first_who_knows(p: CountryProps)
    ensures
        country_in(p.chosen) is Some ==> country(p) == country_in(p.chosen),
        country_in(p.chosen) is None && country_in(p.wifi) is Some ==> country(p) == country_in(
            p.wifi,
        ),
        country_in(p.chosen) is None && country_in(p.wifi) is None && country_in(p.network) is Some
            ==> country(p) == country_in(p.network),
        country_in(p.chosen) is None && country_in(p.wifi) is None && country_in(p.network) is None
            && country_in(p.sim) is Some ==> country(p) == country_in(p.sim),
        country_in(p.chosen) is None && country_in(p.wifi) is None && country_in(p.network) is None
            && country_in(p.sim) is None ==> country(p) == country_in(p.boot),
{
}

/// Two letters are a country, in letters of either size and whatever is said of other SIMs behind
/// a comma.
pub proof fn law_two_letters_are_a_country(v: String, a: char, b: char, rest: Seq<char>)
    requires
        text::ascii_letter(a),
        text::ascii_letter(b),
        v@ == seq![a, b] || v@ == seq![a, b, ','] + rest,
    ensures
        country_in(Some(v)) == Some(seq![text::ascii_upper(a), text::ascii_upper(b)]),
{
    let two = seq![a, b];
    let s = v@;
    text::lemma_find_char(s, ',');
    let k = text::find_char(s, ',');
    assert(k == 2) by {
        assert(s[0] == a && s[1] == b);
        if s.len() > 2 {
            assert(s[2] == ',');
        }
    }
    assert(text::before_first(s, ',') =~= two);
    text::law_trimming_takes_white_space(seq![], two, seq![]);
    assert(Seq::<char>::empty() + two + Seq::<char>::empty() =~= two);
    assert(is_ascii_chars(two));
    let up = text::upper_text(two);
    assert(up =~= seq![text::ascii_upper(a), text::ascii_upper(b)]);
    assert(text::ascii_letter(text::ascii_upper(a)));
    assert(text::ascii_letter(text::ascii_upper(b)));
}

/// The interface is named by the environment before the property, and has a name of its own
/// where neither names it.
pub proof fn law_environment_names_the_interface(env: Option<String>, prop: Option<String>)
    ensures
        env matches Some(e) ==> iface_text(env, prop) == e@,
        env is None ==> (prop matches Some(p) ==> iface_text(env, prop) == p@),
        env is None && prop is None ==> iface_text(env, prop) == seq!['t', 'l', 'i', 'n', 'k', '0'],
{
    reveal_strlit("tlink0");
    assert("tlink0"@ =~= seq!['t', 'l', 'i', 'n', 'k', '0']);
}

/// The radio is wanted unless somebody says a plain no.
pub proof fn law_only_a_no_lets_the_radio_go(v: String)
    ensures
        wanted(None),
        v@ == seq!['0'] || v@ == seq!['0', '\n'] ==> !wanted(Some(v)),
        v@ == seq!['1'] || v@.len() == 0 ==> wanted(Some(v)),
{
    reveal_strlit("0");
    assert("0"@ =~= seq!['0']);
    if v@ == seq!['0'] {
        text::law_trimming_takes_white_space(seq![], seq!['0'], seq![]);
        assert(Seq::<char>::empty() + seq!['0'] + Seq::<char>::empty() =~= v@);
    }
    if v@ == seq!['0', '\n'] {
        text::law_trimming_takes_white_space(seq![], seq!['0'], seq!['\n']);
        assert(Seq::<char>::empty() + seq!['0'] + seq!['\n'] =~= v@);
    }
    if v@ == seq!['1'] {
        text::law_trimming_takes_white_space(seq![], seq!['1'], seq![]);
        assert(Seq::<char>::empty() + seq!['1'] + Seq::<char>::empty() =~= v@);
        assert(seq!['1'][0] != seq!['0'][0]);
    }
    if v@.len() == 0 {
        text::law_trimming_takes_white_space(seq![], seq![], seq![]);
        assert(Seq::<char>::empty() + Seq::<char>::empty() + Seq::<char>::empty() =~= v@);
    }
}

/// Channels are read one by one in their order: those of two lists are those of the one and then
/// those of the other, a number is a channel, and what is none is skipped.
pub proof fn law_channels_are_read_in_order(
    a: Seq<Seq<char>>,
    b: Seq<Seq<char>>,
    n: nat,
    junk: Seq<char>,
)
    requires
        n <= 255,
        text::parsed_uint(text::trim_text(junk), 10, 255) is None,
    ensures
        channel_numbers(a + b) == channel_numbers(a) + channel_numbers(b),
        channel_numbers(seq![text::decimal(n)]) == seq![n as u8],
        channel_numbers(seq![junk]).len() == 0,
    decreases b.len(),
{
    lemma_decimal_is_trimmed(n);
    text::law_decimal_parses(n, 255);
    reveal_with_fuel(channel_numbers, 2);
    assert(seq![text::decimal(n)].drop_last() =~= seq![]);
    assert(seq![junk].drop_last() =~= seq![]);
    assert(channel_numbers(seq![text::decimal(n)]) =~= seq![n as u8]);
    if b.len() == 0 {
        assert(a + b =~= a);
        assert(channel_numbers(a) + channel_numbers(b) =~= channel_numbers(a));
    } else {
        law_channels_are_read_in_order(a, b.drop_last(), n, junk);
        assert((a + b).drop_last() =~= a + b.drop_last());
        assert((a + b).last() == b.last());
        assert(channel_numbers(a + b) =~= channel_numbers(a) + channel_numbers(b));
    }
}

/// A configuration that is written in hexadecimal is read back as it is.
pub proof fn law_hex_configuration_is_read(b: Seq<u8>)
    ensures
        hex_pairs(text::hex_text(b)) == Some(b),
    decreases b.len(),
{
    let s = text::hex_text(b);
    if b.len() > 0 {
        let d = b.drop_last();
        law_hex_configuration_is_read(d);
        text::law_hex_says_the_bytes(b, b.len() - 1);
        let front = text::hex_text(d);
        assert(s.take(s.len() - 2) =~= front);
        let pair = s.skip(s.len() - 2);
        let hi = pair[0];
        let lo = pair[1];
        assert(pair =~= seq![hi, lo]);
        assert(hi == s[2 * (b.len() - 1)] && lo == s[2 * (b.len() - 1) + 1]);
        assert(hi != '+') by {
            assert(text::digit_value(hi) < 16);
        }
        assert(text::all_digits(pair, 16));
        reveal_with_fuel(text::digits_value, 3);
        assert(pair.drop_last() =~= seq![hi]);
        assert(seq![hi].drop_last() =~= seq![]);
        assert(d.push(b.last()) =~= b);
    }
}

/// The vendor library is told where Wi-Fi is exactly when that is known, and what it is told is
/// that frequency.
pub proof fn law_configuration_tells_the_band(sta: i32)
    ensures
        ({
            let c = config(sta);
            let n = c.len() as int;
            &&& n >= 4
            &&& c[0] == 0x08 && c[1] == 1
            &&& c[n - 2] == 0x30 && c[n - 1] == 1
            &&& sta <= 0 ==> n == 4
            &&& sta > 0 ==> c[2] == 0x10 && varint_value(c.subrange(3, n - 2)) == sta
        }),
{
    if sta > 0 {
        law_varint_round_trip(sta as nat);
        let c = config(sta);
        assert(c.subrange(3, c.len() - 2) =~= varint(sta as nat));
    }
}

/// The link uses the channels that every other device meets on: 6 in the lower band, and 149 or
/// else 44 in the upper one, each in its own band.
pub proof fn law_channels_are_the_social_ones(i: int)
    ensures
        channels_24() == seq![6u8],
        channels_5() == seq![149u8, 44u8],
        0 <= i < channels_24().len() ==> low_band(channels_24()[i]),
        0 <= i < channels_5().len() ==> !low_band(channels_5()[i]),
{
}

} // verus!
