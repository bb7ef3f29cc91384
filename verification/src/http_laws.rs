//! What one end writes, the other end understands.

use vstd::prelude::*;
use vstd::utf8::*;
use crate::http;
use crate::text;

verus! {

/// White space parts the words before it from those behind it.
proof fn lemma_words_concat(a: Seq<char>, c: char, b: Seq<char>)
    requires
        text::white_space(c),
    ensures
        text::words_text(a + seq![c] + b) == text::words_text(a) + text::words_text(b),
    decreases b.len(),
{
    let whole = a + seq![c] + b;
    if b.len() == 0 {
        assert(whole.drop_last() =~= a);
        assert(text::words_text(whole) =~= text::words_text(a) + text::words_text(b));
    } else {
        let d = b.drop_last();
        lemma_words_concat(a, c, d);
        assert(whole.drop_last() =~= a + seq![c] + d);
        assert(whole.last() == b.last());
        if b.len() >= 2 {
            assert(whole[whole.len() - 2] == b[b.len() - 2]);
            if !text::white_space(b[b.len() - 2]) {
                lemma_words_nonempty(d);
            }
        } else {
            assert(whole[whole.len() - 2] == c);
        }
        assert(text::words_text(whole) =~= text::words_text(a) + text::words_text(b));
    }
}

proof fn lemma_words_nonempty(s: Seq<char>)
    requires
        s.len() > 0,
        !text::white_space(s.last()),
    ensures
        text::words_text(s).len() > 0,
    decreases s.len(),
{
    if s.len() >= 2 && !text::white_space(s[s.len() - 2]) {
        lemma_words_nonempty(s.drop_last());
    }
}

/// What holds no white space is one word.
proof fn lemma_one_word(s: Seq<char>)
    requires
        s.len() > 0,
        forall|i: int| 0 <= i < s.len() ==> !text::white_space(#[trigger] s[i]),
    ensures
        text::words_text(s) == seq![s],
    decreases s.len(),
{
    let d = s.drop_last();
    assert(!text::white_space(s[s.len() - 1]));
    if d.len() == 0 {
        assert(text::words_text(d) =~= seq![]);
        assert(seq![s.last()] =~= s);
        assert(text::words_text(s) =~= seq![s]);
    } else {
        assert forall|i: int| 0 <= i < d.len() implies !text::white_space(#[trigger] d[i]) by {
            assert(d[i] == s[i]);
        }
        lemma_one_word(d);
        assert(!text::white_space(s[s.len() - 2]));
        assert(d.push(s.last()) =~= s);
        assert(text::words_text(s) =~= seq![s]);
    }
}

/// The lines of a head as a reader splits it.
pub open spec fn read_lines(lines: Seq<Seq<char>>) -> Seq<Seq<char>> {
    Seq::new(lines.len(), |i: int| lines[i].push('\r')) + seq![seq!['\r'], seq![]]
}

pub open spec fn one_line(s: Seq<char>) -> bool {
    forall|i: int| 0 <= i < s.len() ==> (#[trigger] s[i]) != '\n'
}

proof fn lemma_read_lines(lines: Seq<Seq<char>>)
    requires
        forall|i: int| 0 <= i < lines.len() ==> one_line(#[trigger] lines[i]),
    ensures
        text::split_text(http::head_text(lines), '\n') == read_lines(lines),
    decreases lines.len(),
{
    let e = Seq::<char>::empty();
    text::lemma_split_one(e, '\n');
    if lines.len() == 0 {
        let cr = seq!['\r'];
        text::lemma_split_one(cr, '\n');
        text::lemma_split_concat(cr, '\n', e);
        assert(http::head_text(lines) =~= cr + seq!['\n'] + e);
        assert(text::split_text(http::head_text(lines), '\n') =~= read_lines(lines));
    } else {
        let l = lines[0].push('\r');
        let rest = lines.drop_first();
        assert forall|i: int| 0 <= i < rest.len() implies one_line(#[trigger] rest[i]) by {
            assert(rest[i] == lines[i + 1]);
        }
        lemma_read_lines(rest);
        assert(one_line(lines[0]));
        assert forall|i: int| 0 <= i < l.len() implies (#[trigger] l[i]) != '\n' by {
            if i < lines[0].len() {
                assert(l[i] == lines[0][i]);
            }
        }
        text::lemma_split_one(l, '\n');
        text::lemma_split_concat(l, '\n', http::head_text(rest));
        assert(http::head_text(lines) =~= l + seq!['\n'] + http::head_text(rest));
        assert(text::split_text(http::head_text(lines), '\n') =~= read_lines(lines));
    }
}

/// Whether nothing would be trimmed from a text.
pub open spec fn visible_ends(s: Seq<char>) -> bool {
    s.len() > 0 && !text::white_space(s[0]) && !text::white_space(s.last())
}

proof fn lemma_trim_value(value: Seq<char>)
    requires
        visible_ends(value),
    ensures
        text::trim_text(seq![' '] + value + seq!['\r']) == value,
{
    let s = seq![' '] + value + seq!['\r'];
    assert(s.drop_first() =~= value + seq!['\r']);
    let t = value + seq!['\r'];
    assert(text::trim_start_text(t) == t);
    assert(text::trim_start_text(s) == t);
    assert(t.drop_last() =~= value);
    assert(text::trim_end_text(value) == value);
    assert(text::trim_end_text(t) == value);
}

/// A header line is found under its name, and passed over under any other.
proof fn lemma_field(
    fname: Seq<char>,
    value: Seq<char>,
    rest: Seq<Seq<char>>,
    name: Seq<char>,
)
    requires
        visible_ends(fname),
        visible_ends(value),
        forall|i: int| 0 <= i < fname.len() ==> (#[trigger] fname[i]) != ':',
    ensures
        http::header_in(seq![http::field(fname, value).push('\r')] + rest, name) == (
        if text::ascii_lower_text(fname) == text::ascii_lower_text(name) {
            Some(value)
        } else {
            http::header_in(rest, name)
        }),
{
    let l = http::field(fname, value).push('\r');
    let lines = seq![l] + rest;
    assert forall|j: int| 0 <= j < fname.len() implies l[j] != ':' by {
        assert(l[j] == fname[j]);
    }
    text::lemma_find_char_unique(l, ':', fname.len() as int);
    assert(l.subrange(0, fname.len() as int) =~= fname);
    assert(l.subrange((fname.len() + 1) as int, l.len() as int) =~= seq![' '] + value + seq!['\r']);
    lemma_trim_value(value);
    assert(text::trim_text(fname) == fname);
    assert(lines[0] == l);
    assert(lines.drop_first() =~= rest);
}

/// A line without a colon is no header.
proof fn lemma_no_colon(l: Seq<char>, rest: Seq<Seq<char>>, name: Seq<char>)
    requires
        forall|i: int| 0 <= i < l.len() ==> (#[trigger] l[i]) != ':',
    ensures
        http::header_in(seq![l] + rest, name) == http::header_in(rest, name),
{
    let lines = seq![l] + rest;
    text::lemma_find_char_unique(l, ':', l.len() as int);
    assert(lines[0] == l);
    assert(lines.drop_first() =~= rest);
}

/// The digits of a number.
proof fn lemma_decimal(n: nat)
    ensures
        text::decimal(n).len() > 0,
        forall|i: int|
            0 <= i < text::decimal(n).len() ==> text::ascii_digit(#[trigger] text::decimal(n)[i]),
    decreases n,
{
    if n >= 10 {
        lemma_decimal(n / 10);
    }
}

/// A text of visible ASCII on one line.
pub open spec fn plain(s: Seq<char>) -> bool {
    s.len() > 0 && forall|i: int| 0 <= i < s.len() ==> '!' <= #[trigger] s[i] <= '~'
}

proof fn lemma_plain(s: Seq<char>)
    requires
        plain(s),
    ensures
        visible_ends(s),
        one_line(s),
        forall|i: int| 0 <= i < s.len() ==> !text::white_space(#[trigger] s[i]),
{
    assert forall|i: int| 0 <= i < s.len() implies !text::white_space(#[trigger] s[i])
        && s[i] != '\n' by {
        assert('!' <= s[i] <= '~');
    }
}

proof fn lemma_plain_decimal(n: nat)
    ensures
        plain(text::decimal(n)),
{
    lemma_decimal(n);
    assert forall|i: int| 0 <= i < text::decimal(n).len() implies '!' <= #[trigger] text::decimal(
        n,
    )[i] <= '~' by {
        assert(text::ascii_digit(text::decimal(n)[i]));
    }
}

proof fn lemma_field_line(name: Seq<char>, value: Seq<char>)
    requires
        plain(name),
        plain(value),
    ensures
        one_line(http::field(name, value)),
{
    let l = http::field(name, value);
    assert forall|i: int| 0 <= i < l.len() implies (#[trigger] l[i]) != '\n' by {
        if i < name.len() {
            assert(l[i] == name[i]);
            assert('!' <= name[i] <= '~');
        } else if i >= name.len() + 2 {
            assert(l[i] == value[i - name.len() - 2]);
            assert('!' <= value[i - name.len() - 2] <= '~');
        }
    }
}

/// The names of headers, none like another.
proof fn lemma_names()
    ensures
        plain("Connection"@),
        plain("Content-Length"@),
        plain("Content-Type"@),
        plain("TotalBytes"@),
        plain("Transfer-Encoding"@),
        plain("keep-alive"@),
        plain("close"@),
        plain("chunked"@),
        plain("application/octet-stream"@),
        plain("application/x-cpio"@),
        forall|i: int| 0 <= i < "Connection"@.len() ==> "Connection"@[i] != ':',
        forall|i: int| 0 <= i < "Content-Length"@.len() ==> "Content-Length"@[i] != ':',
        forall|i: int| 0 <= i < "Content-Type"@.len() ==> "Content-Type"@[i] != ':',
        forall|i: int| 0 <= i < "TotalBytes"@.len() ==> "TotalBytes"@[i] != ':',
        forall|i: int| 0 <= i < "Transfer-Encoding"@.len() ==> "Transfer-Encoding"@[i] != ':',
{
    reveal_strlit("Connection");
    reveal_strlit("Content-Length");
    reveal_strlit("Content-Type");
    reveal_strlit("TotalBytes");
    reveal_strlit("Transfer-Encoding");
    reveal_strlit("keep-alive");
    reveal_strlit("close");
    reveal_strlit("chunked");
    reveal_strlit("application/octet-stream");
    reveal_strlit("application/x-cpio");
}

proof fn lemma_lower_names()
    ensures
        text::ascii_lower_text("Connection"@) == "connection"@,
        text::ascii_lower_text("Content-Length"@) == "content-length"@,
        text::ascii_lower_text("Content-Type"@) == "content-type"@,
        text::ascii_lower_text("TotalBytes"@) == "totalbytes"@,
        text::ascii_lower_text("Transfer-Encoding"@) == "transfer-encoding"@,
        text::ascii_lower_text("connection"@) == "connection"@,
        text::ascii_lower_text("content-length"@) == "content-length"@,
        text::ascii_lower_text("totalbytes"@) == "totalbytes"@,
        text::ascii_lower_text("transfer-encoding"@) == "transfer-encoding"@,
{
    reveal_strlit("Connection");
    reveal_strlit("Content-Length");
    reveal_strlit("Content-Type");
    reveal_strlit("TotalBytes");
    reveal_strlit("Transfer-Encoding");
    reveal_strlit("connection");
    reveal_strlit("content-length");
    reveal_strlit("content-type");
    reveal_strlit("totalbytes");
    reveal_strlit("transfer-encoding");
    assert(text::ascii_lower_text("Connection"@) =~= "connection"@);
    assert(text::ascii_lower_text("Content-Length"@) =~= "content-length"@);
    assert(text::ascii_lower_text("Content-Type"@) =~= "content-type"@);
    assert(text::ascii_lower_text("TotalBytes"@) =~= "totalbytes"@);
    assert(text::ascii_lower_text("Transfer-Encoding"@) =~= "transfer-encoding"@);
    assert(text::ascii_lower_text("connection"@) =~= "connection"@);
    assert(text::ascii_lower_text("content-length"@) =~= "content-length"@);
    assert(text::ascii_lower_text("totalbytes"@) =~= "totalbytes"@);
    assert(text::ascii_lower_text("transfer-encoding"@) =~= "transfer-encoding"@);
}

proof fn lemma_names_differ()
    ensures
        "connection"@ != "content-length"@,
        "connection"@ != "content-type"@,
        "connection"@ != "transfer-encoding"@,
        "connection"@ != "totalbytes"@,
        "content-type"@ != "content-length"@,
        "content-type"@ != "transfer-encoding"@,
        "content-type"@ != "totalbytes"@,
        "content-length"@ != "transfer-encoding"@,
        "totalbytes"@ != "transfer-encoding"@,
{
    reveal_strlit("connection");
    reveal_strlit("content-length");
    reveal_strlit("content-type");
    reveal_strlit("totalbytes");
    reveal_strlit("transfer-encoding");
    assert("connection"@[0] == 'c' && "connection"@.len() == 10);
    assert("totalbytes"@[0] == 't' && "totalbytes"@.len() == 10);
    assert("content-length"@.len() == 14);
    assert("content-type"@.len() == 12);
    assert("transfer-encoding"@.len() == 17);
}

/// The first words of a head are those of its first line.
proof fn lemma_first_line_words(lines: Seq<Seq<char>>, n: int)
    requires
        lines.len() > 0,
        0 <= n < text::words_text(lines[0]).len(),
    ensures
        http::word(http::head_text(lines), n) == text::words_text(lines[0])[n],
{
    let rest = seq!['\n'] + http::head_text(lines.drop_first());
    assert(http::head_text(lines) =~= lines[0] + seq!['\r'] + rest);
    lemma_words_concat(lines[0], '\r', rest);
}

/// A response head gives back the status, the length of the body behind it and whether the
/// connection is kept.
pub proof fn law_response_is_understood(status: u16, len: nat, keep_alive: bool)
    requires
        len <= usize::MAX,
    ensures
        ({
            let head = http::head_text(http::response_lines(status, len, keep_alive));
            &&& http::wants_keep_alive(head) == keep_alive
            &&& http::status_in(head) == status
            &&& http::reply_len(head) == (if len < http::MAX_REPLY {
                len
            } else {
                http::MAX_REPLY as nat
            })
        }),
{
    let lines = http::response_lines(status, len, keep_alive);
    let d = text::decimal(status as nat);
    lemma_plain_decimal(status as nat);
    lemma_plain(d);
    lemma_plain_decimal(len);
    lemma_plain(text::decimal(len));
    lemma_names();
    lemma_lower_names();
    lemma_names_differ();
    let conn = http::connection_value(keep_alive);
    assert(plain(conn));
    lemma_plain(conn);
    lemma_plain("Connection"@);
    lemma_plain("Content-Length"@);
    lemma_plain("application/octet-stream"@);
    lemma_field_line("Connection"@, conn);
    lemma_field_line("Content-Length"@, text::decimal(len));
    lemma_field_line("Content-Type"@, "application/octet-stream"@);
    lemma_status_line(status);
    assert(forall|i: int| 0 <= i < lines.len() ==> one_line(#[trigger] lines[i])) by {
        assert forall|i: int| 0 <= i < lines.len() implies one_line(#[trigger] lines[i]) by {
            assert(i == 0 || i == 1 || i == 2 || i == 3);
        }
    }
    lemma_read_lines(lines);
    let r = read_lines(lines);
    let name = "content-length"@;
    let r1 = r.subrange(1, r.len() as int);
    let r2 = r.subrange(2, r.len() as int);
    let r3 = r.subrange(3, r.len() as int);
    assert(r =~= seq![lines[0].push('\r')] + r1);
    assert(r1 =~= seq![lines[1].push('\r')] + r2);
    assert(r2 =~= seq![lines[2].push('\r')] + r3);
    let l0 = lines[0].push('\r');
    assert forall|i: int| 0 <= i < l0.len() implies (#[trigger] l0[i]) != ':' by {
        if i < lines[0].len() {
            assert(l0[i] == lines[0][i]);
        }
    }
    lemma_no_colon(l0, r1, name);
    lemma_field("Connection"@, conn, r2, name);
    lemma_field("Content-Length"@, text::decimal(len), r3, name);
    lemma_request_connection(l0, conn, r2, keep_alive);
    text::law_decimal_parses(len, usize::MAX as nat);
    lemma_first_line_words(lines, 1);
    text::law_decimal_parses(status as nat, 0xffff);
}

/// The first line of a response.
proof fn lemma_status_line(status: u16)
    ensures
        ({
            let l = "HTTP/1.1 "@ + text::decimal(status as nat) + seq![' '] + http::reason(status);
            &&& one_line(l)
            &&& forall|i: int| 0 <= i < l.len() ==> (#[trigger] l[i]) != ':'
            &&& text::words_text(l).len() >= 2
            &&& text::words_text(l)[1] == text::decimal(status as nat)
        }),
{
    let d = text::decimal(status as nat);
    let why = http::reason(status);
    let l = "HTTP/1.1 "@ + d + seq![' '] + why;
    lemma_decimal(status as nat);
    lemma_plain_decimal(status as nat);
    lemma_plain(d);
    reveal_strlit("HTTP/1.1 ");
    reveal_strlit("HTTP/1.1");
    reveal_strlit("OK");
    reveal_strlit("Payload Too Large");
    reveal_strlit("Unauthorized");
    let p = "HTTP/1.1"@;
    let tail = d + seq![' '] + why;
    assert(l =~= p + seq![' '] + tail);
    assert(plain(p));
    lemma_plain(p);
    lemma_one_word(p);
    lemma_one_word(d);
    lemma_words_concat(p, ' ', tail);
    lemma_words_concat(d, ' ', why);
    assert(text::words_text(l)[1] == d);
    assert forall|i: int| 0 <= i < l.len() implies (#[trigger] l[i]) != ':' && l[i] != '\n' by {
        if i < 9 {
            assert(l[i] == "HTTP/1.1 "@[i]);
        } else if i < 9 + d.len() {
            assert(l[i] == d[i - 9]);
            assert(text::ascii_digit(d[i - 9]));
        } else if i > 9 + d.len() {
            assert(l[i] == why[i - 10 - d.len()]);
        }
    }
}

proof fn lemma_request_line(path: Seq<char>)
    requires
        plain(path),
        forall|i: int| 0 <= i < path.len() ==> (#[trigger] path[i]) != ':',
    ensures
        ({
            let l = http::request_line(path);
            &&& one_line(l)
            &&& forall|i: int| 0 <= i < l.len() ==> (#[trigger] l[i]) != ':'
            &&& text::words_text(l).len() >= 2
            &&& text::words_text(l)[0] == "POST"@
            &&& text::words_text(l)[1] == path
        }),
{
    let l = http::request_line(path);
    reveal_strlit("POST ");
    reveal_strlit("POST");
    reveal_strlit(" HTTP/1.1");
    reveal_strlit("HTTP/1.1");
    let p = "POST"@;
    let tail = path + seq![' '] + "HTTP/1.1"@;
    assert(l =~= p + seq![' '] + tail);
    assert(plain(p));
    lemma_plain(p);
    lemma_plain(path);
    lemma_one_word(p);
    lemma_one_word(path);
    lemma_words_concat(p, ' ', tail);
    lemma_words_concat(path, ' ', "HTTP/1.1"@);
    assert forall|i: int| 0 <= i < l.len() implies (#[trigger] l[i]) != ':' && l[i] != '\n' by {
        if i < 5 {
            assert(l[i] == "POST "@[i]);
        } else if i < 5 + path.len() {
            assert(l[i] == path[i - 5]);
        } else {
            assert(l[i] == " HTTP/1.1"@[i - 5 - path.len()]);
        }
    }
}

/// A request is understood as what it is: its method and path, whether the connection is to be
/// kept, and how long its body is.
pub proof fn law_request_is_understood(path: Seq<char>, len: nat, keep_alive: bool)
    requires
        plain(path),
        forall|i: int| 0 <= i < path.len() ==> (#[trigger] path[i]) != ':',
        len <= http::MAX_BODY,
    ensures
        ({
            let head = http::head_text(http::request_lines(path, len, keep_alive));
            &&& http::word(head, 0) == "POST"@
            &&& http::word(head, 1) == path
            &&& http::wants_keep_alive(head) == keep_alive
            &&& http::body_plan(head) == http::BodyPlan::Exact(len as usize)
        }),
{
    let lines = http::request_lines(path, len, keep_alive);
    lemma_plain_decimal(len);
    lemma_plain(text::decimal(len));
    lemma_names();
    lemma_lower_names();
    lemma_names_differ();
    let conn = http::connection_value(keep_alive);
    assert(plain(conn));
    lemma_plain(conn);
    lemma_plain("Connection"@);
    lemma_plain("Content-Length"@);
    lemma_plain("Content-Type"@);
    lemma_plain("application/octet-stream"@);
    lemma_field_line("Connection"@, conn);
    lemma_field_line("Content-Length"@, text::decimal(len));
    lemma_field_line("Content-Type"@, "application/octet-stream"@);
    lemma_request_line(path);
    assert forall|i: int| 0 <= i < lines.len() implies one_line(#[trigger] lines[i]) by {
        assert(i == 0 || i == 1 || i == 2 || i == 3);
    }
    lemma_read_lines(lines);
    let r = read_lines(lines);
    let r1 = r.subrange(1, r.len() as int);
    let r2 = r.subrange(2, r.len() as int);
    let r3 = r.subrange(3, r.len() as int);
    let r4 = r.subrange(4, r.len() as int);
    assert(r =~= seq![lines[0].push('\r')] + r1);
    assert(r1 =~= seq![lines[1].push('\r')] + r2);
    assert(r2 =~= seq![lines[2].push('\r')] + r3);
    assert(r3 =~= seq![lines[3].push('\r')] + r4);
    assert(r4 =~= seq![seq!['\r']] + seq![Seq::<char>::empty()]);
    let l0 = lines[0].push('\r');
    assert forall|i: int| 0 <= i < l0.len() implies (#[trigger] l0[i]) != ':' by {
        if i < lines[0].len() {
            assert(l0[i] == lines[0][i]);
        }
    }
    lemma_request_connection(l0, conn, r2, keep_alive);
    lemma_request_length(l0, conn, len, r4);
    lemma_request_unchunked(l0, conn, len, r4);
    text::law_decimal_parses(len, usize::MAX as nat);
    lemma_first_line_words(lines, 0);
    lemma_first_line_words(lines, 1);
}

proof fn lemma_request_connection(
    l0: Seq<char>,
    conn: Seq<char>,
    rest: Seq<Seq<char>>,
    keep_alive: bool,
)
    requires
        forall|i: int| 0 <= i < l0.len() ==> (#[trigger] l0[i]) != ':',
        conn == http::connection_value(keep_alive),
    ensures
        http::header_in(
            seq![l0] + (seq![http::field("Connection"@, conn).push('\r')] + rest),
            "connection"@,
        ) == Some(conn),
        (text::ascii_lower_text(conn) == text::ascii_lower_text("keep-alive"@)) == keep_alive,
{
    lemma_names();
    lemma_lower_names();
    lemma_plain("Connection"@);
    lemma_plain(conn);
    lemma_no_colon(
        l0,
        seq![http::field("Connection"@, conn).push('\r')] + rest,
        "connection"@,
    );
    lemma_field("Connection"@, conn, rest, "connection"@);
    reveal_strlit("keep-alive");
    reveal_strlit("close");
    if !keep_alive {
        assert(text::ascii_lower_text(conn).len() == 5);
        assert(text::ascii_lower_text("keep-alive"@).len() == 10);
    }
}

proof fn lemma_request_length(l0: Seq<char>, conn: Seq<char>, len: nat, rest: Seq<Seq<char>>)
    requires
        forall|i: int| 0 <= i < l0.len() ==> (#[trigger] l0[i]) != ':',
        plain(conn),
    ensures
        http::header_in(
            seq![l0] + (seq![http::field("Connection"@, conn).push('\r')] + (seq![
                http::field("Content-Type"@, "application/octet-stream"@).push('\r'),
            ] + (seq![http::field("Content-Length"@, text::decimal(len)).push('\r')] + rest))),
            "content-length"@,
        ) == Some(text::decimal(len)),
{
    let name = "content-length"@;
    let c = seq![http::field("Content-Length"@, text::decimal(len)).push('\r')] + rest;
    let b = seq![http::field("Content-Type"@, "application/octet-stream"@).push('\r')] + c;
    let a = seq![http::field("Connection"@, conn).push('\r')] + b;
    lemma_names();
    lemma_lower_names();
    lemma_names_differ();
    lemma_plain_decimal(len);
    lemma_plain(text::decimal(len));
    lemma_plain(conn);
    lemma_plain("Connection"@);
    lemma_plain("Content-Length"@);
    lemma_plain("Content-Type"@);
    lemma_plain("application/octet-stream"@);
    lemma_no_colon(l0, a, name);
    lemma_field("Connection"@, conn, b, name);
    lemma_field("Content-Type"@, "application/octet-stream"@, c, name);
    lemma_field("Content-Length"@, text::decimal(len), rest, name);
}

proof fn lemma_request_unchunked(l0: Seq<char>, conn: Seq<char>, len: nat, rest: Seq<Seq<char>>)
    requires
        forall|i: int| 0 <= i < l0.len() ==> (#[trigger] l0[i]) != ':',
        plain(conn),
        rest == seq![seq!['\r']] + seq![Seq::<char>::empty()],
    ensures
        http::header_in(
            seq![l0] + (seq![http::field("Connection"@, conn).push('\r')] + (seq![
                http::field("Content-Type"@, "application/octet-stream"@).push('\r'),
            ] + (seq![http::field("Content-Length"@, text::decimal(len)).push('\r')] + rest))),
            "transfer-encoding"@,
        ) is None,
{
    let name = "transfer-encoding"@;
    let c = seq![http::field("Content-Length"@, text::decimal(len)).push('\r')] + rest;
    let b = seq![http::field("Content-Type"@, "application/octet-stream"@).push('\r')] + c;
    let a = seq![http::field("Connection"@, conn).push('\r')] + b;
    lemma_names();
    lemma_lower_names();
    lemma_names_differ();
    lemma_plain_decimal(len);
    lemma_plain(text::decimal(len));
    lemma_plain(conn);
    lemma_plain("Connection"@);
    lemma_plain("Content-Length"@);
    lemma_plain("Content-Type"@);
    lemma_plain("application/octet-stream"@);
    lemma_no_colon(l0, a, name);
    lemma_field("Connection"@, conn, b, name);
    lemma_field("Content-Type"@, "application/octet-stream"@, c, name);
    lemma_field("Content-Length"@, text::decimal(len), rest, name);
    let e = Seq::<char>::empty();
    let none = Seq::<Seq<char>>::empty();
    lemma_no_colon(seq!['\r'], seq![e], name);
    assert(seq![e] =~= seq![e] + none);
    lemma_no_colon(e, none, name);
}

/// An upload is understood as one: its path, that it is chunked, and how much there is.
pub proof fn law_upload_is_understood(total: nat)
    requires
        total <= u64::MAX,
    ensures
        ({
            let head = http::head_text(http::upload_lines(total));
            &&& http::word(head, 0) == "POST"@
            &&& http::word(head, 1) == "/Upload"@
            &&& http::is_chunked(head)
            &&& http::number_header(head, "totalbytes"@, u64::MAX as nat) == Some(total)
        }),
{
    let lines = http::upload_lines(total);
    let path = "/Upload"@;
    reveal_strlit("/Upload");
    assert(plain(path));
    lemma_plain_decimal(total);
    lemma_plain(text::decimal(total));
    lemma_names();
    lemma_lower_names();
    lemma_names_differ();
    lemma_plain("Connection"@);
    lemma_plain("Content-Type"@);
    lemma_plain("TotalBytes"@);
    lemma_plain("Transfer-Encoding"@);
    lemma_plain("close"@);
    lemma_plain("application/x-cpio"@);
    lemma_plain("chunked"@);
    lemma_field_line("Connection"@, "close"@);
    lemma_field_line("Content-Type"@, "application/x-cpio"@);
    lemma_field_line("TotalBytes"@, text::decimal(total));
    lemma_field_line("Transfer-Encoding"@, "chunked"@);
    lemma_request_line(path);
    assert forall|i: int| 0 <= i < lines.len() implies one_line(#[trigger] lines[i]) by {
        assert(i == 0 || i == 1 || i == 2 || i == 3 || i == 4);
    }
    lemma_read_lines(lines);
    let r = read_lines(lines);
    let r1 = r.subrange(1, r.len() as int);
    let r2 = r.subrange(2, r.len() as int);
    let r3 = r.subrange(3, r.len() as int);
    let r4 = r.subrange(4, r.len() as int);
    let r5 = r.subrange(5, r.len() as int);
    assert(r =~= seq![lines[0].push('\r')] + r1);
    assert(r1 =~= seq![lines[1].push('\r')] + r2);
    assert(r2 =~= seq![lines[2].push('\r')] + r3);
    assert(r3 =~= seq![lines[3].push('\r')] + r4);
    assert(r4 =~= seq![lines[4].push('\r')] + r5);
    let l0 = lines[0].push('\r');
    assert forall|i: int| 0 <= i < l0.len() implies (#[trigger] l0[i]) != ':' by {
        if i < lines[0].len() {
            assert(l0[i] == lines[0][i]);
        }
    }
    let name = "totalbytes"@;
    lemma_no_colon(l0, r1, name);
    lemma_field("Connection"@, "close"@, r2, name);
    lemma_field("Content-Type"@, "application/x-cpio"@, r3, name);
    lemma_field("TotalBytes"@, text::decimal(total), r4, name);
    text::law_decimal_parses(total, u64::MAX as nat);
    let te = "transfer-encoding"@;
    lemma_no_colon(l0, r1, te);
    lemma_field("Connection"@, "close"@, r2, te);
    lemma_field("Content-Type"@, "application/x-cpio"@, r3, te);
    lemma_field("TotalBytes"@, text::decimal(total), r4, te);
    lemma_field("Transfer-Encoding"@, "chunked"@, r5, te);
    reveal_strlit("chunked");
    let c = text::ascii_lower_text("chunked"@);
    assert(c =~= "chunked"@);
    assert(c.subrange(0, 0 + "chunked"@.len() as int) =~= "chunked"@);
    lemma_first_line_words(lines, 0);
    lemma_first_line_words(lines, 1);
}

/// A field is found by its name, in letters of whatever size, and the first of a name counts; a
/// field of another name and a line that is none are passed over.
pub proof fn law_field_is_found_by_its_name(
    fname: Seq<char>,
    value: Seq<char>,
    other: Seq<char>,
    rest: Seq<Seq<char>>,
    name: Seq<char>,
)
    requires
        plain(fname),
        plain(value),
        forall|i: int| 0 <= i < fname.len() ==> (#[trigger] fname[i]) != ':',
        forall|i: int| 0 <= i < other.len() ==> (#[trigger] other[i]) != ':',
    ensures
        ({
            let line = seq![http::field(fname, value).push('\r')];
            let same = text::ascii_lower_text(fname) == text::ascii_lower_text(name);
            &&& same ==> http::header_in(line + rest, name) == Some(value)
            &&& !same ==> http::header_in(line + rest, name) == http::header_in(rest, name)
            &&& http::header_in(seq![other] + rest, name) == http::header_in(rest, name)
            &&& http::header_in(seq![], name) is None
        }),
{
    lemma_plain(fname);
    lemma_plain(value);
    lemma_field(fname, value, rest, name);
    lemma_no_colon(other, rest, name);
}

/// How a body is read: in chunks wherever the peer sends chunks, whatever length it also claims;
/// else by the length, unless that is too large; and a body that nothing is said of is empty.
pub proof fn law_body_is_read_as_sent(head: Seq<char>)
    ensures
        ({
            let len = http::number_header(head, "content-length"@, usize::MAX as nat);
            let plan = http::body_plan(head);
            &&& plan is Chunked <==> http::is_chunked(head)
            &&& plan is TooLarge <==> !http::is_chunked(head) && len is Some && len->0
                > http::MAX_BODY
            &&& plan matches http::BodyPlan::Exact(n) ==> n <= http::MAX_BODY && (len is Some
                ==> n == len->0) && (len is None ==> n == 0)
        }),
        http::reply_len(head) <= http::MAX_REPLY,
{
}

} // verus!
