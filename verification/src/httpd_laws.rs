//! What a sender can rely on of a receiver.

use vstd::prelude::*;
use vstd::utf8::*;
use crate::http;
use crate::http_laws;
use crate::httpd;
use crate::httpd::{Content, Plan, Request, Route, UploadPlan};
use crate::plist;
use crate::plist::Doc;
use crate::plist_laws;
use crate::send;
use crate::text;

verus! {

/// A request is answered for what it is. A person is asked exactly about an offer to a visible
/// device; an upload is taken exactly under the offer that was accepted; a probe and a question
/// who we are get their answer exactly while we are visible, and only the latter says who. A
/// body that was too large is told so, and only then; everything else is refused.
pub proof fn law_requests_are_answered(
    req: Request,
    desynced: bool,
    visible: bool,
    accepted: i64,
)
    ensures
        ({
            let plan = httpd::plan_for(req, desynced, visible, accepted);
            &&& plan is Ask <==> !desynced && visible && req.route == Route::Ask
            &&& plan is Receive <==> !desynced && req.route == Route::Upload && accepted != 0
            &&& plan is Receive ==> plan->id == accepted
            &&& plan matches Plan::Answer(reply) ==> {
                &&& reply.status == 200 <==> !desynced && visible && (req.route == Route::Probe
                    || req.route == Route::Discover)
                &&& reply.content == Content::Discover <==> reply.status == 200 && req.route
                    == Route::Discover
                &&& reply.content != Content::Accept
                &&& reply.status == 413 <==> desynced
                &&& reply.status == 200 || reply.status == 401 || reply.status == 413
            }
        }),
{
}

/// A connection is kept only if the peer asks for it, and never with unread bytes in it or
/// after a refusal that concerns us. A good answer keeps it exactly as the peer asks.
pub proof fn law_connection_is_kept_as_asked(
    req: Request,
    desynced: bool,
    visible: bool,
    accepted: i64,
)
    ensures
        httpd::plan_for(req, desynced, visible, accepted) matches Plan::Answer(reply) ==> {
            &&& reply.keep_alive ==> req.keep_alive && !desynced
            &&& reply.status == 200 ==> reply.keep_alive == req.keep_alive
            &&& reply.keep_alive && reply.status != 200 ==> req.route == Route::Unknown
            &&& req.route == Route::Unknown && !desynced ==> reply.keep_alive == req.keep_alive
        },
{
}

/// The peer hears what the person said: an offer is accepted exactly by a yes, and with anything
/// else, silence too, it is refused, the connection closed and the transfer over.
pub proof fn law_peer_hears_the_answer(answer: Option<bool>, keep_alive: bool)
    ensures
        ({
            let (reply, over) = httpd::asked(answer, keep_alive);
            &&& reply.status == 200 <==> answer == Some(true)
            &&& reply.content == Content::Accept <==> answer == Some(true)
            &&& answer != Some(true) ==> reply.content == Content::Nothing && reply.status == 401
            &&& reply.keep_alive <==> keep_alive && answer == Some(true)
            &&& over <==> answer != Some(true)
        }),
{
}

/// An upload is confirmed to the peer exactly when it was stored, and then the client is not told
/// that nothing came.
pub proof fn law_stored_is_confirmed(stored: bool, keep_alive: bool)
    ensures
        ({
            let (reply, without_files) = httpd::uploaded(stored, keep_alive);
            &&& reply.status == 200 <==> stored
            &&& !stored ==> reply.status == 500
            &&& without_files <==> !stored
            &&& reply.keep_alive <==> keep_alive && stored
            &&& reply.content == Content::Nothing
        }),
{
}

/// Nothing that was sent is lost: the archive goes only when the person cancelled or its files
/// are out of it. What is announced is what came out, and what was cancelled is not confirmed.
pub proof fn law_no_upload_is_lost(cancelled: bool, unpacked: Option<usize>)
    ensures
        ({
            let end = httpd::streamed(cancelled, unpacked);
            &&& end.remove <==> cancelled || unpacked is Some
            &&& end.stored <==> !cancelled
            &&& end.announce is Some <==> !cancelled && unpacked is Some
            &&& end.announce is Some ==> end.announce == unpacked
        }),
{
}

/// A body is read to its end and not beyond: something is wanted as long as something is missing,
/// never more than is missing or than fits.
pub proof fn law_body_is_read_to_its_end(done: u64, len: u64)
    ensures
        ({
            let n = httpd::wanted(done, len);
            &&& n == 0 <==> done >= len
            &&& n <= httpd::READ_SIZE
            &&& done < len ==> done + n <= len
            &&& 0 < n < httpd::READ_SIZE ==> done + n == len
        }),
{
}

proof fn lemma_paths()
    ensures
        "/Discover"@.len() == 9,
        "/Ask"@.len() == 4,
        "/Upload"@.len() == 7,
        "/"@.len() == 1,
        "POST"@.len() == 4,
        "HEAD"@.len() == 4,
        "POST"@ != "HEAD"@,
        http_laws::plain("/Discover"@) && http_laws::plain("/Ask"@) && http_laws::plain(
            "/Upload"@,
        ),
        forall|i: int| 0 <= i < 9 ==> (#[trigger] "/Discover"@[i]) != ':',
        forall|i: int| 0 <= i < 4 ==> (#[trigger] "/Ask"@[i]) != ':',
{
    reveal_strlit("/Discover");
    reveal_strlit("/Ask");
    reveal_strlit("/Upload");
    reveal_strlit("/");
    reveal_strlit("POST");
    reveal_strlit("HEAD");
    assert("POST"@[0] == 'P' && "HEAD"@[0] == 'H');
}

/// What one device asks another is taken for what it is: the heads that a sender writes are read
/// as the request they are, with the length of their body and the wish to stay; the upload as one
/// that comes in chunks and is not buffered, with its size.
pub proof fn law_sender_and_receiver_agree(len: nat, keep_alive: bool, total: nat)
    requires
        len <= http::MAX_BODY,
        total <= u64::MAX,
    ensures
        httpd::request_in(http::head_text(http::request_lines("/Discover"@, len, keep_alive))) == (
        Request {
            route: Route::Discover,
            keep_alive,
            body: Some(http::BodyPlan::Exact(len as usize)),
        }),
        httpd::request_in(http::head_text(http::request_lines("/Ask"@, len, keep_alive))) == (
        Request {
            route: Route::Ask,
            keep_alive,
            body: Some(http::BodyPlan::Exact(len as usize)),
        }),
        httpd::request_in(http::head_text(http::upload_lines(total))).route == Route::Upload,
        httpd::request_in(http::head_text(http::upload_lines(total))).body is None,
        httpd::upload_plan(http::head_text(http::upload_lines(total))) == UploadPlan::Chunked,
        httpd::upload_total(http::head_text(http::upload_lines(total))) == total,
{
    lemma_paths();
    http_laws::law_request_is_understood("/Discover"@, len, keep_alive);
    http_laws::law_request_is_understood("/Ask"@, len, keep_alive);
    http_laws::law_upload_is_understood(total);
}

/// A request is known by its method and its path together, and by nothing else; each kind has one
/// of its own.
pub proof fn law_routes_are_exact(method: Seq<char>, path: Seq<char>)
    ensures
        ({
            let route = httpd::route_of(method, path);
            &&& route == Route::Probe <==> method == "HEAD"@ && path == "/"@
            &&& route == Route::Discover <==> method == "POST"@ && path == "/Discover"@
            &&& route == Route::Ask <==> method == "POST"@ && path == "/Ask"@
            &&& route == Route::Upload <==> method == "POST"@ && path == "/Upload"@
        }),
{
    lemma_paths();
}

/// Who accepts an offer says who they are: read back, the answer holds the name and the model.
pub proof fn law_acceptance_says_who(name: Seq<char>, model: Seq<char>)
    requires
        plist_laws::text_units(name) <= 0xffff_ffff,
        plist_laws::text_units(model) <= 0xffff_ffff,
    ensures
        ({
            let read = plist::parsed(plist::encoded(httpd::accept_doc(name, model)));
            &&& read is Some
            &&& plist::lookup(read->0, "ReceiverComputerName"@) == Some(Doc::Str(name))
            &&& plist::lookup(read->0, "ReceiverModelName"@) == Some(Doc::Str(model))
        }),
{
    let d = httpd::accept_doc(name, model);
    let keys = d->Dict_0;
    let values = d->Dict_1;
    reveal_strlit("ReceiverComputerName");
    reveal_strlit("ReceiverModelName");
    assert(forall|i: int|
        0 <= i < keys.len() ==> plist_laws::text_units(#[trigger] keys[i]) <= 0xffff_ffff) by {
        assert(is_ascii_chars("ReceiverComputerName"@));
        assert(is_ascii_chars("ReceiverModelName"@));
    }
    let a = values.drop_last();
    assert(values.last() == values[1] && a.last() == values[0]);
    assert(a.drop_last().len() == 0);
    assert(plist::size(d) <= plist::MAX_ELEMENTS) by {
        reveal_with_fuel(plist::size_all, 5);
        reveal_with_fuel(plist::size, 5);
    }
    assert(plist_laws::height(d) <= plist::MAX_DEPTH) by {
        reveal_with_fuel(plist_laws::height_all, 5);
        reveal_with_fuel(plist_laws::height, 5);
    }
    assert(plist::writable(d)) by {
        assert forall|i: int| 0 <= i < values.len() implies plist::writable(
            #[trigger] values[i],
        ) by {
            assert(i == 0 || i == 1);
        }
    }
    assert(plist_laws::lengths_fit(d)) by {
        assert forall|i: int| 0 <= i < values.len() implies plist_laws::lengths_fit(
            #[trigger] values[i],
        ) by {
            assert(i == 0 || i == 1);
        }
    }
    plist_laws::law_plist_round_trip(d);
    assert("ReceiverComputerName"@.len() == 20 && "ReceiverModelName"@.len() == 17);
    plist::lemma_first_key(keys, "ReceiverModelName"@, 0);
    plist::lemma_first_key(keys, "ReceiverComputerName"@, 1);
}

/// Whether a text is a file name that nothing would be taken off.
pub open spec fn clean(name: Seq<char>) -> bool {
    httpd::is_leaf(name) && !text::white_space(name[0]) && !text::white_space(name.last())
}

/// A file comes out of the archive under the name it was given, wherever in it the file lies: a
/// name behind any path, with slashes of either kind, gives the name.
pub proof fn law_leaf_is_the_last_part(path: Seq<char>, slash: char, name: Seq<char>)
    requires
        slash == '/' || slash == '\\',
        clean(name),
    ensures
        httpd::safe_leaf_in(path + seq![slash] + name) == Some(name),
        httpd::safe_leaf_in(name) == Some(name),
{
    let whole = path + seq![slash] + name;
    let other = if slash == '/' {
        '\\'
    } else {
        '/'
    };
    let n = path.len() as int;
    assert forall|j: int| n < j < whole.len() implies whole[j] != '/' && whole[j] != '\\' by {
        assert(whole[j] == name[j - n - 1]);
    }
    text::lemma_rfind_char_unique(whole, slash, n);
    text::lemma_rfind_char(whole, other);
    let k = text::rfind_char(whole, other);
    assert(k < n) by {
        if k > n {
            assert(whole[k] != other);
        }
        assert(whole[n] == slash);
    }
    assert(whole.subrange(n + 1, whole.len() as int) =~= name);
    text::lemma_rfind_char_unique(name, '/', -1);
    text::lemma_rfind_char_unique(name, '\\', -1);
    assert(name.subrange(0, name.len() as int) =~= name);
}

/// What is sent is what is received: the entry that a sender writes into the archive for a file
/// comes out of it under the file's own name. Only a file that is empty, or a sidecar of another,
/// does not.
pub proof fn law_sent_file_is_received(name: Seq<char>, size: u64)
    requires
        clean(name),
    ensures
        ({
            let (path, len, mode) = send::entry_of(name, size);
            httpd::member_leaf(path, len, mode) == (if size == 0 || (name.len() >= 2 && name[0]
                == '.' && name[1] == '_') {
                None
            } else {
                Some(name)
            })
        }),
{
    let (path, len, mode) = send::entry_of(name, size);
    reveal_strlit("./");
    reveal_strlit("._");
    assert(path =~= seq!['.'] + seq!['/'] + name);
    law_leaf_is_the_last_part(seq!['.'], '/', name);
    if name.len() >= 2 {
        assert(name.subrange(0, 2) =~= seq![name[0], name[1]]);
        assert("._"@ =~= seq!['.', '_']);
        if name.subrange(0, 2) == "._"@ {
            assert("._"@[0] == '.' && "._"@[1] == '_');
        }
    }
}

/// No member of an archive becomes a file unless it is one, with a name and something in it.
pub proof fn law_only_files_come_out(name: Seq<char>, size: u64, mode: u32)
    requires
        httpd::member_leaf(name, size, mode) is Some,
    ensures
        size > 0,
        mode & 0o170000 != 0o040000,
        httpd::is_leaf(httpd::member_leaf(name, size, mode)->0),
{
    assert(mode & 0o170000 == 0o040000 ==> mode / 4096 % 16 == 4) by (bit_vector);
}

/// The path of a received file can be had by its name, and only an archive's cannot.
pub proof fn law_received_file_can_be_had(name: Seq<char>)
    requires
        clean(name),
    ensures
        httpd::inbox_path_of(name) == (if name.len() >= 5 && name.skip(name.len() - 5)
            == seq!['.', 'c', 'p', 'i', 'o'] {
            None
        } else {
            Some(httpd::INBOX@ + seq!['/'] + name)
        }),
{
    law_leaf_is_the_last_part(seq![], '/', name);
    reveal_strlit(".cpio");
    assert(".cpio"@ =~= seq!['.', 'c', 'p', 'i', 'o']);
    if name.len() >= 5 {
        assert(name.subrange(name.len() - 5, name.len() as int) =~= name.skip(name.len() - 5));
    }
}

/// A file that gets a number keeps its beginning and its extension, and the first gets none.
pub proof fn law_number_stands_before_the_extension(
    stem: Seq<char>,
    ext: Seq<char>,
    n: nat,
)
    requires
        stem.len() > 0,
        !ext.contains('.'),
        n > 0,
    ensures
        httpd::numbered_leaf(stem + seq!['.'] + ext, n) == stem + seq![' ', '('] + text::decimal(n)
            + seq![')', '.'] + ext,
        httpd::numbered_leaf(stem + seq!['.'] + ext, 0) == stem + seq!['.'] + ext,
        !stem.contains('.') ==> httpd::numbered_leaf(stem, n) == stem + seq![' ', '(']
            + text::decimal(n) + seq![')'],
{
    let leaf = stem + seq!['.'] + ext;
    let k = stem.len() as int;
    assert forall|j: int| k < j < leaf.len() implies leaf[j] != '.' by {
        assert(leaf[j] == ext[j - k - 1]);
        assert(ext.contains(ext[j - k - 1]));
    }
    text::lemma_rfind_char_unique(leaf, '.', k);
    reveal_strlit(" (");
    reveal_strlit(")");
    assert(" ("@ =~= seq![' ', '(']);
    assert(")"@ =~= seq![')']);
    assert(leaf.subrange(0, k) =~= stem);
    assert(leaf.subrange(k, leaf.len() as int) =~= seq!['.'] + ext);
    assert(httpd::numbered_leaf(leaf, n) =~= stem + seq![' ', '('] + text::decimal(n) + seq![
        ')',
        '.',
    ] + ext);
    if !stem.contains('.') {
        assert forall|j: int| -1 < j < stem.len() implies stem[j] != '.' by {
            assert(stem.contains(stem[j]));
        }
        text::lemma_rfind_char_unique(stem, '.', -1);
        assert(httpd::numbered_leaf(stem, n) =~= stem + seq![' ', '('] + text::decimal(n) + seq![
            ')',
        ]);
    }
}

/// An offered file is shown by the last part of its name; its path stands in where it has no
/// name, and what has neither is not shown.
pub proof fn law_offered_file_is_shown(it: Doc, path: Seq<char>, name: Seq<char>)
    requires
        !name.contains('/'),
        ({
            let named = plist::lookup(it, "FileName"@);
            let placed = plist::lookup(it, "FileBomPath"@);
            let whole = Some(Doc::Str(path + seq!['/'] + name));
            let bare = Some(Doc::Str(name));
            ||| named == whole || named == bare
            ||| !(named matches Some(Doc::Str(_))) && (placed == whole || placed == bare)
        }),
    ensures
        httpd::offered_name(it) == name,
{
    let whole = path + seq!['/'] + name;
    let n = path.len() as int;
    assert forall|j: int| n < j < whole.len() implies whole[j] != '/' by {
        assert(whole[j] == name[j - n - 1]);
        assert(name.contains(name[j - n - 1]));
    }
    text::lemma_rfind_char_unique(whole, '/', n);
    assert(whole.subrange(n + 1, whole.len() as int) =~= name);
    assert forall|j: int| -1 < j < name.len() implies name[j] != '/' by {
        assert(name.contains(name[j]));
    }
    text::lemma_rfind_char_unique(name, '/', -1);
    assert(name.subrange(0, name.len() as int) =~= name);
}

/// Progress is reported as it goes: not before so much has come since the last report, then with
/// what has come; and never where nobody knows how much there will be. At the end the total is
/// what was promised, or else what came.
pub proof fn law_upload_progress_is_reported(u: httpd::Upload, done: u64, more: u64)
    ensures
        ({
            let (says, after) = u.progressed(done);
            &&& says <==> u.total > 0 && done >= u.last_report + 0x40000
            &&& after.total == u.total && after.plan == u.plan
            &&& says ==> after.last_report == done
            &&& !says ==> after.last_report == u.last_report
            &&& says && more < done + 0x40000 ==> !after.progressed(more).0
        }),
        u.total > 0 ==> u.shown_total(done) == u.total,
        u.total == 0 ==> u.shown_total(done) == done,
{
}

/// A name is looked for until one is free: each that is taken leads to the next, up to a bound,
/// and one that is free ends the search. A failure that is not a name being taken is not tried
/// again.
pub proof fn law_free_name_is_looked_for(taken: bool, n: u32, outcome: httpd::Created, tries: u32)
    ensures
        httpd::looks_on(taken, n) <==> taken && n < 9999,
        httpd::tries_on(outcome, tries) <==> outcome == httpd::Created::Exists && tries <= 7,
{
}

/// A server stays where it is bound exactly while both the address and the interface are the
/// same.
pub proof fn law_server_notices_a_change(
    addr: Seq<u8>,
    scope: u32,
    other: Seq<u8>,
    elsewhere: u32,
)
    ensures
        httpd::still_bound(addr, scope, Some(addr), Some(scope)),
        other != addr ==> !httpd::still_bound(addr, scope, Some(other), Some(scope)),
        elsewhere != scope ==> !httpd::still_bound(addr, scope, Some(addr), Some(elsewhere)),
        !httpd::still_bound(addr, scope, None, Some(scope)),
        !httpd::still_bound(addr, scope, Some(addr), None),
{
}

/// A random name is as random as the bytes: different bytes give different names, of two digits
/// for each byte.
pub proof fn law_random_names_differ(a: Seq<u8>, b: Seq<u8>)
    requires
        a.len() == b.len(),
        httpd::random_name(Some(a)) == httpd::random_name(Some(b)),
    ensures
        a == b,
        httpd::random_name(Some(a)).len() == 2 * a.len(),
        httpd::random_name(None).len() == 16,
{
    reveal_strlit("getrandom-failed");
    assert forall|i: int| 0 <= i < a.len() implies a[i] == b[i] by {
        text::law_hex_says_the_bytes(a, i);
        text::law_hex_says_the_bytes(b, i);
    }
    assert(a =~= b);
    if a.len() > 0 {
        text::law_hex_says_the_bytes(a, 0);
    }
}

} // verus!
