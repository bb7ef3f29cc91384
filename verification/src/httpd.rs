//! The AirDrop server: what it answers, and where it puts what it is sent.
//!
//! A sender opens TLS to the port our SRV record names and sends `POST /Discover`; the device
//! appears in the AirDrop UI only if that returns a valid plist. Then `/Ask` offers files, and
//! `/Upload` brings them.

use vstd::prelude::*;
use crate::address;
use crate::address::Address;
use crate::http;
use crate::http::BodyPlan;
use crate::mdns;
use crate::order;
use crate::plist;
use crate::plist::{Doc, Val, Value};
use crate::text;

verus! {

/// Where received archives land. Private to this daemon, which cannot reach shared storage.
pub const INBOX: &'static str = "/data/misc/barq/inbox";

/// Report progress at most once per this many bytes.
pub const PROGRESS_STEP: u64 = 262144;

/// How long an offer waits on screen before it is refused.
pub const ASK_TIMEOUT: u64 = 45000;

/// Check the interface every this many accept polls -- about two seconds.
pub const IFACE_CHECK_EVERY: u32 = 8;

/// The last number a name is tried with.
pub const MAX_NUMBER: u32 = 9999;

// ------------------------------------------------------------------- offers ---

pub open spec fn text_of_doc(d: Option<Doc>) -> Option<Seq<char>> {
    match d {
        Some(Doc::Str(s)) => Some(s),
        _ => None,
    }
}

/// What is behind the last slash.
pub open spec fn last_component(s: Seq<char>) -> Seq<char> {
    s.subrange(text::rfind_char(s, '/') + 1, s.len() as int)
}

/// The name of an offered file. `FileBomPath` is the archive path and is the only thing
/// present on some senders.
pub open spec fn offered_name(it: Doc) -> Seq<char> {
    last_component(
        match text_of_doc(plist::lookup(it, "FileName"@)) {
            Some(n) => n,
            None => match text_of_doc(plist::lookup(it, "FileBomPath"@)) {
                Some(n) => n,
                None => seq![],
            },
        },
    )
}

pub open spec fn offered_names(items: Seq<Doc>) -> Seq<Seq<char>>
    decreases items.len(),
{
    if items.len() == 0 {
        seq![]
    } else {
        let before = offered_names(items.drop_last());
        let n = offered_name(items.last());
        if n.len() > 0 {
            before.push(n)
        } else {
            before
        }
    }
}

/// Who is offering, and what.
pub open spec fn offer_in(body: Seq<u8>) -> (Seq<char>, Seq<Seq<char>>) {
    match plist::parsed(body) {
        None => (seq![], seq![]),
        Some(d) => (
            match text_of_doc(plist::lookup(d, "SenderComputerName"@)) {
                Some(s) => s,
                None => seq![],
            },
            match plist::lookup(d, "Files"@) {
                Some(Doc::Array(items)) => offered_names(items),
                _ => seq![],
            },
        ),
    }
}

fn str_at(v: &Val, key: &str) -> (r: Option<String>)
    ensures
        match r {
            Some(s) => text_of_doc(plist::lookup(v.doc(), key@)) == Some(s@),
            None => text_of_doc(plist::lookup(v.doc(), key@)) is None,
        },
{
    match v.get(key) {
        Some(x) => match x.as_str() {
            Some(s) => Some(s.to_owned()),
            None => None,
        },
        None => None,
    }
}

fn file_name(it: &Val) -> (r: String)
    ensures
        r@ == offered_name(it.doc()),
{
    let n: String = match str_at(it, "FileName") {
        Some(s) => s,
        None => match str_at(it, "FileBomPath") {
            Some(s) => s,
            None => String::new(),
        },
    };
    let v = text::chars_of(n.as_str());
    let at: usize = text::after_last(&v, '/');
    let r = text::text_of(&v, at, v.len());
    assert(r@ =~= offered_name(it.doc()));
    r
}

/// Who is offering, and what.
///
/// Best-effort by design: a peer controls this body, so every field is optional and a body
/// that will not parse yields empty strings rather than a refusal. The prompt is still shown.
pub fn describe_offer(body: &[u8]) -> (r: (String, Vec<String>))
    ensures
        r.0@ == offer_in(body@).0,
        text::texts(r.1@) == offer_in(body@).1,
{
    let mut names: Vec<String> = Vec::new();
    assert(text::texts(names@) =~= seq![]);
    let v: Val = match plist::parse(body) {
        Some(v) => v,
        None => {
            let none = String::new();
            assert(none@ =~= offer_in(body@).0);
            return (none, names);
        },
    };
    let from: String = match str_at(&v, "SenderComputerName") {
        Some(s) => s,
        None => String::new(),
    };
    assert(from@ =~= offer_in(body@).0);
    match v.get("Files") {
        Some(f) => match f {
            Val::Array(items) => {
                let ghost docs = f.doc()->Array_0;
                let mut i: usize = 0;
                assert(docs.subrange(0, 0) =~= seq![]);
                while i < items.len()
                    invariant
                        i <= items@.len(),
                        *f == Val::Array(*items),
                        docs == f.doc()->Array_0,
                        docs.len() == items@.len(),
                        text::texts(names@) == offered_names(docs.subrange(0, i as int)),
                    decreases items@.len() - i,
                {
                    let ghost part = docs.subrange(0, i + 1);
                    assert(part.drop_last() =~= docs.subrange(0, i as int));
                    assert(part.last() == items@[i as int].doc());
                    let n = file_name(&items[i]);
                    let ghost was = text::texts(names@);
                    if !n.as_str().is_empty() {
                        let ghost t = n@;
                        names.push(n);
                        assert(text::texts(names@) =~= was.push(t));
                    }
                    i += 1;
                }
                assert(docs.subrange(0, i as int) =~= docs);
            },
            _ => {},
        },
        None => {},
    }
    (from, names)
}

// -------------------------------------------------------------------- bodies ---

/// What `/Discover` is answered with. `ReceiverRecordData` is deliberately absent: it proves
/// an identity that only an Apple device can have.
pub open spec fn discover_doc(name: Seq<char>, model: Seq<char>) -> Doc {
    Doc::Dict(
        seq!["ReceiverComputerName"@, "ReceiverModelName"@, "ReceiverMediaCapabilities"@],
        seq![Doc::Str(name), Doc::Str(model), Doc::Data(media_capabilities())],
    )
}

/// `{"Version":1}`.
pub open spec fn media_capabilities() -> Seq<u8> {
    seq![0x7Bu8, 0x22, 0x56, 0x65, 0x72, 0x73, 0x69, 0x6F, 0x6E, 0x22, 0x3A, 0x31, 0x7D]
}

/// What an accepted `/Ask` is answered with.
pub open spec fn accept_doc(name: Seq<char>, model: Seq<char>) -> Doc {
    Doc::Dict(
        seq!["ReceiverModelName"@, "ReceiverComputerName"@],
        seq![Doc::Str(model), Doc::Str(name)],
    )
}

pub fn discover_body(name: &str, model: &str) -> (r: Vec<u8>)
    ensures
        r@ == plist::encoded(discover_doc(name@, model@)),
{
    let caps: Vec<u8> = vec![
        0x7B,
        0x22,
        0x56,
        0x65,
        0x72,
        0x73,
        0x69,
        0x6F,
        0x6E,
        0x22,
        0x3A,
        0x31,
        0x7D,
    ];
    assert(caps@ =~= media_capabilities());
    let pairs: Vec<(&str, Value)> = vec![
        ("ReceiverComputerName", Value::Str(name.to_owned())),
        ("ReceiverModelName", Value::Str(model.to_owned())),
        ("ReceiverMediaCapabilities", Value::Data(caps)),
    ];
    proof {
        let d = plist::pairs_doc(pairs@);
        let e = discover_doc(name@, model@);
        assert(d->Dict_0 =~= e->Dict_0);
        assert(d->Dict_1 =~= e->Dict_1);
    }
    plist::dict(pairs.as_slice())
}

pub fn accept_body(name: &str, model: &str) -> (r: Vec<u8>)
    ensures
        r@ == plist::encoded(accept_doc(name@, model@)),
{
    let pairs: Vec<(&str, Value)> = vec![
        ("ReceiverModelName", Value::Str(model.to_owned())),
        ("ReceiverComputerName", Value::Str(name.to_owned())),
    ];
    proof {
        let d = plist::pairs_doc(pairs@);
        let e = accept_doc(name@, model@);
        assert(d->Dict_0 =~= e->Dict_0);
        assert(d->Dict_1 =~= e->Dict_1);
    }
    plist::dict(pairs.as_slice())
}

// ------------------------------------------------------------------ requests ---

/// What a request is for.
#[derive(Debug, Clone, Copy, PartialEq, Eq, Structural)]
pub enum Route {
    /// `HEAD /`, which Apple sends before anything else.
    Probe,
    Discover,
    Ask,
    Upload,
    Unknown,
}

pub open spec fn route_of(method: Seq<char>, path: Seq<char>) -> Route {
    if method == "HEAD"@ && path == "/"@ {
        Route::Probe
    } else if method == "POST"@ && path == "/Discover"@ {
        Route::Discover
    } else if method == "POST"@ && path == "/Ask"@ {
        Route::Ask
    } else if method == "POST"@ && path == "/Upload"@ {
        Route::Upload
    } else {
        Route::Unknown
    }
}

/// A request, as far as its head tells.
#[derive(Debug, Clone, Copy, PartialEq, Eq, Structural)]
pub struct Request {
    pub route: Route,
    pub keep_alive: bool,
    /// How to read the body. An upload is not buffered: it can be any size.
    pub body: Option<BodyPlan>,
}

pub open spec fn request_in(head: Seq<char>) -> Request {
    Request {
        route: route_of(http::word(head, 0), http::word(head, 1)),
        keep_alive: http::wants_keep_alive(head),
        body: if http::word(head, 1) == "/Upload"@ {
            None
        } else {
            Some(http::body_plan(head))
        },
    }
}

pub fn read_request(head: &str) -> (r: Request)
    ensures
        r == request_in(head@),
{
    let (method, path) = http::first_words(head);
    let m: &str = method.as_str();
    let p: &str = path.as_str();
    let route: Route = if text::same(m, "HEAD") && text::same(p, "/") {
        Route::Probe
    } else if text::same(m, "POST") && text::same(p, "/Discover") {
        Route::Discover
    } else if text::same(m, "POST") && text::same(p, "/Ask") {
        Route::Ask
    } else if text::same(m, "POST") && text::same(p, "/Upload") {
        Route::Upload
    } else {
        Route::Unknown
    };
    let keep_alive: bool = http::keep_alive(head);
    let body: Option<BodyPlan> = if text::same(p, "/Upload") {
        None
    } else {
        Some(http::read_body(head))
    };
    Request { route, keep_alive, body }
}

/// Which body an answer has.
#[derive(Debug, Clone, Copy, PartialEq, Eq, Structural)]
pub enum Content {
    Nothing,
    /// Who we are.
    Discover,
    Accept,
}

/// An answer. The connection is kept exactly when it says so.
#[derive(Debug, Clone, Copy, PartialEq, Eq, Structural)]
pub struct Reply {
    pub status: u16,
    pub content: Content,
    pub keep_alive: bool,
}

/// What to do with a request.
#[derive(Debug, Clone, Copy, PartialEq, Eq, Structural)]
pub enum Plan {
    Answer(Reply),
    /// Register the offer, show it, and have a person decide.
    Ask,
    /// Store the upload of this transfer.
    Receive { id: i64 },
}

pub open spec fn refused() -> Reply {
    Reply { status: 401, content: Content::Nothing, keep_alive: false }
}

pub open spec fn too_large() -> Reply {
    Reply { status: 413, content: Content::Nothing, keep_alive: false }
}

/// An invisible device does not identify itself, and refuses offers outright. An upload is
/// bound to an accepted offer, not to visibility: the consent for those bytes was given
/// earlier, and nobody walks past the prompt by posting straight to `/Upload`.
pub open spec fn plan_for(req: Request, desynced: bool, visible: bool, accepted: i64) -> Plan {
    if desynced {
        Plan::Answer(too_large())
    } else {
        match req.route {
            Route::Probe => Plan::Answer(
                if visible {
                    Reply {
                        status: 200,
                        content: Content::Nothing,
                        keep_alive: req.keep_alive,
                    }
                } else {
                    refused()
                },
            ),
            Route::Discover => Plan::Answer(
                if visible {
                    Reply {
                        status: 200,
                        content: Content::Discover,
                        keep_alive: req.keep_alive,
                    }
                } else {
                    refused()
                },
            ),
            Route::Ask => if visible {
                Plan::Ask
            } else {
                Plan::Answer(refused())
            },
            Route::Upload => if accepted == 0 {
                Plan::Answer(refused())
            } else {
                Plan::Receive { id: accepted }
            },
            Route::Unknown => Plan::Answer(
                Reply { status: 401, content: Content::Nothing, keep_alive: req.keep_alive },
            ),
        }
    }
}

/// Decide on a request whose body has been read. `desynced` is whether it was too large;
/// `accepted` is the offer that was said yes to and not yet uploaded, or zero.
pub fn handle(req: Request, desynced: bool, visible: bool, accepted: i64) -> (r: Plan)
    ensures
        r == plan_for(req, desynced, visible, accepted),
{
    let no = Reply { status: 401, content: Content::Nothing, keep_alive: false };
    if desynced {
        // Unread bytes remain in the socket. A peer that gets 413 reports a failure, whereas
        // one that gets silence waits forever.
        return Plan::Answer(Reply { status: 413, content: Content::Nothing, keep_alive: false });
    }
    match req.route {
        Route::Probe => if visible {
            Plan::Answer(
                Reply { status: 200, content: Content::Nothing, keep_alive: req.keep_alive },
            )
        } else {
            Plan::Answer(no)
        },
        Route::Discover => if visible {
            Plan::Answer(
                Reply { status: 200, content: Content::Discover, keep_alive: req.keep_alive },
            )
        } else {
            Plan::Answer(no)
        },
        Route::Ask => if visible {
            Plan::Ask
        } else {
            Plan::Answer(no)
        },
        Route::Upload => if accepted == 0 {
            Plan::Answer(no)
        } else {
            Plan::Receive { id: accepted }
        },
        Route::Unknown => Plan::Answer(
            Reply { status: 401, content: Content::Nothing, keep_alive: req.keep_alive },
        ),
    }
}

/// What follows from a person's answer, or from the lack of one: the reply, and whether the
/// transfer is over.
pub open spec fn asked(answer: Option<bool>, keep_alive: bool) -> (Reply, bool) {
    if answer == Some(true) {
        (Reply { status: 200, content: Content::Accept, keep_alive }, false)
    } else {
        (refused(), true)
    }
}

pub fn after_ask(answer: Option<bool>, keep_alive: bool) -> (r: (Reply, bool))
    ensures
        r == asked(answer, keep_alive),
{
    match answer {
        Some(true) => (Reply { status: 200, content: Content::Accept, keep_alive }, false),
        // 401 is what an Apple receiver sends on decline.
        _ => (Reply { status: 401, content: Content::Nothing, keep_alive: false }, true),
    }
}

pub open spec fn uploaded(stored: bool, keep_alive: bool) -> (Reply, bool) {
    if stored {
        (Reply { status: 200, content: Content::Nothing, keep_alive }, false)
    } else {
        (Reply { status: 500, content: Content::Nothing, keep_alive: false }, true)
    }
}

/// What follows from an upload: the reply, and whether the client is told that it ended
/// without files. The transfer is over either way.
pub fn after_upload(stored: bool, keep_alive: bool) -> (r: (Reply, bool))
    ensures
        r == uploaded(stored, keep_alive),
{
    if stored {
        (Reply { status: 200, content: Content::Nothing, keep_alive }, false)
    } else {
        (Reply { status: 500, content: Content::Nothing, keep_alive: false }, true)
    }
}

/// While invisible, nothing says who we are and nothing asks a person: every request but an
/// upload under an offer that was accepted is refused without a body.
pub proof fn law_invisible_says_nothing(req: Request, desynced: bool, accepted: i64)
    requires
        req.route != Route::Upload || accepted == 0,
    ensures
        plan_for(req, desynced, false, accepted) is Answer,
        plan_for(req, desynced, false, accepted)->Answer_0.content == Content::Nothing,
        plan_for(req, desynced, false, accepted)->Answer_0.status != 200,
{
}

/// Bytes are stored only under an offer that was accepted, and under no other.
pub proof fn law_upload_needs_consent(req: Request, desynced: bool, visible: bool, accepted: i64)
    requires
        plan_for(req, desynced, visible, accepted) is Receive,
    ensures
        accepted != 0,
        plan_for(req, desynced, visible, accepted) == (Plan::Receive { id: accepted }),
        req.route == Route::Upload,
{
}

// ------------------------------------------------------------------- uploads ---

/// How the body of an upload is to be read.
#[derive(Debug, Clone, Copy, PartialEq, Eq, Structural)]
pub enum UploadPlan {
    Chunked,
    Exact(u64),
}

/// What the peer says of the size of an upload; zero when it says nothing usable.
pub open spec fn upload_total(head: Seq<char>) -> nat {
    match http::number_header(head, "totalbytes"@, u64::MAX as nat) {
        Some(n) => n,
        None => 0,
    }
}

pub open spec fn upload_plan(head: Seq<char>) -> UploadPlan {
    if http::is_chunked(head) {
        UploadPlan::Chunked
    } else {
        match http::number_header(head, "content-length"@, u64::MAX as nat) {
            Some(n) => UploadPlan::Exact(n as u64),
            None => UploadPlan::Exact(upload_total(head) as u64),
        }
    }
}

/// An upload on its way in.
pub struct Upload {
    pub plan: UploadPlan,
    /// The whole payload size, which the peer states in its own header: the body is chunked,
    /// so the stream alone cannot say how far along it is.
    pub total: u64,
    /// How much had come when it was last reported.
    pub last_report: u64,
}

impl Upload {
    pub fn new(head: &str) -> (r: Upload)
        ensures
            r.plan == upload_plan(head@),
            r.total == upload_total(head@),
            r.last_report == 0,
    {
        let total: u64 = match http::number(head, "totalbytes", u64::MAX) {
            Some(n) => n,
            None => 0,
        };
        let plan: UploadPlan = if http::chunked(head) {
            UploadPlan::Chunked
        } else {
            match http::number(head, "content-length", u64::MAX) {
                Some(n) => UploadPlan::Exact(n),
                None => UploadPlan::Exact(total),
            }
        };
        Upload { plan, total, last_report: 0 }
    }

    /// Whether so many bytes are reported, and the upload afterwards.
    pub open spec fn progressed(self, done: u64) -> (bool, Upload) {
        if self.total > 0 && done >= self.last_report + PROGRESS_STEP {
            (true, Upload { last_report: done, ..self })
        } else {
            (false, self)
        }
    }

    /// Whether to report that so many bytes have come. Throttled: a callback per chunk would
    /// slow the transfer it is reporting on.
    pub fn progress(&mut self, done: u64) -> (r: bool)
        ensures
            (r, *final(self)) == old(self).progressed(done),
    {
        if self.total > 0 && done > self.last_report && done - self.last_report >= PROGRESS_STEP {
            self.last_report = done;
            return true;
        }
        false
    }

    pub open spec fn shown_total(self, written: u64) -> u64 {
        if self.total > 0 {
            self.total
        } else {
            written
        }
    }

    /// The total of the last report: what was promised, or else what came.
    pub fn final_total(&self, written: u64) -> (r: u64)
        ensures
            r == self.shown_total(written),
    {
        if self.total > 0 {
            self.total
        } else {
            written
        }
    }
}

/// How many bytes of an upload are read at once.
pub const READ_SIZE: usize = 8192;

pub open spec fn wanted(done: u64, len: u64) -> int {
    if done >= len {
        0
    } else if len - done < READ_SIZE {
        len - done
    } else {
        READ_SIZE as int
    }
}

/// How many bytes to read next of a body whose length is known: none once all have come.
pub fn exact_want(done: u64, len: u64) -> (r: usize)
    ensures
        r == wanted(done, len),
{
    if done >= len {
        0
    } else if len - done < READ_SIZE as u64 {
        (len - done) as usize
    } else {
        READ_SIZE
    }
}

/// What becomes of an upload that has been streamed to disk.
#[derive(Debug, Clone, Copy, PartialEq, Eq, Structural)]
pub struct UploadEnd {
    /// Whether the archive is removed.
    pub remove: bool,
    /// The number of files to announce, if the archive was unpacked.
    pub announce: Option<usize>,
    /// Whether the upload counts as stored.
    pub stored: bool,
}

pub open spec fn streamed(cancelled: bool, unpacked: Option<usize>) -> UploadEnd {
    if cancelled {
        UploadEnd { remove: true, announce: None, stored: false }
    } else {
        UploadEnd { remove: unpacked is Some, announce: unpacked, stored: true }
    }
}

/// What becomes of an upload: `unpacked` is how many files came out of the archive, if it could
/// be unpacked.
///
/// A cancelled one fails, and its partial archive goes rather than linger as a file nobody can
/// open. One that was unpacked has served its purpose. One that could not be is kept: it is the
/// only copy of what the peer sent.
pub fn after_stream(cancelled: bool, unpacked: Option<usize>) -> (r: UploadEnd)
    ensures
        r == streamed(cancelled, unpacked),
{
    if cancelled {
        UploadEnd { remove: true, announce: None, stored: false }
    } else {
        UploadEnd { remove: unpacked.is_some(), announce: unpacked, stored: true }
    }
}

// -------------------------------------------------------------------- naming ---

/// Whether a text is a file name and nothing more: it names one entry of a directory, and
/// neither the directory itself nor its parent.
pub open spec fn is_leaf(s: Seq<char>) -> bool {
    &&& s.len() > 0
    &&& s != "."@
    &&& s != ".."@
    &&& forall|i: int|
        0 <= i < s.len() ==> (#[trigger] s[i]) != '/' && s[i] != '\\' && s[i] != '\0'
}

/// What is behind the last slash of either kind, without white space around it.
pub open spec fn leaf_of(name: Seq<char>) -> Seq<char> {
    let a = text::rfind_char(name, '/');
    let b = text::rfind_char(name, '\\');
    text::trim_text(
        name.subrange(
            if a > b {
                a + 1
            } else {
                b + 1
            },
            name.len() as int,
        ),
    )
}

pub open spec fn safe_leaf_in(name: Seq<char>) -> Option<Seq<char>> {
    if is_leaf(leaf_of(name)) {
        Some(leaf_of(name))
    } else {
        None
    }
}

proof fn lemma_trim_start_within(s: Seq<char>)
    ensures
        text::trim_start_text(s).len() <= s.len(),
        text::trim_start_text(s) == s.subrange(
            s.len() - text::trim_start_text(s).len(),
            s.len() as int,
        ),
    decreases s.len(),
{
    if s.len() > 0 && text::white_space(s[0]) {
        let t = s.drop_first();
        lemma_trim_start_within(t);
        assert(t.subrange(t.len() - text::trim_start_text(t).len(), t.len() as int)
            =~= s.subrange(s.len() - text::trim_start_text(s).len(), s.len() as int));
    } else {
        assert(s.subrange(0, s.len() as int) =~= s);
    }
}

proof fn lemma_trim_end_within(s: Seq<char>)
    ensures
        text::trim_end_text(s).len() <= s.len(),
        text::trim_end_text(s) == s.subrange(0, text::trim_end_text(s).len() as int),
    decreases s.len(),
{
    if s.len() > 0 && text::white_space(s.last()) {
        let t = s.drop_last();
        lemma_trim_end_within(t);
        assert(t.subrange(0, text::trim_end_text(t).len() as int) =~= s.subrange(
            0,
            text::trim_end_text(s).len() as int,
        ));
    } else {
        assert(s.subrange(0, s.len() as int) =~= s);
    }
}

/// What is left after trimming was there before.
pub proof fn lemma_trim_within(s: Seq<char>, c: char)
    requires
        forall|i: int| 0 <= i < s.len() ==> (#[trigger] s[i]) != c,
    ensures
        forall|i: int|
            0 <= i < text::trim_text(s).len() ==> (#[trigger] text::trim_text(s)[i]) != c,
{
    let a = text::trim_start_text(s);
    let b = text::trim_text(s);
    lemma_trim_start_within(s);
    lemma_trim_end_within(a);
    assert forall|i: int| 0 <= i < b.len() implies (#[trigger] b[i]) != c by {
        assert(b[i] == a[i]);
        assert(a[i] == s[s.len() - a.len() + i]);
    }
}

/// The last component of a name holds no slash of either kind.
proof fn lemma_leaf_has_no_slash(name: Seq<char>)
    ensures
        forall|i: int|
            0 <= i < leaf_of(name).len() ==> (#[trigger] leaf_of(name)[i]) != '/' && leaf_of(
                name,
            )[i] != '\\',
{
    let a = text::rfind_char(name, '/');
    let b = text::rfind_char(name, '\\');
    text::lemma_rfind_char(name, '/');
    text::lemma_rfind_char(name, '\\');
    let from = if a > b {
        a + 1
    } else {
        b + 1
    };
    let part = name.subrange(from, name.len() as int);
    assert forall|i: int| 0 <= i < part.len() implies (#[trigger] part[i]) != '/' && part[i]
        != '\\' by {
        assert(part[i] == name[from + i]);
    }
    lemma_trim_within(part, '/');
    lemma_trim_within(part, '\\');
}

/// Turn an archive entry's name into a safe leaf filename.
///
/// A name inside an archive is attacker-controlled, and the classic way to abuse it is path
/// traversal. Taking only the final component removes the whole class rather than trying to
/// detect it. `None` for anything that cannot be a filename at all.
pub fn safe_leaf(entry_name: &str) -> (r: Option<String>)
    ensures
        match r {
            Some(l) => safe_leaf_in(entry_name@) == Some(l@) && is_leaf(l@),
            None => safe_leaf_in(entry_name@) is None,
        },
{
    let v = text::chars_of(entry_name);
    let a: usize = text::after_last(&v, '/');
    let b: usize = text::after_last(&v, '\\');
    let from: usize = if a > b {
        a
    } else {
        b
    };
    let part = text::text_of(&v, from, v.len());
    let leaf = text::trim(part.as_str());
    assert(leaf@ =~= leaf_of(entry_name@));
    if leaf.as_str().is_empty() || text::same(leaf.as_str(), ".") || text::same(
        leaf.as_str(),
        "..",
    ) {
        return None;
    }
    let w = text::chars_of(leaf.as_str());
    let nul: usize = text::find(&w, '\0');
    proof {
        lemma_leaf_has_no_slash(entry_name@);
        text::lemma_find_char(w@, '\0');
    }
    if nul < w.len() {
        return None;
    }
    Some(leaf)
}

/// The part of a leaf before its extension, and the extension with its dot. A leading dot
/// makes a hidden file, not an extension.
pub open spec fn stem_of(leaf: Seq<char>) -> Seq<char> {
    if text::rfind_char(leaf, '.') > 0 {
        leaf.subrange(0, text::rfind_char(leaf, '.'))
    } else {
        leaf
    }
}

pub open spec fn extension_of(leaf: Seq<char>) -> Seq<char> {
    if text::rfind_char(leaf, '.') > 0 {
        leaf.subrange(text::rfind_char(leaf, '.'), leaf.len() as int)
    } else {
        seq![]
    }
}

/// `photo.jpg`, then `photo (1).jpg`, then `photo (2).jpg`.
pub open spec fn numbered_leaf(leaf: Seq<char>, n: nat) -> Seq<char> {
    if n == 0 {
        leaf
    } else {
        stem_of(leaf) + " ("@ + text::decimal(n) + ")"@ + extension_of(leaf)
    }
}

pub open spec fn path_in(dir: Seq<char>, leaf: Seq<char>) -> Seq<char> {
    dir + seq!['/'] + leaf
}

/// The `n`th path to try for a file, so that none is overwritten: try them in turn, from zero
/// up to `MAX_NUMBER`, until one is free.
///
/// Two files can legitimately arrive with the same name, and silently replacing the older one
/// loses data that was not ours to lose. Disambiguates the way a browser does.
pub fn non_clobbering(dir: &str, leaf: &str, n: u32) -> (r: String)
    ensures
        r@ == path_in(dir@, numbered_leaf(leaf@, n as nat)),
{
    let mut out = String::new();
    out.append(dir);
    out.push('/');
    if n == 0 {
        out.append(leaf);
        assert(out@ =~= path_in(dir@, numbered_leaf(leaf@, n as nat)));
        return out;
    }
    let v = text::chars_of(leaf);
    let after: usize = text::after_last(&v, '.');
    proof {
        text::lemma_rfind_char(v@, '.');
    }
    let cut: usize = if after > 1 {
        after - 1
    } else {
        v.len()
    };
    let stem = text::text_of(&v, 0, cut);
    let ext = text::text_of(&v, cut, v.len());
    assert(stem@ =~= stem_of(leaf@));
    assert(ext@ =~= extension_of(leaf@));
    out.append(stem.as_str());
    out.append(" (");
    text::push_decimal(&mut out, n as u64);
    out.append(")");
    out.append(ext.as_str());
    assert(out@ =~= path_in(dir@, numbered_leaf(leaf@, n as nat)));
    out
}

pub open spec fn looks_on(taken: bool, n: u32) -> bool {
    taken && n < MAX_NUMBER
}

/// Whether another path is to be tried for a file: only when this one is taken, and not forever.
pub fn keep_looking(taken: bool, n: u32) -> (r: bool)
    ensures
        r == looks_on(taken, n),
{
    taken && n < MAX_NUMBER
}

/// No two numbers give the same path, so trying them in turn tries a new one each time.
pub proof fn law_numbers_give_different_paths(dir: Seq<char>, leaf: Seq<char>, m: nat, n: nat)
    requires
        path_in(dir, numbered_leaf(leaf, m)) == path_in(dir, numbered_leaf(leaf, n)),
    ensures
        m == n,
{
    let a = numbered_leaf(leaf, m);
    let b = numbered_leaf(leaf, n);
    let pa = path_in(dir, a);
    let pb = path_in(dir, b);
    let skip = (dir.len() + 1) as int;
    assert(pa.subrange(skip, pa.len() as int) =~= a);
    assert(pb.subrange(skip, pb.len() as int) =~= b);
    let s = stem_of(leaf);
    let e = extension_of(leaf);
    text::lemma_rfind_char(leaf, '.');
    assert(leaf =~= s + e);
    reveal_strlit(" (");
    reveal_strlit(")");
    let da = text::decimal(m);
    let db = text::decimal(n);
    let top = if m > n {
        m
    } else {
        n
    };
    text::law_decimal_parses(m, top);
    text::law_decimal_parses(n, top);
    if m == 0 || n == 0 {
        if m != n {
            assert(a.len() != b.len());
        }
    } else {
        assert(da.len() == db.len());
        let from = (s.len() + 2) as int;
        assert(a.subrange(from, from + da.len()) =~= da);
        assert(b.subrange(from, from + db.len()) =~= db);
    }
}

/// The path of a received file that may be handed out. An archive only survives a failed
/// extraction, and a client cannot read it.
pub open spec fn inbox_path_of(name: Seq<char>) -> Option<Seq<char>> {
    match safe_leaf_in(name) {
        Some(leaf) => if text::ends_with_text(leaf, ".cpio"@) {
            None
        } else {
            Some(path_in(INBOX@, leaf))
        },
        None => None,
    }
}

/// Where a received file lies. The name is reduced to a leaf first, so that a caller cannot
/// walk out of the inbox.
pub fn inbox_path(name: &str) -> (r: Option<String>)
    ensures
        match r {
            Some(p) => inbox_path_of(name@) == Some(p@),
            None => inbox_path_of(name@) is None,
        },
{
    match safe_leaf(name) {
        Some(leaf) => {
            if text::ends_with(leaf.as_str(), ".cpio") {
                return None;
            }
            let mut out = String::new();
            out.append(INBOX);
            out.push('/');
            out.append(leaf.as_str());
            assert(out@ =~= path_in(INBOX@, leaf@));
            Some(out)
        },
        None => None,
    }
}

/// Every path handed out lies directly in the inbox.
pub proof fn law_inbox_is_not_left(name: Seq<char>)
    requires
        inbox_path_of(name) is Some,
    ensures
        exists|leaf: Seq<char>|
            is_leaf(leaf) && inbox_path_of(name)->0 == #[trigger] path_in(INBOX@, leaf),
{
    assert(inbox_path_of(name)->0 == path_in(INBOX@, leaf_of(name)));
}

pub open spec fn collectable(names: Seq<Seq<char>>) -> Seq<Seq<char>> {
    names.filter(|n: Seq<char>| !text::ends_with_text(n, ".cpio"@))
}

/// Leaf names of files waiting to be collected, in order, out of everything in the inbox.
pub fn received_files(entries: &Vec<String>) -> (r: Vec<String>)
    ensures
        order::in_order(text::texts(r@)),
        text::texts(r@).to_multiset() == collectable(text::texts(entries@)).to_multiset(),
{
    let mut out: Vec<String> = Vec::new();
    let ghost all = text::texts(entries@);
    let ghost keep = |n: Seq<char>| !text::ends_with_text(n, ".cpio"@);
    let mut i: usize = 0;
    assert(all.subrange(0, 0).filter(keep) =~= seq![]) by {
        reveal(Seq::filter);
    }
    assert(text::texts(out@) =~= seq![]);
    while i < entries.len()
        invariant
            i <= entries@.len(),
            all == text::texts(entries@),
            keep == (|n: Seq<char>| !text::ends_with_text(n, ".cpio"@)),
            text::texts(out@) == all.subrange(0, i as int).filter(keep),
        decreases entries@.len() - i,
    {
        let ghost was = text::texts(out@);
        proof {
            let part = all.subrange(0, i + 1);
            assert(part.drop_last() =~= all.subrange(0, i as int));
            assert(part.last() == entries@[i as int]@);
            reveal(Seq::filter);
        }
        if !text::ends_with(entries[i].as_str(), ".cpio") {
            out.push(entries[i].clone());
            assert(text::texts(out@) =~= was.push(entries@[i as int]@));
        }
        i += 1;
    }
    assert(all.subrange(0, i as int) =~= all);
    order::sorted(&out)
}

pub open spec fn random_name(random: Option<Seq<u8>>) -> Seq<char> {
    match random {
        Some(b) => text::hex_text(b),
        None => "getrandom-failed"@,
    }
}

/// Sixteen hex characters of randomness. Never something predictable: a guessable name in a
/// shared directory is a way for another process to pre-create or swap the file.
pub fn random_hex(random: Option<[u8; 8]>) -> (r: String)
    ensures
        r@ == random_name(
            match random {
                Some(b) => Some(b@),
                None => None,
            },
        ),
{
    match random {
        Some(b) => {
            let mut v: Vec<u8> = Vec::new();
            v.push(b[0]);
            v.push(b[1]);
            v.push(b[2]);
            v.push(b[3]);
            v.push(b[4]);
            v.push(b[5]);
            v.push(b[6]);
            v.push(b[7]);
            assert(v@ =~= b@);
            text::hex(v.as_slice())
        },
        None => "getrandom-failed".to_owned(),
    }
}

/// A path to create a file at, with a random name and an extension.
pub fn unique_path(dir: &str, random: Option<[u8; 8]>, ext: &str) -> (r: String)
    ensures
        r@ == path_in(
            dir@,
            random_name(
                match random {
                    Some(b) => Some(b@),
                    None => None,
                },
            ) + seq!['.'] + ext@,
        ),
{
    let name = random_hex(random);
    let mut out = String::new();
    out.append(dir);
    out.push('/');
    out.append(name.as_str());
    out.push('.');
    out.append(ext);
    assert(out@ =~= path_in(dir@, name@ + seq!['.'] + ext@));
    out
}

/// What came of an attempt to create a file.
#[derive(Debug, Clone, Copy, PartialEq, Eq, Structural)]
pub enum Created {
    Yes,
    Exists,
    Failed,
}

pub open spec fn tries_on(outcome: Created, tries: u32) -> bool {
    outcome == Created::Exists && tries < 8
}

/// Whether to try another random name. Retried a few times because randomness does not excuse
/// ignoring the race.
pub fn try_again(outcome: Created, tries: u32) -> (r: bool)
    ensures
        r == tries_on(outcome, tries),
{
    match outcome {
        Created::Exists => tries < 8,
        _ => false,
    }
}

// ---------------------------------------------------------------- extraction ---

/// The file an archive member becomes, if it becomes one. What must not: the archive's own
/// root, AppleDouble sidecars (`._<name>`), directories, and anything empty.
pub open spec fn member_leaf(name: Seq<char>, size: u64, mode: u32) -> Option<Seq<char>> {
    match safe_leaf_in(name) {
        Some(leaf) => if text::starts_with_text(leaf, "._"@) || mode / 4096 % 16 == 4 || size
            == 0 {
            None
        } else {
            Some(leaf)
        },
        None => None,
    }
}

pub fn extract(name: &str, size: u64, mode: u32) -> (r: Option<String>)
    ensures
        match r {
            Some(l) => member_leaf(name@, size, mode) == Some(l@) && is_leaf(l@),
            None => member_leaf(name@, size, mode) is None,
        },
{
    match safe_leaf(name) {
        Some(leaf) => {
            if text::starts_with(leaf.as_str(), "._") || mode / 4096 % 16 == 4 || size == 0 {
                None
            } else {
                Some(leaf)
            }
        },
        None => None,
    }
}

// ------------------------------------------------------------- the interface ---

pub open spec fn still_bound(
    addr: Seq<u8>,
    scope: u32,
    now_addr: Option<Seq<u8>>,
    now_scope: Option<u32>,
) -> bool {
    now_addr == Some(addr) && now_scope == Some(scope)
}

/// Has the interface we are bound to been replaced, or gone?
///
/// Both halves matter. A new index with the same address still means a different interface,
/// and an address change on the same index means our bound address is no longer local.
pub fn iface_changed(
    addr: [u8; 16],
    scope: u32,
    now_addr: Option<[u8; 16]>,
    now_scope: Option<u32>,
) -> (r: bool)
    ensures
        r == !still_bound(addr@, scope, mdns::addr_view(now_addr), now_scope),
{
    match (now_addr, now_scope) {
        (Some(a), Some(s)) => !address::same_bytes(&a, &addr) || s != scope,
        _ => true,
    }
}

/// Refuse ourselves, at the door: a connection from the address we are bound to.
pub fn is_ourselves(peer: Address, bound: [u8; 16]) -> (r: bool)
    ensures
        r == (peer is V6 && peer.octets() == bound@),
{
    match peer {
        Address::V6(o) => address::same_bytes(&o, &bound),
        Address::V4(_) => false,
    }
}

/// Whether this accept poll looks at the interface.
pub fn checks_interface(ticks: u32) -> (r: bool)
    ensures
        r == (ticks % IFACE_CHECK_EVERY == 0),
{
    ticks % IFACE_CHECK_EVERY == 0
}

} // verus!
