//! Sending by AirDrop: phone to an Apple device.
//!
//! ```text
//! POST /Discover   who are you            -> the peer's name, if it will tell us
//! POST /Ask        may I send you this    -> 200 means the user accepted
//! POST /Upload     the payload            -> framed-zlib around a cpio odc archive
//! ```
//!
//! `/Ask` and `/Upload` go over one connection, because that is what a Mac does and the
//! receiver is entitled to expect it.

use vstd::prelude::*;
use vstd::utf8::*;
use crate::httpd;
use crate::plist;
use crate::plist::{Doc, Value};
use crate::plist_laws;
use crate::text;

verus! {

/// Where a peer lives, resolved from its mDNS records.
#[derive(Debug, Clone, Copy)]
pub struct Target {
    pub addr: [u8; 16],
    pub port: u16,
    pub scope: u32,
}

/// One file to send, and the name it should arrive under.
#[derive(Debug)]
pub struct Item {
    pub name: String,
    pub size: u64,
}

// ------------------------------------------------------------------ discover ---

/// Everyone mode: an empty dictionary. A sender in contacts mode would put its record here.
pub open spec fn discover_doc() -> Doc {
    Doc::Dict(seq![], seq![])
}

/// The body of `/Discover`.
pub fn discover_request() -> (r: Vec<u8>)
    ensures
        r@ == plist::encoded(discover_doc()),
{
    let none: Vec<(&str, Value)> = Vec::new();
    proof {
        let d = plist::pairs_doc(none@);
        assert(d->Dict_0 =~= discover_doc()->Dict_0);
        assert(d->Dict_1 =~= discover_doc()->Dict_1);
    }
    plist::dict(none.as_slice())
}

/// The name a peer gives, if it answers and gives one.
pub open spec fn name_in_reply(status: u16, reply: Seq<u8>) -> Option<Seq<char>> {
    if status != 200 {
        None
    } else {
        match plist::parsed(reply) {
            Some(d) => httpd::text_of_doc(plist::lookup(d, "ReceiverComputerName"@)),
            None => None,
        }
    }
}

/// Who a peer says it is. A peer that refuses `/Discover` is not necessarily unreachable: it
/// may simply not be discoverable to us.
pub fn discover(status: u16, reply: &[u8]) -> (r: Option<String>)
    ensures
        match r {
            Some(n) => name_in_reply(status, reply@) == Some(n@),
            None => name_in_reply(status, reply@) is None,
        },
{
    if status != 200 {
        return None;
    }
    match plist::parse(reply) {
        Some(v) => match v.get("ReceiverComputerName") {
            Some(n) => match n.as_str() {
                Some(s) => Some(s.to_owned()),
                None => None,
            },
            None => None,
        },
        None => None,
    }
}

/// A peer that is listed is listed under its name: what our server answers to `/Discover` is
/// read back as the name it was given, with its model and what it can take. A peer that does not
/// answer well gives no name.
pub proof fn law_discovered_name(name: Seq<char>, model: Seq<char>)
    requires
        plist_laws::text_units(name) <= 0xffff_ffff,
        plist_laws::text_units(model) <= 0xffff_ffff,
    ensures
        name_in_reply(200, plist::encoded(httpd::discover_doc(name, model))) == Some(name),
        ({
            let read = plist::parsed(plist::encoded(httpd::discover_doc(name, model)));
            &&& read is Some
            &&& plist::lookup(read->0, "ReceiverModelName"@) == Some(Doc::Str(model))
            &&& plist::lookup(read->0, "ReceiverMediaCapabilities"@) == Some(
                Doc::Data(httpd::media_capabilities()),
            )
        }),
        forall|status: u16|
            status != 200 ==> #[trigger] name_in_reply(
                status,
                plist::encoded(httpd::discover_doc(name, model)),
            ) is None,
{
    let d = httpd::discover_doc(name, model);
    let keys = d->Dict_0;
    let values = d->Dict_1;
    reveal_strlit("ReceiverComputerName");
    reveal_strlit("ReceiverModelName");
    reveal_strlit("ReceiverMediaCapabilities");
    assert(forall|i: int|
        0 <= i < keys.len() ==> plist_laws::text_units(#[trigger] keys[i]) <= 0xffff_ffff) by {
        assert(is_ascii_chars("ReceiverComputerName"@));
        assert(is_ascii_chars("ReceiverModelName"@));
        assert(is_ascii_chars("ReceiverMediaCapabilities"@));
    }
    let a = values.drop_last();
    let b = a.drop_last();
    assert(values.last() == values[2] && a.last() == values[1] && b.last() == values[0]);
    assert(b.drop_last().len() == 0);
    assert(plist::size(d) <= plist::MAX_ELEMENTS) by {
        reveal_with_fuel(plist::size_all, 5);
        reveal_with_fuel(plist::size, 5);
    }
    assert(plist_laws::height(d) <= plist::MAX_DEPTH) by {
        reveal_with_fuel(plist_laws::height_all, 5);
        reveal_with_fuel(plist_laws::height, 5);
    }
    assert(plist::writable(d)) by {
        assert forall|i: int| 0 <= i < values.len() implies plist::writable(
            #[trigger] values[i],
        ) by {
            assert(i == 0 || i == 1 || i == 2);
        }
    }
    assert(plist_laws::lengths_fit(d)) by {
        assert forall|i: int| 0 <= i < values.len() implies plist_laws::lengths_fit(
            #[trigger] values[i],
        ) by {
            assert(i == 0 || i == 1 || i == 2);
        }
    }
    plist_laws::law_plist_round_trip(d);
    assert(keys[0] == "ReceiverComputerName"@);
    assert("ReceiverComputerName"@.len() == 20 && "ReceiverModelName"@.len() == 17);
    assert("ReceiverMediaCapabilities"@.len() == 25);
    plist::lemma_first_key(keys, "ReceiverModelName"@, 1);
    plist::lemma_first_key(keys, "ReceiverMediaCapabilities"@, 2);
}

// ------------------------------------------------------------------ the offer ---

/// What is behind the last dot of a name, in small letters; nothing when there is no dot.
pub open spec fn suffix(name: Seq<char>) -> Seq<char> {
    if text::rfind_char(name, '.') >= 0 {
        text::ascii_lower_text(
            name.subrange(text::rfind_char(name, '.') + 1, name.len() as int),
        )
    } else {
        seq![]
    }
}

/// Apple uniform type identifier for a filename's suffix.
pub open spec fn uti_of(ext: Seq<char>) -> Seq<char> {
    if ext == "jpg"@ || ext == "jpeg"@ {
        "public.jpeg"@
    } else if ext == "png"@ {
        "public.png"@
    } else if ext == "gif"@ {
        "com.compuserve.gif"@
    } else if ext == "heic"@ {
        "public.heic"@
    } else if ext == "heif"@ {
        "public.heif"@
    } else if ext == "webp"@ {
        "org.webmproject.webp"@
    } else if ext == "tiff"@ || ext == "tif"@ {
        "public.tiff"@
    } else if ext == "mov"@ {
        "com.apple.quicktime-movie"@
    } else if ext == "mp4"@ || ext == "m4v"@ {
        "public.mpeg-4"@
    } else if ext == "pdf"@ {
        "com.adobe.pdf"@
    } else if ext == "txt"@ {
        "public.plain-text"@
    } else if ext == "zip"@ {
        "public.zip-archive"@
    } else if ext == "mp3"@ {
        "public.mp3"@
    } else if ext == "m4a"@ {
        "com.apple.m4a-audio"@
    } else {
        "public.data"@
    }
}

/// Apple uniform type identifier for a filename.
///
/// The receiver groups an offer by type, and a wrong one can make it refuse the batch. Unknown
/// extensions get `public.data`, which is the honest answer and is accepted alone.
pub fn uti_for(name: &str) -> (r: &'static str)
    ensures
        r@ == uti_of(suffix(name@)),
{
    let v = text::chars_of(name);
    let after: usize = text::after_last(&v, '.');
    let tail: String = if after > 0 {
        text::text_of(&v, after, v.len())
    } else {
        String::new()
    };
    let ext: String = text::to_lower(tail.as_str());
    assert(ext@ =~= suffix(name@));
    let e: &str = ext.as_str();
    if text::same(e, "jpg") || text::same(e, "jpeg") {
        "public.jpeg"
    } else if text::same(e, "png") {
        "public.png"
    } else if text::same(e, "gif") {
        "com.compuserve.gif"
    } else if text::same(e, "heic") {
        "public.heic"
    } else if text::same(e, "heif") {
        "public.heif"
    } else if text::same(e, "webp") {
        "org.webmproject.webp"
    } else if text::same(e, "tiff") || text::same(e, "tif") {
        "public.tiff"
    } else if text::same(e, "mov") {
        "com.apple.quicktime-movie"
    } else if text::same(e, "mp4") || text::same(e, "m4v") {
        "public.mpeg-4"
    } else if text::same(e, "pdf") {
        "com.adobe.pdf"
    } else if text::same(e, "txt") {
        "public.plain-text"
    } else if text::same(e, "zip") {
        "public.zip-archive"
    } else if text::same(e, "mp3") {
        "public.mp3"
    } else if text::same(e, "m4a") {
        "com.apple.m4a-audio"
    } else {
        "public.data"
    }
}

/// The path of a file in the archive. The receiver looks the entry up by this, so the offer
/// and the archive have to agree exactly.
pub open spec fn archive_path(name: Seq<char>) -> Seq<char> {
    "./"@ + name
}

pub fn entry_name(name: &str) -> (r: String)
    ensures
        r@ == archive_path(name@),
{
    let mut out = String::new();
    out.append("./");
    out.append(name);
    assert(out@ =~= archive_path(name@));
    out
}

/// The mode of a plain file that anybody may read and its owner may write.
pub const ENTRY_MODE: u32 = 0o100644;

/// What the archive says of a file ahead of its bytes.
#[derive(Debug)]
pub struct Entry {
    pub name: String,
    pub size: u64,
    pub mode: u32,
}

/// The name, the size and the mode that a file has in the archive.
pub open spec fn entry_of(name: Seq<char>, size: u64) -> (Seq<char>, u64, u32) {
    (archive_path(name), size, ENTRY_MODE)
}

pub fn entry(name: &str, size: u64) -> (r: Entry)
    ensures
        r.name@ == archive_path(name@),
        r.size == size,
        r.mode == ENTRY_MODE,
        (r.name@, r.size, r.mode) == entry_of(name@, size),
{
    Entry { name: entry_name(name), size, mode: ENTRY_MODE }
}

pub open spec fn file_doc(name: Seq<char>) -> Doc {
    Doc::Dict(
        seq![
            "FileName"@,
            "FileType"@,
            "FileBomPath"@,
            "FileIsDirectory"@,
            "ConvertedMediaFormats"@,
        ],
        seq![
            Doc::Str(name),
            Doc::Str(uti_of(suffix(name))),
            Doc::Str(archive_path(name)),
            Doc::Bool(false),
            Doc::Bool(false),
        ],
    )
}

pub open spec fn ask_doc(names: Seq<Seq<char>>, sender: Seq<char>, model: Seq<char>) -> Doc {
    Doc::Dict(
        seq![
            "SenderComputerName"@,
            "SenderModelName"@,
            "BundleID"@,
            "ConvertMediaFormats"@,
            "Files"@,
        ],
        seq![
            Doc::Str(sender),
            Doc::Str(model),
            // Apple's own sender identifies as Finder. A receiver may key behaviour off this.
            Doc::Str("com.apple.finder"@),
            Doc::Bool(false),
            Doc::Array(Seq::new(names.len(), |i: int| file_doc(names[i]))),
        ],
    )
}

pub open spec fn item_names(items: Seq<Item>) -> Seq<Seq<char>> {
    Seq::new(items.len(), |i: int| items[i].name@)
}

fn file_value(name: &str) -> (r: Value)
    ensures
        r.doc() == file_doc(name@),
{
    let uti: &str = uti_for(name);
    let entries: Vec<(String, Value)> = vec![
        ("FileName".to_owned(), Value::Str(name.to_owned())),
        ("FileType".to_owned(), Value::Str(uti.to_owned())),
        ("FileBomPath".to_owned(), Value::Str(entry_name(name))),
        ("FileIsDirectory".to_owned(), Value::Bool(false)),
        ("ConvertedMediaFormats".to_owned(), Value::Bool(false)),
    ];
    let r = Value::Dict(entries);
    proof {
        let d = r.doc();
        let e = file_doc(name@);
        reveal_with_fuel(Value::doc, 3);
        assert(d->Dict_0 =~= e->Dict_0);
        assert(d->Dict_1 =~= e->Dict_1);
    }
    r
}

/// The body of `/Ask`.
pub fn ask_body(items: &Vec<Item>, sender_name: &str, sender_model: &str) -> (r: Vec<u8>)
    ensures
        r@ == plist::encoded(ask_doc(item_names(items@), sender_name@, sender_model@)),
{
    let mut files: Vec<Value> = Vec::new();
    let mut i: usize = 0;
    while i < items.len()
        invariant
            i <= items@.len(),
            files@.len() == i,
            forall|j: int|
                0 <= j < i ==> (#[trigger] files@[j]).doc() == file_doc(items@[j].name@),
        decreases items@.len() - i,
    {
        files.push(file_value(items[i].name.as_str()));
        i += 1;
    }
    let array = Value::Array(files);
    proof {
        let names = item_names(items@);
        assert(array.doc()->Array_0 =~= Seq::new(names.len(), |i: int| file_doc(names[i])));
    }
    let entries: Vec<(String, Value)> = vec![
        ("SenderComputerName".to_owned(), Value::Str(sender_name.to_owned())),
        ("SenderModelName".to_owned(), Value::Str(sender_model.to_owned())),
        ("BundleID".to_owned(), Value::Str("com.apple.finder".to_owned())),
        ("ConvertMediaFormats".to_owned(), Value::Bool(false)),
        ("Files".to_owned(), array),
    ];
    let root = Value::Dict(entries);
    proof {
        let d = root.doc();
        let e = ask_doc(item_names(items@), sender_name@, sender_model@);
        reveal_with_fuel(Value::doc, 3);
        assert(d->Dict_0 =~= e->Dict_0);
        assert(d->Dict_1 =~= e->Dict_1);
    }
    plist::encode(&root)
}

/// The leaves of some names, those that have none left out.
pub open spec fn leaves(names: Seq<Seq<char>>) -> Seq<Seq<char>>
    decreases names.len(),
{
    if names.len() == 0 {
        seq![]
    } else {
        let before = leaves(names.drop_last());
        let l = httpd::last_component(names.last());
        if l.len() > 0 {
            before.push(l)
        } else {
            before
        }
    }
}

proof fn lemma_file_lookup(name: Seq<char>)
    ensures
        httpd::offered_name(file_doc(name)) == httpd::last_component(name),
{
    let d = file_doc(name);
    let keys = d->Dict_0;
    assert(keys[0] == "FileName"@);
}

proof fn lemma_offered_names(names: Seq<Seq<char>>)
    ensures
        httpd::offered_names(Seq::new(names.len(), |i: int| file_doc(names[i]))) == leaves(names),
    decreases names.len(),
{
    let docs = Seq::new(names.len(), |i: int| file_doc(names[i]));
    if names.len() > 0 {
        let d = names.drop_last();
        lemma_offered_names(d);
        assert(docs.drop_last() =~= Seq::new(d.len(), |i: int| file_doc(d[i])));
        lemma_file_lookup(names.last());
        assert(docs.last() == file_doc(names.last()));
    }
}

proof fn lemma_ask_is_read(names: Seq<Seq<char>>, sender: Seq<char>, model: Seq<char>)
    requires
        plist_laws::lengths_fit(ask_doc(names, sender, model)),
        names.len() <= 371,
    ensures
        plist::parsed(plist::encoded(ask_doc(names, sender, model))) == Some(
            ask_doc(names, sender, model),
        ),
{
    let d = ask_doc(names, sender, model);
    let values = d->Dict_1;
    let files = values[4]->Array_0;
    lemma_files_size(names);
    lemma_files_height(names);
    assert(plist::writable(d)) by {
        assert forall|i: int| 0 <= i < files.len() implies plist::writable(
            #[trigger] files[i],
        ) by {
            let f = file_doc(names[i]);
            assert(f->Dict_0.len() == f->Dict_1.len());
            assert(forall|j: int|
                0 <= j < f->Dict_1.len() ==> plist::writable(#[trigger] f->Dict_1[j]));
        }
        assert(plist::writable(values[4]));
        assert forall|i: int| 0 <= i < values.len() implies plist::writable(
            #[trigger] values[i],
        ) by {
            assert(i == 0 || i == 1 || i == 2 || i == 3 || i == 4);
        }
    }
    assert(plist::size(d) <= plist::MAX_ELEMENTS) by {
        lemma_size_five(values);
    }
    assert(plist_laws::height(d) <= plist::MAX_DEPTH) by {
        lemma_height_five(values);
    }
    plist_laws::law_plist_round_trip(d);
}

/// An offer is shown as what it is: the receiver reads back who is sending, and the names of
/// the files. So that it can be read at all it must not have more parts than a reader takes.
pub proof fn law_offer_is_described(names: Seq<Seq<char>>, sender: Seq<char>, model: Seq<char>)
    requires
        plist_laws::lengths_fit(ask_doc(names, sender, model)),
        names.len() <= 371,
    ensures
        httpd::offer_in(plist::encoded(ask_doc(names, sender, model))) == (sender, leaves(names)),
{
    let keys = ask_doc(names, sender, model)->Dict_0;
    lemma_ask_is_read(names, sender, model);
    lemma_offered_names(names);
    lemma_ask_keys();
    plist::lemma_first_key(keys, "Files"@, 4);
    plist::lemma_first_key(keys, "SenderComputerName"@, 0);
}

proof fn lemma_ask_lookups(names: Seq<Seq<char>>, sender: Seq<char>, model: Seq<char>)
    ensures
        ({
            let d = ask_doc(names, sender, model);
            &&& plist::lookup(d, "SenderComputerName"@) == Some(d->Dict_1[0])
            &&& plist::lookup(d, "SenderModelName"@) == Some(d->Dict_1[1])
            &&& plist::lookup(d, "BundleID"@) == Some(d->Dict_1[2])
            &&& plist::lookup(d, "ConvertMediaFormats"@) == Some(d->Dict_1[3])
            &&& plist::lookup(d, "Files"@) == Some(d->Dict_1[4])
        }),
{
    let keys = ask_doc(names, sender, model)->Dict_0;
    lemma_ask_keys();
    reveal_strlit("SenderComputerName");
    reveal_strlit("SenderModelName");
    reveal_strlit("BundleID");
    reveal_strlit("ConvertMediaFormats");
    assert("SenderComputerName"@.len() == 18 && "SenderModelName"@.len() == 15);
    assert("BundleID"@.len() == 8 && "ConvertMediaFormats"@.len() == 19);
    plist::lemma_first_key(keys, "SenderComputerName"@, 0);
    plist::lemma_first_key(keys, "SenderModelName"@, 1);
    plist::lemma_first_key(keys, "BundleID"@, 2);
    plist::lemma_first_key(keys, "ConvertMediaFormats"@, 3);
    plist::lemma_first_key(keys, "Files"@, 4);
}

proof fn lemma_file_lookups(name: Seq<char>)
    ensures
        ({
            let f = file_doc(name);
            &&& plist::lookup(f, "FileName"@) == Some(f->Dict_1[0])
            &&& plist::lookup(f, "FileType"@) == Some(f->Dict_1[1])
            &&& plist::lookup(f, "FileBomPath"@) == Some(f->Dict_1[2])
            &&& plist::lookup(f, "FileIsDirectory"@) == Some(f->Dict_1[3])
            &&& plist::lookup(f, "ConvertedMediaFormats"@) == Some(f->Dict_1[4])
        }),
{
    let own = file_doc(name)->Dict_0;
    reveal_strlit("FileName");
    reveal_strlit("FileType");
    reveal_strlit("FileBomPath");
    reveal_strlit("FileIsDirectory");
    reveal_strlit("ConvertedMediaFormats");
    assert("FileName"@[4] == 'N' && "FileType"@[4] == 'T');
    assert("FileName"@.len() == 8 && "FileType"@.len() == 8 && "FileBomPath"@.len() == 11);
    assert("FileIsDirectory"@.len() == 15 && "ConvertedMediaFormats"@.len() == 21);
    plist::lemma_first_key(own, "FileName"@, 0);
    plist::lemma_first_key(own, "FileType"@, 1);
    plist::lemma_first_key(own, "FileBomPath"@, 2);
    plist::lemma_first_key(own, "FileIsDirectory"@, 3);
    plist::lemma_first_key(own, "ConvertedMediaFormats"@, 4);
}

/// What is offered is what is sent. Read back from the encoded offer, there is one entry for each
/// file, in order; each is a file and no directory, nothing is converted, its name is the file's,
/// its type is the one that goes with the name, and its path is the very name under which the
/// archive holds it. The sender is the one that sends.
pub proof fn law_offer_says_what_is_sent(
    names: Seq<Seq<char>>,
    sender: Seq<char>,
    model: Seq<char>,
    i: int,
    size: u64,
)
    requires
        plist_laws::lengths_fit(ask_doc(names, sender, model)),
        names.len() <= 371,
        0 <= i < names.len(),
    ensures
        ({
            let read = plist::parsed(plist::encoded(ask_doc(names, sender, model)));
            let files = plist::lookup(read->0, "Files"@);
            let file = files->0->Array_0[i];
            let path = plist::lookup(file, "FileBomPath"@);
            &&& read is Some
            &&& plist::lookup(read->0, "SenderComputerName"@) == Some(Doc::Str(sender))
            &&& plist::lookup(read->0, "SenderModelName"@) == Some(Doc::Str(model))
            &&& plist::lookup(read->0, "BundleID"@) == Some(Doc::Str("com.apple.finder"@))
            &&& plist::lookup(read->0, "ConvertMediaFormats"@) == Some(Doc::Bool(false))
            &&& files is Some && files->0 is Array
            &&& files->0->Array_0.len() == names.len()
            &&& plist::lookup(file, "FileName"@) == Some(Doc::Str(names[i]))
            &&& plist::lookup(file, "FileType"@) == Some(Doc::Str(uti_of(suffix(names[i]))))
            &&& plist::lookup(file, "FileIsDirectory"@) == Some(Doc::Bool(false))
            &&& plist::lookup(file, "ConvertedMediaFormats"@) == Some(Doc::Bool(false))
            &&& path == Some(Doc::Str(entry_of(names[i], size).0))
            &&& path == Some(Doc::Str(seq!['.', '/'] + names[i]))
        }),
{
    lemma_ask_is_read(names, sender, model);
    lemma_ask_lookups(names, sender, model);
    lemma_file_lookups(names[i]);
    reveal_strlit("./");
    assert("./"@ =~= seq!['.', '/']);
}

/// The archive says of a file what it is: a plain file of its own size that its owner may read
/// and write and anybody else may read. Two files have one path only if they have one name.
pub proof fn law_entry_is_a_plain_file(name: Seq<char>, other: Seq<char>, size: u64)
    ensures
        entry_of(name, size).1 == size,
        entry_of(name, size).2 & 0o170000 == 0o100000,
        entry_of(name, size).2 & 0o7777 == 0o644,
        entry_of(name, size).0 == entry_of(other, size).0 ==> name == other,
{
    assert(0o100644u32 & 0o170000 == 0o100000) by (bit_vector);
    assert(0o100644u32 & 0o7777 == 0o644) by (bit_vector);
    let n = "./"@.len() as int;
    assert(archive_path(name).skip(n) =~= name);
    assert(archive_path(other).skip(n) =~= other);
}

proof fn lemma_suffix(stem: Seq<char>, ext: Seq<char>)
    requires
        !ext.contains('.'),
    ensures
        suffix(stem + seq!['.'] + ext) == text::ascii_lower_text(ext),
    decreases ext.len(),
{
    let name = stem + seq!['.'] + ext;
    lemma_last_dot(stem, ext);
    assert(name.subrange(stem.len() as int + 1, name.len() as int) =~= ext);
}

proof fn lemma_last_dot(stem: Seq<char>, ext: Seq<char>)
    requires
        !ext.contains('.'),
    ensures
        text::rfind_char(stem + seq!['.'] + ext, '.') == stem.len(),
    decreases ext.len(),
{
    let name = stem + seq!['.'] + ext;
    if ext.len() > 0 {
        assert(ext.contains(ext.last()));
        assert(name.drop_last() =~= stem + seq!['.'] + ext.drop_last());
        assert(name.last() == ext.last());
        assert(!ext.drop_last().contains('.')) by {
            if ext.drop_last().contains('.') {
                let k = choose|k: int| 0 <= k < ext.drop_last().len() && ext.drop_last()[k] == '.';
                assert(ext[k] == '.');
            }
        }
        lemma_last_dot(stem, ext.drop_last());
    } else {
        assert(name.last() == '.');
    }
}

proof fn lemma_no_dot(name: Seq<char>)
    requires
        !name.contains('.'),
    ensures
        text::rfind_char(name, '.') == -1,
    decreases name.len(),
{
    if name.len() > 0 {
        assert(name.contains(name.last()));
        assert(!name.drop_last().contains('.')) by {
            if name.drop_last().contains('.') {
                let k = choose|k: int|
                    0 <= k < name.drop_last().len() && name.drop_last()[k] == '.';
                assert(name[k] == '.');
            }
        }
        lemma_no_dot(name.drop_last());
    }
}

/// The type of a file goes by what is behind the last dot of its name, in letters of any size,
/// and by nothing in front of it: each type goes with the suffixes that are its own and with no
/// others, and all other files are data.
#[verifier::rlimit(40)]
pub proof fn law_type_goes_by_the_suffix(stem: Seq<char>, ext: Seq<char>)
    requires
        !ext.contains('.'),
    ensures
        ({
            let t = uti_of(suffix(stem + seq!['.'] + ext));
            &&& text::same_letters(ext, "jpg"@) || text::same_letters(ext, "jpeg"@) ==> t == "public.jpeg"@
            &&& text::same_letters(ext, "png"@) ==> t == "public.png"@
            &&& text::same_letters(ext, "gif"@) ==> t == "com.compuserve.gif"@
            &&& text::same_letters(ext, "heic"@) ==> t == "public.heic"@
            &&& text::same_letters(ext, "heif"@) ==> t == "public.heif"@
            &&& text::same_letters(ext, "webp"@) ==> t == "org.webmproject.webp"@
            &&& text::same_letters(ext, "tiff"@) || text::same_letters(ext, "tif"@) ==> t == "public.tiff"@
            &&& text::same_letters(ext, "mov"@) ==> t == "com.apple.quicktime-movie"@
            &&& text::same_letters(ext, "mp4"@) || text::same_letters(ext, "m4v"@) ==> t == "public.mpeg-4"@
            &&& text::same_letters(ext, "pdf"@) ==> t == "com.adobe.pdf"@
            &&& text::same_letters(ext, "txt"@) ==> t == "public.plain-text"@
            &&& text::same_letters(ext, "zip"@) ==> t == "public.zip-archive"@
            &&& text::same_letters(ext, "mp3"@) ==> t == "public.mp3"@
            &&& text::same_letters(ext, "m4a"@) ==> t == "com.apple.m4a-audio"@
            &&& !(text::same_letters(ext, "jpg"@) || text::same_letters(ext, "jpeg"@) || text::same_letters(
                ext,
                "png"@,
            ) || text::same_letters(ext, "gif"@) || text::same_letters(ext, "heic"@) || text::same_letters(
                ext,
                "heif"@,
            ) || text::same_letters(ext, "webp"@) || text::same_letters(ext, "tiff"@) || text::same_letters(
                ext,
                "tif"@,
            ) || text::same_letters(ext, "mov"@) || text::same_letters(ext, "mp4"@) || text::same_letters(
                ext,
                "m4v"@,
            ) || text::same_letters(ext, "pdf"@) || text::same_letters(ext, "txt"@) || text::same_letters(
                ext,
                "zip"@,
            ) || text::same_letters(ext, "mp3"@) || text::same_letters(ext, "m4a"@)) ==> t == "public.data"@
        }),
{
    lemma_suffix(stem, ext);
    lemma_known_suffixes();
    text::lemma_small(ext, "jpg"@);
    text::lemma_small(ext, "jpeg"@);
    text::lemma_small(ext, "png"@);
    text::lemma_small(ext, "gif"@);
    text::lemma_small(ext, "heic"@);
    text::lemma_small(ext, "heif"@);
    text::lemma_small(ext, "webp"@);
    text::lemma_small(ext, "tiff"@);
    text::lemma_small(ext, "tif"@);
    text::lemma_small(ext, "mov"@);
    text::lemma_small(ext, "mp4"@);
    text::lemma_small(ext, "m4v"@);
    text::lemma_small(ext, "pdf"@);
    text::lemma_small(ext, "txt"@);
    text::lemma_small(ext, "zip"@);
    text::lemma_small(ext, "mp3"@);
    text::lemma_small(ext, "m4a"@);
}

/// A file whose name has no dot is data.
pub proof fn law_no_suffix_is_data(name: Seq<char>)
    requires
        !name.contains('.'),
    ensures
        uti_of(suffix(name)) == "public.data"@,
{
    lemma_no_dot(name);
    lemma_known_suffixes();
    assert(suffix(name).len() == 0);
    assert("jpg"@.len() == 3);
    assert("jpeg"@.len() == 4);
    assert("png"@.len() == 3);
    assert("gif"@.len() == 3);
    assert("heic"@.len() == 4);
    assert("heif"@.len() == 4);
    assert("webp"@.len() == 4);
    assert("tiff"@.len() == 4);
    assert("tif"@.len() == 3);
    assert("mov"@.len() == 3);
    assert("mp4"@.len() == 3);
    assert("m4v"@.len() == 3);
    assert("pdf"@.len() == 3);
    assert("txt"@.len() == 3);
    assert("zip"@.len() == 3);
    assert("mp3"@.len() == 3);
    assert("m4a"@.len() == 3);
}

proof fn lemma_known_suffixes()
    ensures
        text::small("jpg"@) && text::small("jpeg"@) && text::small("png"@) && text::small("gif"@) && text::small("heic"@)
            && text::small("heif"@) && text::small("webp"@) && text::small("tiff"@) && text::small("tif"@) && text::small(
            "mov"@,
        ) && text::small("mp4"@) && text::small("m4v"@) && text::small("pdf"@) && text::small("txt"@) && text::small("zip"@)
            && text::small("mp3"@) && text::small("m4a"@),
        "jpg"@ == seq!['j', 'p', 'g'],
        "jpeg"@ == seq!['j', 'p', 'e', 'g'],
        "png"@ == seq!['p', 'n', 'g'],
        "gif"@ == seq!['g', 'i', 'f'],
        "heic"@ == seq!['h', 'e', 'i', 'c'],
        "heif"@ == seq!['h', 'e', 'i', 'f'],
        "webp"@ == seq!['w', 'e', 'b', 'p'],
        "tiff"@ == seq!['t', 'i', 'f', 'f'],
        "tif"@ == seq!['t', 'i', 'f'],
        "mov"@ == seq!['m', 'o', 'v'],
        "mp4"@ == seq!['m', 'p', '4'],
        "m4v"@ == seq!['m', '4', 'v'],
        "pdf"@ == seq!['p', 'd', 'f'],
        "txt"@ == seq!['t', 'x', 't'],
        "zip"@ == seq!['z', 'i', 'p'],
        "mp3"@ == seq!['m', 'p', '3'],
        "m4a"@ == seq!['m', '4', 'a'],
{
    reveal_strlit("jpg");
    reveal_strlit("jpeg");
    reveal_strlit("png");
    reveal_strlit("gif");
    reveal_strlit("heic");
    reveal_strlit("heif");
    reveal_strlit("webp");
    reveal_strlit("tiff");
    reveal_strlit("tif");
    reveal_strlit("mov");
    reveal_strlit("mp4");
    reveal_strlit("m4v");
    reveal_strlit("pdf");
    reveal_strlit("txt");
    reveal_strlit("zip");
    reveal_strlit("mp3");
    reveal_strlit("m4a");
    assert("jpg"@ =~= seq!['j', 'p', 'g']);
    assert("jpeg"@ =~= seq!['j', 'p', 'e', 'g']);
    assert("png"@ =~= seq!['p', 'n', 'g']);
    assert("gif"@ =~= seq!['g', 'i', 'f']);
    assert("heic"@ =~= seq!['h', 'e', 'i', 'c']);
    assert("heif"@ =~= seq!['h', 'e', 'i', 'f']);
    assert("webp"@ =~= seq!['w', 'e', 'b', 'p']);
    assert("tiff"@ =~= seq!['t', 'i', 'f', 'f']);
    assert("tif"@ =~= seq!['t', 'i', 'f']);
    assert("mov"@ =~= seq!['m', 'o', 'v']);
    assert("mp4"@ =~= seq!['m', 'p', '4']);
    assert("m4v"@ =~= seq!['m', '4', 'v']);
    assert("pdf"@ =~= seq!['p', 'd', 'f']);
    assert("txt"@ =~= seq!['t', 'x', 't']);
    assert("zip"@ =~= seq!['z', 'i', 'p']);
    assert("mp3"@ =~= seq!['m', 'p', '3']);
    assert("m4a"@ =~= seq!['m', '4', 'a']);
}

proof fn lemma_ask_keys()
    ensures
        "Files"@ != "SenderComputerName"@,
        "Files"@ != "SenderModelName"@,
        "Files"@ != "BundleID"@,
        "Files"@ != "ConvertMediaFormats"@,
{
    reveal_strlit("Files");
    reveal_strlit("SenderComputerName");
    reveal_strlit("SenderModelName");
    reveal_strlit("BundleID");
    reveal_strlit("ConvertMediaFormats");
    assert("Files"@.len() == 5);
    assert("SenderComputerName"@.len() == 18);
    assert("SenderModelName"@.len() == 15);
    assert("BundleID"@.len() == 8);
    assert("ConvertMediaFormats"@.len() == 19);
}

proof fn lemma_size_five(v: Seq<Doc>)
    requires
        v.len() == 5,
    ensures
        plist::size_all(v) == plist::size(v[0]) + plist::size(v[1]) + plist::size(v[2])
            + plist::size(v[3]) + plist::size(v[4]),
{
    reveal_with_fuel(plist::size_all, 6);
    let a = v.drop_last();
    let b = a.drop_last();
    let c = b.drop_last();
    let e = c.drop_last();
    assert(v.last() == v[4] && a.last() == v[3] && b.last() == v[2] && c.last() == v[1]
        && e.last() == v[0]);
    assert(e.drop_last().len() == 0);
}

proof fn lemma_height_five(v: Seq<Doc>)
    requires
        v.len() == 5,
        forall|i: int| 0 <= i < 5 ==> plist_laws::height(#[trigger] v[i]) <= 2,
    ensures
        plist_laws::height_all(v) <= 2,
{
    reveal_with_fuel(plist_laws::height_all, 6);
    let a = v.drop_last();
    let b = a.drop_last();
    let c = b.drop_last();
    let e = c.drop_last();
    assert(v.last() == v[4] && a.last() == v[3] && b.last() == v[2] && c.last() == v[1]
        && e.last() == v[0]);
    assert(e.drop_last().len() == 0);
}

proof fn lemma_file_size(name: Seq<char>)
    ensures
        plist::size(file_doc(name)) == 11,
        plist_laws::height(file_doc(name)) == 1,
{
    let v = file_doc(name)->Dict_1;
    lemma_size_five(v);
    reveal_with_fuel(plist_laws::height_all, 6);
    reveal_with_fuel(plist_laws::height, 6);
    let a = v.drop_last();
    let b = a.drop_last();
    let c = b.drop_last();
    let e = c.drop_last();
    assert(v.last() == v[4] && a.last() == v[3] && b.last() == v[2] && c.last() == v[1]
        && e.last() == v[0]);
    assert(e.drop_last().len() == 0);
}

proof fn lemma_files_size(names: Seq<Seq<char>>)
    ensures
        plist::size_all(Seq::new(names.len(), |i: int| file_doc(names[i]))) == 11 * names.len(),
    decreases names.len(),
{
    let docs = Seq::new(names.len(), |i: int| file_doc(names[i]));
    if names.len() > 0 {
        let d = names.drop_last();
        lemma_files_size(d);
        assert(docs.drop_last() =~= Seq::new(d.len(), |i: int| file_doc(d[i])));
        lemma_file_size(names.last());
        assert(docs.last() == file_doc(names.last()));
    }
}

proof fn lemma_files_height(names: Seq<Seq<char>>)
    ensures
        plist_laws::height_all(Seq::new(names.len(), |i: int| file_doc(names[i]))) <= 1,
    decreases names.len(),
{
    let docs = Seq::new(names.len(), |i: int| file_doc(names[i]));
    if names.len() > 0 {
        let d = names.drop_last();
        lemma_files_height(d);
        assert(docs.drop_last() =~= Seq::new(d.len(), |i: int| file_doc(d[i])));
        lemma_file_size(names.last());
        assert(docs.last() == file_doc(names.last()));
    }
}

// ------------------------------------------------------------------- the send ---

/// How a send ends.
#[derive(Debug, Clone, Copy, PartialEq, Eq, Structural)]
pub enum Outcome {
    Sent,
    NothingToSend,
    /// The peer declined, which is a normal outcome and not a fault.
    Declined(u16),
    Cancelled,
    /// The peer took the files and then refused them.
    Rejected(u16),
}

/// How far a send has come.
#[derive(Debug, Clone, Copy, PartialEq, Eq, Structural)]
pub enum Stage {
    Start,
    Asked,
    /// The files before this one are in the archive.
    Next(usize),
    /// The archive is complete.
    Complete,
    Over,
}

#[derive(Debug, Clone, Copy, PartialEq, Eq, Structural)]
pub enum SendEvent {
    Begin,
    /// The status of a response.
    Replied(u16),
    CancelChecked(bool),
    /// A file went into the archive, with so many bytes.
    Appended(u64),
}

#[derive(Debug, Clone, Copy, PartialEq, Eq, Structural)]
pub enum SendAction {
    /// Connect, and offer the files, keeping the connection.
    Ask,
    /// Send the head of an upload of so many bytes.
    BeginUpload { total: u64 },
    CheckCancelled,
    /// Put a file into the archive.
    Append { index: usize },
    Report { done: u64, total: u64 },
    /// End the archive, the frames around it, and the body.
    EndUpload,
    End(Outcome),
}

pub open spec fn total_size(items: Seq<Item>) -> nat
    decreases items.len(),
{
    if items.len() == 0 {
        0
    } else {
        total_size(items.drop_last()) + items.last().size as nat
    }
}

impl Stage {
    /// The next file, or the end.
    pub open spec fn going_on(next: usize, count: nat) -> (Stage, Seq<SendAction>) {
        if next < count {
            (Stage::Next(next), seq![SendAction::CheckCancelled])
        } else {
            (Stage::Complete, seq![SendAction::EndUpload])
        }
    }

    pub open spec fn after(
        self,
        ev: SendEvent,
        count: nat,
        done: u64,
        total: u64,
    ) -> (Stage, Seq<SendAction>) {
        match (self, ev) {
            (Stage::Start, SendEvent::Begin) => if count == 0 {
                (Stage::Over, seq![SendAction::End(Outcome::NothingToSend)])
            } else {
                (Stage::Asked, seq![SendAction::Ask])
            },
            (Stage::Asked, SendEvent::Replied(status)) => if status != 200 {
                (Stage::Over, seq![SendAction::End(Outcome::Declined(status))])
            } else {
                let (next, actions) = Self::going_on(0, count);
                (next, seq![SendAction::BeginUpload { total }] + actions)
            },
            (Stage::Next(i), SendEvent::CancelChecked(cancelled)) => if cancelled {
                (Stage::Over, seq![SendAction::End(Outcome::Cancelled)])
            } else {
                (self, seq![SendAction::Append { index: i }])
            },
            (Stage::Next(i), SendEvent::Appended(n)) => {
                let (next, actions) = Self::going_on((i + 1) as usize, count);
                (next, seq![SendAction::Report { done: (done + n) as u64, total }] + actions)
            },
            (Stage::Complete, SendEvent::Replied(status)) => (
                Stage::Over,
                seq![
                    SendAction::End(
                        if status == 200 {
                            Outcome::Sent
                        } else {
                            Outcome::Rejected(status)
                        },
                    ),
                ],
            ),
            _ => (self, seq![]),
        }
    }
}

/// A send, from the offer to the peer's last word.
pub struct AirDrop {
    stage: Stage,
    count: usize,
    done: u64,
    total: u64,
}

impl AirDrop {
    pub closed spec fn stage(&self) -> Stage {
        self.stage
    }

    pub closed spec fn count(&self) -> nat {
        self.count as nat
    }

    pub closed spec fn done(&self) -> u64 {
        self.done
    }

    pub closed spec fn total(&self) -> u64 {
        self.total
    }

    /// A file that is next is one of the files.
    pub open spec fn wf(&self) -> bool {
        self.stage() matches Stage::Next(i) ==> i < self.count()
    }

    pub fn new(items: &Vec<Item>) -> (r: AirDrop)
        requires
            total_size(items@) <= u64::MAX,
        ensures
            r.wf(),
            r.stage() == Stage::Start,
            r.count() == items@.len(),
            r.done() == 0,
            r.total() == total_size(items@),
    {
        let mut total: u64 = 0;
        let mut i: usize = 0;
        assert(items@.subrange(0, 0) =~= seq![]);
        while i < items.len()
            invariant
                i <= items@.len(),
                total == total_size(items@.subrange(0, i as int)),
                total_size(items@) <= u64::MAX,
            decreases items@.len() - i,
        {
            proof {
                let part = items@.subrange(0, i + 1);
                assert(part.drop_last() =~= items@.subrange(0, i as int));
                lemma_total_grows(items@, i + 1);
            }
            total = total + items[i].size;
            i += 1;
        }
        assert(items@.subrange(0, i as int) =~= items@);
        AirDrop { stage: Stage::Start, count: items.len(), done: 0, total }
    }

    fn go_on(&mut self, next: usize, out: &mut Vec<SendAction>)
        requires
            next <= old(self).count(),
        ensures
            final(self).stage() == Stage::going_on(next, old(self).count()).0,
            final(self).wf(),
            final(self).count() == old(self).count(),
            final(self).done() == old(self).done(),
            final(self).total() == old(self).total(),
            final(out)@ == old(out)@ + Stage::going_on(next, old(self).count()).1,
    {
        if next < self.count {
            self.stage = Stage::Next(next);
            out.push(SendAction::CheckCancelled);
        } else {
            self.stage = Stage::Complete;
            out.push(SendAction::EndUpload);
        }
        assert(out@ =~= old(out)@ + Stage::going_on(next, old(self).count()).1);
    }

    pub fn step(&mut self, ev: SendEvent) -> (r: Vec<SendAction>)
        requires
            old(self).wf(),
            ev matches SendEvent::Appended(n) ==> old(self).done() + n <= u64::MAX,
        ensures
            final(self).wf(),
            (final(self).stage(), r@) == old(self).stage().after(
                ev,
                old(self).count(),
                old(self).done(),
                old(self).total(),
            ),
            final(self).count() == old(self).count(),
            final(self).total() == old(self).total(),
            final(self).done() == (match (old(self).stage(), ev) {
                (Stage::Next(_), SendEvent::Appended(n)) => (old(self).done() + n) as u64,
                _ => old(self).done(),
            }),
    {
        let mut out: Vec<SendAction> = Vec::new();
        match (self.stage, ev) {
            (Stage::Start, SendEvent::Begin) => {
                if self.count == 0 {
                    self.stage = Stage::Over;
                    out.push(SendAction::End(Outcome::NothingToSend));
                } else {
                    self.stage = Stage::Asked;
                    out.push(SendAction::Ask);
                }
            },
            (Stage::Asked, SendEvent::Replied(status)) => {
                if status != 200 {
                    self.stage = Stage::Over;
                    out.push(SendAction::End(Outcome::Declined(status)));
                } else {
                    out.push(SendAction::BeginUpload { total: self.total });
                    self.go_on(0, &mut out);
                }
            },
            (Stage::Next(i), SendEvent::CancelChecked(cancelled)) => {
                if cancelled {
                    self.stage = Stage::Over;
                    out.push(SendAction::End(Outcome::Cancelled));
                } else {
                    out.push(SendAction::Append { index: i });
                }
            },
            (Stage::Next(i), SendEvent::Appended(n)) => {
                self.done = self.done + n;
                out.push(SendAction::Report { done: self.done, total: self.total });
                self.go_on(i + 1, &mut out);
            },
            (Stage::Complete, SendEvent::Replied(status)) => {
                self.stage = Stage::Over;
                if status == 200 {
                    out.push(SendAction::End(Outcome::Sent));
                } else {
                    out.push(SendAction::End(Outcome::Rejected(status)));
                }
            },
            _ => {},
        }
        assert(out@ =~= old(self).stage().after(
            ev,
            old(self).count(),
            old(self).done(),
            old(self).total(),
        ).1);
        out
    }
}

proof fn lemma_total_grows(items: Seq<Item>, n: int)
    requires
        0 <= n <= items.len(),
    ensures
        total_size(items.subrange(0, n)) <= total_size(items),
    decreases items.len() - n,
{
    if n < items.len() {
        lemma_total_grows(items, n + 1);
        assert(items.subrange(0, n + 1).drop_last() =~= items.subrange(0, n));
    } else {
        assert(items.subrange(0, n) =~= items);
    }
}

/// Nothing of any file leaves before the peer has accepted the offer.
pub proof fn law_no_file_before_acceptance(
    s: Stage,
    ev: SendEvent,
    count: nat,
    done: u64,
    total: u64,
)
    requires
        s == Stage::Start || s == Stage::Asked,
        s.after(ev, count, done, total).0 is Next || s.after(ev, count, done, total).0 is Complete,
    ensures
        s == Stage::Asked,
        ev == SendEvent::Replied(200),
{
}

/// A file goes into the archive only while the send is at it.
pub proof fn law_files_go_in_turn(
    s: Stage,
    ev: SendEvent,
    count: nat,
    done: u64,
    total: u64,
    k: int,
)
    requires
        0 <= k < s.after(ev, count, done, total).1.len(),
        s.after(ev, count, done, total).1[k] is Append,
    ensures
        s == Stage::Next(s.after(ev, count, done, total).1[k]->index),
        ev == SendEvent::CancelChecked(false),
{
}

/// The state, the bytes sent and all that was done, after some events.
pub open spec fn send_run(
    evs: Seq<SendEvent>,
    count: nat,
    total: u64,
) -> (Stage, int, Seq<SendAction>)
    decreases evs.len(),
{
    if evs.len() == 0 {
        (Stage::Start, 0, seq![])
    } else {
        let (s, done, acts) = send_run(evs.drop_last(), count, total);
        let (t, more) = s.after(evs.last(), count, done as u64, total);
        let sent = match (s, evs.last()) {
            (Stage::Next(_), SendEvent::Appended(n)) => done + n,
            _ => done,
        };
        (t, sent, acts + more)
    }
}

/// An offer that is accepted, and the first files, of these sizes, put into the archive.
pub open spec fn going_well(sizes: Seq<u64>) -> Seq<SendEvent>
    decreases sizes.len(),
{
    if sizes.len() == 0 {
        seq![SendEvent::Begin, SendEvent::Replied(200)]
    } else {
        going_well(sizes.drop_last()) + seq![
            SendEvent::CancelChecked(false),
            SendEvent::Appended(sizes.last()),
        ]
    }
}

pub open spec fn sum(sizes: Seq<u64>) -> nat
    decreases sizes.len(),
{
    if sizes.len() == 0 {
        0
    } else {
        sum(sizes.drop_last()) + sizes.last() as nat
    }
}

/// What is done for some files out of so many.
pub open spec fn sent_in_turn(sizes: Seq<u64>, count: nat, total: u64) -> Seq<SendAction>
    decreases sizes.len(),
{
    let then = if sizes.len() < count {
        SendAction::CheckCancelled
    } else {
        SendAction::EndUpload
    };
    if sizes.len() == 0 {
        seq![SendAction::Ask, SendAction::BeginUpload { total }, then]
    } else {
        sent_in_turn(sizes.drop_last(), count, total) + seq![
            SendAction::Append { index: (sizes.len() - 1) as usize },
            SendAction::Report { done: sum(sizes) as u64, total },
            then,
        ]
    }
}

/// A send that nobody refuses or cancels sends all: it offers, begins the upload, and then puts
/// each file into the archive, the first first and each once, looking for a cancel ahead of each
/// and reporting the sum of what has gone behind each. It ends the upload behind the last and
/// not before, and once the peer confirms, all is sent.
pub proof fn law_all_files_are_sent(sizes: Seq<u64>, count: nat, total: u64)
    requires
        0 < count <= usize::MAX,
        sizes.len() <= count,
        sum(sizes) <= u64::MAX,
    ensures
        ({
            let (s, done, acts) = send_run(going_well(sizes), count, total);
            &&& acts == sent_in_turn(sizes, count, total)
            &&& done == sum(sizes)
            &&& sizes.len() < count ==> s == Stage::Next(sizes.len() as usize)
            &&& sizes.len() == count ==> s == Stage::Complete
        }),
        sizes.len() == count ==> send_run(
            going_well(sizes).push(SendEvent::Replied(200)),
            count,
            total,
        ).2 == sent_in_turn(sizes, count, total).push(SendAction::End(Outcome::Sent)),
    decreases sizes.len(),
{
    let evs = going_well(sizes);
    let (s, done, acts) = send_run(evs, count, total);
    if sizes.len() == 0 {
        let first = evs.drop_last();
        assert(first.drop_last() =~= seq![]);
        assert(first.last() == SendEvent::Begin);
        assert(evs.last() == SendEvent::Replied(200));
        let a = send_run(seq![], count, total);
        let b = send_run(first, count, total);
        assert(b == (Stage::Asked, 0int, a.2 + seq![SendAction::Ask]));
        assert(b.2 =~= seq![SendAction::Ask]);
        assert(acts =~= sent_in_turn(sizes, count, total));
    } else {
        let front = sizes.drop_last();
        law_all_files_are_sent(front, count, total);
        let before = going_well(front);
        let asked = evs.drop_last();
        assert(asked.drop_last() =~= before);
        assert(asked.last() == SendEvent::CancelChecked(false));
        assert(evs.last() == SendEvent::Appended(sizes.last()));
        let i = front.len() as usize;
        let a = send_run(before, count, total);
        let b = send_run(asked, count, total);
        assert(b == (Stage::Next(i), a.1, a.2 + seq![SendAction::Append { index: i }]));
        assert(acts =~= sent_in_turn(sizes, count, total));
    }
    let more = evs.push(SendEvent::Replied(200));
    assert(more.drop_last() =~= evs);
    if sizes.len() == count {
        assert(send_run(more, count, total).2 =~= acts.push(SendAction::End(Outcome::Sent)));
    }
}

/// A send ends as it went: sent when the peer confirms the complete upload, declined or rejected
/// with the peer's own status, cancelled when a cancel was found, and with nothing to send where
/// there is nothing. No send ends otherwise, or twice.
pub proof fn law_a_send_ends_as_it_went(
    s: Stage,
    ev: SendEvent,
    count: nat,
    done: u64,
    total: u64,
    o: Outcome,
)
    ensures
        ({
            let (t, acts) = s.after(ev, count, done, total);
            let ends = exists|k: int|
                0 <= k < acts.len() && #[trigger] acts[k] == SendAction::End(o);
            &&& ends <==> match o {
                Outcome::Sent => s == Stage::Complete && ev == SendEvent::Replied(200),
                Outcome::NothingToSend => s == Stage::Start && ev == SendEvent::Begin && count
                    == 0,
                Outcome::Declined(status) => s == Stage::Asked && ev == SendEvent::Replied(status)
                    && status != 200,
                Outcome::Cancelled => s is Next && ev == SendEvent::CancelChecked(true),
                Outcome::Rejected(status) => s == Stage::Complete && ev == SendEvent::Replied(
                    status,
                ) && status != 200,
            }
            &&& ends ==> t == Stage::Over && acts.len() == 1
            &&& s == Stage::Over ==> t == Stage::Over && acts.len() == 0
        }),
{
    let (t, acts) = s.after(ev, count, done, total);
    if t == Stage::Over && s != Stage::Over {
        assert(acts[0] is End);
    }
}

/// The size of an offer is the sum of the sizes, in whatever parts it is counted.
pub proof fn law_total_is_the_sum(a: Seq<Item>, b: Seq<Item>, one: Item)
    ensures
        total_size(a + b) == total_size(a) + total_size(b),
        total_size(seq![one]) == one.size,
        total_size(seq![]) == 0,
    decreases b.len(),
{
    assert(seq![one].drop_last() =~= seq![]);
    reveal_with_fuel(total_size, 2);
    if b.len() == 0 {
        assert(a + b =~= a);
    } else {
        law_total_is_the_sum(a, b.drop_last(), one);
        assert((a + b).drop_last() =~= a + b.drop_last());
        assert((a + b).last() == b.last());
    }
}

} // verus!
