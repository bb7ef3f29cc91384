//! What this device calls itself, and other small readings of text.

use vstd::prelude::*;
use vstd::utf8::*;
use crate::text;

verus! {

/// A property holds 92 bytes; leave room.
pub const NAME_MAX: usize = 90;

/// A human name for this device: what the person set, else what the vendor did.
pub open spec fn name_text(chosen: Option<String>, model: Option<String>) -> Seq<char> {
    match chosen {
        Some(n) => n@,
        None => match model {
            Some(m) => m@,
            None => "Tarish"@,
        },
    }
}

pub fn device_name(chosen: Option<String>, model: Option<String>) -> (r: String)
    ensures
        r@ == name_text(chosen, model),
{
    match chosen {
        Some(n) => n,
        None => match model {
            Some(m) => m,
            None => "Tarish".to_owned(),
        },
    }
}

/// The model a peer is told.
pub open spec fn model_text(chosen: Option<String>, model: Option<String>) -> Seq<char> {
    match chosen {
        Some(n) => n@,
        None => match model {
            Some(m) => m@,
            None => "Android"@,
        },
    }
}

pub fn device_model(chosen: Option<String>, model: Option<String>) -> (r: String)
    ensures
        r@ == model_text(chosen, model),
{
    match chosen {
        Some(n) => n,
        None => match model {
            Some(m) => m,
            None => "Android".to_owned(),
        },
    }
}

// ----------------------------------------------------------------- clean names ---

/// Control characters, and the invisible ones that only steer the layout of others.
pub open spec fn unprintable(c: char) -> bool {
    let n = c as u32;
    ||| n < 0x20
    ||| 0x7f <= n <= 0x9f
    ||| 0x200b <= n <= 0x200f
    ||| 0x202a <= n <= 0x202e
    ||| 0x2060 <= n <= 0x206f
    ||| n == 0xfeff
}

pub open spec fn printable(s: Seq<char>) -> Seq<char> {
    s.filter(|c: char| !unprintable(c))
}

/// The longest start of a text that fits in the given number of bytes.
pub open spec fn cut(s: Seq<char>, max: nat) -> Seq<char>
    decreases s.len(),
{
    if s.len() == 0 || encode_utf8(s).len() <= max {
        s
    } else {
        cut(s.drop_last(), max)
    }
}

pub open spec fn has_word(s: Seq<char>) -> bool {
    exists|i: int| 0 <= i < s.len() && text::alphanumeric(#[trigger] s[i])
}

/// A name safe to advertise, or nothing: without what is unprintable, with runs of white space
/// as one space, and cut on a character boundary. If no letter or digit is left, it is no name.
pub open spec fn cleaned(s: Seq<char>) -> Seq<char> {
    let tidy = text::joined(text::words_text(printable(s)));
    let short = text::trim_text(cut(tidy, NAME_MAX as nat));
    if has_word(short) {
        short
    } else {
        seq![]
    }
}

fn strip(name: &str) -> (r: Vec<char>)
    ensures
        r@ == printable(name@),
{
    let v = text::chars_of(name);
    let ghost keep = |c: char| !unprintable(c);
    let mut r: Vec<char> = Vec::new();
    let n: usize = v.len();
    let mut i: usize = 0;
    assert(r@ =~= v@.take(0).filter(keep)) by {
        reveal(Seq::filter);
    }
    while i < n
        invariant
            n == v@.len(),
            i <= n,
            keep == (|c: char| !unprintable(c)),
            r@ == v@.take(i as int).filter(keep),
        decreases n - i,
    {
        proof {
            assert(v@.take(i + 1).drop_last() =~= v@.take(i as int));
            assert(v@.take(i + 1).last() == v@[i as int]);
            reveal(Seq::filter);
        }
        let c: char = v[i];
        let k: u32 = c as u32;
        let bad: bool = k < 0x20 || (0x7f <= k && k <= 0x9f) || (0x200b <= k && k <= 0x200f) || (
        0x202a <= k && k <= 0x202e) || (0x2060 <= k && k <= 0x206f) || k == 0xfeff;
        if !bad {
            r.push(c);
        }
        i = i + 1;
    }
    assert(v@.take(n as int) =~= v@);
    r
}

fn any_word(v: &Vec<char>) -> (r: bool)
    ensures
        r == has_word(v@),
{
    let n: usize = v.len();
    let mut i: usize = 0;
    while i < n
        invariant
            n == v@.len(),
            i <= n,
            forall|j: int| 0 <= j < i ==> !text::alphanumeric(#[trigger] v@[j]),
        decreases n - i,
    {
        if text::is_word(v[i]) {
            assert(text::alphanumeric(v@[i as int]));
            return true;
        }
        i = i + 1;
    }
    false
}

fn shorten(v: &Vec<char>) -> (r: String)
    ensures
        r@ == cut(v@, NAME_MAX as nat),
{
    let mut n: usize = v.len();
    assert(v@.take(n as int) =~= v@);
    loop
        invariant
            n <= v@.len(),
            cut(v@.take(n as int), NAME_MAX as nat) == cut(v@, NAME_MAX as nat),
        decreases n,
    {
        let s = text::text_of(v, 0, n);
        assert(s@ =~= v@.take(n as int));
        if n == 0 || s.as_str().as_bytes().len() <= NAME_MAX {
            return s;
        }
        assert(v@.take(n as int).drop_last() =~= v@.take(n - 1));
        n = n - 1;
    }
}

/// Reduce a name to something safe to advertise, or to nothing if no name is left.
pub fn clean_name(name: &str) -> (r: String)
    ensures
        r@ == cleaned(name@),
{
    let stripped = strip(name);
    let text = text::text_of(&stripped, 0, stripped.len());
    assert(text@ =~= printable(name@));
    let tidy = text::join(&text::words(text.as_str()));
    let v = text::chars_of(tidy.as_str());
    let short = text::trim(shorten(&v).as_str());
    if any_word(&text::chars_of(short.as_str())) {
        short
    } else {
        String::new()
    }
}

proof fn lemma_printable(s: Seq<char>)
    ensures
        forall|i: int|
            0 <= i < printable(s).len() ==> !unprintable(#[trigger] printable(s)[i]) && s.contains(
                printable(s)[i],
            ),
    decreases s.len(),
{
    reveal(Seq::filter);
    let p = printable(s);
    if s.len() > 0 {
        let front = s.drop_last();
        lemma_printable(front);
        assert forall|i: int| 0 <= i < p.len() implies !unprintable(#[trigger] p[i]) && s.contains(
            p[i],
        ) by {
            if i < printable(front).len() {
                assert(p[i] == printable(front)[i]);
                let j = choose|j: int| 0 <= j < front.len() && front[j] == p[i];
                assert(s[j] == p[i]);
            } else {
                assert(p[i] == s.last());
                assert(s[s.len() - 1] == p[i]);
            }
        }
    }
}

/// A word of a text: something, with no white space in it, out of that text.
spec fn word_of(w: Seq<char>, s: Seq<char>) -> bool {
    w.len() > 0 && forall|i: int|
        0 <= i < w.len() ==> !text::white_space(#[trigger] w[i]) && s.contains(w[i])
}

spec fn words_of(words: Seq<Seq<char>>, s: Seq<char>) -> bool {
    forall|k: int| 0 <= k < words.len() ==> word_of(#[trigger] words[k], s)
}

proof fn lemma_words(s: Seq<char>)
    ensures
        words_of(text::words_text(s), s),
        s.len() > 0 && !text::white_space(s.last()) ==> text::words_text(s).len() > 0,
    decreases s.len(),
{
    if s.len() > 0 {
        let front = s.drop_last();
        let before = text::words_text(front);
        let all = text::words_text(s);
        lemma_words(front);
        assert(s[s.len() - 1] == s.last());
        assert forall|w: Seq<char>| word_of(w, front) implies word_of(w, s) by {
            assert forall|i: int| 0 <= i < w.len() implies !text::white_space(#[trigger] w[i])
                && s.contains(w[i]) by {
                let j = choose|j: int| 0 <= j < front.len() && front[j] == w[i];
                assert(s[j] == w[i]);
            }
        }
        assert forall|k: int| 0 <= k < all.len() implies word_of(#[trigger] all[k], s) by {
            if text::white_space(s.last()) {
                assert(word_of(before[k], front));
            } else if s.len() >= 2 && !text::white_space(s[s.len() - 2]) {
                assert(front.last() == s[s.len() - 2]);
                if k < before.len() - 1 {
                    assert(all[k] == before[k]);
                    assert(word_of(before[k], front));
                } else {
                    assert(word_of(before.last(), front)) by {
                        assert(before.last() == before[before.len() - 1]);
                    }
                    assert(word_of(before.last(), s));
                    assert(all[k] == before.last().push(s.last()));
                }
            } else {
                if k < before.len() {
                    assert(word_of(before[k], front));
                } else {
                    assert(all[k] == seq![s.last()]);
                }
            }
        }
    }
}

/// Single spaces between printable characters, none in front.
spec fn tidy(s: Seq<char>) -> bool {
    &&& forall|i: int|
        0 <= i < s.len() ==> !unprintable(#[trigger] s[i]) && (text::white_space(s[i]) ==> s[i]
            == ' ')
    &&& forall|i: int| 0 < i < s.len() && #[trigger] s[i] == ' ' ==> s[i - 1] != ' '
    &&& s.len() > 0 ==> s[0] != ' '
}

/// Joined words hold single spaces, and end in none.
proof fn lemma_joined(words: Seq<Seq<char>>, s: Seq<char>)
    requires
        words_of(words, s),
    ensures
        words.len() > 0 ==> text::joined(words).len() > 0 && text::joined(words).last() != ' ',
        forall|i: int|
            0 <= i < text::joined(words).len() ==> #[trigger] text::joined(words)[i] == ' ' || s.contains(
                text::joined(words)[i],
            ),
        (forall|i: int| 0 <= i < s.len() ==> !unprintable(#[trigger] s[i])) ==> tidy(text::joined(words)),
    decreases words.len(),
{
    let all = text::joined(words);
    if words.len() == 0 {
    } else {
        let w = words.last();
        assert(word_of(words[words.len() - 1], s));
        assert(!text::white_space(w[w.len() - 1]));
        assert(!text::white_space(w[0]));
        let front = words.drop_last();
        assert(words_of(front, s)) by {
            assert forall|k: int| 0 <= k < front.len() implies word_of(#[trigger] front[k], s) by {
                assert(word_of(words[k], s));
            }
        }
        lemma_joined(front, s);
        let j = text::joined(front);
        let lead: int = if words.len() == 1 {
            0
        } else {
            (j.len() + 1) as int
        };
        assert(all.len() == lead + w.len());
        assert forall|i: int| 0 <= i < all.len() implies #[trigger] all[i] == if i >= lead {
            w[i - lead]
        } else if i == lead - 1 {
            ' '
        } else {
            j[i]
        } by {
        }
        assert(all.last() == w.last());
        assert forall|i: int| 0 <= i < all.len() implies #[trigger] all[i] == ' ' || s.contains(
            all[i],
        ) by {
            if i >= lead {
                assert(s.contains(w[i - lead]));
            } else if i < lead - 1 {
                assert(j[i] == ' ' || s.contains(j[i]));
            }
        }
        if forall|i: int| 0 <= i < s.len() ==> !unprintable(#[trigger] s[i]) {
            assert forall|i: int| 0 <= i < all.len() implies !unprintable(#[trigger] all[i]) && (
            text::white_space(all[i]) ==> all[i] == ' ') by {
                if i >= lead {
                    assert(!text::white_space(w[i - lead]));
                    let k = choose|k: int| 0 <= k < s.len() && s[k] == w[i - lead];
                    assert(!unprintable(s[k]));
                } else if i < lead - 1 {
                    assert(!unprintable(j[i]));
                }
            }
            assert forall|i: int| 0 < i < all.len() && #[trigger] all[i] == ' ' implies all[i - 1]
                != ' ' by {
                if i >= lead {
                    assert(!text::white_space(w[i - lead]));
                } else if i == lead - 1 {
                    assert(all[i - 1] == j.last());
                } else {
                    assert(j[i] == ' ');
                    assert(all[i - 1] == j[i - 1]);
                }
            }
            assert(all[0] != ' ') by {
                if lead > 0 {
                    assert(all[0] == j[0]);
                }
            }
        }
    }
}

proof fn lemma_cut(s: Seq<char>, max: nat)
    ensures
        encode_utf8(cut(s, max)).len() <= max,
        cut(s, max).is_prefix_of(s),
        encode_utf8(s).len() <= max ==> cut(s, max) == s,
    decreases s.len(),
{
    if s.len() == 0 || encode_utf8(s).len() <= max {
    } else {
        lemma_cut(s.drop_last(), max);
        assert(cut(s, max) =~= s.take(cut(s, max).len() as int));
    }
}

proof fn lemma_shorter(s: Seq<char>, k: int)
    requires
        0 <= k <= s.len(),
    ensures
        encode_utf8(s.take(k)).len() <= encode_utf8(s).len(),
    decreases s.len(),
{
    if k > 0 {
        lemma_shorter(s.drop_first(), k - 1);
        assert(s.take(k).drop_first() =~= s.drop_first().take(k - 1));
    }
}

/// Trimming what starts with no white space takes off a tail.
proof fn lemma_trim(s: Seq<char>)
    requires
        s.len() > 0 ==> !text::white_space(s[0]),
    ensures
        text::trim_text(s).is_prefix_of(s),
        text::trim_text(s).len() > 0 ==> !text::white_space(text::trim_text(s).last()),
        s.len() > 0 && !text::white_space(s.last()) ==> text::trim_text(s) == s,
    decreases s.len(),
{
    if s.len() > 0 && text::white_space(s.last()) {
        lemma_trim(s.drop_last());
        assert(text::trim_text(s) == text::trim_text(s.drop_last()));
        assert(text::trim_text(s) =~= s.take(text::trim_text(s).len() as int));
    }
}

/// A text whose characters are all printable is left as it is.
proof fn lemma_printable_stays(s: Seq<char>)
    requires
        forall|i: int| 0 <= i < s.len() ==> !unprintable(#[trigger] s[i]),
    ensures
        printable(s) == s,
    decreases s.len(),
{
    reveal(Seq::filter);
    if s.len() > 0 {
        let front = s.drop_last();
        assert forall|i: int| 0 <= i < front.len() implies !unprintable(#[trigger] front[i]) by {
            assert(front[i] == s[i]);
        }
        lemma_printable_stays(front);
        assert(s[s.len() - 1] == s.last());
        assert(front.push(s.last()) =~= s);
    } else {
        assert(printable(s) =~= s);
    }
}

/// The words of a tidy text, with one space between them, are that text but for a space at
/// its end.
proof fn lemma_tidy_stays(s: Seq<char>)
    requires
        tidy(s),
    ensures
        text::joined(text::words_text(s)) == (if s.len() > 0 && s.last() == ' ' {
            s.drop_last()
        } else {
            s
        }),
        text::words_text(s).len() == 0 <==> s.len() == 0,
    decreases s.len(),
{
    let words = text::words_text(s);
    if s.len() == 0 {
        assert(text::joined(words) =~= s);
    } else {
        let front = s.drop_last();
        let before = text::words_text(front);
        let c = s.last();
        assert(s[s.len() - 1] == c);
        assert(tidy(front)) by {
            assert forall|i: int| 0 <= i < front.len() implies front[i] == s[i] by {
            }
        }
        lemma_tidy_stays(front);
        if front.len() > 0 {
            assert(front.last() == s[s.len() - 2]);
        }
        if c == ' ' {
            assert(text::white_space(c));
            assert(s.len() >= 2 && s[s.len() - 2] != ' ');
            assert(words == before);
        } else if s.len() >= 2 && !text::white_space(s[s.len() - 2]) {
            let grown = before.last().push(c);
            assert(words == before.drop_last().push(grown));
            assert(words.drop_last() =~= before.drop_last());
            if before.len() == 1 {
                assert(text::joined(words) =~= before[0].push(c));
            } else {
                assert(text::joined(words) =~= text::joined(before).push(c));
            }
            assert(front.last() != ' ');
            assert(text::joined(words) =~= s);
        } else {
            assert(words == before.push(seq![c]));
            assert(words.drop_last() =~= before);
            if s.len() >= 2 {
                assert(front.last() == ' ');
                assert(front.drop_last().push(' ') =~= front);
                assert(front.push(c) =~= s);
                assert(text::joined(words) =~= s);
            } else {
                assert(before.len() == 0);
                assert(text::joined(words) =~= s);
            }
        }
    }
}

/// What is left of any text, before it is asked whether that is a name.
spec fn shortened(s: Seq<char>) -> Seq<char> {
    text::trim_text(cut(text::joined(text::words_text(printable(s))), NAME_MAX as nat))
}

proof fn lemma_shortened(s: Seq<char>)
    ensures
        encode_utf8(shortened(s)).len() <= NAME_MAX,
        tidy(shortened(s)),
        shortened(s).len() > 0 ==> !text::white_space(shortened(s)[0]) && !text::white_space(
            shortened(s).last(),
        ),
        forall|i: int|
            0 <= i < shortened(s).len() ==> #[trigger] shortened(s)[i] == ' ' || s.contains(
                shortened(s)[i],
            ),
{
    let p = printable(s);
    lemma_printable(s);
    lemma_words(p);
    lemma_joined(text::words_text(p), p);
    let t = text::joined(text::words_text(p));
    assert(tidy(t));
    let c = cut(t, NAME_MAX as nat);
    lemma_cut(t, NAME_MAX as nat);
    assert(tidy(c)) by {
        assert forall|i: int| 0 <= i < c.len() implies c[i] == t[i] by {
        }
    }
    lemma_trim(c);
    let r = text::trim_text(c);
    assert(r =~= c.take(r.len() as int));
    lemma_shorter(c, r.len() as int);
    assert forall|i: int| 0 <= i < r.len() implies r[i] == c[i] && r[i] == t[i] by {
    }
    assert forall|i: int| 0 <= i < r.len() implies #[trigger] r[i] == ' ' || s.contains(r[i]) by {
        assert(t[i] == ' ' || p.contains(t[i]));
        if r[i] != ' ' {
            let j = choose|j: int| 0 <= j < p.len() && p[j] == t[i];
            assert(s.contains(p[j]));
        }
    }
}

/// A name that is advertised fits in a property, holds nothing that cannot be seen, and has
/// single spaces between its words and none at its ends.
pub proof fn law_clean_name_is_tidy(s: Seq<char>)
    ensures
        encode_utf8(cleaned(s)).len() <= NAME_MAX,
        forall|i: int|
            0 <= i < cleaned(s).len() ==> !unprintable(#[trigger] cleaned(s)[i]) && (
            text::white_space(cleaned(s)[i]) ==> cleaned(s)[i] == ' '),
        forall|i: int|
            0 < i < cleaned(s).len() && #[trigger] cleaned(s)[i] == ' ' ==> cleaned(s)[i - 1]
                != ' ',
        cleaned(s).len() > 0 ==> !text::white_space(cleaned(s)[0]) && !text::white_space(
            cleaned(s).last(),
        ),
{
    lemma_shortened(s);
}

/// A name that is advertised has a letter or a digit. A text without one is no name: dots,
/// dashes, blanks and characters nobody sees all clear it, and the device falls back to its
/// model. One that has some is kept if it fits.
pub proof fn law_no_name_is_cleared(s: Seq<char>)
    ensures
        cleaned(s).len() > 0 ==> has_word(cleaned(s)),
        !has_word(s) ==> cleaned(s).len() == 0,
        has_word(text::joined(text::words_text(printable(s)))) && encode_utf8(
            text::joined(text::words_text(printable(s))),
        ).len() <= NAME_MAX ==> cleaned(s) == text::joined(text::words_text(printable(s)))
            && cleaned(s).len() > 0,
{
    lemma_shortened(s);
    let r = shortened(s);
    if has_word(r) {
        let i = choose|i: int| 0 <= i < r.len() && text::alphanumeric(#[trigger] r[i]);
        assert(r[i] == ' ' || s.contains(r[i]));
        assert(!text::alphanumeric(' '));
        let k = choose|k: int| 0 <= k < s.len() && s[k] == r[i];
        assert(text::alphanumeric(s[k]));
    }
    let p = printable(s);
    lemma_printable(s);
    lemma_words(p);
    lemma_joined(text::words_text(p), p);
    let t = text::joined(text::words_text(p));
    if has_word(t) && encode_utf8(t).len() <= NAME_MAX {
        lemma_cut(t, NAME_MAX as nat);
        assert(tidy(t));
        assert(!text::white_space(t.last())) by {
            assert(t[t.len() - 1] == t.last());
        }
        lemma_trim(t);
    }
}

/// A clean name is clean: to clean it again changes nothing.
pub proof fn law_cleaning_twice_changes_nothing(s: Seq<char>)
    ensures
        cleaned(cleaned(s)) == cleaned(s),
{
    let r = cleaned(s);
    lemma_shortened(s);
    lemma_printable_stays(r);
    lemma_tidy_stays(r);
    lemma_cut(r, NAME_MAX as nat);
    lemma_trim(r);
    if r.len() > 0 {
        assert(r[r.len() - 1] == r.last());
    } else {
        assert(!has_word(shortened(r)));
        assert(cleaned(r) =~= r);
    }
}

// ------------------------------------------------------------- other readings ---

/// What stands behind the last dot of a file name, in small letters; all of it without one.
pub open spec fn extension(name: Seq<char>) -> Seq<char> {
    text::ascii_lower_text(name.skip(text::rfind_char(name, '.') + 1))
}

/// A coarse MIME type from a file name. It picks the icon the peer shows and nothing else.
pub open spec fn mime_text(name: Seq<char>) -> Seq<char> {
    let e = extension(name);
    if e == "jpg"@ || e == "jpeg"@ {
        "image/jpeg"@
    } else if e == "png"@ {
        "image/png"@
    } else if e == "gif"@ {
        "image/gif"@
    } else if e == "webp"@ {
        "image/webp"@
    } else if e == "heic"@ {
        "image/heic"@
    } else if e == "mp4"@ {
        "video/mp4"@
    } else if e == "mov"@ {
        "video/quicktime"@
    } else if e == "mp3"@ {
        "audio/mpeg"@
    } else if e == "pdf"@ {
        "application/pdf"@
    } else if e == "txt"@ {
        "text/plain"@
    } else if e == "apk"@ {
        "application/vnd.android.package-archive"@
    } else {
        "application/octet-stream"@
    }
}

pub fn mime_of(name: &str) -> (r: String)
    ensures
        r@ == mime_text(name@),
{
    let v = text::chars_of(name);
    let from: usize = text::after_last(&v, '.');
    let tail = text::text_of(&v, from, v.len());
    assert(tail@ =~= name@.skip(from as int));
    let ext = text::to_lower(tail.as_str());
    let e = ext.as_str();
    let m = if text::same(e, "jpg") || text::same(e, "jpeg") {
        "image/jpeg"
    } else if text::same(e, "png") {
        "image/png"
    } else if text::same(e, "gif") {
        "image/gif"
    } else if text::same(e, "webp") {
        "image/webp"
    } else if text::same(e, "heic") {
        "image/heic"
    } else if text::same(e, "mp4") {
        "video/mp4"
    } else if text::same(e, "mov") {
        "video/quicktime"
    } else if text::same(e, "mp3") {
        "audio/mpeg"
    } else if text::same(e, "pdf") {
        "application/pdf"
    } else if text::same(e, "txt") {
        "text/plain"
    } else if text::same(e, "apk") {
        "application/vnd.android.package-archive"
    } else {
        "application/octet-stream"
    };
    m.to_owned()
}

/// The byte that two hexadecimal digits spell.
pub open spec fn mac_byte(part: Seq<char>) -> Option<nat> {
    if part.len() == 2 && text::all_digits(part, 16) {
        Some(text::digit_value(part[0]) * 16 + text::digit_value(part[1]))
    } else {
        None
    }
}

/// Six bytes between colons.
pub open spec fn mac_in(s: Seq<char>) -> Option<Seq<u8>> {
    let parts = text::split_text(s, ':');
    if parts.len() == 6 && forall|i: int| 0 <= i < 6 ==> mac_byte(#[trigger] parts[i]) is Some {
        Some(Seq::new(6, |i: int| mac_byte(parts[i])->0 as u8))
    } else {
        None
    }
}

/// `XX:XX:XX:XX:XX:XX` to six bytes. Nothing for anything else.
pub fn parse_mac(s: &str) -> (r: Option<[u8; 6]>)
    ensures
        match r {
            Some(m) => mac_in(s@) == Some(m@),
            None => mac_in(s@) is None,
        },
{
    let parts = text::split(s, ':');
    let ghost all = text::split_text(s@, ':');
    let mut out: [u8; 6] = [0, 0, 0, 0, 0, 0];
    if parts.len() != 6 {
        assert(all.len() == parts@.len());
        return None;
    }
    let mut n: usize = 0;
    while n < 6
        invariant
            n <= 6,
            parts@.len() == 6,
            all == text::texts(parts@),
            all == text::split_text(s@, ':'),
            forall|i: int| 0 <= i < n ==> mac_byte(#[trigger] all[i]) is Some,
            forall|i: int| 0 <= i < n ==> #[trigger] out@[i] == mac_byte(all[i])->0 as u8,
        decreases 6 - n,
    {
        let c = text::chars_of(parts[n].as_str());
        assert(all[n as int] == parts@[n as int]@);
        if c.len() != 2 {
            assert(mac_byte(all[n as int]) is None);
            return None;
        }
        let high: u64 = text::digit_of(c[0]);
        let low: u64 = text::digit_of(c[1]);
        if high >= 16 || low >= 16 {
            assert(!text::all_digits(c@, 16)) by {
                assert(text::digit_value(c@[0]) >= 16 || text::digit_value(c@[1]) >= 16);
            }
            assert(mac_byte(all[n as int]) is None);
            return None;
        }
        out[n] = (high * 16 + low) as u8;
        n = n + 1;
    }
    assert(out@ =~= mac_in(s@)->0);
    Some(out)
}

/// Numbers in a list separated by commas. What is none is skipped.
pub open spec fn numbers(pieces: Seq<Seq<char>>) -> Seq<u64>
    decreases pieces.len(),
{
    if pieces.len() == 0 {
        seq![]
    } else {
        let rest = numbers(pieces.drop_last());
        match text::parsed_uint(text::trim_text(pieces.last()), 10, u64::MAX as nat) {
            Some(c) => rest.push(c as u64),
            None => rest,
        }
    }
}

/// The mediums claimed over Bluetooth: Bluetooth (2) and Wi-Fi LAN (5), which is the one
/// combination a stock receiver answers. A property may name others.
pub open spec fn mediums(prop: Option<String>) -> Seq<u64> {
    match prop {
        Some(v) => {
            let list = numbers(text::split_text(v@, ','));
            if list.len() > 0 {
                list
            } else {
                seq![2u64, 5]
            }
        },
        None => seq![2u64, 5],
    }
}

pub fn quickshare_mediums(prop: &Option<String>) -> (r: Vec<u64>)
    ensures
        r@ == mediums(*prop),
{
    let standard: Vec<u64> = vec![2, 5];
    assert(standard@ =~= seq![2u64, 5]);
    match prop {
        None => standard,
        Some(v) => {
            let pieces = text::split(v.as_str(), ',');
            let ghost all = text::texts(pieces@);
            let mut list: Vec<u64> = Vec::new();
            let n: usize = pieces.len();
            let mut i: usize = 0;
            while i < n
                invariant
                    n == pieces@.len(),
                    i <= n,
                    all == text::texts(pieces@),
                    list@ == numbers(all.take(i as int)),
                decreases n - i,
            {
                proof {
                    assert(all.take(i + 1).drop_last() =~= all.take(i as int));
                    assert(all.take(i + 1).last() == pieces@[i as int]@);
                }
                match text::parse_uint(text::trim(pieces[i].as_str()).as_str(), 10, u64::MAX) {
                    Some(c) => {
                        list.push(c);
                    },
                    None => {},
                }
                i = i + 1;
            }
            assert(all.take(n as int) =~= all);
            if list.len() == 0 {
                standard
            } else {
                list
            }
        },
    }
}

// ------------------------------------------------------------------------ laws ---

/// Whether an extension is one that is known.
pub open spec fn known_extension(ext: Seq<char>) -> bool {
    ||| text::same_letters(ext, "jpg"@)
    ||| text::same_letters(ext, "jpeg"@)
    ||| text::same_letters(ext, "png"@)
    ||| text::same_letters(ext, "gif"@)
    ||| text::same_letters(ext, "webp"@)
    ||| text::same_letters(ext, "heic"@)
    ||| text::same_letters(ext, "mp4"@)
    ||| text::same_letters(ext, "mov"@)
    ||| text::same_letters(ext, "mp3"@)
    ||| text::same_letters(ext, "pdf"@)
    ||| text::same_letters(ext, "txt"@)
    ||| text::same_letters(ext, "apk"@)
}

/// The type a file is offered under goes by what is behind the last dot of its name, in letters
/// of any size, and by nothing in front of it; what is not known is bytes.
#[verifier::rlimit(40)]
pub proof fn law_mime_goes_by_the_extension(stem: Seq<char>, ext: Seq<char>)
    requires
        !ext.contains('.'),
    ensures
        ({
            let t = mime_text(stem + seq!['.'] + ext);
            &&& text::same_letters(ext, "jpg"@) ==> t == "image/jpeg"@
            &&& text::same_letters(ext, "jpeg"@) ==> t == "image/jpeg"@
            &&& text::same_letters(ext, "png"@) ==> t == "image/png"@
            &&& text::same_letters(ext, "gif"@) ==> t == "image/gif"@
            &&& text::same_letters(ext, "webp"@) ==> t == "image/webp"@
            &&& text::same_letters(ext, "heic"@) ==> t == "image/heic"@
            &&& text::same_letters(ext, "mp4"@) ==> t == "video/mp4"@
            &&& text::same_letters(ext, "mov"@) ==> t == "video/quicktime"@
            &&& text::same_letters(ext, "mp3"@) ==> t == "audio/mpeg"@
            &&& text::same_letters(ext, "pdf"@) ==> t == "application/pdf"@
            &&& text::same_letters(ext, "txt"@) ==> t == "text/plain"@
            &&& text::same_letters(ext, "apk"@) ==> t == "application/vnd.android.package-archive"@
            &&& !known_extension(ext) ==> t == "application/octet-stream"@
        }),
        mime_text(ext) == mime_text(stem + seq!['.'] + ext),
{
    let name = stem + seq!['.'] + ext;
    let n = stem.len() as int;
    assert forall|j: int| n < j < name.len() implies name[j] != '.' by {
        assert(name[j] == ext[j - n - 1]);
        assert(ext.contains(ext[j - n - 1]));
    }
    text::lemma_rfind_char_unique(name, '.', n);
    assert forall|j: int| -1 < j < ext.len() implies ext[j] != '.' by {
        assert(ext.contains(ext[j]));
    }
    text::lemma_rfind_char_unique(ext, '.', -1);
    assert(name.skip(n + 1) =~= ext);
    assert(ext.skip(0) =~= ext);
    reveal_strlit("jpg");
    reveal_strlit("jpeg");
    reveal_strlit("png");
    reveal_strlit("gif");
    reveal_strlit("webp");
    reveal_strlit("heic");
    reveal_strlit("mp4");
    reveal_strlit("mov");
    reveal_strlit("mp3");
    reveal_strlit("pdf");
    reveal_strlit("txt");
    reveal_strlit("apk");
    assert("jpg"@ =~= seq!['j', 'p', 'g']);
    assert("jpeg"@ =~= seq!['j', 'p', 'e', 'g']);
    assert("png"@ =~= seq!['p', 'n', 'g']);
    assert("gif"@ =~= seq!['g', 'i', 'f']);
    assert("webp"@ =~= seq!['w', 'e', 'b', 'p']);
    assert("heic"@ =~= seq!['h', 'e', 'i', 'c']);
    assert("mp4"@ =~= seq!['m', 'p', '4']);
    assert("mov"@ =~= seq!['m', 'o', 'v']);
    assert("mp3"@ =~= seq!['m', 'p', '3']);
    assert("pdf"@ =~= seq!['p', 'd', 'f']);
    assert("txt"@ =~= seq!['t', 'x', 't']);
    assert("apk"@ =~= seq!['a', 'p', 'k']);
    text::lemma_small(ext, "jpg"@);
    text::lemma_small(ext, "jpeg"@);
    text::lemma_small(ext, "png"@);
    text::lemma_small(ext, "gif"@);
    text::lemma_small(ext, "webp"@);
    text::lemma_small(ext, "heic"@);
    text::lemma_small(ext, "mp4"@);
    text::lemma_small(ext, "mov"@);
    text::lemma_small(ext, "mp3"@);
    text::lemma_small(ext, "pdf"@);
    text::lemma_small(ext, "txt"@);
    text::lemma_small(ext, "apk"@);
}

/// A device is called what the person chose, and what the vendor did where they did not choose;
/// its model likewise.
pub proof fn law_chosen_name_counts(chosen: Option<String>, model: Option<String>)
    ensures
        chosen matches Some(n) ==> name_text(chosen, model) == n@ && model_text(chosen, model)
            == n@,
        chosen is None ==> (model matches Some(m) ==> name_text(chosen, model) == m@
            && model_text(chosen, model) == m@),
        name_text(None, None).len() > 0,
        model_text(None, None).len() > 0,
{
    reveal_strlit("Tarish");
    reveal_strlit("Android");
}

/// A text is cut as late as it may be: what is left is its beginning and fits, and with one
/// character more it would not.
pub proof fn law_text_is_cut_as_late_as_possible(s: Seq<char>, max: nat)
    ensures
        ({
            let c = cut(s, max);
            &&& c.len() <= s.len()
            &&& c == s.take(c.len() as int)
            &&& encode_utf8(c).len() <= max
            &&& c.len() < s.len() ==> encode_utf8(s.take(c.len() as int + 1)).len() > max
        }),
    decreases s.len(),
{
    if s.len() == 0 {
        assert(s.take(0) =~= s);
        assert(encode_utf8(s) =~= seq![]);
    } else if encode_utf8(s).len() <= max {
        assert(s.take(s.len() as int) =~= s);
    } else {
        let d = s.drop_last();
        law_text_is_cut_as_late_as_possible(d, max);
        let c = cut(d, max);
        assert(d.take(c.len() as int) =~= s.take(c.len() as int));
        if c.len() < d.len() {
            assert(d.take(c.len() as int + 1) =~= s.take(c.len() as int + 1));
        } else {
            assert(s.take(c.len() as int + 1) =~= s);
        }
    }
}

/// An address that is written as six bytes in hexadecimal, with colons between them, is read back
/// as those bytes.
pub proof fn law_address_is_read(b: Seq<u8>)
    requires
        b.len() == 6,
    ensures
        mac_in(text::joined_by(Seq::new(6, |i: int| text::hex_text(seq![b[i]])), ':')) == Some(b),
{
    let parts = Seq::new(6, |i: int| text::hex_text(seq![b[i]]));
    assert forall|i: int| 0 <= i < parts.len() implies !(#[trigger] parts[i]).contains(':')
        && mac_byte(parts[i]) == Some(b[i] as nat) by {
        let one = seq![b[i]];
        text::law_hex_says_the_bytes(one, 0);
        let p = parts[i];
        assert(text::digit_value(p[0]) < 16 && text::digit_value(p[1]) < 16);
        assert(text::digit_value(':') == 36);
        if p.contains(':') {
            let k = choose|k: int| 0 <= k < p.len() && p[k] == ':';
            assert(k == 0 || k == 1);
        }
        assert(text::all_digits(p, 16));
    }
    text::law_joining_is_undone(parts, ':');
    assert(Seq::new(6, |i: int| mac_byte(parts[i])->0 as u8) =~= b);
}

/// The mediums that are claimed are those that are named, in their order, and the usual two where
/// none is named.
pub proof fn law_mediums_are_as_named(
    a: Seq<Seq<char>>,
    b: Seq<Seq<char>>,
    v: String,
)
    ensures
        numbers(a + b) == numbers(a) + numbers(b),
        mediums(None) == seq![2u64, 5],
        numbers(text::split_text(v@, ',')).len() == 0 ==> mediums(Some(v)) == seq![2u64, 5],
        numbers(text::split_text(v@, ',')).len() > 0 ==> mediums(Some(v)) == numbers(
            text::split_text(v@, ','),
        ),
    decreases b.len(),
{
    if b.len() == 0 {
        assert(a + b =~= a);
        assert(numbers(a) + numbers(b) =~= numbers(a));
    } else {
        law_mediums_are_as_named(a, b.drop_last(), v);
        assert((a + b).drop_last() =~= a + b.drop_last());
        assert((a + b).last() == b.last());
        assert(numbers(a + b) =~= numbers(a) + numbers(b));
    }
}

/// Nothing but six pairs of hexadecimal digits between colons is an address.
pub proof fn law_other_texts_are_no_address(s: Seq<char>, i: int)
    requires
        mac_in(s) is Some,
        0 <= i < 6,
    ensures
        text::split_text(s, ':').len() == 6,
        text::split_text(s, ':')[i].len() == 2,
        text::all_digits(text::split_text(s, ':')[i], 16),
        mac_in(s)->0.len() == 6,
{
    assert(mac_byte(text::split_text(s, ':')[i]) is Some);
}

} // verus!
