//! Text: the few string operations the protocols need, stated over `Seq<char>`.

use vstd::prelude::*;
use vstd::utf8::*;

verus! {

// ---------------------------------------------------------------- the edge ---

/// What `String::from_utf8_lossy` makes of bytes that are not UTF-8.
pub uninterp spec fn repaired_text(bytes: Seq<u8>) -> Seq<char>;

/// Whether `char::is_alphanumeric` holds of a character outside ASCII.
pub uninterp spec fn wide_alphanumeric(c: char) -> bool;

/// What `str::to_uppercase` makes of a text that is not all ASCII.
pub uninterp spec fn wide_upper_text(s: Seq<char>) -> Seq<char>;

/// The text of some bytes, read leniently.
pub open spec fn lossy_text(bytes: Seq<u8>) -> Seq<char> {
    if valid_utf8(bytes) {
        decode_utf8(bytes)
    } else {
        repaired_text(bytes)
    }
}

/// Unicode's `White_Space` property: tab, line feed, vertical tab, form feed, carriage return
/// and space; next line and the no-break space; and the spaces and separators further up.
pub open spec fn white_space(c: char) -> bool {
    let n = c as u32;
    ||| 0x09 <= n <= 0x0d
    ||| n == 0x20
    ||| n == 0x85
    ||| n == 0xa0
    ||| n == 0x1680
    ||| 0x2000 <= n <= 0x200a
    ||| n == 0x2028
    ||| n == 0x2029
    ||| n == 0x202f
    ||| n == 0x205f
    ||| n == 0x3000
}

/// A letter or a number.
pub open spec fn alphanumeric(c: char) -> bool {
    if c as u32 <= 0x7f {
        ascii_digit(c) || ascii_letter(c)
    } else {
        wide_alphanumeric(c)
    }
}

/// A text in capitals.
pub open spec fn upper_text(s: Seq<char>) -> Seq<char> {
    if is_ascii_chars(s) {
        ascii_upper_text(s)
    } else {
        wide_upper_text(s)
    }
}

/// `String::push` appends one character and changes nothing else.
pub assume_specification[ String::push ](s: &mut String, c: char)
    ensures
        final(s)@ == old(s)@.push(c),
;

/// `std::str::from_utf8` accepts exactly the valid UTF-8 sequences, and the text it gives
/// back is the one those bytes encode.
#[verifier::external_body]
pub(crate) fn utf8_text(b: &[u8]) -> (r: Option<String>)
    ensures
        r is Some <==> valid_utf8(b@),
        r matches Some(t) ==> t@ == decode_utf8(b@) && encode_utf8(t@) == b@,
{
    std::str::from_utf8(b).ok().map(String::from)
}

/// `String::from_utf8_lossy` gives back the text that valid UTF-8 encodes. What it puts in
/// place of anything else is a function of the bytes.
#[verifier::external_body]
pub(crate) fn utf8_lossy(b: &[u8]) -> (r: String)
    ensures
        valid_utf8(b@) ==> r@ == decode_utf8(b@),
        !valid_utf8(b@) ==> r@ == repaired_text(b@),
{
    String::from_utf8_lossy(b).into_owned()
}

/// `char::is_alphanumeric`. Among the ASCII characters that is the digits and the letters.
#[verifier::external_body]
pub(crate) fn is_word(c: char) -> (r: bool)
    ensures
        c as u32 > 0x7f ==> r == wide_alphanumeric(c),
        c as u32 <= 0x7f ==> r == (ascii_digit(c) || ascii_letter(c)),
{
    c.is_alphanumeric()
}

/// `str::to_uppercase`. A text of ASCII characters keeps its length and has each letter
/// replaced by its capital.
#[verifier::external_body]
pub(crate) fn to_upper(s: &str) -> (r: String)
    ensures
        !is_ascii_chars(s@) ==> r@ == wide_upper_text(s@),
        is_ascii_chars(s@) ==> r@ == ascii_upper_text(s@),
{
    s.to_uppercase()
}

/// Whether a character is white space, as `char::is_whitespace` has it.
pub fn is_space(c: char) -> (r: bool)
    ensures
        r == white_space(c),
{
    let n: u32 = c as u32;
    (0x09 <= n && n <= 0x0d) || n == 0x20 || n == 0x85 || n == 0xa0 || n == 0x1680 || (0x2000 <= n
        && n <= 0x200a) || n == 0x2028 || n == 0x2029 || n == 0x202f || n == 0x205f || n == 0x3000
}

// ------------------------------------------------------------------- ASCII ---

pub open spec fn ascii_digit(c: char) -> bool {
    '0' <= c <= '9'
}

pub open spec fn ascii_letter(c: char) -> bool {
    'a' <= c <= 'z' || 'A' <= c <= 'Z'
}

pub open spec fn ascii_lower(c: char) -> char {
    if 'A' <= c <= 'Z' {
        (c as u32 + 32) as char
    } else {
        c
    }
}

pub open spec fn ascii_upper(c: char) -> char {
    if 'a' <= c <= 'z' {
        (c as u32 - 32) as char
    } else {
        c
    }
}

pub open spec fn ascii_lower_text(s: Seq<char>) -> Seq<char> {
    Seq::new(s.len(), |i: int| ascii_lower(s[i]))
}

pub open spec fn ascii_upper_text(s: Seq<char>) -> Seq<char> {
    Seq::new(s.len(), |i: int| ascii_upper(s[i]))
}

pub fn lower_char(c: char) -> (r: char)
    ensures
        r == ascii_lower(c),
{
    if 'A' <= c && c <= 'Z' {
        (c as u8 + 32) as char
    } else {
        c
    }
}

/// `str::to_ascii_lowercase`.
pub fn to_lower(s: &str) -> (r: String)
    ensures
        r@ == ascii_lower_text(s@),
{
    let mut out = String::new();
    for c in it: s.chars()
        invariant
            out@ == ascii_lower_text(s@.subrange(0, it.index() as int)),
            it.seq() == s@,
    {
        out.push(lower_char(c));
        assert(out@ =~= ascii_lower_text(s@.subrange(0, it.index() + 1)));
    }
    assert(s@.subrange(0, s@.len() as int) =~= s@);
    out
}

// ------------------------------------------------------------- conversions ---

pub fn chars_of(s: &str) -> (r: Vec<char>)
    ensures
        r@ == s@,
{
    let mut out: Vec<char> = Vec::new();
    for c in it: s.chars()
        invariant
            out@ == s@.subrange(0, it.index() as int),
            it.seq() == s@,
    {
        out.push(c);
        assert(out@ =~= s@.subrange(0, it.index() + 1));
    }
    assert(s@.subrange(0, s@.len() as int) =~= s@);
    out
}

/// The text of `v[from..to]`.
pub fn text_of(v: &Vec<char>, from: usize, to: usize) -> (r: String)
    requires
        from <= to <= v@.len(),
    ensures
        r@ == v@.subrange(from as int, to as int),
{
    let mut out = String::new();
    let mut i: usize = from;
    while i < to
        invariant
            from <= i <= to <= v@.len(),
            out@ == v@.subrange(from as int, i as int),
        decreases to - i,
    {
        out.push(v[i]);
        i += 1;
        assert(out@ =~= v@.subrange(from as int, i as int));
    }
    out
}

/// Whether two texts are the same.
pub fn same(a: &str, b: &str) -> (r: bool)
    ensures
        r == (a@ == b@),
{
    let x = a.as_bytes();
    let y = b.as_bytes();
    proof {
        encode_utf8_decode_utf8(a@);
        encode_utf8_decode_utf8(b@);
    }
    if x.len() != y.len() {
        return false;
    }
    let mut i: usize = 0;
    while i < x.len()
        invariant
            i <= x@.len(),
            x@.len() == y@.len(),
            x@ == encode_utf8(a@),
            y@ == encode_utf8(b@),
            forall|j: int| 0 <= j < i ==> x@[j] == y@[j],
        decreases x@.len() - i,
    {
        if x[i] != y[i] {
            return false;
        }
        i += 1;
    }
    assert(x@ =~= y@);
    true
}

// --------------------------------------------------------------- searching ---

/// Where `c` first occurs in `s`; the length of `s` when it does not.
pub open spec fn find_char(s: Seq<char>, c: char) -> int
    decreases s.len(),
{
    if s.len() == 0 {
        0
    } else if s[0] == c {
        0
    } else {
        1 + find_char(s.drop_first(), c)
    }
}

/// Where `c` last occurs in `s`; -1 when it does not.
pub open spec fn rfind_char(s: Seq<char>, c: char) -> int
    decreases s.len(),
{
    if s.len() == 0 {
        -1
    } else if s.last() == c {
        s.len() - 1
    } else {
        rfind_char(s.drop_last(), c)
    }
}

pub proof fn lemma_find_char(s: Seq<char>, c: char)
    ensures
        0 <= find_char(s, c) <= s.len(),
        find_char(s, c) < s.len() ==> s[find_char(s, c)] == c,
        forall|j: int| 0 <= j < find_char(s, c) ==> s[j] != c,
    decreases s.len(),
{
    if s.len() > 0 && s[0] != c {
        let t = s.drop_first();
        lemma_find_char(t, c);
        assert forall|j: int| 0 <= j < find_char(s, c) implies s[j] != c by {
            if j > 0 {
                assert(t[j - 1] == s[j]);
            }
        }
    }
}

/// The first occurrence is the only index with its two properties.
pub proof fn lemma_find_char_unique(s: Seq<char>, c: char, i: int)
    requires
        0 <= i <= s.len(),
        i < s.len() ==> s[i] == c,
        forall|j: int| 0 <= j < i ==> s[j] != c,
    ensures
        find_char(s, c) == i,
{
    lemma_find_char(s, c);
    let k = find_char(s, c);
    if k < i {
        assert(s[k] != c);
    } else if i < k {
        assert(s[i] != c);
    }
}

pub proof fn lemma_rfind_char(s: Seq<char>, c: char)
    ensures
        -1 <= rfind_char(s, c) < s.len(),
        rfind_char(s, c) >= 0 ==> s[rfind_char(s, c)] == c,
        forall|j: int| rfind_char(s, c) < j < s.len() ==> s[j] != c,
    decreases s.len(),
{
    if s.len() > 0 && s.last() != c {
        let t = s.drop_last();
        lemma_rfind_char(t, c);
        assert forall|j: int| rfind_char(s, c) < j < s.len() implies s[j] != c by {
            if j < t.len() {
                assert(t[j] == s[j]);
            }
        }
    }
}

pub proof fn lemma_rfind_char_unique(s: Seq<char>, c: char, i: int)
    requires
        -1 <= i < s.len(),
        i >= 0 ==> s[i] == c,
        forall|j: int| i < j < s.len() ==> s[j] != c,
    ensures
        rfind_char(s, c) == i,
{
    lemma_rfind_char(s, c);
    let k = rfind_char(s, c);
    if k < i {
        assert(s[i] != c);
    } else if i < k {
        assert(s[k] != c);
    }
}

pub fn find(v: &Vec<char>, c: char) -> (r: usize)
    ensures
        r == find_char(v@, c),
        r <= v@.len(),
{
    let mut i: usize = 0;
    while i < v.len()
        invariant
            i <= v@.len(),
            forall|j: int| 0 <= j < i ==> v@[j] != c,
        decreases v@.len() - i,
    {
        if v[i] == c {
            proof {
                lemma_find_char_unique(v@, c, i as int);
            }
            return i;
        }
        i += 1;
    }
    proof {
        lemma_find_char_unique(v@, c, i as int);
    }
    i
}

/// The index after the last `c`, or 0.
pub fn after_last(v: &Vec<char>, c: char) -> (r: usize)
    ensures
        r == rfind_char(v@, c) + 1,
        r <= v@.len(),
{
    let mut i: usize = v.len();
    while i > 0
        invariant
            i <= v@.len(),
            forall|j: int| i <= j < v@.len() ==> v@[j] != c,
        decreases i,
    {
        if v[i - 1] == c {
            proof {
                lemma_rfind_char_unique(v@, c, i - 1);
            }
            return i;
        }
        i -= 1;
    }
    proof {
        lemma_rfind_char_unique(v@, c, -1);
    }
    0
}

/// The part of `s` before the first `c`: all of it when there is none.
pub open spec fn before_first(s: Seq<char>, c: char) -> Seq<char> {
    s.subrange(0, find_char(s, c))
}

/// `s.split(c).next()`.
pub fn first_piece(s: &str, c: char) -> (r: String)
    ensures
        r@ == before_first(s@, c),
{
    let v = chars_of(s);
    let n: usize = find(&v, c);
    text_of(&v, 0, n)
}

/// The pieces between the `c`s of `s`: one more than there are `c`s.
pub open spec fn split_text(s: Seq<char>, c: char) -> Seq<Seq<char>>
    decreases s.len(),
{
    if s.len() == 0 {
        seq![seq![]]
    } else {
        let before = split_text(s.drop_last(), c);
        if s.last() == c {
            before.push(seq![])
        } else {
            before.drop_last().push(before.last().push(s.last()))
        }
    }
}

pub open spec fn texts(v: Seq<String>) -> Seq<Seq<char>> {
    Seq::new(v.len(), |i: int| v[i]@)
}

pub proof fn lemma_split_text_len(s: Seq<char>, c: char)
    ensures
        split_text(s, c).len() >= 1,
    decreases s.len(),
{
    if s.len() > 0 {
        lemma_split_text_len(s.drop_last(), c);
    }
}

/// What holds no `c` is one piece.
pub proof fn lemma_split_one(s: Seq<char>, c: char)
    requires
        forall|i: int| 0 <= i < s.len() ==> (#[trigger] s[i]) != c,
    ensures
        split_text(s, c) == seq![s],
    decreases s.len(),
{
    if s.len() > 0 {
        let t = s.drop_last();
        lemma_split_one(t, c);
        assert(s.last() != c);
        assert(t.push(s.last()) =~= s);
        assert(split_text(s, c) =~= seq![s]);
    } else {
        assert(s =~= seq![]);
        assert(split_text(s, c) =~= seq![s]);
    }
}

/// A `c` parts the pieces before it from those behind it.
pub proof fn lemma_split_concat(a: Seq<char>, c: char, b: Seq<char>)
    ensures
        split_text(a + seq![c] + b, c) == split_text(a, c) + split_text(b, c),
    decreases b.len(),
{
    let whole = a + seq![c] + b;
    lemma_split_text_len(a, c);
    lemma_split_text_len(b, c);
    if b.len() == 0 {
        assert(whole.drop_last() =~= a);
        assert(split_text(whole, c) =~= split_text(a, c) + split_text(b, c));
    } else {
        let d = b.drop_last();
        lemma_split_concat(a, c, d);
        lemma_split_text_len(d, c);
        assert(whole.drop_last() =~= a + seq![c] + d);
        assert(split_text(whole, c) =~= split_text(a, c) + split_text(b, c));
    }
}

/// `s.split(c)`, collected.
pub fn split(s: &str, c: char) -> (r: Vec<String>)
    ensures
        texts(r@) == split_text(s@, c),
{
    let v = chars_of(s);
    let mut out: Vec<String> = Vec::new();
    let mut cur = String::new();
    let mut i: usize = 0;
    assert(v@.subrange(0, 0) =~= seq![]);
    assert(texts(out@).push(cur@) =~= seq![seq![]]);
    while i < v.len()
        invariant
            i <= v@.len(),
            texts(out@).push(cur@) == split_text(v@.subrange(0, i as int), c),
        decreases v@.len() - i,
    {
        let ghost before = texts(out@).push(cur@);
        assert(before.drop_last() =~= texts(out@));
        assert(v@.subrange(0, i + 1).drop_last() =~= v@.subrange(0, i as int));
        if v[i] == c {
            out.push(cur);
            cur = String::new();
            assert(texts(out@) =~= before);
        } else {
            cur.push(v[i]);
        }
        i += 1;
    }
    out.push(cur);
    assert(v@.subrange(0, i as int) =~= s@);
    assert(texts(out@) =~= split_text(s@, c));
    out
}

/// The runs of characters between white space.
pub open spec fn words_text(s: Seq<char>) -> Seq<Seq<char>>
    decreases s.len(),
{
    if s.len() == 0 {
        seq![]
    } else {
        let before = words_text(s.drop_last());
        let c = s.last();
        if white_space(c) {
            before
        } else if s.len() >= 2 && !white_space(s[s.len() - 2]) {
            before.drop_last().push(before.last().push(c))
        } else {
            before.push(seq![c])
        }
    }
}

/// `s.split_whitespace()`, collected.
pub fn words(s: &str) -> (r: Vec<String>)
    ensures
        texts(r@) == words_text(s@),
{
    let v = chars_of(s);
    let mut out: Vec<String> = Vec::new();
    let mut cur = String::new();
    let mut inside: bool = false;
    let mut i: usize = 0;
    assert(v@.subrange(0, 0) =~= seq![]);
    assert(texts(out@) =~= seq![]);
    while i < v.len()
        invariant
            i <= v@.len(),
            inside == (i > 0 && !white_space(v@[i - 1])),
            inside ==> texts(out@).push(cur@) == words_text(v@.subrange(0, i as int)),
            !inside ==> texts(out@) == words_text(v@.subrange(0, i as int)) && cur@.len() == 0,
        decreases v@.len() - i,
    {
        let ghost part = v@.subrange(0, i + 1);
        let ghost was = texts(out@);
        assert(part.drop_last() =~= v@.subrange(0, i as int));
        assert(part.last() == v@[i as int]);
        proof {
            if i > 0 {
                assert(part[part.len() - 2] == v@[i - 1]);
            }
            assert(was.push(cur@).drop_last() =~= was);
        }
        if is_space(v[i]) {
            if inside {
                out.push(cur);
                cur = String::new();
                assert(texts(out@) =~= words_text(v@.subrange(0, i as int)));
            }
            inside = false;
        } else {
            let ghost c0 = cur@;
            let ghost before = words_text(part.drop_last());
            cur.push(v[i]);
            proof {
                if inside {
                    assert(before.last() == c0);
                    assert(before.drop_last() =~= was);
                } else {
                    assert(cur@ =~= seq![v@[i as int]]);
                }
            }
            inside = true;
            assert(texts(out@).push(cur@) =~= words_text(part));
        }
        i += 1;
    }
    assert(v@.subrange(0, i as int) =~= s@);
    if inside {
        out.push(cur);
        assert(texts(out@) =~= words_text(s@));
    }
    out
}

/// Words with one space between them.
pub open spec fn joined(words: Seq<Seq<char>>) -> Seq<char>
    decreases words.len(),
{
    if words.len() == 0 {
        seq![]
    } else if words.len() == 1 {
        words[0]
    } else {
        joined(words.drop_last()).push(' ') + words.last()
    }
}

/// The words with one space between them.
pub fn join(words: &Vec<String>) -> (r: String)
    ensures
        r@ == joined(texts(words@)),
{
    let ghost all = texts(words@);
    let mut out = String::new();
    let n: usize = words.len();
    let mut i: usize = 0;
    assert(all.take(0) =~= seq![]);
    while i < n
        invariant
            n == words@.len(),
            i <= n,
            all == texts(words@),
            out@ == joined(all.take(i as int)),
        decreases n - i,
    {
        let ghost upto = all.take(i + 1);
        proof {
            assert(upto.drop_last() =~= all.take(i as int));
            assert(upto.last() == words@[i as int]@);
        }
        if i > 0 {
            out.push(' ');
        }
        let ghost front = out@;
        out.append(words[i].as_str());
        proof {
            if i == 0 {
                assert(front =~= seq![]);
                assert(out@ =~= upto[0]);
            }
            assert(out@ =~= joined(upto));
        }
        i = i + 1;
    }
    assert(all.take(n as int) =~= all);
    out
}

/// Whether `t` occurs in `s`.
pub open spec fn contains_text(s: Seq<char>, t: Seq<char>) -> bool {
    exists|i: int| 0 <= i <= s.len() - t.len() && #[trigger] s.subrange(i, i + t.len()) == t
}

pub open spec fn starts_with_text(s: Seq<char>, t: Seq<char>) -> bool {
    s.len() >= t.len() && s.subrange(0, t.len() as int) == t
}

pub open spec fn ends_with_text(s: Seq<char>, t: Seq<char>) -> bool {
    s.len() >= t.len() && s.subrange(s.len() - t.len(), s.len() as int) == t
}

fn matches_at(v: &Vec<char>, t: &Vec<char>, at: usize) -> (r: bool)
    requires
        at + t@.len() <= v@.len(),
    ensures
        r == (v@.subrange(at as int, at + t@.len()) == t@),
{
    let n: usize = v.len();
    let mut j: usize = 0;
    while j < t.len()
        invariant
            j <= t@.len(),
            n == v@.len(),
            at + t@.len() <= v@.len(),
            forall|k: int| 0 <= k < j ==> v@[at + k] == t@[k],
        decreases t@.len() - j,
    {
        if v[at + j] != t[j] {
            assert(v@.subrange(at as int, at + t@.len())[j as int] != t@[j as int]);
            return false;
        }
        j += 1;
    }
    assert(v@.subrange(at as int, at + t@.len()) =~= t@);
    true
}

/// `s.contains(t)`.
pub fn contains(s: &str, t: &str) -> (r: bool)
    ensures
        r == contains_text(s@, t@),
{
    let v = chars_of(s);
    let w = chars_of(t);
    if w.len() > v.len() {
        return false;
    }
    let last: usize = v.len() - w.len();
    let mut i: usize = 0;
    while i <= last
        invariant
            i <= last + 1,
            last + w@.len() == v@.len(),
            v@ == s@,
            w@ == t@,
            v@.len() <= usize::MAX,
            forall|k: int|
                0 <= k < i ==> #[trigger] s@.subrange(k, k + t@.len()) != t@,
        decreases last + 1 - i,
    {
        if matches_at(&v, &w, i) {
            assert(s@.subrange(i as int, i + t@.len()) == t@);
            return true;
        }
        if i == last {
            return false;
        }
        i += 1;
    }
    false
}

/// `s.starts_with(t)`.
pub fn starts_with(s: &str, t: &str) -> (r: bool)
    ensures
        r == starts_with_text(s@, t@),
{
    let v = chars_of(s);
    let w = chars_of(t);
    w.len() <= v.len() && matches_at(&v, &w, 0)
}

/// `s.ends_with(t)`.
pub fn ends_with(s: &str, t: &str) -> (r: bool)
    ensures
        r == ends_with_text(s@, t@),
{
    let v = chars_of(s);
    let w = chars_of(t);
    w.len() <= v.len() && matches_at(&v, &w, v.len() - w.len())
}

/// `a.eq_ignore_ascii_case(b)`.
pub fn same_ignoring_case(a: &str, b: &str) -> (r: bool)
    ensures
        r == (ascii_lower_text(a@) == ascii_lower_text(b@)),
{
    let x = to_lower(a);
    let y = to_lower(b);
    same(x.as_str(), y.as_str())
}

// ---------------------------------------------------------------- trimming ---

pub open spec fn trim_start_text(s: Seq<char>) -> Seq<char>
    decreases s.len(),
{
    if s.len() > 0 && white_space(s[0]) {
        trim_start_text(s.drop_first())
    } else {
        s
    }
}

pub open spec fn trim_end_text(s: Seq<char>) -> Seq<char>
    decreases s.len(),
{
    if s.len() > 0 && white_space(s.last()) {
        trim_end_text(s.drop_last())
    } else {
        s
    }
}

/// `s` without the white space at its two ends.
pub open spec fn trim_text(s: Seq<char>) -> Seq<char> {
    trim_end_text(trim_start_text(s))
}

/// `str::trim`.
pub fn trim(s: &str) -> (r: String)
    ensures
        r@ == trim_text(s@),
{
    let v = chars_of(s);
    let mut from: usize = 0;
    assert(v@.subrange(0, v@.len() as int) =~= v@);
    while from < v.len() && is_space(v[from])
        invariant
            from <= v@.len(),
            trim_start_text(v@.subrange(from as int, v@.len() as int)) == trim_start_text(v@),
        decreases v@.len() - from,
    {
        assert(v@.subrange(from as int, v@.len() as int).drop_first() =~= v@.subrange(
            from + 1,
            v@.len() as int,
        ));
        assert(v@.subrange(from as int, v@.len() as int)[0] == v@[from as int]);
        from += 1;
    }
    let ghost rest = v@.subrange(from as int, v@.len() as int);
    assert(rest == trim_start_text(v@)) by {
        if rest.len() > 0 {
            assert(rest[0] == v@[from as int]);
        }
    }
    let mut to: usize = v.len();
    while to > from && is_space(v[to - 1])
        invariant
            from <= to <= v@.len(),
            trim_end_text(v@.subrange(from as int, to as int)) == trim_end_text(rest),
        decreases to,
    {
        assert(v@.subrange(from as int, to as int).drop_last() =~= v@.subrange(
            from as int,
            to - 1,
        ));
        to -= 1;
    }
    assert(v@.subrange(from as int, to as int) == trim_end_text(rest)) by {
        if to > from {
            assert(v@.subrange(from as int, to as int).last() == v@[to - 1]);
        }
    }
    text_of(&v, from, to)
}

// ----------------------------------------------------------------- numbers ---

/// The value of one digit: 0-9, then the letters in either case.
pub open spec fn digit_value(c: char) -> nat {
    if '0' <= c <= '9' {
        (c as u32 - '0' as u32) as nat
    } else if 'a' <= c <= 'z' {
        (c as u32 - 'a' as u32 + 10) as nat
    } else if 'A' <= c <= 'Z' {
        (c as u32 - 'A' as u32 + 10) as nat
    } else {
        36
    }
}

pub open spec fn all_digits(s: Seq<char>, radix: nat) -> bool {
    forall|i: int| 0 <= i < s.len() ==> digit_value(#[trigger] s[i]) < radix
}

pub open spec fn digits_value(s: Seq<char>, radix: nat) -> nat
    decreases s.len(),
{
    if s.len() == 0 {
        0
    } else {
        digits_value(s.drop_last(), radix) * radix + digit_value(s.last())
    }
}

/// What an unsigned integer's `from_str_radix` reads: an optional `+`, then at least one
/// digit, and a value no larger than `max`.
pub open spec fn parsed_uint(s: Seq<char>, radix: nat, max: nat) -> Option<nat> {
    let digits = if s.len() > 0 && s[0] == '+' {
        s.drop_first()
    } else {
        s
    };
    if digits.len() > 0 && all_digits(digits, radix) && digits_value(digits, radix) <= max {
        Some(digits_value(digits, radix))
    } else {
        None
    }
}

/// What a signed integer's `from_str` reads: an optional sign, then at least one digit.
pub open spec fn parsed_int(s: Seq<char>, min: int, max: int) -> Option<int> {
    if s.len() > 0 && s[0] == '-' {
        let digits = s.drop_first();
        if digits.len() > 0 && all_digits(digits, 10) && -digits_value(digits, 10) >= min {
            Some(-(digits_value(digits, 10) as int))
        } else {
            None
        }
    } else {
        match parsed_uint(s, 10, max as nat) {
            Some(v) => Some(v as int),
            None => None,
        }
    }
}

/// The value of a digit; 36 for what is none.
pub fn digit_of(c: char) -> (r: u64)
    ensures
        r == digit_value(c),
{
    if '0' <= c && c <= '9' {
        c as u64 - 48
    } else if 'a' <= c && c <= 'z' {
        c as u64 - 97 + 10
    } else if 'A' <= c && c <= 'Z' {
        c as u64 - 65 + 10
    } else {
        36
    }
}

proof fn lemma_digits_value_prefix(s: Seq<char>, radix: nat, k: int)
    requires
        0 <= k <= s.len(),
        radix >= 1,
    ensures
        digits_value(s.subrange(0, k), radix) <= digits_value(s, radix),
    decreases s.len(),
{
    if k == s.len() {
        assert(s.subrange(0, k) =~= s);
    } else {
        lemma_digits_value_prefix(s.drop_last(), radix, k);
        assert(s.drop_last().subrange(0, k) =~= s.subrange(0, k));
        let d = digits_value(s.drop_last(), radix);
        assert(d * radix >= d) by (nonlinear_arith)
            requires
                radix >= 1,
        ;
    }
}

/// The digits of `v[from..]`, or nothing when one is missing or the value is above `max`.
fn parse_digits(v: &Vec<char>, from: usize, radix: u64, max: u64) -> (r: Option<u64>)
    requires
        from <= v@.len(),
        2 <= radix <= 36,
    ensures
        ({
            let digits = v@.subrange(from as int, v@.len() as int);
            match r {
                Some(x) => digits.len() > 0 && all_digits(digits, radix as nat) && digits_value(
                    digits,
                    radix as nat,
                ) == x && x <= max,
                None => !(digits.len() > 0 && all_digits(digits, radix as nat) && digits_value(
                    digits,
                    radix as nat,
                ) <= max),
            }
        }),
{
    let ghost digits = v@.subrange(from as int, v@.len() as int);
    if from == v.len() {
        return None;
    }
    let mut acc: u64 = 0;
    let mut i: usize = from;
    assert(digits.subrange(0, 0) =~= seq![]);
    while i < v.len()
        invariant
            from <= i <= v@.len(),
            2 <= radix <= 36,
            digits == v@.subrange(from as int, v@.len() as int),
            acc == digits_value(digits.subrange(0, i - from), radix as nat),
            all_digits(digits.subrange(0, i - from), radix as nat),
            acc <= max,
        decreases v@.len() - i,
    {
        let d: u64 = digit_of(v[i]);
        let ghost next = digits.subrange(0, i - from + 1);
        proof {
            assert(next.drop_last() =~= digits.subrange(0, i - from));
            assert(next.last() == v@[i as int]);
            assert(digits[i - from] == v@[i as int]);
            if d < radix {
                lemma_digits_value_prefix(digits, radix as nat, i - from + 1);
            }
        }
        if d >= radix {
            return None;
        }
        assert(acc * radix <= 0xffff_ffff_ffff_ffff * 36) by (nonlinear_arith)
            requires
                acc <= 0xffff_ffff_ffff_ffff,
                radix <= 36,
        ;
        let wide: u128 = acc as u128 * radix as u128 + d as u128;
        assert(wide == digits_value(next, radix as nat));
        if wide > max as u128 {
            return None;
        }
        acc = wide as u64;
        i += 1;
        assert forall|j: int| 0 <= j < next.len() implies digit_value(#[trigger] next[j])
            < radix by {
            if j < next.len() - 1 {
                assert(next[j] == digits.subrange(0, i - 1 - from)[j]);
            }
        }
    }
    assert(digits.subrange(0, digits.len() as int) =~= digits);
    Some(acc)
}

/// `from_str_radix` of an unsigned integer type whose largest value is `max`.
pub fn parse_uint(s: &str, radix: u64, max: u64) -> (r: Option<u64>)
    requires
        2 <= radix <= 36,
    ensures
        r matches Some(x) ==> parsed_uint(s@, radix as nat, max as nat) == Some(x as nat),
        r is None ==> parsed_uint(s@, radix as nat, max as nat) is None,
{
    let v = chars_of(s);
    if v.len() > 0 && v[0] == '+' {
        assert(v@.subrange(1, v@.len() as int) =~= s@.drop_first());
        parse_digits(&v, 1, radix, max)
    } else {
        assert(v@.subrange(0, v@.len() as int) =~= s@);
        parse_digits(&v, 0, radix, max)
    }
}

/// `i64::from_str`, within narrower bounds.
pub fn parse_int(s: &str, min: i64, max: i64) -> (r: Option<i64>)
    requires
        min <= 0 <= max,
    ensures
        r matches Some(x) ==> parsed_int(s@, min as int, max as int) == Some(x as int),
        r is None ==> parsed_int(s@, min as int, max as int) is None,
{
    let v = chars_of(s);
    if v.len() > 0 && v[0] == '-' {
        assert(v@.subrange(1, v@.len() as int) =~= s@.drop_first());
        let limit: u64 = (-(min as i128)) as u64;
        match parse_digits(&v, 1, 10, limit) {
            Some(x) => Some((-(x as i128)) as i64),
            None => None,
        }
    } else {
        match parse_uint(s, 10, max as u64) {
            Some(x) => Some(x as i64),
            None => None,
        }
    }
}

pub open spec fn digit_char(d: nat) -> char {
    if d < 10 {
        (d + '0' as u32) as char
    } else {
        (d - 10 + 'a' as u32) as char
    }
}

/// `n` in decimal.
pub open spec fn decimal(n: nat) -> Seq<char>
    decreases n,
{
    if n < 10 {
        seq![digit_char(n)]
    } else {
        decimal(n / 10).push(digit_char(n % 10))
    }
}

/// `n` in lower-case hexadecimal.
pub open spec fn hexadecimal(n: nat) -> Seq<char>
    decreases n,
{
    if n < 16 {
        seq![digit_char(n)]
    } else {
        hexadecimal(n / 16).push(digit_char(n % 16))
    }
}

/// Two lower-case hexadecimal digits for each byte.
pub open spec fn hex_text(b: Seq<u8>) -> Seq<char>
    decreases b.len(),
{
    if b.len() == 0 {
        seq![]
    } else {
        hex_text(b.drop_last()).push(digit_char(b.last() as nat / 16)).push(
            digit_char(b.last() as nat % 16),
        )
    }
}

pub fn digit_to_char(d: u8) -> (r: char)
    requires
        d < 36,
    ensures
        r == digit_char(d as nat),
{
    if d < 10 {
        (d + 48) as char
    } else {
        (d - 10 + 97) as char
    }
}

pub fn push_decimal(out: &mut String, n: u64)
    ensures
        final(out)@ == old(out)@ + decimal(n as nat),
    decreases n,
{
    if n >= 10 {
        push_decimal(out, n / 10);
    }
    out.push(digit_to_char((n % 10) as u8));
    assert(out@ =~= old(out)@ + decimal(n as nat));
}

pub fn push_hexadecimal(out: &mut String, n: u64)
    ensures
        final(out)@ == old(out)@ + hexadecimal(n as nat),
    decreases n,
{
    if n >= 16 {
        push_hexadecimal(out, n / 16);
    }
    out.push(digit_to_char((n % 16) as u8));
    assert(out@ =~= old(out)@ + hexadecimal(n as nat));
}

/// Bytes as hex.
pub fn hex(b: &[u8]) -> (r: String)
    ensures
        r@ == hex_text(b@),
{
    let mut out = String::new();
    let mut i: usize = 0;
    assert(b@.subrange(0, 0) =~= seq![]);
    while i < b.len()
        invariant
            i <= b@.len(),
            out@ == hex_text(b@.subrange(0, i as int)),
        decreases b@.len() - i,
    {
        assert(b@.subrange(0, i + 1).drop_last() =~= b@.subrange(0, i as int));
        out.push(digit_to_char(b[i] / 16));
        out.push(digit_to_char(b[i] % 16));
        i += 1;
    }
    assert(b@.subrange(0, i as int) =~= b@);
    out
}

/// A number's decimal digits read back as the number.
pub proof fn law_decimal_parses(n: nat, max: nat)
    requires
        n <= max,
    ensures
        parsed_uint(decimal(n), 10, max) == Some(n),
{
    lemma_decimal(n);
}

proof fn lemma_decimal(n: nat)
    ensures
        decimal(n).len() > 0,
        all_digits(decimal(n), 10),
        digits_value(decimal(n), 10) == n,
        decimal(n)[0] != '+',
    decreases n,
{
    reveal_with_fuel(digits_value, 2);
    if n < 10 {
        assert(decimal(n).drop_last() =~= seq![]);
    } else {
        lemma_decimal(n / 10);
        let s = decimal(n);
        let p = decimal(n / 10);
        assert(s.drop_last() =~= p);
        assert forall|i: int| 0 <= i < s.len() implies digit_value(#[trigger] s[i]) < 10 by {
            if i < p.len() {
                assert(s[i] == p[i]);
            }
        }
        assert(s[0] == p[0]);
    }
}

proof fn lemma_hexadecimal(n: nat)
    ensures
        hexadecimal(n).len() > 0,
        all_digits(hexadecimal(n), 16),
        digits_value(hexadecimal(n), 16) == n,
        hexadecimal(n)[0] != '+',
    decreases n,
{
    reveal_with_fuel(digits_value, 2);
    if n < 16 {
        assert(hexadecimal(n).drop_last() =~= seq![]);
    } else {
        lemma_hexadecimal(n / 16);
        let s = hexadecimal(n);
        let p = hexadecimal(n / 16);
        assert(s.drop_last() =~= p);
        assert forall|i: int| 0 <= i < s.len() implies digit_value(#[trigger] s[i]) < 16 by {
            if i < p.len() {
                assert(s[i] == p[i]);
            }
        }
        assert(s[0] == p[0]);
    }
}

/// A number's hexadecimal digits read back as the number.
pub proof fn law_hexadecimal_parses(n: nat, max: nat)
    requires
        n <= max,
    ensures
        parsed_uint(hexadecimal(n), 16, max) == Some(n),
{
    lemma_hexadecimal(n);
}

/// A sign and a number's decimal digits read back as the negative number.
pub proof fn law_negative_parses(n: nat, min: int, max: int)
    requires
        min <= -n,
    ensures
        parsed_int(seq!['-'] + decimal(n), min, max) == Some(-(n as int)),
        n <= max ==> parsed_int(decimal(n), min, max) == Some(n as int),
{
    lemma_decimal(n);
    assert((seq!['-'] + decimal(n)).drop_first() =~= decimal(n));
    assert(decimal(n)[0] != '-') by {
        assert(digit_value(decimal(n)[0]) < 10);
    }
}

/// What is no digit is no number.
pub proof fn law_words_are_no_numbers(s: Seq<char>, i: int, max: nat)
    requires
        0 <= i < s.len(),
        !('0' <= s[i] <= '9'),
        i > 0 || s[i] != '+',
    ensures
        parsed_uint(s, 10, max) is None,
{
    let digits = if s[0] == '+' {
        s.drop_first()
    } else {
        s
    };
    if s[0] == '+' {
        assert(digits[i - 1] == s[i]);
    } else {
        assert(digits[i] == s[i]);
    }
}

/// Bytes in hexadecimal are two digits each, that say the byte.
pub proof fn law_hex_says_the_bytes(b: Seq<u8>, i: int)
    requires
        0 <= i < b.len(),
    ensures
        hex_text(b).len() == 2 * b.len(),
        digit_value(hex_text(b)[2 * i]) * 16 + digit_value(hex_text(b)[2 * i + 1]) == b[i],
        digit_value(hex_text(b)[2 * i]) < 16 && digit_value(hex_text(b)[2 * i + 1]) < 16,
    decreases b.len(),
{
    lemma_hex_len(b);
    lemma_hex_len(b.drop_last());
    if i < b.len() - 1 {
        law_hex_says_the_bytes(b.drop_last(), i);
    }
}

proof fn lemma_hex_len(b: Seq<u8>)
    ensures
        hex_text(b).len() == 2 * b.len(),
    decreases b.len(),
{
    if b.len() > 0 {
        lemma_hex_len(b.drop_last());
    }
}

/// White space at the two ends is taken off, all of it and nothing else.
pub proof fn law_trimming_takes_white_space(a: Seq<char>, s: Seq<char>, b: Seq<char>)
    requires
        forall|i: int| 0 <= i < a.len() ==> white_space(#[trigger] a[i]),
        forall|i: int| 0 <= i < b.len() ==> white_space(#[trigger] b[i]),
        s.len() > 0 ==> !white_space(s[0]) && !white_space(s.last()),
    ensures
        trim_text(a + s + b) == s,
{
    lemma_trim_front(a, s + b);
    assert(a + (s + b) =~= a + s + b);
    if s.len() > 0 {
        assert((s + b)[0] == s[0]);
        lemma_trim_back(s, b);
    } else {
        lemma_trim_front(b, seq![]);
        assert(b + Seq::<char>::empty() =~= b);
        assert(s + b =~= b);
    }
}

proof fn lemma_trim_front(a: Seq<char>, t: Seq<char>)
    requires
        forall|i: int| 0 <= i < a.len() ==> white_space(#[trigger] a[i]),
    ensures
        trim_start_text(a + t) == trim_start_text(t),
    decreases a.len(),
{
    if a.len() == 0 {
        assert(a + t =~= t);
    } else {
        assert((a + t)[0] == a[0]);
        assert((a + t).drop_first() =~= a.drop_first() + t);
        lemma_trim_front(a.drop_first(), t);
    }
}

proof fn lemma_trim_back(s: Seq<char>, b: Seq<char>)
    requires
        forall|i: int| 0 <= i < b.len() ==> white_space(#[trigger] b[i]),
        s.len() > 0,
        !white_space(s.last()),
    ensures
        trim_end_text(s + b) == s,
    decreases b.len(),
{
    if b.len() == 0 {
        assert(s + b =~= s);
    } else {
        assert((s + b).last() == b.last());
        assert((s + b).drop_last() =~= s + b.drop_last());
        assert forall|i: int| 0 <= i < b.drop_last().len() implies white_space(
            #[trigger] b.drop_last()[i],
        ) by {
            assert(b.drop_last()[i] == b[i]);
        }
        assert(white_space(b[b.len() - 1]));
        lemma_trim_back(s, b.drop_last());
    }
}

/// Pieces with a character between each two.
pub open spec fn joined_by(pieces: Seq<Seq<char>>, c: char) -> Seq<char>
    decreases pieces.len(),
{
    if pieces.len() == 0 {
        seq![]
    } else if pieces.len() == 1 {
        pieces[0]
    } else {
        joined_by(pieces.drop_last(), c).push(c) + pieces.last()
    }
}

/// Splitting loses nothing: the pieces with the character between them are the text, and none of
/// them holds it.
pub proof fn law_splitting_is_undone(s: Seq<char>, c: char)
    ensures
        joined_by(split_text(s, c), c) == s,
        split_text(s, c).len() > 0,
        forall|i: int|
            0 <= i < split_text(s, c).len() ==> !(#[trigger] split_text(s, c)[i]).contains(c),
    decreases s.len(),
{
    if s.len() > 0 {
        let d = s.drop_last();
        law_splitting_is_undone(d, c);
        let before = split_text(d, c);
        let after = split_text(s, c);
        if s.last() == c {
            assert(after.drop_last() =~= before);
            assert(joined_by(after, c) =~= d.push(c));
            assert(d.push(c) =~= s);
        } else {
            let grown = before.last().push(s.last());
            assert(after.drop_last() =~= before.drop_last());
            assert(after.last() == grown);
            assert(!grown.contains(c)) by {
                assert(before[before.len() - 1] == before.last());
                if grown.contains(c) {
                    let k = choose|k: int| 0 <= k < grown.len() && grown[k] == c;
                    assert(before.last()[k] == c);
                    assert(before.last().contains(c));
                }
            }
            if before.len() == 1 {
                assert(joined_by(after, c) =~= d.push(s.last()));
            } else {
                assert(joined_by(after, c) =~= joined_by(before, c).push(s.last()));
            }
            assert(d.push(s.last()) =~= s);
            assert forall|i: int| 0 <= i < after.len() implies !(
            #[trigger] after[i]).contains(c) by {
                if i < before.len() - 1 {
                    assert(after[i] == before[i]);
                }
            }
        }
    } else {
        assert(split_text(s, c) =~= seq![seq![]]);
        assert(joined_by(split_text(s, c), c) =~= s);
    }
}

/// The words of a text are what white space parts: a word alone is one, and white space between
/// two texts adds the words of the one to those of the other.
pub proof fn law_white_space_parts_words(a: Seq<char>, space: char, b: Seq<char>, w: Seq<char>)
    requires
        white_space(space),
        w.len() > 0,
        forall|i: int| 0 <= i < w.len() ==> !white_space(#[trigger] w[i]),
    ensures
        words_text(a.push(space) + b) == words_text(a) + words_text(b),
        words_text(w) == seq![w],
{
    lemma_one_word(w);
    lemma_words_add(a, space, b);
}

proof fn lemma_one_word(w: Seq<char>)
    requires
        w.len() > 0,
        forall|i: int| 0 <= i < w.len() ==> !white_space(#[trigger] w[i]),
    ensures
        words_text(w) == seq![w],
    decreases w.len(),
{
    let d = w.drop_last();
    if d.len() == 0 {
        assert(words_text(d) =~= seq![]);
        assert(seq![w.last()] =~= w);
        assert(words_text(w) =~= seq![w]);
    } else {
        assert forall|i: int| 0 <= i < d.len() implies !white_space(#[trigger] d[i]) by {
            assert(d[i] == w[i]);
        }
        lemma_one_word(d);
        assert(d.push(w.last()) =~= w);
        assert(!white_space(w[w.len() - 2]));
        assert(words_text(w) =~= seq![w]);
    }
}

proof fn lemma_words_nonempty(s: Seq<char>)
    requires
        s.len() > 0,
        !white_space(s.last()),
    ensures
        words_text(s).len() > 0,
    decreases s.len(),
{
}

proof fn lemma_words_add(a: Seq<char>, space: char, b: Seq<char>)
    requires
        white_space(space),
    ensures
        words_text(a.push(space) + b) == words_text(a) + words_text(b),
    decreases b.len(),
{
    let head = a.push(space);
    let s = head + b;
    if b.len() == 0 {
        assert(s =~= head);
        assert(head.drop_last() =~= a);
        assert(words_text(a) + words_text(b) =~= words_text(a));
    } else {
        let d = b.drop_last();
        lemma_words_add(a, space, d);
        assert(s.drop_last() =~= head + d);
        assert(s.last() == b.last());
        let c = b.last();
        if !white_space(c) {
            if b.len() >= 2 {
                assert(s[s.len() - 2] == b[b.len() - 2]);
                if !white_space(b[b.len() - 2]) {
                    assert(d.last() == b[b.len() - 2]);
                    lemma_words_nonempty(d);
                    let wa = words_text(a);
                    let wd = words_text(d);
                    assert((wa + wd).last() == wd.last());
                    assert((wa + wd).drop_last() =~= wa + wd.drop_last());
                    assert(words_text(s) =~= wa + words_text(b));
                } else {
                    assert(words_text(s) =~= words_text(a) + words_text(b));
                }
            } else {
                assert(s[s.len() - 2] == space);
                assert(words_text(s) =~= words_text(a) + words_text(b));
            }
        }
    }
}

/// Large and small letters go together in pairs; nothing else changes.
pub proof fn law_letters_have_two_sizes(c: char)
    ensures
        'A' <= c <= 'Z' ==> 'a' <= ascii_lower(c) <= 'z' && ascii_upper(ascii_lower(c)) == c,
        'a' <= c <= 'z' ==> 'A' <= ascii_upper(c) <= 'Z' && ascii_lower(ascii_upper(c)) == c,
        !('A' <= c <= 'Z') ==> ascii_lower(c) == c,
        !('a' <= c <= 'z') ==> ascii_upper(c) == c,
        ascii_lower('A') == 'a' && ascii_lower('Z') == 'z',
{
}

/// Whether two texts are the same but for the case of their ASCII letters.
pub open spec fn same_letters(a: Seq<char>, b: Seq<char>) -> bool {
    &&& a.len() == b.len()
    &&& forall|i: int|
        0 <= i < a.len() ==> {
            ||| #[trigger] a[i] == b[i]
            ||| 'A' <= a[i] <= 'Z' && b[i] as int == a[i] as int + 32
        }
}

/// Whether a text is made of small ASCII letters and digits.
pub open spec fn small(b: Seq<char>) -> bool {
    forall|i: int| 0 <= i < b.len() ==> ('a' <= #[trigger] b[i] <= 'z' || '0' <= b[i] <= '9')
}

pub proof fn lemma_small(a: Seq<char>, b: Seq<char>)
    requires
        small(b),
    ensures
        same_letters(a, b) <==> ascii_lower_text(a) == b,
{
    let l = ascii_lower_text(a);
    if same_letters(a, b) {
        assert forall|i: int| 0 <= i < a.len() implies l[i] == b[i] by {
            let c = a[i];
            assert('a' <= b[i] <= 'z' || '0' <= b[i] <= '9');
            if 'A' <= c <= 'Z' {
                let up: u32 = (c as u32 + 32) as u32;
                assert(b[i] as u32 == up);
            }
        }
        assert(l =~= b);
    }
    if l == b {
        assert forall|i: int| 0 <= i < a.len() implies (#[trigger] a[i] == b[i] || 'A' <= a[i]
            <= 'Z' && b[i] as int == a[i] as int + 32) by {
            assert(l[i] == b[i]);
        }
    }
}

/// Joining is undone by splitting, as long as no piece holds the character.
pub proof fn law_joining_is_undone(pieces: Seq<Seq<char>>, c: char)
    requires
        pieces.len() > 0,
        forall|i: int| 0 <= i < pieces.len() ==> !(#[trigger] pieces[i]).contains(c),
    ensures
        split_text(joined_by(pieces, c), c) == pieces,
    decreases pieces.len(),
{
    let last = pieces.last();
    assert(!pieces[pieces.len() - 1].contains(c));
    assert forall|i: int| 0 <= i < last.len() implies (#[trigger] last[i]) != c by {
        assert(last.contains(last[i]));
    }
    lemma_split_one(last, c);
    if pieces.len() == 1 {
        assert(split_text(pieces[0], c) =~= pieces);
    } else {
        let front = pieces.drop_last();
        assert forall|i: int| 0 <= i < front.len() implies !(
        #[trigger] front[i]).contains(c) by {
            assert(front[i] == pieces[i]);
        }
        law_joining_is_undone(front, c);
        let a = joined_by(front, c);
        lemma_split_concat(a, c, last);
        assert(a.push(c) + last =~= a + seq![c] + last);
        assert(front + seq![last] =~= pieces);
    }
}

/// Words with one space between them are those words.
pub proof fn law_joined_words_are_the_words(words: Seq<Seq<char>>)
    requires
        forall|i: int|
            0 <= i < words.len() ==> (#[trigger] words[i]).len() > 0 && forall|j: int|
                0 <= j < words[i].len() ==> !white_space(#[trigger] words[i][j]),
    ensures
        words_text(joined(words)) == words,
    decreases words.len(),
{
    if words.len() == 0 {
        assert(words_text(joined(words)) =~= words);
    } else {
        let last = words.last();
        assert(words[words.len() - 1] == last);
        lemma_one_word(last);
        if words.len() == 1 {
            assert(seq![last] =~= words);
        } else {
            let front = words.drop_last();
            assert forall|i: int| 0 <= i < front.len() implies (#[trigger] front[i]).len() > 0
                && forall|j: int| 0 <= j < front[i].len() ==> !white_space(
                #[trigger] front[i][j],
            ) by {
                assert(front[i] == words[i]);
            }
            law_joined_words_are_the_words(front);
            lemma_words_add(joined(front), ' ', last);
            assert(front + seq![last] =~= words);
        }
    }
}

} // verus!
