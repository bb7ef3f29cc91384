//! Putting names in order.

use vstd::prelude::*;
use crate::text;

verus! {

/// Dictionary order, character by character.
pub open spec fn text_le(a: Seq<char>, b: Seq<char>) -> bool
    decreases a.len(),
{
    if a.len() == 0 {
        true
    } else if b.len() == 0 {
        false
    } else if a[0] == b[0] {
        text_le(a.drop_first(), b.drop_first())
    } else {
        a[0] < b[0]
    }
}

pub open spec fn in_order(v: Seq<Seq<char>>) -> bool {
    forall|i: int, j: int| 0 <= i <= j < v.len() ==> text_le(#[trigger] v[i], #[trigger] v[j])
}

/// Of two texts one comes first.
pub proof fn law_text_order_is_total(a: Seq<char>, b: Seq<char>)
    ensures
        text_le(a, b) || text_le(b, a),
    decreases a.len(),
{
    if a.len() > 0 && b.len() > 0 && a[0] == b[0] {
        law_text_order_is_total(a.drop_first(), b.drop_first());
    }
}

pub proof fn law_text_order_is_transitive(a: Seq<char>, b: Seq<char>, c: Seq<char>)
    requires
        text_le(a, b),
        text_le(b, c),
    ensures
        text_le(a, c),
    decreases a.len(),
{
    if a.len() > 0 && a[0] == b[0] && b[0] == c[0] {
        law_text_order_is_transitive(a.drop_first(), b.drop_first(), c.drop_first());
    }
}

/// The first character in which two texts differ decides which comes first: the smaller one.
pub proof fn law_first_difference_decides(
    front: Seq<char>,
    a: char,
    b: char,
    x: Seq<char>,
    y: Seq<char>,
)
    requires
        a != b,
    ensures
        text_le(front + seq![a] + x, front + seq![b] + y) <==> a < b,
    decreases front.len(),
{
    let s = front + seq![a] + x;
    let t = front + seq![b] + y;
    if front.len() == 0 {
        assert(s[0] == a && t[0] == b);
    } else {
        assert(s[0] == front[0] && t[0] == front[0]);
        assert(s.drop_first() =~= front.drop_first() + seq![a] + x);
        assert(t.drop_first() =~= front.drop_first() + seq![b] + y);
        law_first_difference_decides(front.drop_first(), a, b, x, y);
    }
}

/// Texts that come before each other are the same.
pub proof fn law_text_order_is_antisymmetric(a: Seq<char>, b: Seq<char>)
    requires
        text_le(a, b),
        text_le(b, a),
    ensures
        a == b,
    decreases a.len(),
{
    if a.len() == 0 || b.len() == 0 {
        assert(a =~= b);
    } else {
        law_text_order_is_antisymmetric(a.drop_first(), b.drop_first());
        assert(a =~= seq![a[0]] + a.drop_first());
        assert(b =~= seq![b[0]] + b.drop_first());
    }
}

pub fn comes_before(a: &str, b: &str) -> (r: bool)
    ensures
        r == text_le(a@, b@),
{
    let x = text::chars_of(a);
    let y = text::chars_of(b);
    let mut i: usize = 0;
    assert(x@.subrange(0, x@.len() as int) =~= x@);
    assert(y@.subrange(0, y@.len() as int) =~= y@);
    loop
        invariant
            i <= x@.len(),
            i <= y@.len(),
            x@ == a@,
            y@ == b@,
            text_le(
                x@.subrange(i as int, x@.len() as int),
                y@.subrange(i as int, y@.len() as int),
            ) == text_le(a@, b@),
        decreases x@.len() - i,
    {
        let ghost p = x@.subrange(i as int, x@.len() as int);
        let ghost q = y@.subrange(i as int, y@.len() as int);
        if i >= x.len() {
            return true;
        }
        if i >= y.len() {
            return false;
        }
        assert(p[0] == x@[i as int] && q[0] == y@[i as int]);
        if x[i] != y[i] {
            return x[i] < y[i];
        }
        assert(p.drop_first() =~= x@.subrange(i + 1, x@.len() as int));
        assert(q.drop_first() =~= y@.subrange(i + 1, y@.len() as int));
        i += 1;
    }
}

/// Put one more name where it belongs.
fn insert(sorted: &mut Vec<String>, name: String)
    requires
        in_order(text::texts(old(sorted)@)),
    ensures
        in_order(text::texts(final(sorted)@)),
        text::texts(final(sorted)@).to_multiset() == text::texts(
            old(sorted)@,
        ).to_multiset().insert(name@),
{
    let ghost before = text::texts(sorted@);
    let mut pos: usize = 0;
    while pos < sorted.len() && comes_before(sorted[pos].as_str(), name.as_str())
        invariant
            pos <= sorted@.len(),
            before == text::texts(sorted@),
            forall|k: int| 0 <= k < pos ==> text_le(#[trigger] before[k], name@),
        decreases sorted@.len() - pos,
    {
        assert(before[pos as int] == sorted@[pos as int]@);
        pos += 1;
    }
    let ghost x = name@;
    proof {
        if pos < sorted@.len() {
            assert(before[pos as int] == sorted@[pos as int]@);
            law_text_order_is_total(before[pos as int], x);
        }
        assert forall|j: int| pos <= j < before.len() implies text_le(x, #[trigger] before[j]) by {
            law_text_order_is_transitive(x, before[pos as int], before[j]);
        }
    }
    sorted.insert(pos, name);
    proof {
        let after = text::texts(sorted@);
        assert(after =~= before.insert(pos as int, x));
        before.insert_ensures(pos as int, x);
        assert forall|i: int, j: int| 0 <= i <= j < after.len() implies text_le(
            #[trigger] after[i],
            #[trigger] after[j],
        ) by {
            if i == j {
                law_text_order_is_total(after[i], after[i]);
            } else if i < pos && j < pos {
                assert(after[i] == before[i] && after[j] == before[j]);
            } else if i < pos && j == pos {
                assert(after[i] == before[i]);
            } else if i < pos && j > pos {
                assert(after[i] == before[i] && after[j] == before[j - 1]);
                law_text_order_is_transitive(before[i], x, before[j - 1]);
            } else if i == pos {
                assert(after[j] == before[j - 1]);
            } else {
                assert(after[i] == before[i - 1] && after[j] == before[j - 1]);
            }
        }
        after.to_multiset_ensures();
        assert(after.remove(pos as int) =~= before);
        assert(after[pos as int] == x);
        assert(after.contains(x));
        assert(before.to_multiset().insert(x) =~= after.to_multiset());
    }
}

/// The same names, in order.
pub fn sorted(names: &Vec<String>) -> (r: Vec<String>)
    ensures
        in_order(text::texts(r@)),
        text::texts(r@).to_multiset() == text::texts(names@).to_multiset(),
{
    let mut out: Vec<String> = Vec::new();
    let ghost all = text::texts(names@);
    let mut i: usize = 0;
    assert(all.subrange(0, 0) =~= seq![]);
    assert(text::texts(out@) =~= seq![]);
    while i < names.len()
        invariant
            i <= names@.len(),
            all == text::texts(names@),
            in_order(text::texts(out@)),
            text::texts(out@).to_multiset() == all.subrange(0, i as int).to_multiset(),
        decreases names@.len() - i,
    {
        proof {
            let part = all.subrange(0, i + 1);
            assert(part =~= all.subrange(0, i as int).push(all[i as int]));
            all.subrange(0, i as int).to_multiset_ensures();
        }
        insert(&mut out, names[i].clone());
        i += 1;
    }
    assert(all.subrange(0, i as int) =~= all);
    out
}

} // verus!
