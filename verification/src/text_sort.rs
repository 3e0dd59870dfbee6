//! Texts in order, and lists of texts without repetitions.
use crate::sorting::{
    in_order, lemma_placed_at, lemma_sorted, sorted, total, transitive,
};
use crate::text::{texts, to_chars};
use vstd::prelude::*;

verus! {

/// The order of texts: lexicographically, by code points.
pub open spec fn text_le(a: Seq<char>, b: Seq<char>) -> bool
    decreases a.len(),
{
    if a.len() == 0 {
        true
    } else if b.len() == 0 {
        false
    } else {
        a[0] < b[0] || (a[0] == b[0] && text_le(a.drop_first(), b.drop_first()))
    }
}

/// [`text_le`] as a function.
pub open spec fn text_order() -> spec_fn(Seq<char>, Seq<char>) -> bool {
    |a: Seq<char>, b: Seq<char>| text_le(a, b)
}

proof fn lemma_text_le_total(a: Seq<char>, b: Seq<char>)
    ensures
        text_le(a, b) || text_le(b, a),
    decreases a.len(),
{
    if a.len() > 0 && b.len() > 0 {
        lemma_text_le_total(a.drop_first(), b.drop_first());
    }
}

proof fn lemma_text_le_transitive(a: Seq<char>, b: Seq<char>, c: Seq<char>)
    requires
        text_le(a, b),
        text_le(b, c),
    ensures
        text_le(a, c),
    decreases a.len(),
{
    if a.len() > 0 && a[0] == b[0] && b[0] == c[0] {
        lemma_text_le_transitive(a.drop_first(), b.drop_first(), c.drop_first());
    }
}

proof fn lemma_text_le_antisymmetric(a: Seq<char>, b: Seq<char>)
    requires
        text_le(a, b),
        text_le(b, a),
    ensures
        a == b,
    decreases a.len(),
{
    if a.len() > 0 && b.len() > 0 {
        lemma_text_le_antisymmetric(a.drop_first(), b.drop_first());
        assert(a =~= seq![a[0]] + a.drop_first());
        assert(b =~= seq![b[0]] + b.drop_first());
    } else {
        assert(a =~= b);
    }
}

/// The order of texts is total and transitive, and texts that are ordered
/// both ways are equal.
pub proof fn law_texts_are_ordered()
    ensures
        total(text_order()),
        transitive(text_order()),
        forall|a: Seq<char>, b: Seq<char>| #[trigger]
            text_le(a, b) && text_le(b, a) ==> a == b,
{
    let le = text_order();
    assert forall|a: Seq<char>, b: Seq<char>| #[trigger] le(a, b) || le(b, a) by {
        lemma_text_le_total(a, b);
    }
    assert forall|a: Seq<char>, b: Seq<char>, c: Seq<char>| #[trigger]
        le(a, b) && #[trigger] le(b, c) implies le(a, c) by {
        lemma_text_le_transitive(a, b, c);
    }
    assert forall|a: Seq<char>, b: Seq<char>| #[trigger] text_le(a, b) && text_le(b, a) implies a
        == b by {
        lemma_text_le_antisymmetric(a, b);
    }
}

/// Whether `a` comes before `b` or is equal to it.
pub fn text_in_order(a: &str, b: &str) -> (r: bool)
    ensures
        r == text_le(a@, b@),
{
    let x: Vec<char> = to_chars(a);
    let y: Vec<char> = to_chars(b);
    let mut i: usize = 0;
    assert(x@.skip(0) =~= x@ && y@.skip(0) =~= y@);
    while i < x.len() && i < y.len()
        invariant
            i <= x@.len(),
            i <= y@.len(),
            x@ == a@,
            y@ == b@,
            text_le(a@, b@) == text_le(x@.skip(i as int), y@.skip(i as int)),
        decreases x@.len() - i,
    {
        assert(x@.skip(i as int).drop_first() =~= x@.skip(i + 1));
        assert(y@.skip(i as int).drop_first() =~= y@.skip(i + 1));
        if x[i] != y[i] {
            return x[i] < y[i];
        }
        i = i + 1;
    }
    i == x.len()
}

/// The texts in order, equal ones staying in the order in which they were.
pub fn sort_texts(v: &Vec<String>) -> (r: Vec<String>)
    ensures
        texts(r@) == sorted(texts(v@), text_order()),
{
    let ghost s = texts(v@);
    let ghost le = text_order();
    let mut out: Vec<String> = Vec::new();
    let n: usize = v.len();
    assert(texts(out@) =~= sorted(s.take(0), le));
    for i in 0..n
        invariant
            n == v@.len(),
            s == texts(v@),
            le == text_order(),
            texts(out@) == sorted(s.take(i as int), le),
    {
        let ghost t = texts(out@);
        let mut p: usize = out.len();
        while p > 0 && !text_in_order(out[p - 1].as_str(), v[i].as_str())
            invariant
                i < v@.len(),
                p <= out@.len(),
                t == texts(out@),
                s == texts(v@),
                le == text_order(),
                forall|j: int| p <= j < t.len() ==> !le(#[trigger] t[j], s[i as int]),
            decreases p,
        {
            assert(!le(t[p - 1], s[i as int]));
            p = p - 1;
        }
        proof {
            if p > 0 {
                assert(le(t[p - 1], s[i as int]));
            }
            lemma_placed_at(t, s[i as int], le, p as int);
            assert(s.take(i + 1).drop_last() =~= s.take(i as int));
        }
        out.insert(p, v[i].clone());
        assert(texts(out@) =~= t.insert(p as int, s[i as int]));
    }
    assert(s.take(n as int) =~= s);
    out
}

/// `s` where of equal neighbors only the first is kept.
pub open spec fn without_repeats<T>(s: Seq<T>) -> Seq<T>
    decreases s.len(),
{
    if s.len() == 0 {
        s
    } else {
        let r = without_repeats(s.drop_last());
        if r.len() > 0 && r.last() == s.last() {
            r
        } else {
            r.push(s.last())
        }
    }
}

/// The union of two lists of texts, in order and without repetitions.
pub open spec fn text_union(a: Seq<Seq<char>>, b: Seq<Seq<char>>) -> Seq<Seq<char>> {
    without_repeats(sorted(a + b, text_order()))
}

/// The union of two lists of texts, in order and without repetitions.
pub fn unite_texts(a: &Vec<String>, b: &Vec<String>) -> (r: Vec<String>)
    ensures
        texts(r@) == text_union(texts(a@), texts(b@)),
{
    let mut both: Vec<String> = crate::text::copy_texts(a);
    let mut more: Vec<String> = crate::text::copy_texts(b);
    let ghost x = both@;
    let ghost y = more@;
    both.append(&mut more);
    assert(both@ =~= x + y);
    assert(texts(both@) =~= texts(a@) + texts(b@)) by {
        assert forall|i: int| 0 <= i < both@.len() implies texts(both@)[i] == (texts(a@) + texts(
            b@,
        ))[i] by {
            if i < x.len() {
                assert(texts(x)[i] == texts(a@)[i]);
            } else {
                assert(texts(y)[i - x.len()] == texts(b@)[i - x.len()]);
            }
        }
        assert(texts(x).len() == x.len() && texts(y).len() == y.len());
    }
    let order: Vec<String> = sort_texts(&both);
    let ghost s = texts(order@);
    let mut r: Vec<String> = Vec::new();
    let n: usize = order.len();
    assert(texts(r@) =~= without_repeats(s.take(0)));
    for i in 0..n
        invariant
            n == order@.len(),
            s == texts(order@),
            texts(r@) == without_repeats(s.take(i as int)),
    {
        let ghost t = texts(r@);
        assert(s.take(i + 1).drop_last() =~= s.take(i as int));
        let m: usize = r.len();
        assert(m > 0 ==> t.last() == r@[m - 1]@);
        if m == 0 || r[m - 1] != order[i] {
            r.push(order[i].clone());
            assert(texts(r@) =~= t.push(s[i as int]));
        }
    }
    assert(s.take(n as int) =~= s);
    r
}

/// Whether each text comes strictly before the next.
pub open spec fn texts_increase(s: Seq<Seq<char>>) -> bool {
    forall|i: int, j: int|
        0 <= i < j < s.len() ==> text_le(#[trigger] s[i], #[trigger] s[j]) && s[i] != s[j]
}

pub(crate) proof fn lemma_without_repeats(s: Seq<Seq<char>>)
    requires
        in_order(s, text_order()),
    ensures
        texts_increase(without_repeats(s)),
        forall|x: Seq<char>| without_repeats(s).contains(x) <==> s.contains(x),
        s.len() > 0 ==> without_repeats(s).len() > 0 && without_repeats(s).last() == s.last(),
    decreases s.len(),
{
    let u = without_repeats(s);
    let le = text_order();
    if s.len() > 0 {
        let t = s.drop_last();
        assert(in_order(t, le)) by {
            assert forall|i: int, j: int| 0 <= i < j < t.len() implies #[trigger] le(t[i], t[j]) by {
                assert(le(s[i], s[j]));
            }
        }
        lemma_without_repeats(t);
        let r = without_repeats(t);
        assert forall|x: Seq<char>| u.contains(x) <==> s.contains(x) by {
            if u.contains(x) {
                let i = choose|i: int| 0 <= i < u.len() && u[i] == x;
                if i < r.len() {
                    assert(r[i] == x);
                    assert(t.contains(x));
                    let k = choose|k: int| 0 <= k < t.len() && t[k] == x;
                    assert(s[k] == x);
                } else {
                    assert(s[s.len() - 1] == x);
                }
            }
            if s.contains(x) {
                let k = choose|k: int| 0 <= k < s.len() && s[k] == x;
                if k < t.len() {
                    assert(t[k] == x);
                    assert(t.contains(x));
                    assert(r.contains(x));
                    let i = choose|i: int| 0 <= i < r.len() && r[i] == x;
                    assert(u[i] == x);
                } else {
                    assert(u[u.len() - 1] == x);
                }
            }
        }
        if u != r {
            law_texts_are_ordered();
            assert forall|i: int, j: int| 0 <= i < j < u.len() implies text_le(
                #[trigger] u[i],
                #[trigger] u[j],
            ) && u[i] != u[j] by {
                if j < r.len() {
                    assert(text_le(r[i], r[j]) && r[i] != r[j]);
                } else {
                    assert(r.contains(r[i]));
                    assert(t.contains(r[i]));
                    let k = choose|k: int| 0 <= k < t.len() && t[k] == r[i];
                    assert(le(s[k], s[s.len() - 1]));
                    assert(text_le(u[i], u[j]));
                    if u[i] == u[j] {
                        // The last kept text is the last before, so it lies between the two.
                        let l = r.last();
                        assert(l == t.last());
                        assert(le(s[s.len() - 2], s[s.len() - 1]));
                        if i < r.len() - 1 {
                            assert(text_le(r[i], r[r.len() - 1]));
                            assert(text_le(l, u[j]));
                            lemma_text_le_antisymmetric(l, u[j]);
                        }
                    }
                }
            }
        }
    }
}

/// The union of two lists of texts is strictly in order and holds the texts
/// of both and no others.
pub proof fn law_text_union(a: Seq<Seq<char>>, b: Seq<Seq<char>>)
    ensures
        texts_increase(text_union(a, b)),
        forall|x: Seq<char>| #[trigger]
            text_union(a, b).contains(x) <==> a.contains(x) || b.contains(x),
{
    let both = a + b;
    let s = sorted(both, text_order());
    law_texts_are_ordered();
    lemma_sorted(both, text_order());
    lemma_without_repeats(s);
    broadcast use vstd::seq_lib::group_to_multiset_ensures;

    assert forall|x: Seq<char>| #[trigger] text_union(a, b).contains(x) <==> a.contains(x)
        || b.contains(x) by {
        assert(s.contains(x) <==> s.to_multiset().count(x) > 0);
        assert(both.contains(x) <==> both.to_multiset().count(x) > 0);
        if both.contains(x) {
            let i = choose|i: int| 0 <= i < both.len() && both[i] == x;
            if i < a.len() {
                assert(a[i] == x);
            } else {
                assert(b[i - a.len()] == x);
            }
        }
        if a.contains(x) {
            let i = choose|i: int| 0 <= i < a.len() && a[i] == x;
            assert(both[i] == x);
        }
        if b.contains(x) {
            let i = choose|i: int| 0 <= i < b.len() && b[i] == x;
            assert(both[a.len() + i] == x);
        }
    }
}

} // verus!
