//! How texts are ordered, and what ordering them does to a list.
use crate::sorting::lemma_sorted;
use crate::text::texts;
use crate::text_sort::{
    law_text_union, law_texts_are_ordered, sort_texts, text_in_order, text_le, text_order,
    unite_texts,
};
use vstd::prelude::*;

verus! {

proof fn lemma_behind_a_prefix(p: Seq<char>, a: Seq<char>, b: Seq<char>)
    ensures
        text_le(p + a, p + b) == text_le(a, b),
    decreases p.len(),
{
    if p.len() == 0 {
        assert(p + a =~= a);
        assert(p + b =~= b);
    } else {
        lemma_behind_a_prefix(p.drop_first(), a, b);
        assert((p + a).drop_first() =~= p.drop_first() + a);
        assert((p + b).drop_first() =~= p.drop_first() + b);
    }
}

/// Of two texts that first differ in a character, the one with the smaller
/// character there comes first.
pub proof fn law_first_difference_decides(
    a: &str,
    b: &str,
    same: Seq<char>,
    x: char,
    y: char,
    rest_a: Seq<char>,
    rest_b: Seq<char>,
    r: bool,
)
    requires
        a@ == same.push(x) + rest_a,
        b@ == same.push(y) + rest_b,
        x != y,
        call_ensures(text_in_order, (a, b), r),
    ensures
        r == (x < y),
{
    let ta = seq![x] + rest_a;
    let tb = seq![y] + rest_b;
    assert(a@ =~= same + ta);
    assert(b@ =~= same + tb);
    lemma_behind_a_prefix(same, ta, tb);
    assert(ta[0] == x && tb[0] == y);
}

/// A text comes before the texts that begin with it.
pub proof fn law_beginning_comes_first(a: &str, b: &str, rest: Seq<char>, r: bool)
    requires
        b@ == a@ + rest,
        call_ensures(text_in_order, (a, b), r),
    ensures
        r,
{
    lemma_behind_a_prefix(a@, Seq::empty(), rest);
    assert(a@ + Seq::<char>::empty() =~= a@);
}

/// Sorting texts keeps them, each as often as before, and leaves none behind
/// one that comes before it.
pub proof fn law_sorted_texts(v: &Vec<String>, r: Vec<String>)
    requires
        call_ensures(sort_texts, (v,), r),
    ensures
        texts(r@).to_multiset() == texts(v@).to_multiset(),
        forall|i: int, j: int|
            0 <= i < j < r@.len() ==> text_le(#[trigger] texts(r@)[i], #[trigger] texts(r@)[j]),
{
    law_texts_are_ordered();
    lemma_sorted(texts(v@), text_order());
    let le = text_order();
    assert forall|i: int, j: int| 0 <= i < j < r@.len() implies text_le(
        #[trigger] texts(r@)[i],
        #[trigger] texts(r@)[j],
    ) by {
        assert(le(texts(r@)[i], texts(r@)[j]));
    }
}

/// Uniting two lists gives the texts of both, each once, in order.
pub proof fn law_united_texts(a: &Vec<String>, b: &Vec<String>, r: Vec<String>)
    requires
        call_ensures(unite_texts, (a, b), r),
    ensures
        forall|x: Seq<char>| #[trigger]
            texts(r@).contains(x) <==> texts(a@).contains(x) || texts(b@).contains(x),
        forall|i: int, j: int|
            0 <= i < j < r@.len() ==> text_le(#[trigger] texts(r@)[i], #[trigger] texts(r@)[j])
                && texts(r@)[i] != texts(r@)[j],
{
    law_text_union(texts(a@), texts(b@));
}

/// A list has one order.
pub(crate) proof fn lemma_one_order(s: Seq<Seq<char>>, t: Seq<Seq<char>>)
    requires
        t.to_multiset() == s.to_multiset(),
        forall|i: int, j: int|
            0 <= i < j < t.len() ==> text_le(#[trigger] t[i], #[trigger] t[j]),
    ensures
        crate::sorting::sorted(s, text_order()) == t,
{
    let le = text_order();
    let u = crate::sorting::sorted(s, le);
    law_texts_are_ordered();
    lemma_sorted(s, le);
    assert(vstd::relations::total_ordering(le)) by {
        assert forall|a: Seq<char>| #[trigger] le(a, a) by {
            assert(le(a, a) || le(a, a));
        }
        assert forall|a: Seq<char>, b: Seq<char>| #[trigger] le(a, b) && #[trigger] le(
            b,
            a,
        ) implies a == b by {
            assert(text_le(a, b) && text_le(b, a));
        }
        assert forall|a: Seq<char>, b: Seq<char>, c: Seq<char>| #[trigger]
            le(a, b) && #[trigger] le(b, c) implies le(a, c) by {}
        assert forall|a: Seq<char>, b: Seq<char>| #[trigger] le(a, b) || #[trigger] le(b, a) by {}
    }
    assert(vstd::relations::sorted_by(u, le)) by {
        assert forall|i: int, j: int| 0 <= i < j < u.len() implies #[trigger] le(u[i], u[j]) by {}
    }
    assert(vstd::relations::sorted_by(t, le)) by {
        assert forall|i: int, j: int| 0 <= i < j < t.len() implies #[trigger] le(t[i], t[j]) by {
            assert(text_le(t[i], t[j]));
        }
    }
    vstd::seq_lib::lemma_sorted_unique(u, t, le);
}

} // verus!
