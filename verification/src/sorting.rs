//! Stable sorting, stated over any order.
use vstd::prelude::*;

verus! {

/// Whether `le` compares any two values one way or the other.
pub open spec fn total<T>(le: spec_fn(T, T) -> bool) -> bool {
    forall|a: T, b: T| #[trigger] le(a, b) || le(b, a)
}

/// Whether `le` is transitive.
pub open spec fn transitive<T>(le: spec_fn(T, T) -> bool) -> bool {
    forall|a: T, b: T, c: T| #[trigger] le(a, b) && #[trigger] le(b, c) ==> le(a, c)
}

/// Whether `s` is in order.
pub open spec fn in_order<T>(s: Seq<T>, le: spec_fn(T, T) -> bool) -> bool {
    forall|i: int, j: int| 0 <= i < j < s.len() ==> #[trigger] le(s[i], s[j])
}

/// `s` with `x` put behind the last value that does not come after it.
pub open spec fn placed<T>(s: Seq<T>, x: T, le: spec_fn(T, T) -> bool) -> Seq<T>
    decreases s.len(),
{
    if s.len() == 0 {
        seq![x]
    } else if le(s.last(), x) {
        s.push(x)
    } else {
        placed(s.drop_last(), x, le).push(s.last())
    }
}

/// `s` in order, equal values staying in the order in which they were.
pub open spec fn sorted<T>(s: Seq<T>, le: spec_fn(T, T) -> bool) -> Seq<T>
    decreases s.len(),
{
    if s.len() == 0 {
        s
    } else {
        placed(sorted(s.drop_last(), le), s.last(), le)
    }
}

pub(crate) proof fn lemma_placed_at<T>(s: Seq<T>, x: T, le: spec_fn(T, T) -> bool, p: int)
    requires
        0 <= p <= s.len(),
        p > 0 ==> le(s[p - 1], x),
        forall|i: int| p <= i < s.len() ==> !le(#[trigger] s[i], x),
    ensures
        placed(s, x, le) == s.insert(p, x),
    decreases s.len(),
{
    if s.len() == 0 {
        assert(placed(s, x, le) =~= s.insert(p, x));
    } else if p == s.len() {
        assert(placed(s, x, le) =~= s.insert(p, x));
    } else {
        assert(!le(s[s.len() - 1], x));
        lemma_placed_at(s.drop_last(), x, le, p);
        assert(s.drop_last().insert(p, x).push(s.last()) =~= s.insert(p, x));
    }
}

pub(crate) proof fn lemma_placed<T>(s: Seq<T>, x: T, le: spec_fn(T, T) -> bool)
    ensures
        placed(s, x, le).len() == s.len() + 1,
        placed(s, x, le).to_multiset() == s.to_multiset().insert(x),
        total(le) && transitive(le) && in_order(s, le) ==> in_order(placed(s, x, le), le),
    decreases s.len(),
{
    broadcast use vstd::seq_lib::group_to_multiset_ensures;

    let t = placed(s, x, le);
    if s.len() == 0 {
        assert(t =~= s.push(x));
    } else if le(s.last(), x) {
        if transitive(le) && in_order(s, le) {
            assert forall|i: int, j: int| 0 <= i < j < t.len() implies #[trigger] le(t[i], t[j]) by {
                if j == s.len() && i < s.len() - 1 {
                    assert(le(s[i], s[s.len() - 1]));
                }
            }
        }
    } else {
        let u = s.drop_last();
        lemma_placed(u, x, le);
        assert(s =~= u.push(s.last()));
        assert(t.to_multiset() =~= s.to_multiset().insert(x));
        if total(le) && transitive(le) && in_order(s, le) {
            assert(in_order(u, le)) by {
                assert forall|i: int, j: int| 0 <= i < j < u.len() implies #[trigger] le(
                    u[i],
                    u[j],
                ) by {
                    assert(le(s[i], s[j]));
                }
            }
            let pu = placed(u, x, le);
            assert forall|i: int, j: int| 0 <= i < j < t.len() implies #[trigger] le(t[i], t[j]) by {
                if j < pu.len() {
                    assert(le(pu[i], pu[j]));
                } else {
                    assert(pu.to_multiset().count(pu[i]) > 0) by {
                        assert(pu.contains(pu[i]));
                    }
                    assert(pu[i] == x || u.contains(pu[i])) by {
                        if pu[i] != x {
                            assert(u.to_multiset().count(pu[i]) > 0);
                        }
                    }
                    if pu[i] == x {
                        assert(le(s.last(), x) || le(x, s.last()));
                    } else {
                        let k = choose|k: int| 0 <= k < u.len() && u[k] == pu[i];
                        assert(le(s[k], s[s.len() - 1]));
                    }
                }
            }
        }
    }
}

pub(crate) proof fn lemma_sorted<T>(s: Seq<T>, le: spec_fn(T, T) -> bool)
    ensures
        sorted(s, le).len() == s.len(),
        sorted(s, le).to_multiset() == s.to_multiset(),
        total(le) && transitive(le) ==> in_order(sorted(s, le), le),
    decreases s.len(),
{
    broadcast use vstd::seq_lib::group_to_multiset_ensures;

    if s.len() > 0 {
        lemma_sorted(s.drop_last(), le);
        lemma_placed(sorted(s.drop_last(), le), s.last(), le);
        assert(s =~= s.drop_last().push(s.last()));
    }
}

/// Sorting keeps the values, each as often as before, and under a total and
/// transitive order it puts them in order.
pub proof fn law_sorted_is_ordered_rearrangement<T>(s: Seq<T>, le: spec_fn(T, T) -> bool)
    requires
        total(le),
        transitive(le),
    ensures
        sorted(s, le).to_multiset() == s.to_multiset(),
        in_order(sorted(s, le), le),
{
    lemma_sorted(s, le);
}

} // verus!
