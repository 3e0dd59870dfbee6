//! What is counted in partial expressions, and what is asked of them.
use crate::ast_node::partial_expr::{
    all_holes, all_only_holes, first_of_equals, has_equal, holes, lemma_partial_trees, node_count,
    node_counts, only_holes, partial_tree, partial_trees, some_uses_vectors, uses_vectors,
    values_of, PartialExpr, PartialTree,
};
use crate::ast_node::Duplicate;
use crate::number::Number;
use crate::runner::operation::OperationInfo;
use vstd::prelude::*;
use vstd::std_specs::cmp::PartialEqSpec;

verus! {

/// The sum of the numbers.
pub open spec fn total_of(s: Seq<usize>) -> int {
    s.fold_left(0int, |a: int, b: usize| a + b)
}

proof fn lemma_counted<Op, T>(s: Seq<PartialTree<Op, T>>, nodes: Seq<usize>, gaps: Seq<usize>)
    requires
        s.len() == nodes.len() == gaps.len(),
        forall|i: int|
            0 <= i < s.len() ==> nodes[i] == node_count(
                #[trigger] s[i],
            ) && gaps[i] == holes(s[i]).len(),
    ensures
        node_counts(s) == total_of(nodes),
        all_holes(s).len() == total_of(gaps),
    decreases s.len(),
{
    if s.len() > 0 {
        let (t, a, b) = (s.drop_last(), nodes.drop_last(), gaps.drop_last());
        assert forall|i: int| 0 <= i < t.len() implies a[i]
            == node_count(#[trigger] t[i]) && b[i] == holes(
            t[i],
        ).len() by {
            assert(t[i] == s[i]);
        }
        lemma_counted(t, a, b);
        assert(s[s.len() - 1] == s.last());
    }
}

/// A hole is a hole and no node. An operation is one node more than its
/// arguments together, and has the holes that they have together.
pub proof fn law_nodes_and_holes_are_counted<Op, T>(
    p: &PartialExpr<Op, T>,
    nodes: Seq<usize>,
    gaps: Seq<usize>,
    n: usize,
    h: usize,
    size: usize,
)
    requires
        call_ensures(PartialExpr::<Op, T>::num_nodes, (p,), n),
        call_ensures(PartialExpr::<Op, T>::num_holes, (p,), h),
        call_ensures(PartialExpr::<Op, T>::size, (p,), size),
        p is Node ==> {
            &&& nodes.len() == gaps.len() == p->Node_0.args@.len()
            &&& forall|i: int|
                0 <= i < nodes.len() ==> call_ensures(
                    PartialExpr::<Op, T>::num_nodes,
                    (&p->Node_0.args@[i],),
                    #[trigger] nodes[i],
                )
            &&& forall|i: int|
                0 <= i < gaps.len() ==> call_ensures(
                    PartialExpr::<Op, T>::num_holes,
                    (&p->Node_0.args@[i],),
                    #[trigger] gaps[i],
                )
        },
    ensures
        p is Hole ==> n == 0 && h == 1,
        p is Node ==> n == 1 + total_of(nodes) && h == total_of(gaps),
        size == n + h,
{
    if p is Node {
        let args = p->Node_0.args@;
        let s = partial_trees(args);
        lemma_partial_trees(args);
        assert forall|i: int| 0 <= i < s.len() implies nodes[i]
            == node_count(#[trigger] s[i]) && gaps[i] == holes(
            s[i],
        ).len() by {
            assert(s[i] == partial_tree(args[i]));
            assert(call_ensures(PartialExpr::<Op, T>::num_nodes, (&args[i],), nodes[i]));
            assert(call_ensures(PartialExpr::<Op, T>::num_holes, (&args[i],), gaps[i]));
        }
        lemma_counted(s, nodes, gaps);
    }
}

/// The delay of a hole is one. That of an operation is one more than those of
/// its arguments together.
pub proof fn law_delays_add_up<Op: Duplicate + Default, T>(
    p: &PartialExpr<Op, T>,
    delays: Seq<usize>,
    r: usize,
)
    requires
        call_ensures(PartialExpr::<Op, T>::get_delay, (p,), r),
        p is Node ==> {
            &&& delays.len() == p->Node_0.args@.len()
            &&& forall|i: int|
                0 <= i < delays.len() ==> call_ensures(
                    PartialExpr::<Op, T>::get_delay,
                    (&p->Node_0.args@[i],),
                    #[trigger] delays[i],
                )
        },
    ensures
        p is Hole ==> r == 1,
        p is Node ==> r == 1 + total_of(delays),
{
    if p is Node {
        let args = p->Node_0.args@;
        let s = partial_trees(args);
        lemma_partial_trees(args);
        assert forall|i: int| 0 <= i < s.len() implies delays[i]
            == node_count(#[trigger] s[i]) + holes(s[i]).len() by {
            assert(s[i] == partial_tree(args[i]));
            assert(call_ensures(PartialExpr::<Op, T>::get_delay, (&args[i],), delays[i]));
        }
        lemma_delays(s, delays);
    }
}

proof fn lemma_delays<Op, T>(s: Seq<PartialTree<Op, T>>, delays: Seq<usize>)
    requires
        s.len() == delays.len(),
        forall|i: int|
            0 <= i < s.len() ==> delays[i] == node_count(
                #[trigger] s[i],
            ) + holes(s[i]).len(),
    ensures
        node_counts(s) + all_holes(s).len() == total_of(delays),
    decreases s.len(),
{
    if s.len() > 0 {
        let (t, a) = (s.drop_last(), delays.drop_last());
        assert forall|i: int| 0 <= i < t.len() implies a[i]
            == node_count(#[trigger] t[i]) + holes(t[i]).len() by {
            assert(t[i] == s[i]);
        }
        lemma_delays(t, a);
        assert(s[s.len() - 1] == s.last());
    }
}

proof fn lemma_asked<Op: OperationInfo<N>, T, N: Number>(s: Seq<PartialTree<Op, T>>)
    ensures
        all_holes(s).len() > 0 <==> exists|i: int|
            0 <= i < s.len() && holes(#[trigger] s[i]).len() > 0,
        all_only_holes(s) <==> forall|i: int| 0 <= i < s.len() ==> only_holes(#[trigger] s[i]),
        some_uses_vectors::<Op, T, N>(s) <==> exists|i: int|
            0 <= i < s.len() && uses_vectors::<Op, T, N>(#[trigger] s[i]),
    decreases s.len(),
{
    if s.len() > 0 {
        let t = s.drop_last();
        lemma_asked::<Op, T, N>(t);
        assert(s[s.len() - 1] == s.last());
        assert forall|i: int| 0 <= i < t.len() implies t[i] == #[trigger] s[i] by {}
        if exists|i: int| 0 <= i < t.len() && holes(#[trigger] t[i]).len() > 0 {
            let i = choose|i: int| 0 <= i < t.len() && holes(#[trigger] t[i]).len() > 0;
            assert(s[i] == t[i]);
        }
        if exists|i: int| 0 <= i < s.len() && holes(#[trigger] s[i]).len() > 0 {
            let i = choose|i: int| 0 <= i < s.len() && holes(#[trigger] s[i]).len() > 0;
            if i < t.len() {
                assert(t[i] == s[i]);
            }
        }
        if forall|i: int| 0 <= i < s.len() ==> only_holes(#[trigger] s[i]) {
            assert forall|i: int| 0 <= i < t.len() implies only_holes(#[trigger] t[i]) by {
                assert(only_holes(s[i]));
            }
        }
        if exists|i: int| 0 <= i < t.len() && uses_vectors::<Op, T, N>(#[trigger] t[i]) {
            let i = choose|i: int| 0 <= i < t.len() && uses_vectors::<Op, T, N>(#[trigger] t[i]);
            assert(s[i] == t[i]);
        }
        if exists|i: int| 0 <= i < s.len() && uses_vectors::<Op, T, N>(#[trigger] s[i]) {
            let i = choose|i: int| 0 <= i < s.len() && uses_vectors::<Op, T, N>(#[trigger] s[i]);
            if i < t.len() {
                assert(t[i] == s[i]);
            }
        }
    }
}

/// A hole is not complete, all its leaves are holes, and it uses no vectors. An
/// operation is complete where every argument is; all its leaves are holes
/// where those of every argument are; and it uses vectors where it works on
/// them or an argument does.
pub proof fn law_answers_for_a_node<Op: OperationInfo<N>, T, N: Number>(
    p: &PartialExpr<Op, T>,
    whole: Seq<bool>,
    all: Seq<bool>,
    vectors: Seq<bool>,
    complete: bool,
    only: bool,
    vector: bool,
)
    requires
        call_ensures(PartialExpr::<Op, T>::has_holes, (p,), complete),
        call_ensures(PartialExpr::<Op, T>::leaves_are_all_holes, (p,), only),
        call_ensures(PartialExpr::<Op, T>::has_vector_op::<N>, (p,), vector),
        p is Node ==> {
            &&& whole.len() == all.len() == vectors.len() == p->Node_0.args@.len()
            &&& forall|i: int|
                0 <= i < whole.len() ==> call_ensures(
                    PartialExpr::<Op, T>::has_holes,
                    (&p->Node_0.args@[i],),
                    #[trigger] whole[i],
                )
            &&& forall|i: int|
                0 <= i < all.len() ==> call_ensures(
                    PartialExpr::<Op, T>::leaves_are_all_holes,
                    (&p->Node_0.args@[i],),
                    #[trigger] all[i],
                )
            &&& forall|i: int|
                0 <= i < vectors.len() ==> call_ensures(
                    PartialExpr::<Op, T>::has_vector_op::<N>,
                    (&p->Node_0.args@[i],),
                    #[trigger] vectors[i],
                )
        },
    ensures
        p is Hole ==> !complete && only && !vector,
        p is Node ==> {
            &&& complete <==> !whole.contains(false)
            &&& only <==> !all.contains(false)
            &&& vector <==> p->Node_0.operation.s_is_vector_op() || vectors.contains(true)
        },
{
    if p is Node {
        let args = p->Node_0.args@;
        let s = partial_trees(args);
        lemma_partial_trees(args);
        lemma_asked::<Op, T, N>(s);
        assert forall|i: int| 0 <= i < s.len() implies (holes(#[trigger] s[i]).len() == 0)
            == whole[i] && only_holes(s[i]) == all[i] && uses_vectors::<Op, T, N>(s[i]) == vectors[i] by {
            assert(s[i] == partial_tree(args[i]));
            assert(call_ensures(PartialExpr::<Op, T>::has_holes, (&args[i],), whole[i]));
            assert(call_ensures(PartialExpr::<Op, T>::leaves_are_all_holes, (&args[i],), all[i]));
            assert(call_ensures(PartialExpr::<Op, T>::has_vector_op::<N>, (&args[i],), vectors[i]));
        }
        if whole.contains(false) {
            let i = choose|i: int| 0 <= i < whole.len() && !whole[i];
            assert(holes(s[i]).len() > 0);
        }
        if !complete {
            let i = choose|i: int| 0 <= i < s.len() && holes(#[trigger] s[i]).len() > 0;
            assert(!whole[i]);
        }
        if all.contains(false) {
            let i = choose|i: int| 0 <= i < all.len() && !all[i];
            assert(!only_holes(s[i]));
        } else {
            assert forall|i: int| 0 <= i < s.len() implies only_holes(#[trigger] s[i]) by {
                if !all[i] {
                    assert(all.contains(false));
                }
            }
        }
        if vectors.contains(true) {
            let i = choose|i: int| 0 <= i < vectors.len() && vectors[i];
            assert(uses_vectors::<Op, T, N>(s[i]));
        }
        if some_uses_vectors::<Op, T, N>(s) {
            let i = choose|i: int| 0 <= i < s.len() && uses_vectors::<Op, T, N>(#[trigger] s[i]);
            assert(vectors[i]);
        }
    }
}

proof fn lemma_firsts<T: PartialEq>(s: Seq<T>, n: nat)
    requires
        n <= s.len(),
    ensures
        ({
            let r = first_of_equals(s, n);
            &&& forall|i: int, j: int|
                #![trigger r[i], r[j]]
                0 <= i < j < r.len() ==> !r[i].eq_spec(&r[j])
            &&& forall|k: int|
                0 <= k < n ==> s[k] == s[k] && (has_equal(r, #[trigger] s[k]) || r.contains(s[k]))
            &&& forall|i: int|
                0 <= i < r.len() ==> s.take(n as int).contains(#[trigger] r[i])
        }),
    decreases n,
{
    if n > 0 {
        lemma_firsts(s, (n - 1) as nat);
        let before = first_of_equals(s, (n - 1) as nat);
        let r = first_of_equals(s, n);
        let x = s[n - 1];
        let (a, b) = (s.take(n - 1), s.take(n as int));
        assert(b[n - 1] == x);
        assert forall|i: int| 0 <= i < before.len() implies b.contains(#[trigger] before[i]) by {
            assert(a.contains(before[i]));
            let k = choose|k: int| 0 <= k < a.len() && a[k] == before[i];
            assert(b[k] == before[i]);
        }
        if !has_equal(before, x) {
            assert(r =~= before.push(x));
            assert(r[before.len() as int] == x);
            assert forall|k: int| 0 <= k < n implies s[k] == s[k] && (has_equal(
                r,
                #[trigger] s[k],
            ) || r.contains(s[k])) by {
                if k < n - 1 {
                    if has_equal(before, s[k]) {
                        let i = choose|i: int|
                            0 <= i < before.len() && (#[trigger] before[i]).eq_spec(&s[k]);
                        assert(r[i] == before[i]);
                    } else {
                        let i = choose|i: int| 0 <= i < before.len() && before[i] == s[k];
                        assert(r[i] == s[k]);
                    }
                }
            }
            assert forall|i: int, j: int|
                #![trigger r[i], r[j]]
                0 <= i < j < r.len() implies !r[i].eq_spec(&r[j]) by {
                if j == before.len() {
                    assert(!before[i].eq_spec(&x));
                }
            }
        }
    }
}

/// Every hole is among the different holes, or one that is equal to it. No one
/// of them is equal to a later one, and there are no others.
pub proof fn law_holes_differ<Op, T: PartialEq>(p: &PartialExpr<Op, T>, r: Vec<&T>)
    requires
        T::obeys_eq_spec(),
        call_ensures(PartialExpr::<Op, T>::unique_holes, (p,), r),
    ensures
        forall|i: int, j: int|
            #![trigger r@[i], r@[j]]
            0 <= i < j < r@.len() ==> !r@[i].eq_spec(r@[j]),
        forall|i: int|
            0 <= i < r@.len() ==> holes(partial_tree(*p)).contains(*(#[trigger] r@[i])),
        forall|k: int|
            #![trigger holes(partial_tree(*p))[k]]
            0 <= k < holes(partial_tree(*p)).len() ==> exists|i: int|
                #![trigger r@[i]]
                0 <= i < r@.len() && (*r@[i] == holes(partial_tree(*p))[k] || r@[i].eq_spec(
                    &holes(partial_tree(*p))[k],
                )),
{
    let s = holes(partial_tree(*p));
    let t = values_of(r@);
    lemma_firsts(s, s.len());
    assert(s.take(s.len() as int) =~= s);
    assert forall|i: int, j: int|
        #![trigger r@[i], r@[j]]
        0 <= i < j < r@.len() implies !r@[i].eq_spec(r@[j]) by {
        assert(!t[i].eq_spec(&t[j]));
    }
    assert forall|i: int| 0 <= i < r@.len() implies s.contains(*(#[trigger] r@[i])) by {
        assert(s.contains(t[i]));
    }
    assert forall|k: int| #![trigger s[k]] 0 <= k < s.len() implies exists|i: int|
        #![trigger r@[i]]
        0 <= i < r@.len() && (*r@[i] == s[k] || r@[i].eq_spec(&s[k])) by {
        assert(s[k] == s[k]);
        if has_equal(t, s[k]) {
            let i = choose|i: int| 0 <= i < t.len() && (#[trigger] t[i]).eq_spec(&s[k]);
            assert(*r@[i] == t[i]);
        } else {
            let i = choose|i: int| 0 <= i < t.len() && t[i] == s[k];
            assert(*r@[i] == s[k]);
        }
    }
}

} // verus!
