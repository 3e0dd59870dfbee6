//! What an extraction without cycles chooses, and how it puts it together.
use crate::bb_query::QueryView;
use crate::egraph::EGraph;
use crate::extract::isax_extractor::{
    acyclic_below, args_placed, best_of, choice, depth, law_choice_is_cheapest, lemma_arg_is_lower,
    lemma_best_of, lemma_choice_exists, node_cost_of, node_placed, nothing_placed, placed, Placed,
};
use crate::number::Number;
use crate::runner::operation::OperationInfo;
use crate::schedule::Schedulable;
use crate::teachable::Teachable;
use vstd::prelude::*;

verus! {

proof fn lemma_earlier_cost_more<Op, N, LA, LD, D>(
    g: EGraph<Op, D>,
    q: QueryView<N>,
    id: usize,
    k: nat,
    i: int,
) where Op: Schedulable<N, LA, LD> + OperationInfo<N> + Teachable<N>, N: Number
    requires
        1 < g.class(id).nodes@.len() <= usize::MAX,
        0 < k <= g.class(id).nodes@.len(),
        0 <= i < best_of::<Op, N, LA, LD, D>(g, q, id, k).0,
    ensures
        !node_cost_of::<Op, N, LA, LD, D>(g, q, id, i).s_le(
            best_of::<Op, N, LA, LD, D>(g, q, id, k).1,
        ),
    decreases k,
{
    lemma_best_of::<Op, N, LA, LD, D>(g, q, id, k);
    if k > 1 {
        lemma_best_of::<Op, N, LA, LD, D>(g, q, id, (k - 1) as nat);
        let before = best_of::<Op, N, LA, LD, D>(g, q, id, (k - 1) as nat);
        let b = best_of::<Op, N, LA, LD, D>(g, q, id, k);
        if b.0 == before.0 {
            lemma_earlier_cost_more::<Op, N, LA, LD, D>(g, q, id, (k - 1) as nat, i);
        } else {
            let x = node_cost_of::<Op, N, LA, LD, D>(g, q, id, i);
            if x.s_le(b.1) {
                N::le_transitive(before.1, x, b.1);
            }
        }
    }
}

/// Of the nodes of a class that cost least the first is chosen.
pub proof fn law_first_of_the_cheapest<Op, N, LA, LD, D>(
    g: EGraph<Op, D>,
    q: QueryView<N>,
    id: usize,
    i: int,
) where Op: Schedulable<N, LA, LD> + OperationInfo<N> + Teachable<N>, N: Number
    requires
        g.wf(),
        id < g.slots@.len(),
        0 <= i < g.class(id).nodes@.len() <= usize::MAX,
    ensures
        ({
            let c = choice::<Op, N, LA, LD, D>(g, q, id).0 as int;
            let least = node_cost_of::<Op, N, LA, LD, D>(g, q, id, c);
            &&& 0 <= c < g.class(id).nodes@.len()
            &&& least.s_le(node_cost_of::<Op, N, LA, LD, D>(g, q, id, i))
            &&& i < c ==> !node_cost_of::<Op, N, LA, LD, D>(g, q, id, i).s_le(least)
        }),
{
    let n = g.class(id).nodes@.len();
    law_choice_is_cheapest::<Op, N, LA, LD, D>(g, q, id, i);
    if n > 1 {
        lemma_best_of::<Op, N, LA, LD, D>(g, q, id, n);
        if i < choice::<Op, N, LA, LD, D>(g, q, id).0 {
            lemma_earlier_cost_more::<Op, N, LA, LD, D>(g, q, id, n, i);
        }
    }
}

/// Whether class `k` stands in the expression.
pub open spec fn stands_in<Op>(st: Placed<Op>, k: usize) -> bool {
    st.at.dom().contains(k as u64)
}

/// Whether the node of class `k` is the one that was chosen of it, with the
/// nodes of its argument classes, which stand before it, for arguments.
pub open spec fn is_as_chosen<Op, N, LA, LD, D>(
    g: EGraph<Op, D>,
    q: QueryView<N>,
    st: Placed<Op>,
    k: usize,
) -> bool where Op: Schedulable<N, LA, LD> + OperationInfo<N> + Teachable<N>, N: Number {
    let chosen = g.class(k).nodes@[choice::<Op, N, LA, LD, D>(g, q, k).0 as int]@;
    let here = st.at[k as u64] as int;
    &&& here < st.nodes.len()
    &&& st.nodes[here].operation == chosen.operation
    &&& st.nodes[here].args.len() == chosen.args.len()
    &&& forall|j: int|
        0 <= j < chosen.args.len() ==> {
            &&& stands_in(st, #[trigger] chosen.args[j])
            &&& st.nodes[here].args[j] == st.at[chosen.args[j] as u64]
            &&& st.at[chosen.args[j] as u64] < here
        }
}

/// Whether the node at `i` is that of a class.
pub open spec fn is_of_a_class<Op>(st: Placed<Op>, i: int) -> bool {
    exists|k: usize| #[trigger] stands_in(st, k) && st.at[k as u64] == i
}

/// Whether each class stands in the expression once, as it was chosen, and
/// every node is that of a class.
pub open spec fn each_once<Op, N, LA, LD, D>(
    g: EGraph<Op, D>,
    q: QueryView<N>,
    st: Placed<Op>,
) -> bool where Op: Schedulable<N, LA, LD> + OperationInfo<N> + Teachable<N>, N: Number {
    &&& forall|k: usize| #[trigger]
        stands_in(st, k) ==> is_as_chosen::<Op, N, LA, LD, D>(g, q, st, k)
    &&& forall|k: usize, l: usize| #[trigger]
        stands_in(st, k) && #[trigger] stands_in(st, l) && k != l ==> st.at[k as u64]
            != st.at[l as u64]
    &&& forall|i: int| 0 <= i < st.nodes.len() ==> #[trigger] is_of_a_class(st, i)
}

/// Whether `b` has everything that `a` has where it was, and else only classes
/// of a depth below `d`.
spec fn adds_below<Op, D>(g: EGraph<Op, D>, a: Placed<Op>, b: Placed<Op>, d: nat) -> bool {
    &&& a.nodes.len() <= b.nodes.len()
    &&& forall|k: usize| #[trigger]
        stands_in(a, k) ==> stands_in(b, k) && b.at[k as u64] == a.at[k as u64]
    &&& forall|k: usize| #[trigger] stands_in(b, k) ==> stands_in(a, k) || depth(g, k) < d
}

proof fn lemma_placed_once<Op, N, LA, LD, D>(
    g: EGraph<Op, D>,
    q: QueryView<N>,
    id: usize,
    st: Placed<Op>,
) where Op: Schedulable<N, LA, LD> + OperationInfo<N> + Teachable<N>, N: Number
    requires
        g.wf(),
        id < g.slots@.len(),
        acyclic_below(g, id),
        each_once::<Op, N, LA, LD, D>(g, q, st),
        placed::<Op, N, LA, LD, D>(g, q, id, st).nodes.len() <= usize::MAX,
    ensures
        each_once::<Op, N, LA, LD, D>(g, q, placed::<Op, N, LA, LD, D>(g, q, id, st)),
        adds_below(g, st, placed::<Op, N, LA, LD, D>(g, q, id, st), depth(g, id) + 1),
        stands_in(placed::<Op, N, LA, LD, D>(g, q, id, st), id),
    decreases depth(g, id), 1nat, 0nat,
{
    if !stands_in(st, id) {
        assert(g.class(id).nodes.len() == g.class(id).nodes@.len());
        lemma_choice_exists::<Op, N, LA, LD, D>(g, q, id);
        let idx = choice::<Op, N, LA, LD, D>(g, q, id).0 as int;
        let node = g.class(id).nodes@[idx]@;
        let n = node.args.len();
        let s = args_placed::<Op, N, LA, LD, D>(g, q, id, idx, n, st);
        let t = placed::<Op, N, LA, LD, D>(g, q, id, st);
        assert(t == node_placed::<Op, N, LA, LD, D>(g, q, id, idx, st));
        assert(t.nodes.len() == s.nodes.len() + 1);
        lemma_args_once::<Op, N, LA, LD, D>(g, q, id, idx, n, st);
        assert(!stands_in(s, id));
        let last = s.nodes.len() as int;
        assert(t.at[id as u64] == last);
        assert forall|k: usize| #[trigger] stands_in(t, k) implies k == id || (stands_in(s, k)
            && t.at[k as u64] == s.at[k as u64]) by {}
        assert forall|k: usize| #[trigger] stands_in(s, k) implies stands_in(t, k)
            && t.at[k as u64] == s.at[k as u64] by {}
        assert forall|k: usize| #[trigger] stands_in(t, k) implies is_as_chosen::<
            Op,
            N,
            LA,
            LD,
            D,
        >(g, q, t, k) by {
            let chosen = g.class(k).nodes@[choice::<Op, N, LA, LD, D>(g, q, k).0 as int]@;
            if k != id {
                assert(is_as_chosen::<Op, N, LA, LD, D>(g, q, s, k));
                let here = s.at[k as u64] as int;
                assert(t.nodes[here] == s.nodes[here]);
                assert forall|j: int| 0 <= j < chosen.args.len() implies {
                    &&& stands_in(t, #[trigger] chosen.args[j])
                    &&& t.nodes[here].args[j] == t.at[chosen.args[j] as u64]
                    &&& t.at[chosen.args[j] as u64] < here
                } by {
                    assert(stands_in(s, chosen.args[j]));
                }
            } else {
                assert(t.nodes[last].args.len() == n);
                assert forall|j: int| 0 <= j < chosen.args.len() implies {
                    &&& stands_in(t, #[trigger] chosen.args[j])
                    &&& t.nodes[last].args[j] == t.at[chosen.args[j] as u64]
                    &&& t.at[chosen.args[j] as u64] < last
                } by {
                    assert(stands_in(s, chosen.args[j]));
                    assert(is_as_chosen::<Op, N, LA, LD, D>(g, q, s, chosen.args[j]));
                }
            }
        }
        assert forall|k: usize, l: usize| #[trigger]
            stands_in(t, k) && #[trigger] stands_in(t, l) && k != l implies t.at[k as u64]
            != t.at[l as u64] by {
            if k == id {
                assert(is_as_chosen::<Op, N, LA, LD, D>(g, q, s, l));
            }
            if l == id {
                assert(is_as_chosen::<Op, N, LA, LD, D>(g, q, s, k));
            }
        }
        assert forall|i: int| 0 <= i < t.nodes.len() implies #[trigger] is_of_a_class(t, i) by {
            if i < last {
                assert(is_of_a_class(s, i));
                let k = choose|k: usize| #[trigger] stands_in(s, k) && s.at[k as u64] == i;
                assert(stands_in(t, k));
            } else {
                assert(stands_in(t, id));
            }
        }
    }
}

proof fn lemma_args_once<Op, N, LA, LD, D>(
    g: EGraph<Op, D>,
    q: QueryView<N>,
    id: usize,
    idx: int,
    k: nat,
    st: Placed<Op>,
) where Op: Schedulable<N, LA, LD> + OperationInfo<N> + Teachable<N>, N: Number
    requires
        g.wf(),
        id < g.slots@.len(),
        acyclic_below(g, id),
        0 <= idx < g.class(id).nodes@.len(),
        k <= g.class(id).nodes@[idx]@.args.len(),
        each_once::<Op, N, LA, LD, D>(g, q, st),
        args_placed::<Op, N, LA, LD, D>(g, q, id, idx, k, st).nodes.len() <= usize::MAX,
    ensures
        ({
            let s = args_placed::<Op, N, LA, LD, D>(g, q, id, idx, k, st);
            &&& each_once::<Op, N, LA, LD, D>(g, q, s)
            &&& adds_below(g, st, s, depth(g, id))
            &&& forall|j: int|
                0 <= j < k ==> stands_in(s, #[trigger] g.class(id).nodes@[idx]@.args[j])
        }),
    decreases depth(g, id), 0nat, k,
{
    if k > 0 {
        let before = args_placed::<Op, N, LA, LD, D>(g, q, id, idx, (k - 1) as nat, st);
        let arg = g.class(id).nodes@[idx]@.args[k - 1];
        lemma_arg_is_lower(g, id, idx, k - 1);
        assert(arg < g.slots@.len()) by {
            assert(g.args_valid(g.class(id).nodes@[idx]@));
        }
        lemma_never_fewer::<Op, N, LA, LD, D>(g, q, arg, before);
        lemma_args_once::<Op, N, LA, LD, D>(g, q, id, idx, (k - 1) as nat, st);
        lemma_placed_once::<Op, N, LA, LD, D>(g, q, arg, before);
        let s = placed::<Op, N, LA, LD, D>(g, q, arg, before);
        assert forall|j: int| 0 <= j < k implies stands_in(
            s,
            #[trigger] g.class(id).nodes@[idx]@.args[j],
        ) by {
            if j < k - 1 {
                assert(stands_in(before, g.class(id).nodes@[idx]@.args[j]));
            }
        }
        assert forall|m: usize| #[trigger] stands_in(s, m) implies stands_in(st, m) || depth(g, m)
            < depth(g, id) by {
            if stands_in(before, m) {
            }
        }
        assert forall|m: usize| #[trigger] stands_in(st, m) implies stands_in(s, m)
            && s.at[m as u64] == st.at[m as u64] by {
            assert(stands_in(before, m));
        }
    }
}

/// Placing a class takes no node away.
proof fn lemma_never_fewer<Op, N, LA, LD, D>(
    g: EGraph<Op, D>,
    q: QueryView<N>,
    id: usize,
    st: Placed<Op>,
) where Op: Schedulable<N, LA, LD> + OperationInfo<N> + Teachable<N>, N: Number
    ensures
        st.nodes.len() <= placed::<Op, N, LA, LD, D>(g, q, id, st).nodes.len(),
    decreases depth(g, id), 1nat, 0nat,
{
    if !stands_in(st, id) {
        let idx = choice::<Op, N, LA, LD, D>(g, q, id).0 as int;
        let n = g.class(id).nodes@[idx]@.args.len();
        lemma_args_never_fewer::<Op, N, LA, LD, D>(g, q, id, idx, n, st);
    }
}

proof fn lemma_args_never_fewer<Op, N, LA, LD, D>(
    g: EGraph<Op, D>,
    q: QueryView<N>,
    id: usize,
    idx: int,
    k: nat,
    st: Placed<Op>,
) where Op: Schedulable<N, LA, LD> + OperationInfo<N> + Teachable<N>, N: Number
    ensures
        st.nodes.len() <= args_placed::<Op, N, LA, LD, D>(g, q, id, idx, k, st).nodes.len(),
    decreases depth(g, id), 0nat, k,
{
    if k > 0 {
        let before = args_placed::<Op, N, LA, LD, D>(g, q, id, idx, (k - 1) as nat, st);
        let arg = g.class(id).nodes@[idx]@.args[k - 1];
        lemma_args_never_fewer::<Op, N, LA, LD, D>(g, q, id, idx, (k - 1) as nat, st);
        if depth(g, arg) < depth(g, id) {
            lemma_never_fewer::<Op, N, LA, LD, D>(g, q, arg, before);
        }
    }
}

/// The expression of a class has one node for each class in it: the one that
/// was chosen, behind those of its arguments. Nothing else stands in it, and
/// the class itself stands last.
pub proof fn law_each_class_once<Op, N, LA, LD, D>(
    g: EGraph<Op, D>,
    q: QueryView<N>,
    id: usize,
) where Op: Schedulable<N, LA, LD> + OperationInfo<N> + Teachable<N>, N: Number
    requires
        g.wf(),
        id < g.slots@.len(),
        acyclic_below(g, id),
        placed::<Op, N, LA, LD, D>(g, q, id, nothing_placed()).nodes.len() <= usize::MAX,
    ensures
        ({
            let st = placed::<Op, N, LA, LD, D>(g, q, id, nothing_placed());
            &&& each_once::<Op, N, LA, LD, D>(g, q, st)
            &&& stands_in(st, id)
            &&& st.at[id as u64] == st.nodes.len() - 1
        }),
{
    let none = nothing_placed::<Op>();
    assert forall|k: usize| !#[trigger] stands_in(none, k) by {}
    assert(each_once::<Op, N, LA, LD, D>(g, q, none));
    lemma_placed_once::<Op, N, LA, LD, D>(g, q, id, none);
}

} // verus!
