//! What recalculation makes true of an e-graph.
use crate::ast_node::NodeView;
use crate::egraph::EGraph;
use crate::extract::beam_pareto::{
    analyzed, child, child_lanes, child_sets, child_types, merged, CostView, ISAXAnalysis,
    ISAXCost, Known, TypeInfo,
};
use crate::extract::isax_extractor::{acyclic_below, depth, lemma_arg_is_lower};
use crate::marks::{lemma_unmarked, lemma_unmarked_bound, unmarked};
use crate::number::Number;
use crate::runner::operation::OperationInfo;
use crate::runner::recalculate::{
    all_recalculated, args_recalculated, nodes_recalculated, not_recalculated, recalculated,
    Recalculation,
};
use crate::teachable::{binding_of, law_binding_parts_are_args, BindingExpr, Teachable};
use vstd::prelude::*;

verus! {

/// What the first `n` nodes of a class make known of it, all merged.
pub open spec fn class_cost<Op, N, T, D>(
    a: ISAXAnalysis<N>,
    g: EGraph<Op, D>,
    k: Known<N, T>,
    at: int,
    n: nat,
) -> CostView<N, T> where Op: OperationInfo<N> + Teachable<N> + TypeInfo<T>, N: Number
    decreases n,
{
    let own = analyzed(a, k, g.classes@[at].nodes@[n - 1]@);
    if n <= 1 {
        own
    } else {
        merged::<Op, N, T>(class_cost::<Op, N, T, D>(a, g, k, at, (n - 1) as nat), own, a.beam_size)
    }
}

/// Whether what is known of a class is what its nodes make known of it.
pub open spec fn is_consistent<Op, N, T, D>(
    a: ISAXAnalysis<N>,
    g: EGraph<Op, D>,
    k: Known<N, T>,
    at: int,
) -> bool where Op: OperationInfo<N> + Teachable<N> + TypeInfo<T>, N: Number {
    k.costs[at] == class_cost::<Op, N, T, D>(a, g, k, at, g.classes@[at].nodes@.len())
}

/// Whether a way of `d` steps leads down from one class to another.
pub open spec fn leads_to<Op, D>(g: EGraph<Op, D>, from: usize, to: usize, d: nat) -> bool
    decreases d,
{
    if d == 0 {
        from == to
    } else {
        exists|n: int, j: int|
            0 <= n < g.class(from).nodes@.len() && 0 <= j < g.class(from).nodes@[n]@.args.len()
                && leads_to(g, #[trigger] g.class(from).nodes@[n]@.args[j], to, (d - 1) as nat)
    }
}

/// Where the class of an identifier stands.
spec fn slot<Op, D>(g: EGraph<Op, D>, id: usize) -> int {
    g.slots@[id as int] as int
}

/// Whether what is known fits the e-graph.
spec fn fits_graph<Op, N, T, D>(g: EGraph<Op, D>, k: Known<N, T>) -> bool {
    k.slots == g.slots@ && k.costs.len() == g.classes@.len()
}

/// Whether the arguments of a node stand in `s`.
spec fn args_in<Op, D>(g: EGraph<Op, D>, node: NodeView<Op>, s: Set<int>) -> bool {
    forall|j: int| 0 <= j < node.args.len() ==> s.contains(slot(g, #[trigger] node.args[j]))
}

/// Whether the classes in `s` are consistent, and so are those below them.
#[verifier::opaque]
spec fn settled<Op, N, T, D>(
    a: ISAXAnalysis<N>,
    g: EGraph<Op, D>,
    k: Known<N, T>,
    s: Set<int>,
) -> bool where Op: OperationInfo<N> + Teachable<N> + TypeInfo<T>, N: Number {
    forall|at: int| #[trigger]
        s.contains(at) ==> {
            &&& 0 <= at < g.classes@.len()
            &&& is_consistent::<Op, N, T, D>(a, g, k, at)
            &&& forall|n: int|
                0 <= n < g.classes@[at].nodes@.len() ==> args_in(
                    g,
                    (#[trigger] g.classes@[at].nodes@[n])@,
                    s,
                )
        }
}

/// Whether what was visited stands in `s` or at a depth of `d` or more.
spec fn visited_above<Op, D>(g: EGraph<Op, D>, visited: Seq<bool>, s: Set<int>, d: nat) -> bool {
    forall|v: usize|
        v < visited.len() && #[trigger] visited[v as int] ==> s.contains(slot(g, v)) || depth(g, v)
            >= d
}

/// Whether what was visited anew stands in `s`.
spec fn new_visits_in<Op, D>(
    g: EGraph<Op, D>,
    before: Seq<bool>,
    after: Seq<bool>,
    s: Set<int>,
) -> bool {
    &&& before.len() == after.len()
    &&& forall|v: usize|
        v < after.len() && #[trigger] after[v as int] ==> before[v as int] || s.contains(slot(g, v))
}

/// Whether nothing changed in what is known of the classes in `s`.
spec fn same_in<N, T>(k: Known<N, T>, l: Known<N, T>, s: Set<int>) -> bool {
    forall|at: int| #[trigger] s.contains(at) ==> k.costs[at] == l.costs[at]
}

proof fn lemma_child_lanes<Op, N: Number, T>(
    k: Known<N, T>,
    l: Known<N, T>,
    node: NodeView<Op>,
    n: nat,
)
    requires
        n <= node.args.len(),
        forall|j: int| 0 <= j < node.args.len() ==> (#[trigger] child(k, node, j)) == child(l, node, j),
    ensures
        child_lanes(k, node, n) == child_lanes(l, node, n),
    decreases n,
{
    if n == 1 {
        assert(child(k, node, 0) == child(l, node, 0));
    } else if n > 1 {
        lemma_child_lanes(k, l, node, (n - 1) as nat);
        assert(child(k, node, n - 1) == child(l, node, n - 1));
    }
}

/// What is known of a node depends on its arguments alone.
proof fn lemma_analyzed<Op, N, T, D>(
    a: ISAXAnalysis<N>,
    g: EGraph<Op, D>,
    k: Known<N, T>,
    l: Known<N, T>,
    node: NodeView<Op>,
    s: Set<int>,
) where Op: OperationInfo<N> + Teachable<N> + TypeInfo<T>, N: Number
    requires
        fits_graph(g, k),
        fits_graph(g, l),
        same_in(k, l, s),
        args_in(g, node, s),
    ensures
        analyzed(a, k, node) == analyzed(a, l, node),
{
    assert forall|j: int| 0 <= j < node.args.len() implies (#[trigger] child(k, node, j)) == child(
        l,
        node,
        j,
    ) by {
        assert(s.contains(slot(g, node.args[j])));
    }
    lemma_child_lanes(k, l, node, node.args.len());
    assert(child_types(k, node) =~= child_types(l, node));
    assert(child_sets(k, node) =~= child_sets(l, node));
    law_binding_parts_are_args::<Op, usize, N>(node);
    match binding_of::<Op, usize, N>(node) {
        Some(BindingExpr::Lib(_, value, body, _, _, _)) => {
            assert(seq![value, body][1] == body);
            assert(node.args[1] == body);
            assert(child(k, node, 1) == child(l, node, 1));
        },
        _ => {},
    }
    if node.args.len() == 1 {
        assert(child(k, node, 0) == child(l, node, 0));
    }
}

proof fn lemma_class_cost<Op, N, T, D>(
    a: ISAXAnalysis<N>,
    g: EGraph<Op, D>,
    k: Known<N, T>,
    l: Known<N, T>,
    at: int,
    n: nat,
    s: Set<int>,
) where Op: OperationInfo<N> + Teachable<N> + TypeInfo<T>, N: Number
    requires
        fits_graph(g, k),
        fits_graph(g, l),
        same_in(k, l, s),
        0 < n <= g.classes@[at].nodes@.len(),
        forall|i: int| 0 <= i < n ==> args_in(g, (#[trigger] g.classes@[at].nodes@[i])@, s),
    ensures
        class_cost::<Op, N, T, D>(a, g, k, at, n) == class_cost::<Op, N, T, D>(a, g, l, at, n),
    decreases n,
{
    lemma_analyzed(a, g, k, l, g.classes@[at].nodes@[n - 1]@, s);
    if n > 1 {
        lemma_class_cost::<Op, N, T, D>(a, g, k, l, at, (n - 1) as nat, s);
    }
}

/// Classes stay consistent where nothing changes in them.
proof fn lemma_settled<Op, N, T, D>(
    a: ISAXAnalysis<N>,
    g: EGraph<Op, D>,
    k: Known<N, T>,
    l: Known<N, T>,
    s: Set<int>,
) where Op: OperationInfo<N> + Teachable<N> + TypeInfo<T>, N: Number
    requires
        fits_graph(g, k),
        fits_graph(g, l),
        same_in(k, l, s),
        settled::<Op, N, T, D>(a, g, k, s),
        forall|at: int| 0 <= at < g.classes@.len() ==> (#[trigger] g.classes@[at]).nodes@.len() > 0,
    ensures
        settled::<Op, N, T, D>(a, g, l, s),
{
    reveal(settled);
    assert forall|at: int| #[trigger] s.contains(at) implies is_consistent::<Op, N, T, D>(
        a,
        g,
        l,
        at,
    ) by {
        assert(is_consistent::<Op, N, T, D>(a, g, k, at));
        lemma_class_cost::<Op, N, T, D>(a, g, k, l, at, g.classes@[at].nodes@.len(), s);
    }
}

/// What holds around the computation of a class.
spec fn is_state<Op, N, T, D>(
    a: ISAXAnalysis<N>,
    g: EGraph<Op, D>,
    st: Recalculation<N, T>,
    s: Set<int>,
) -> bool where Op: OperationInfo<N> + Teachable<N> + TypeInfo<T>, N: Number {
    &&& fits_graph(g, st.known)
    &&& st.visited.len() == g.slots@.len()
    &&& settled::<Op, N, T, D>(a, g, st.known, s)
}

/// What a computation leads to.
spec fn leads<Op, N, T, D>(
    a: ISAXAnalysis<N>,
    g: EGraph<Op, D>,
    st: Recalculation<N, T>,
    s: Set<int>,
    to: Recalculation<N, T>,
    r: Set<int>,
) -> bool where Op: OperationInfo<N> + Teachable<N> + TypeInfo<T>, N: Number {
    &&& is_state::<Op, N, T, D>(a, g, to, r)
    &&& s.subset_of(r)
    &&& same_in(st.known, to.known, s)
    &&& new_visits_in(g, st.visited, to.visited, r)
    &&& unmarked(to.visited) <= unmarked(st.visited)
}

proof fn lemma_leads_on<Op, N, T, D>(
    a: ISAXAnalysis<N>,
    g: EGraph<Op, D>,
    x: Recalculation<N, T>,
    sx: Set<int>,
    y: Recalculation<N, T>,
    sy: Set<int>,
    z: Recalculation<N, T>,
    sz: Set<int>,
    d: nat,
) where Op: OperationInfo<N> + Teachable<N> + TypeInfo<T>, N: Number
    requires
        leads::<Op, N, T, D>(a, g, x, sx, y, sy),
        leads::<Op, N, T, D>(a, g, y, sy, z, sz),
        visited_above(g, x.visited, sx, d),
    ensures
        leads::<Op, N, T, D>(a, g, x, sx, z, sz),
        visited_above(g, z.visited, sz, d),
{
    assert forall|v: usize| v < z.visited.len() && #[trigger] z.visited[v as int] implies (
    x.visited[v as int] || sz.contains(slot(g, v))) && (sz.contains(slot(g, v)) || depth(g, v)
        >= d) by {
        if y.visited[v as int] {
            if x.visited[v as int] {
                assert(sx.contains(slot(g, v)) || depth(g, v) >= d);
            } else {
                assert(sy.contains(slot(g, v)));
            }
        }
    }
    assert forall|at: int| #[trigger] sx.contains(at) implies x.known.costs[at]
        == z.known.costs[at] by {
        assert(sy.contains(at));
    }
}

/// After a class is computed, it and those below it are consistent.
proof fn lemma_class_done<Op, N, T, D>(
    a: ISAXAnalysis<N>,
    g: EGraph<Op, D>,
    id: usize,
    st: Recalculation<N, T>,
    fuel: nat,
    s: Set<int>,
) -> (r: Set<int>) where Op: OperationInfo<N> + Teachable<N> + TypeInfo<T>, N: Number
    requires
        g.wf(),
        forall|at: int| 0 <= at < g.classes@.len() ==> (#[trigger] g.classes@[at]).nodes@.len() > 0,
        id < g.slots@.len(),
        acyclic_below(g, id),
        is_state::<Op, N, T, D>(a, g, st, s),
        visited_above(g, st.visited, s, depth(g, id) + 1),
        unmarked(st.visited) < fuel,
    ensures
        leads::<Op, N, T, D>(
            a,
            g,
            st,
            s,
            recalculated::<Op, N, T, D>(a, g, id, st, fuel),
            r,
        ),
        r.contains(slot(g, id)),
    decreases fuel, 3nat, 0nat,
{
    if st.visited[id as int] {
        assert(s.contains(slot(g, id)));
        s
    } else {
        reveal(settled);
        let visited = st.visited.update(id as int, true);
        let start = Recalculation { visited, ..st };
        lemma_unmarked(st.visited, id as int);
        assert(visited_above(g, visited, s, depth(g, id))) by {
            assert forall|v: usize| v < visited.len() && #[trigger] visited[v as int] implies s.contains(
                slot(g, v),
            ) || depth(g, v) >= depth(g, id) by {
                if v != id {
                    assert(st.visited[v as int]);
                }
            }
        }
        let n = g.class(id).nodes@.len();
        let at = slot(g, id);
        assert(g.classes@[at].nodes@.len() > 0);
        let low = (fuel - 1) as nat;
        let r = lemma_nodes_done::<Op, N, T, D>(a, g, id, n, start, low, s);
        let (m, cost) = nodes_recalculated::<Op, N, T, D>(a, g, id, n, start, low);
        let costs = m.known.costs.update(at, cost);
        let known = Known { costs, ..m.known };
        let to = Recalculation { known, ..m };
        assert(to == recalculated::<Op, N, T, D>(a, g, id, st, fuel));
        let q = r.insert(at);
        if r.contains(at) {
            assert(is_consistent::<Op, N, T, D>(a, g, m.known, at));
            assert(costs =~= m.known.costs);
            assert(q =~= r);
        } else {
            assert(same_in(m.known, known, r));
            lemma_settled::<Op, N, T, D>(a, g, m.known, known, r);
            lemma_class_cost::<Op, N, T, D>(a, g, m.known, known, at, n, r);
            assert(settled::<Op, N, T, D>(a, g, known, q)) by {
                assert forall|b: int| #[trigger] q.contains(b) implies {
                    &&& 0 <= b < g.classes@.len()
                    &&& is_consistent::<Op, N, T, D>(a, g, known, b)
                    &&& forall|i: int|
                        0 <= i < g.classes@[b].nodes@.len() ==> args_in(
                            g,
                            (#[trigger] g.classes@[b].nodes@[i])@,
                            q,
                        )
                } by {
                    assert forall|i: int| 0 <= i < g.classes@[b].nodes@.len() implies args_in(
                        g,
                        (#[trigger] g.classes@[b].nodes@[i])@,
                        q,
                    ) by {
                        let node = g.classes@[b].nodes@[i]@;
                        assert(args_in(g, node, r));
                    }
                }
            }
        }
        assert(same_in(st.known, known, s)) by {
            assert forall|b: int| #[trigger] s.contains(b) implies st.known.costs[b]
                == known.costs[b] by {
                assert(r.contains(b));
                assert(start.known.costs[b] == m.known.costs[b]);
            }
        }
        assert(new_visits_in(g, st.visited, to.visited, q)) by {
            assert forall|v: usize| v < to.visited.len() && #[trigger] to.visited[v as int] implies
                st.visited[v as int] || q.contains(slot(g, v)) by {
                if v != id {
                    assert(start.visited[v as int] || r.contains(slot(g, v)));
                }
            }
        }
        q
    }
}

proof fn lemma_nodes_done<Op, N, T, D>(
    a: ISAXAnalysis<N>,
    g: EGraph<Op, D>,
    id: usize,
    k: nat,
    st: Recalculation<N, T>,
    fuel: nat,
    s: Set<int>,
) -> (r: Set<int>) where Op: OperationInfo<N> + Teachable<N> + TypeInfo<T>, N: Number
    requires
        g.wf(),
        forall|at: int| 0 <= at < g.classes@.len() ==> (#[trigger] g.classes@[at]).nodes@.len() > 0,
        id < g.slots@.len(),
        acyclic_below(g, id),
        k <= g.class(id).nodes@.len(),
        is_state::<Op, N, T, D>(a, g, st, s),
        visited_above(g, st.visited, s, depth(g, id)),
        unmarked(st.visited) < fuel,
    ensures
        ({
            let (to, cost) = nodes_recalculated::<Op, N, T, D>(a, g, id, k, st, fuel);
            &&& leads::<Op, N, T, D>(a, g, st, s, to, r)
            &&& visited_above(g, to.visited, r, depth(g, id))
            &&& k > 0 ==> cost == class_cost::<Op, N, T, D>(a, g, to.known, slot(g, id), k)
        }),
        forall|i: int| 0 <= i < k ==> args_in(g, (#[trigger] g.class(id).nodes@[i])@, r),
    decreases fuel, 5nat, k,
{
    if k == 0 {
        s
    } else {
        let j = (k - 1) as nat;
        let q = lemma_nodes_done::<Op, N, T, D>(a, g, id, j, st, fuel, s);
        let (before, cost) = nodes_recalculated::<Op, N, T, D>(a, g, id, j, st, fuel);
        let node = g.class(id).nodes@[k - 1]@;
        let r = lemma_args_done::<Op, N, T, D>(a, g, id, k - 1, node.args.len(), before, fuel, q);
        let m = args_recalculated::<Op, N, T, D>(a, g, node, node.args.len(), before, fuel);
        let (to, _) = nodes_recalculated::<Op, N, T, D>(a, g, id, k, st, fuel);
        assert(to.known == m.known && to.visited == m.visited);
        lemma_leads_on::<Op, N, T, D>(a, g, st, s, before, q, m, r, depth(g, id));
        assert(leads::<Op, N, T, D>(a, g, st, s, to, r));
        assert forall|i: int| 0 <= i < k implies args_in(
            g,
            (#[trigger] g.class(id).nodes@[i])@,
            r,
        ) by {
            if i < k - 1 {
                let other = g.class(id).nodes@[i]@;
                assert(args_in(g, other, q));
            }
        }
        if k > 1 {
            lemma_class_cost::<Op, N, T, D>(a, g, before.known, m.known, slot(g, id), j, q);
        }
        r
    }
}

proof fn lemma_args_done<Op, N, T, D>(
    a: ISAXAnalysis<N>,
    g: EGraph<Op, D>,
    id: usize,
    n: int,
    k: nat,
    st: Recalculation<N, T>,
    fuel: nat,
    s: Set<int>,
) -> (r: Set<int>) where Op: OperationInfo<N> + Teachable<N> + TypeInfo<T>, N: Number
    requires
        g.wf(),
        forall|at: int| 0 <= at < g.classes@.len() ==> (#[trigger] g.classes@[at]).nodes@.len() > 0,
        id < g.slots@.len(),
        acyclic_below(g, id),
        0 <= n < g.class(id).nodes@.len(),
        k <= g.class(id).nodes@[n]@.args.len(),
        is_state::<Op, N, T, D>(a, g, st, s),
        visited_above(g, st.visited, s, depth(g, id)),
        unmarked(st.visited) < fuel,
    ensures
        ({
            let node = g.class(id).nodes@[n]@;
            let to = args_recalculated::<Op, N, T, D>(a, g, node, k, st, fuel);
            &&& leads::<Op, N, T, D>(a, g, st, s, to, r)
            &&& visited_above(g, to.visited, r, depth(g, id))
            &&& forall|j: int| 0 <= j < k ==> r.contains(slot(g, #[trigger] node.args[j]))
        }),
    decreases fuel, 4nat, k,
{
    let node = g.class(id).nodes@[n]@;
    if k == 0 {
        s
    } else {
        let q = lemma_args_done::<Op, N, T, D>(a, g, id, n, (k - 1) as nat, st, fuel, s);
        let before = args_recalculated::<Op, N, T, D>(a, g, node, (k - 1) as nat, st, fuel);
        lemma_arg_is_lower(g, id, n, k - 1);
        assert(g.args_valid(node)) by {
            assert(g.args_valid(g.classes@[slot(g, id)].nodes@[n]@));
        }
        let arg = node.args[k - 1];
        assert(visited_above(g, before.visited, q, depth(g, arg) + 1)) by {
            assert forall|v: usize|
                v < before.visited.len() && #[trigger] before.visited[v as int] implies q.contains(
                slot(g, v),
            ) || depth(g, v) >= depth(g, arg) + 1 by {}
        }
        let r = lemma_class_done::<Op, N, T, D>(a, g, arg, before, fuel, q);
        let to = recalculated::<Op, N, T, D>(a, g, arg, before, fuel);
        lemma_leads_on::<Op, N, T, D>(a, g, st, s, before, q, to, r, depth(g, id));
        assert forall|j: int| 0 <= j < k implies r.contains(slot(g, #[trigger] node.args[j])) by {
            if j < k - 1 {
                assert(q.contains(slot(g, node.args[j])));
            }
        }
        r
    }
}

/// A way down stays among classes that are consistent.
proof fn lemma_way_down<Op, N, T, D>(
    a: ISAXAnalysis<N>,
    g: EGraph<Op, D>,
    k: Known<N, T>,
    s: Set<int>,
    from: usize,
    to: usize,
    d: nat,
) where Op: OperationInfo<N> + Teachable<N> + TypeInfo<T>, N: Number
    requires
        settled::<Op, N, T, D>(a, g, k, s),
        s.contains(slot(g, from)),
        leads_to(g, from, to, d),
    ensures
        s.contains(slot(g, to)),
    decreases d,
{
    reveal(settled);
    if d > 0 {
        let (n, j) = choose|n: int, j: int|
            0 <= n < g.class(from).nodes@.len() && 0 <= j < g.class(from).nodes@[n]@.args.len()
                && leads_to(g, #[trigger] g.class(from).nodes@[n]@.args[j], to, (d - 1) as nat);
        let node = g.classes@[slot(g, from)].nodes@[n]@;
        assert(args_in(g, node, s));
        lemma_way_down::<Op, N, T, D>(a, g, k, s, node.args[j], to, (d - 1) as nat);
    }
}

/// After recalculation, what is known of a class below the root is what all
/// its nodes make known of it, where no way down leads back.
pub proof fn law_recalculated_classes_are_consistent<Op, N, T>(
    a: ISAXAnalysis<N>,
    g: EGraph<Op, ISAXCost<N, T>>,
    root: usize,
    below: usize,
    steps: nat,
) where Op: OperationInfo<N> + Teachable<N> + TypeInfo<T>, N: Number
    requires
        g.wf(),
        forall|at: int| 0 <= at < g.classes@.len() ==> (#[trigger] g.classes@[at]).nodes@.len() > 0,
        root < g.slots@.len(),
        acyclic_below(g, root),
        leads_to(g, root, below, steps),
    ensures
        is_consistent::<Op, N, T, ISAXCost<N, T>>(
            a,
            g,
            all_recalculated::<Op, N, T>(a, g, root).known,
            g.slots@[below as int] as int,
        ),
{
    let st = not_recalculated(g);
    let s = Set::<int>::empty();
    lemma_unmarked_bound(st.visited);
    reveal(settled);
    let r = lemma_class_done::<Op, N, T, ISAXCost<N, T>>(a, g, root, st, g.slots@.len() + 1, s);
    let to = all_recalculated::<Op, N, T>(a, g, root);
    lemma_way_down::<Op, N, T, ISAXCost<N, T>>(a, g, to.known, r, root, below, steps);
    assert(r.contains(slot(g, below)));
}

} // verus!
