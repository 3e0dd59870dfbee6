//! Computing anew what is known of the classes of an e-graph.
use crate::ast_node::{AstNode, Duplicate, NodeView};
use crate::egraph::{EClass, EGraph};
use crate::extract::beam_pareto::{
    analyzable, analyzed, known, merged, CostView, ISAXAnalysis, ISAXCost, Known, TypeInfo,
};
use crate::marks::{lemma_unmarked, lemma_unmarked_bound, no_marks, unmarked};
use crate::number::Number;
use crate::runner::operation::OperationInfo;
use crate::teachable::Teachable;
use vstd::prelude::*;
use vstd::std_specs::cmp::PartialEqSpec;

verus! {

/// How far the computation has come.
#[verifier::ext_equal]
pub struct Recalculation<N, T> {
    /// What is known of the classes.
    pub known: Known<N, T>,
    /// For each identifier, whether it was visited.
    pub visited: Seq<bool>,
    /// Whether every node so far could be analyzed.
    pub fits: bool,
}

/// The state after the class `id` and those below it are computed, where
/// `fuel` bounds the depth. A class is computed after its arguments, unless
/// they are being computed already.
pub open spec fn recalculated<Op, N, T, D>(
    a: ISAXAnalysis<N>,
    g: EGraph<Op, D>,
    id: usize,
    st: Recalculation<N, T>,
    fuel: nat,
) -> Recalculation<N, T> where
    Op: OperationInfo<N> + Teachable<N> + TypeInfo<T>,
    N: Number,

    decreases fuel, 3nat, 0nat,
{
    if st.visited[id as int] || fuel == 0 {
        st
    } else {
        let visited = st.visited.update(id as int, true);
        let (s, cost) = nodes_recalculated::<Op, N, T, D>(
            a,
            g,
            id,
            g.class(id).nodes@.len(),
            Recalculation { visited, ..st },
            (fuel - 1) as nat,
        );
        let costs = s.known.costs.update(g.slots@[id as int] as int, cost);
        Recalculation { known: Known { costs, ..s.known }, ..s }
    }
}

/// The state after the first `k` nodes of a class are computed, and what they
/// make known of the class.
pub open spec fn nodes_recalculated<Op, N, T, D>(
    a: ISAXAnalysis<N>,
    g: EGraph<Op, D>,
    id: usize,
    k: nat,
    st: Recalculation<N, T>,
    fuel: nat,
) -> (Recalculation<N, T>, CostView<N, T>) where
    Op: OperationInfo<N> + Teachable<N> + TypeInfo<T>,
    N: Number,

    decreases fuel, 5nat, k,
{
    if k == 0 {
        (st, arbitrary())
    } else {
        let (before, cost) = nodes_recalculated::<Op, N, T, D>(
            a,
            g,
            id,
            (k - 1) as nat,
            st,
            fuel,
        );
        let node = g.class(id).nodes@[k - 1]@;
        let s = args_recalculated::<Op, N, T, D>(a, g, node, node.args.len(), before, fuel);
        let own = analyzed(a, s.known, node);
        (
            Recalculation { fits: s.fits && analyzable(a, s.known, node), ..s },
            if k == 1 {
                own
            } else {
                merged::<Op, N, T>(cost, own, a.beam_size)
            },
        )
    }
}

/// The state after the classes of the first `k` arguments are computed.
pub open spec fn args_recalculated<Op, N, T, D>(
    a: ISAXAnalysis<N>,
    g: EGraph<Op, D>,
    node: NodeView<Op>,
    k: nat,
    st: Recalculation<N, T>,
    fuel: nat,
) -> Recalculation<N, T> where
    Op: OperationInfo<N> + Teachable<N> + TypeInfo<T>,
    N: Number,

    decreases fuel, 4nat, k,
{
    if k == 0 {
        st
    } else {
        recalculated::<Op, N, T, D>(
            a,
            g,
            node.args[k - 1],
            args_recalculated::<Op, N, T, D>(a, g, node, (k - 1) as nat, st, fuel),
            fuel,
        )
    }
}

/// The state before anything is computed.
pub open spec fn not_recalculated<Op, N: Number, T>(g: EGraph<Op, ISAXCost<N, T>>) -> Recalculation<
    N,
    T,
> {
    Recalculation {
        known: known(g),
        visited: Seq::new(g.slots@.len(), |i: int| false),
        fits: true,
    }
}

/// The state after everything below a class is computed.
pub open spec fn all_recalculated<Op, N, T>(
    a: ISAXAnalysis<N>,
    g: EGraph<Op, ISAXCost<N, T>>,
    id: usize,
) -> Recalculation<N, T> where Op: OperationInfo<N> + Teachable<N> + TypeInfo<T>, N: Number {
    recalculated::<Op, N, T, ISAXCost<N, T>>(a, g, id, not_recalculated(g), g.slots@.len() + 1)
}

/// Whether two e-graphs differ at most in the data of their classes.
pub open spec fn same_nodes<Op, D>(a: EGraph<Op, D>, b: EGraph<Op, D>) -> bool {
    &&& a.slots@ == b.slots@
    &&& a.classes@.len() == b.classes@.len()
    &&& forall|k: int|
        0 <= k < a.classes@.len() ==> (#[trigger] a.classes@[k]).id == b.classes@[k].id
            && a.classes@[k].nodes == b.classes@[k].nodes
}

proof fn lemma_class_fits<Op, N, T, D>(
    a: ISAXAnalysis<N>,
    g: EGraph<Op, D>,
    id: usize,
    st: Recalculation<N, T>,
    fuel: nat,
) where Op: OperationInfo<N> + Teachable<N> + TypeInfo<T>, N: Number
    ensures
        recalculated::<Op, N, T, D>(a, g, id, st, fuel).fits ==> st.fits,
    decreases fuel, 3nat, 0nat,
{
    if !(st.visited[id as int] || fuel == 0) {
        let visited = st.visited.update(id as int, true);
        lemma_nodes_fit::<Op, N, T, D>(
            a,
            g,
            id,
            0,
            g.class(id).nodes@.len(),
            Recalculation { visited, ..st },
            (fuel - 1) as nat,
        );
    }
}

proof fn lemma_nodes_fit<Op, N, T, D>(
    a: ISAXAnalysis<N>,
    g: EGraph<Op, D>,
    id: usize,
    i: nat,
    k: nat,
    st: Recalculation<N, T>,
    fuel: nat,
) where Op: OperationInfo<N> + Teachable<N> + TypeInfo<T>, N: Number
    requires
        i <= k,
    ensures
        nodes_recalculated::<Op, N, T, D>(a, g, id, k, st, fuel).0.fits
            ==> nodes_recalculated::<Op, N, T, D>(a, g, id, i, st, fuel).0.fits,
    decreases fuel, 5nat, k,
{
    if i < k {
        let before = nodes_recalculated::<Op, N, T, D>(a, g, id, (k - 1) as nat, st, fuel).0;
        let node = g.class(id).nodes@[k - 1]@;
        lemma_args_fit::<Op, N, T, D>(a, g, node, 0, node.args.len(), before, fuel);
        lemma_nodes_fit::<Op, N, T, D>(a, g, id, i, (k - 1) as nat, st, fuel);
    }
}

proof fn lemma_args_fit<Op, N, T, D>(
    a: ISAXAnalysis<N>,
    g: EGraph<Op, D>,
    node: NodeView<Op>,
    i: nat,
    k: nat,
    st: Recalculation<N, T>,
    fuel: nat,
) where Op: OperationInfo<N> + Teachable<N> + TypeInfo<T>, N: Number
    requires
        i <= k,
    ensures
        args_recalculated::<Op, N, T, D>(a, g, node, k, st, fuel).fits
            ==> args_recalculated::<Op, N, T, D>(a, g, node, i, st, fuel).fits,
    decreases fuel, 4nat, k,
{
    if i < k {
        let before = args_recalculated::<Op, N, T, D>(a, g, node, (k - 1) as nat, st, fuel);
        lemma_class_fits::<Op, N, T, D>(a, g, node.args[k - 1], before, fuel);
        lemma_args_fit::<Op, N, T, D>(a, g, node, i, (k - 1) as nat, st, fuel);
    }
}

proof fn lemma_same_nodes_wf<Op, D>(a: EGraph<Op, D>, b: EGraph<Op, D>)
    requires
        a.wf(),
        same_nodes(a, b),
    ensures
        b.wf(),
{
    assert forall|k: int| 0 <= k < b.classes@.len() implies (#[trigger] b.classes@[k]).id
        < b.slots@.len() && b.slots@[b.classes@[k].id as int] == k by {
        assert(a.classes@[k].id == b.classes@[k].id);
    }
    assert forall|k: int, n: int|
        0 <= k < b.classes@.len() && 0 <= n < b.classes@[k].nodes@.len()
            implies #[trigger] b.args_valid(b.classes@[k].nodes@[n]@) by {
        assert(a.classes@[k].id == b.classes@[k].id);
        assert(a.args_valid(a.classes@[k].nodes@[n]@));
    }
}

fn recalculate_all_data_with_visited<Op, N, T>(
    analysis: &ISAXAnalysis<N>,
    egraph: &mut EGraph<Op, ISAXCost<N, T>>,
    id: usize,
    visited: &mut Vec<bool>,
    Ghost(g): Ghost<EGraph<Op, ISAXCost<N, T>>>,
    Ghost(fuel): Ghost<nat>,
) where
    Op: OperationInfo<N> + Teachable<N> + TypeInfo<T> + Duplicate,
    N: Number,
    T: Duplicate + PartialEq,

    requires
        analysis.wf(),
        T::obeys_eq_spec(),
        g.wf(),
        same_nodes(g, *old(egraph)),
        forall|k: int| 0 <= k < g.classes@.len() ==> (#[trigger] g.classes@[k]).nodes@.len() > 0,
        id < g.slots@.len(),
        old(visited)@.len() == g.slots@.len(),
        unmarked(old(visited)@) < fuel,
        recalculated::<Op, N, T, ISAXCost<N, T>>(
            *analysis,
            g,
            id,
            (Recalculation { known: known(*old(egraph)), visited: old(visited)@, fits: true }),
            fuel,
        ).fits,
    ensures
        same_nodes(g, *final(egraph)),
        final(visited)@.len() == g.slots@.len(),
        unmarked(final(visited)@) <= unmarked(old(visited)@),
        (Recalculation { known: known(*final(egraph)), visited: final(visited)@, fits: true })
            == recalculated::<Op, N, T, ISAXCost<N, T>>(
            *analysis,
            g,
            id,
            (Recalculation { known: known(*old(egraph)), visited: old(visited)@, fits: true }),
            fuel,
        ),
    decreases fuel, 0nat,
{
    let ghost a = *analysis;
    let ghost start = Recalculation { known: known(*egraph), visited: visited@, fits: true };
    if visited[id] {
        return;
    }
    proof {
        lemma_unmarked(visited@, id as int);
        lemma_same_nodes_wf(g, *egraph);
    }
    visited.set(id, true);
    let ghost st = Recalculation { known: known(*egraph), visited: visited@, fits: true };
    let ghost low = (fuel - 1) as nat;
    let at: usize = egraph.place(id);
    let class: &EClass<Op, ISAXCost<N, T>> = &egraph.classes[at];
    assert(g.classes@[at as int].id == class.id);
    let n: usize = class.nodes.len();
    let mut nodes: Vec<AstNode<Op>> = Vec::new();
    for i in 0..n
        invariant
            n == class.nodes@.len(),
            nodes@.len() == i,
            forall|k: int| 0 <= k < i ==> (#[trigger] nodes@[k])@ == class.nodes@[k]@,
    {
        nodes.push(class.nodes[i].duplicate());
    }
    assert(class.nodes == g.class(id).nodes);
    let mut cost: Option<ISAXCost<N, T>> = None;
    for i in 0..n
        invariant
            a == *analysis,
            analysis.wf(),
            T::obeys_eq_spec(),
            g.wf(),
            same_nodes(g, *egraph),
            forall|k: int| 0 <= k < g.classes@.len() ==> (#[trigger] g.classes@[k]).nodes@.len() > 0,
            id < g.slots@.len(),
            visited@.len() == g.slots@.len(),
            low < fuel,
            unmarked(visited@) < low,
            unmarked(visited@) <= unmarked(st.visited),
            n == g.class(id).nodes@.len() == nodes@.len(),
            forall|k: int| 0 <= k < n ==> (#[trigger] nodes@[k])@ == g.class(id).nodes@[k]@,
            nodes_recalculated::<Op, N, T, ISAXCost<N, T>>(a, g, id, n as nat, st, low).0.fits,
            (Recalculation { known: known(*egraph), visited: visited@, fits: true })
                == nodes_recalculated::<Op, N, T, ISAXCost<N, T>>(a, g, id, i as nat, st, low).0,
            match cost {
                Some(c) => i > 0 && c@ == nodes_recalculated::<Op, N, T, ISAXCost<N, T>>(
                    a,
                    g,
                    id,
                    i as nat,
                    st,
                    low,
                ).1,
                None => i == 0,
            },
    {
        let node: &AstNode<Op> = &nodes[i];
        let ghost before = Recalculation { known: known(*egraph), visited: visited@, fits: true };
        proof {
            lemma_nodes_fit::<Op, N, T, ISAXCost<N, T>>(
                a,
                g,
                id,
                (i + 1) as nat,
                n as nat,
                st,
                low,
            );
            assert(node@ == g.class(id).nodes@[i as int]@);
            assert(g.args_valid(g.class(id).nodes@[i as int]@));
        }
        let m: usize = node.args.len();
        for j in 0..m
            invariant
                a == *analysis,
                analysis.wf(),
                T::obeys_eq_spec(),
                g.wf(),
                same_nodes(g, *egraph),
                forall|k: int|
                    0 <= k < g.classes@.len() ==> (#[trigger] g.classes@[k]).nodes@.len() > 0,
                visited@.len() == g.slots@.len(),
                low < fuel,
                unmarked(visited@) < low,
                unmarked(visited@) <= unmarked(st.visited),
                g.args_valid(node@),
                m == node@.args.len(),
                args_recalculated::<Op, N, T, ISAXCost<N, T>>(
                    a,
                    g,
                    node@,
                    m as nat,
                    before,
                    low,
                ).fits,
                (Recalculation { known: known(*egraph), visited: visited@, fits: true })
                    == args_recalculated::<Op, N, T, ISAXCost<N, T>>(
                    a,
                    g,
                    node@,
                    j as nat,
                    before,
                    low,
                ),
        {
            proof {
                lemma_args_fit::<Op, N, T, ISAXCost<N, T>>(
                    a,
                    g,
                    node@,
                    (j + 1) as nat,
                    m as nat,
                    before,
                    low,
                );
                assert(node@.args[j as int] < g.slots@.len());
            }
            recalculate_all_data_with_visited(
                analysis,
                egraph,
                node.args[j],
                visited,
                Ghost(g),
                Ghost(low),
            );
        }
        proof {
            lemma_same_nodes_wf(g, *egraph);
        }
        let own: ISAXCost<N, T> = analysis.make(egraph, node);
        cost = match cost {
            None => Some(own),
            Some(mut c) => {
                let _changed: (bool, bool) = analysis.merge::<Op, T>(&mut c, own);
                Some(c)
            },
        };
    }
    match cost {
        Some(c) => {
            let ghost middle = *egraph;
            let ghost v = c@;
            egraph.classes[at].data = c;
            assert(known(*egraph).costs =~= known(middle).costs.update(at as int, v));
            assert(same_nodes(g, *egraph)) by {
                assert forall|k: int| 0 <= k < g.classes@.len() implies (
                #[trigger] g.classes@[k]).id == egraph.classes@[k].id && g.classes@[k].nodes
                    == egraph.classes@[k].nodes by {
                    assert(g.classes@[k].id == middle.classes@[k].id);
                }
            }
        },
        None => {},
    }
}

/// Computes anew what is known of a class and of the classes below it.
pub fn recalculate_all_data<Op, N, T>(
    analysis: &ISAXAnalysis<N>,
    egraph: &mut EGraph<Op, ISAXCost<N, T>>,
    id: usize,
) where
    Op: OperationInfo<N> + Teachable<N> + TypeInfo<T> + Duplicate,
    N: Number,
    T: Duplicate + PartialEq,

    requires
        analysis.wf(),
        T::obeys_eq_spec(),
        old(egraph).wf(),
        forall|k: int|
            0 <= k < old(egraph).classes@.len() ==> (#[trigger] old(
                egraph,
            ).classes@[k]).nodes@.len() > 0,
        id < old(egraph).slots@.len(),
        all_recalculated::<Op, N, T>(*analysis, *old(egraph), id).fits,
    ensures
        final(egraph).wf(),
        same_nodes(*old(egraph), *final(egraph)),
        known(*final(egraph)) == all_recalculated::<Op, N, T>(*analysis, *old(egraph), id).known,
{
    let ghost g = *egraph;
    let n: usize = egraph.slots.len();
    let mut visited: Vec<bool> = no_marks(n);
    assert(visited@ =~= Seq::new(n as nat, |i: int| false));
    proof {
        lemma_unmarked_bound(visited@);
    }
    recalculate_all_data_with_visited(
        analysis,
        egraph,
        id,
        &mut visited,
        Ghost(g),
        Ghost((n + 1) as nat),
    );
    proof {
        lemma_same_nodes_wf(g, *egraph);
    }
}

} // verus!
