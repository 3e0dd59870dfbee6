//! Extracting the cheapest expression of a class of an e-graph without
//! cycles.
use crate::assoc::SiteMap;
use crate::ast_node::expr::{lemma_unfold_args, lemma_unfold_prefix, root_tree, unfold};
use crate::ast_node::{AstNode, Duplicate, NodeView};
use crate::bb_query::{BBQuery, QueryView};
use crate::egraph::{EClass, EGraph};
use crate::extract::fx_map::{fx_get, fx_insert, fx_new};
use crate::extract::lib_extractor::{cycles_of, represents, stands_for};
use crate::number::{ranks_before, Number};
use crate::rec_expr::{points_back, RecExpr};
use crate::runner::operation::OperationInfo;
use crate::schedule::{rec_cycles, Schedulable};
use crate::teachable::Teachable;
use rustc_hash::FxBuildHasher;
use std::collections::HashMap;
use vstd::prelude::*;

verus! {

/// Whether every class below has a node, and every way down ends within `d`
/// steps.
pub open spec fn ends_within<Op, D>(g: EGraph<Op, D>, id: usize, d: nat) -> bool
    decreases d,
{
    &&& d > 0
    &&& g.class(id).nodes@.len() > 0
    &&& forall|n: int, j: int|
        0 <= n < g.class(id).nodes@.len() && 0 <= j < g.class(id).nodes@[n]@.args.len()
            ==> ends_within(g, #[trigger] g.class(id).nodes@[n]@.args[j], (d - 1) as nat)
}

/// Whether every class below has a node, and no way down leads back.
pub open spec fn acyclic_below<Op, D>(g: EGraph<Op, D>, id: usize) -> bool {
    exists|d: nat| ends_within(g, id, d)
}

/// Whether `d` is the length of the longest way down.
pub open spec fn is_depth<Op, D>(g: EGraph<Op, D>, id: usize, d: nat) -> bool {
    ends_within(g, id, d) && forall|e: nat| e < d ==> !#[trigger] ends_within(g, id, e)
}

/// The length of the longest way down.
pub open spec fn depth<Op, D>(g: EGraph<Op, D>, id: usize) -> nat {
    choose|d: nat| is_depth(g, id, d)
}

proof fn lemma_least<Op, D>(g: EGraph<Op, D>, id: usize, d: nat)
    requires
        ends_within(g, id, d),
    ensures
        is_depth(g, id, depth(g, id)),
        depth(g, id) <= d,
    decreases d,
{
    if exists|e: nat| e < d && ends_within(g, id, e) {
        let e = choose|e: nat| e < d && ends_within(g, id, e);
        lemma_least(g, id, e);
    } else {
        assert(is_depth(g, id, d));
        let m = depth(g, id);
        assert(is_depth(g, id, m));
        if m > d {
            assert(!ends_within(g, id, d));
        }
    }
}

pub(crate) proof fn lemma_arg_is_lower<Op, D>(g: EGraph<Op, D>, id: usize, n: int, j: int)
    requires
        acyclic_below(g, id),
        0 <= n < g.class(id).nodes@.len(),
        0 <= j < g.class(id).nodes@[n]@.args.len(),
    ensures
        acyclic_below(g, g.class(id).nodes@[n]@.args[j]),
        depth(g, g.class(id).nodes@[n]@.args[j]) < depth(g, id),
{
    let d = choose|d: nat| ends_within(g, id, d);
    lemma_least(g, id, d);
    let m = depth(g, id);
    assert(ends_within(g, g.class(id).nodes@[n]@.args[j], (m - 1) as nat));
    lemma_least(g, g.class(id).nodes@[n]@.args[j], (m - 1) as nat);
}

/// An expression that is being put together: its nodes, and for each class
/// that stands in it the index of its node.
#[verifier::ext_equal]
pub struct Placed<Op> {
    pub nodes: Seq<NodeView<Op>>,
    pub at: Map<u64, usize>,
}

/// An expression without nodes.
pub open spec fn nothing_placed<Op>() -> Placed<Op> {
    Placed { nodes: Seq::empty(), at: Map::empty() }
}

/// What is chosen of a class: the index of a node and its cost. A class with
/// one node has no choice, and no cost is computed.
pub open spec fn choice<Op, N, LA, LD, D>(g: EGraph<Op, D>, q: QueryView<N>, id: usize) -> (
    usize,
    N,
) where Op: Schedulable<N, LA, LD> + OperationInfo<N> + Teachable<N>, N: Number
    decreases depth(g, id), 3nat, 0nat,
{
    best_of::<Op, N, LA, LD, D>(g, q, id, g.class(id).nodes@.len())
}

/// The choice among the first `k` nodes: the first of those that cost least.
pub open spec fn best_of<Op, N, LA, LD, D>(
    g: EGraph<Op, D>,
    q: QueryView<N>,
    id: usize,
    k: nat,
) -> (usize, N) where
    Op: Schedulable<N, LA, LD> + OperationInfo<N> + Teachable<N>,
    N: Number,

    decreases depth(g, id), 2nat, k,
{
    if k == 0 {
        (0, N::s_top())
    } else {
        let before = best_of::<Op, N, LA, LD, D>(g, q, id, (k - 1) as nat);
        if g.class(id).nodes@.len() <= 1 {
            ((k - 1) as usize, N::s_top())
        } else {
            let e = node_placed::<Op, N, LA, LD, D>(g, q, id, k - 1, nothing_placed()).nodes;
            let cost = cycles_of::<Op, N, LA, LD>(e, q);
            if k == 1 || ranks_before(cost, before.1) {
                ((k - 1) as usize, cost)
            } else {
                before
            }
        }
    }
}

/// The expression with the choice for a class in it, each class once.
pub open spec fn placed<Op, N, LA, LD, D>(
    g: EGraph<Op, D>,
    q: QueryView<N>,
    id: usize,
    st: Placed<Op>,
) -> Placed<Op> where
    Op: Schedulable<N, LA, LD> + OperationInfo<N> + Teachable<N>,
    N: Number,

    decreases depth(g, id), 4nat, 0nat,
{
    if st.at.dom().contains(id as u64) {
        st
    } else {
        node_placed::<Op, N, LA, LD, D>(
            g,
            q,
            id,
            choice::<Op, N, LA, LD, D>(g, q, id).0 as int,
            st,
        )
    }
}

/// The expression with the node `idx` of a class in it, behind its arguments.
pub open spec fn node_placed<Op, N, LA, LD, D>(
    g: EGraph<Op, D>,
    q: QueryView<N>,
    id: usize,
    idx: int,
    st: Placed<Op>,
) -> Placed<Op> where
    Op: Schedulable<N, LA, LD> + OperationInfo<N> + Teachable<N>,
    N: Number,

    decreases depth(g, id), 1nat, 0nat,
{
    let node = g.class(id).nodes@[idx]@;
    let s = args_placed::<Op, N, LA, LD, D>(g, q, id, idx, node.args.len(), st);
    Placed {
        nodes: s.nodes.push(
            NodeView {
                operation: node.operation,
                args: Seq::new(node.args.len(), |j: int| s.at[node.args[j] as u64]),
            },
        ),
        at: s.at.insert(id as u64, s.nodes.len() as usize),
    }
}

/// The expression with the first `k` arguments of a node in it.
pub open spec fn args_placed<Op, N, LA, LD, D>(
    g: EGraph<Op, D>,
    q: QueryView<N>,
    id: usize,
    idx: int,
    k: nat,
    st: Placed<Op>,
) -> Placed<Op> where
    Op: Schedulable<N, LA, LD> + OperationInfo<N> + Teachable<N>,
    N: Number,

    decreases depth(g, id), 0nat, k,
{
    if k == 0 {
        st
    } else {
        let s = args_placed::<Op, N, LA, LD, D>(g, q, id, idx, (k - 1) as nat, st);
        let arg = g.class(id).nodes@[idx]@.args[k - 1];
        if depth(g, arg) < depth(g, id) {
            placed::<Op, N, LA, LD, D>(g, q, arg, s)
        } else {
            s
        }
    }
}

/// The cost of an expression with the node `idx` of a class at its root, and
/// with the choice for every class below.
pub open spec fn node_cost_of<Op, N, LA, LD, D>(
    g: EGraph<Op, D>,
    q: QueryView<N>,
    id: usize,
    idx: int,
) -> N where Op: Schedulable<N, LA, LD> + OperationInfo<N> + Teachable<N>, N: Number {
    cycles_of::<Op, N, LA, LD>(
        node_placed::<Op, N, LA, LD, D>(g, q, id, idx, nothing_placed()).nodes,
        q,
    )
}

pub(crate) proof fn lemma_best_of<Op, N, LA, LD, D>(g: EGraph<Op, D>, q: QueryView<N>, id: usize, k: nat) where
    Op: Schedulable<N, LA, LD> + OperationInfo<N> + Teachable<N>,
    N: Number,

    requires
        1 < g.class(id).nodes@.len() <= usize::MAX,
        0 < k <= g.class(id).nodes@.len(),
    ensures
        ({
            let b = best_of::<Op, N, LA, LD, D>(g, q, id, k);
            &&& b.0 < k
            &&& b.1 == node_cost_of::<Op, N, LA, LD, D>(g, q, id, b.0 as int)
            &&& forall|i: int|
                0 <= i < k ==> b.1.s_le(
                    #[trigger] node_cost_of::<Op, N, LA, LD, D>(g, q, id, i),
                )
        }),
    decreases k,
{
    let b = best_of::<Op, N, LA, LD, D>(g, q, id, k);
    let c = node_cost_of::<Op, N, LA, LD, D>(g, q, id, k - 1);
    N::le_total(c, c);
    if k > 1 {
        lemma_best_of::<Op, N, LA, LD, D>(g, q, id, (k - 1) as nat);
        let before = best_of::<Op, N, LA, LD, D>(g, q, id, (k - 1) as nat);
        N::le_total(c, before.1);
        assert forall|i: int| 0 <= i < k implies b.1.s_le(
            #[trigger] node_cost_of::<Op, N, LA, LD, D>(g, q, id, i),
        ) by {
            let x = node_cost_of::<Op, N, LA, LD, D>(g, q, id, i);
            if i < k - 1 && ranks_before(c, before.1) {
                N::le_transitive(c, before.1, x);
            }
        }
    }
}

/// The node that is chosen of a class costs no more than any other node of
/// it, with the choices that are made below.
pub proof fn law_choice_is_cheapest<Op, N, LA, LD, D>(
    g: EGraph<Op, D>,
    q: QueryView<N>,
    id: usize,
    i: int,
) where Op: Schedulable<N, LA, LD> + OperationInfo<N> + Teachable<N>, N: Number
    requires
        g.wf(),
        id < g.slots@.len(),
        0 <= i < g.class(id).nodes@.len() <= usize::MAX,
    ensures
        ({
            let c = choice::<Op, N, LA, LD, D>(g, q, id);
            &&& c.0 < g.class(id).nodes@.len()
            &&& node_cost_of::<Op, N, LA, LD, D>(g, q, id, c.0 as int).s_le(
                node_cost_of::<Op, N, LA, LD, D>(g, q, id, i),
            )
        }),
{
    let n = g.class(id).nodes@.len();
    if n > 1 {
        lemma_best_of::<Op, N, LA, LD, D>(g, q, id, n);
    } else {
        let c = node_cost_of::<Op, N, LA, LD, D>(g, q, id, 0);
        N::le_total(c, c);
        assert(best_of::<Op, N, LA, LD, D>(g, q, id, 1).0 == 0);
    }
}

/// Whether a choice was noted for a class.
pub open spec fn noted_for<N>(m: Map<u64, (usize, N)>, id: usize) -> bool {
    m.dom().contains(id as u64)
}

/// Whether a node was noted for a class, and choices for its arguments.
pub open spec fn ready<Op, N, D>(m: Map<u64, (usize, N)>, g: EGraph<Op, D>, id: usize) -> bool {
    &&& noted_for(m, id)
    &&& m[id as u64].0 < g.class(id).nodes@.len()
    &&& args_noted(m, g, id, m[id as u64].0 as int)
}

/// Whether choices were noted for the arguments of a node.
pub open spec fn args_noted<Op, N, D>(
    m: Map<u64, (usize, N)>,
    g: EGraph<Op, D>,
    id: usize,
    n: int,
) -> bool {
    forall|j: int|
        0 <= j < g.class(id).nodes@[n]@.args.len() ==> noted_for(
            m,
            #[trigger] g.class(id).nodes@[n]@.args[j],
        )
}

/// Whether what was noted for the classes down to the depth `d`, but for
/// those in `open`, is the choice.
pub open spec fn settled<Op, N, LA, LD, D>(
    m: Map<u64, (usize, N)>,
    g: EGraph<Op, D>,
    q: QueryView<N>,
    d: nat,
    open: Set<usize>,
) -> bool where Op: Schedulable<N, LA, LD> + OperationInfo<N> + Teachable<N>, N: Number {
    forall|k: usize|
        #[trigger] noted_for(m, k) && !open.contains(k) && k < g.slots@.len() && acyclic_below(g, k)
            && depth(g, k) <= d ==> m[k as u64] == choice::<Op, N, LA, LD, D>(g, q, k) && ready(
            m,
            g,
            k,
        )
}

/// Whether what was noted for a class is the same in both.
pub open spec fn same_note<N>(
    a: Map<u64, (usize, N)>,
    b: Map<u64, (usize, N)>,
    k: usize,
) -> bool {
    (noted_for(a, k) <==> noted_for(b, k)) && (noted_for(a, k) ==> a[k as u64] == b[k as u64])
}

/// Whether what was noted above the depth `d` is the same in both, and `b`
/// has a note wherever `a` has.
pub open spec fn only_below<Op, N, D>(
    a: Map<u64, (usize, N)>,
    b: Map<u64, (usize, N)>,
    g: EGraph<Op, D>,
    d: nat,
) -> bool {
    &&& forall|k: usize| noted_for(a, k) ==> #[trigger] noted_for(b, k)
    &&& forall|k: usize|
        !(acyclic_below(g, k) && depth(g, k) <= d) ==> #[trigger] same_note(a, b, k)
}

/// Whether the nodes are in order, and each class has a node that stands for
/// a tree of it.
spec fn placed_well<Op, D>(st: Placed<Op>, g: EGraph<Op, D>) -> bool {
    &&& crate::rec_expr::well_ordered(st.nodes)
    &&& forall|k: u64| #[trigger]
        st.at.dom().contains(k) ==> st.at[k] < st.nodes.len() && represents(
            g,
            k as usize,
            unfold(st.nodes, st.at[k] as int),
        )
}

/// Whether `b` holds everything that `a` holds, at the same places.
spec fn grown<Op>(a: Placed<Op>, b: Placed<Op>) -> bool {
    &&& a.nodes.is_prefix_of(b.nodes)
    &&& forall|k: u64| #[trigger]
        a.at.dom().contains(k) ==> b.at.dom().contains(k) && b.at[k] == a.at[k]
}

/// An extractor that minimizes the cycles of an expression, class by class.
#[derive(Debug)]
pub struct ISAXExtractor<'a, Op, N: Number, D> {
    best_nodes: HashMap<u64, (usize, N), FxBuildHasher>,
    egraph: &'a EGraph<Op, D>,
    bb_query: BBQuery<N>,
}

impl<'a, Op, N, D> ISAXExtractor<'a, Op, N, D> where
    Op: Duplicate + OperationInfo<N> + Teachable<N>,
    N: Number,
 {
    /// The e-graph to extract from.
    pub closed spec fn graph(&self) -> EGraph<Op, D> {
        *self.egraph
    }

    /// The blocks that the costs are taken from.
    pub closed spec fn query(&self) -> QueryView<N> {
        self.bb_query@
    }

    /// What was noted for the classes.
    pub closed spec fn notes(&self) -> Map<u64, (usize, N)> {
        self.best_nodes@
    }

    /// Whether the parts of the extractor are valid.
    pub closed spec fn parts_wf(&self) -> bool {
        self.egraph.wf() && self.bb_query.wf()
    }

    /// Whether every choice that was noted is the right one.
    pub open spec fn wf<LA, LD>(&self) -> bool where Op: Schedulable<N, LA, LD> {
        &&& self.parts_wf()
        &&& forall|d: nat| #[trigger]
            settled::<Op, N, LA, LD, D>(
                self.notes(),
                self.graph(),
                self.query(),
                d,
                Set::empty(),
            )
    }

    /// An extractor for an e-graph.
    pub fn new<LA, LD>(egraph: &'a EGraph<Op, D>, bb_query: BBQuery<N>) -> (r: Self) where
        Op: Schedulable<N, LA, LD>,

        requires
            egraph.wf(),
            bb_query.wf(),
        ensures
            r.wf::<LA, LD>(),
            r.graph() == *egraph,
            r.query() == bb_query@,
            r.notes() == Map::<u64, (usize, N)>::empty(),
    {
        let r = ISAXExtractor { best_nodes: fx_new(), egraph, bb_query };
        assert(r.notes() =~= Map::<u64, (usize, N)>::empty());
        r
    }

    /// The cycles of an expression.
    fn cost<LA, LD>(&self, expr: &RecExpr<Op>) -> (r: N) where Op: Schedulable<N, LA, LD>
        requires
            self.parts_wf(),
        ensures
            r == cycles_of::<Op, N, LA, LD>(expr@, self.query()),
    {
        let lats: SiteMap<N> = SiteMap::new();
        assert(lats@ =~= Map::empty());
        rec_cycles::<Op, N, LA, LD>(expr, &self.bb_query, &lats)
    }

    /// Puts a class into an expression, each class once.
    fn best_expr<LA, LD>(
        &self,
        id: usize,
        expr: &mut RecExpr<Op>,
        visited: &mut HashMap<u64, usize, FxBuildHasher>,
    ) where Op: Schedulable<N, LA, LD>
        requires
            self.parts_wf(),
            id < self.graph().slots@.len(),
            acyclic_below(self.graph(), id),
            ready(self.notes(), self.graph(), id),
            settled::<Op, N, LA, LD, D>(
                self.notes(),
                self.graph(),
                self.query(),
                depth(self.graph(), id),
                set![id],
            ),
            placed_well(Placed { nodes: old(expr)@, at: old(visited)@ }, self.graph()),
        ensures
            (Placed { nodes: final(expr)@, at: final(visited)@ }) == if old(visited)@.dom().contains(
                id as u64,
            ) {
                Placed { nodes: old(expr)@, at: old(visited)@ }
            } else {
                node_placed::<Op, N, LA, LD, D>(
                    self.graph(),
                    self.query(),
                    id,
                    self.notes()[id as u64].0 as int,
                    Placed { nodes: old(expr)@, at: old(visited)@ },
                )
            },
            final(visited)@.dom().contains(id as u64),
            placed_well(Placed { nodes: final(expr)@, at: final(visited)@ }, self.graph()),
            grown(
                Placed { nodes: old(expr)@, at: old(visited)@ },
                Placed { nodes: final(expr)@, at: final(visited)@ },
            ),
        decreases depth(self.graph(), id),
    {
        let ghost start = Placed { nodes: expr@, at: visited@ };
        let ghost g = self.graph();
        let ghost q = self.query();
        let ghost m = self.notes();
        assert(start.nodes =~= start.nodes.subrange(0, start.nodes.len() as int));
        if fx_get(visited, id as u64).is_some() {
            return;
        }
        let (index, _) = fx_get(&self.best_nodes, id as u64).unwrap();
        let class: &EClass<Op, D> = self.egraph.get(id);
        let node: &AstNode<Op> = &class.nodes[index];
        assert(g.args_valid(g.class(id).nodes@[index as int]@));
        let n: usize = node.args.len();
        for k in 0..n
            invariant
                self.parts_wf(),
                g == self.graph(),
                q == self.query(),
                m == self.notes(),
                g.wf(),
                id < g.slots@.len(),
                acyclic_below(g, id),
                ready(m, g, id),
                index == m[id as u64].0,
                index < g.class(id).nodes@.len(),
                *node == g.class(id).nodes@[index as int],
                g.args_valid(node@),
                n == node@.args.len(),
                settled::<Op, N, LA, LD, D>(m, g, q, depth(g, id), set![id]),
                placed_well(Placed { nodes: expr@, at: visited@ }, g),
                grown(start, Placed { nodes: expr@, at: visited@ }),
                (Placed { nodes: expr@, at: visited@ }) == args_placed::<Op, N, LA, LD, D>(
                    g,
                    q,
                    id,
                    index as int,
                    k as nat,
                    start,
                ),
                forall|j: int|
                    0 <= j < k ==> visited@.dom().contains(#[trigger] node@.args[j] as u64),
        {
            let child: usize = node.args[k];
            assert(child == g.class(id).nodes@[index as int]@.args[k as int]);
            proof {
                lemma_arg_is_lower(g, id, index as int, k as int);
                assert(noted_for(m, child));
                assert(child < g.slots@.len());
                assert(!set![id].contains(child));
                assert(m[child as u64] == choice::<Op, N, LA, LD, D>(g, q, child));
            }
            let ghost before = Placed { nodes: expr@, at: visited@ };
            self.best_expr::<LA, LD>(child, expr, visited);
            proof {
                let after = Placed { nodes: expr@, at: visited@ };
                lemma_grown(start, before, after);
                assert(after == placed::<Op, N, LA, LD, D>(g, q, child, before));
                assert forall|j: int| 0 <= j < k + 1 implies visited@.dom().contains(
                    #[trigger] node@.args[j] as u64,
                ) by {
                    if j < k {
                        assert(before.at.dom().contains(node@.args[j] as u64));
                    }
                }
            }
        }
        let mut args: Vec<usize> = Vec::new();
        let ghost mid = Placed { nodes: expr@, at: visited@ };
        for k in 0..n
            invariant
                n == node@.args.len(),
                mid == (Placed { nodes: expr@, at: visited@ }),
                placed_well(mid, g),
                forall|j: int|
                    0 <= j < n ==> mid.at.dom().contains(#[trigger] node@.args[j] as u64),
                args@.len() == k,
                forall|j: int|
                    0 <= j < k ==> (#[trigger] args@[j]) == mid.at[node@.args[j] as u64]
                        && args@[j] < mid.nodes.len(),
        {
            assert(mid.at.dom().contains(node@.args[k as int] as u64));
            args.push(fx_get(visited, node.args[k] as u64).unwrap());
        }
        let ghost ids = args@;
        let at: usize = expr.add(AstNode::new(node.operation.duplicate(), args));
        fx_insert(visited, id as u64, at);
        proof {
            let end = Placed { nodes: expr@, at: visited@ };
            let top = mid.nodes.len() as int;
            assert(ids =~= Seq::new(node@.args.len(), |j: int| mid.at[node@.args[j] as u64]));
            assert(end =~= node_placed::<Op, N, LA, LD, D>(g, q, id, index as int, start));
            assert(mid.nodes =~= end.nodes.subrange(0, top));
            assert(points_back(end.nodes, top));
            lemma_unfold_args(end.nodes, top, ids.len());
            let t = unfold(end.nodes, top);
            assert forall|j: int| 0 <= j < t.args.len() implies represents(
                g,
                node@.args[j],
                #[trigger] t.args[j],
            ) by {
                assert(mid.at.dom().contains(node@.args[j] as u64));
                assert(ids[j] < mid.nodes.len());
                lemma_unfold_prefix(mid.nodes, end.nodes, ids[j] as int);
            }
            assert(stands_for(g, node@, t));
            assert(represents(g, id, t));
            assert forall|k: u64| #[trigger] end.at.dom().contains(k) implies end.at[k]
                < end.nodes.len() && represents(
                g,
                k as usize,
                unfold(end.nodes, end.at[k] as int),
            ) by {
                if k != id as u64 {
                    assert(mid.at.dom().contains(k));
                    lemma_unfold_prefix(mid.nodes, end.nodes, mid.at[k] as int);
                }
            }
        }
    }

    /// The expression of a class with the node that was noted for it.
    fn expr_from_id<LA, LD>(&self, id: usize) -> (r: RecExpr<Op>) where Op: Schedulable<N, LA, LD>
        requires
            self.parts_wf(),
            id < self.graph().slots@.len(),
            acyclic_below(self.graph(), id),
            ready(self.notes(), self.graph(), id),
            settled::<Op, N, LA, LD, D>(
                self.notes(),
                self.graph(),
                self.query(),
                depth(self.graph(), id),
                set![id],
            ),
        ensures
            r@ == node_placed::<Op, N, LA, LD, D>(
                self.graph(),
                self.query(),
                id,
                self.notes()[id as u64].0 as int,
                nothing_placed(),
            ).nodes,
            r.wf(),
            r@.len() > 0,
            represents(self.graph(), id, root_tree(r@)),
    {
        let mut expr: RecExpr<Op> = RecExpr::new();
        let mut visited: HashMap<u64, usize, FxBuildHasher> = fx_new();
        assert(visited@ =~= Map::<u64, usize>::empty());
        self.best_expr::<LA, LD>(id, &mut expr, &mut visited);
        let size: usize = expr.len();
        proof {
            let st = Placed { nodes: expr@, at: visited@ };
            let k = id as u64;
            assert(st.at.dom().contains(k) && st.at[k] == size - 1);
            assert(k as usize == id);
        }
        expr
    }

    /// Notes the choice for a class and those below it.
    pub fn extract<LA, LD>(&mut self, id: usize) where Op: Schedulable<N, LA, LD>
        requires
            old(self).wf::<LA, LD>(),
            id < old(self).graph().slots@.len(),
            acyclic_below(old(self).graph(), id),
        ensures
            final(self).wf::<LA, LD>(),
            final(self).graph() == old(self).graph(),
            final(self).query() == old(self).query(),
            noted_for(final(self).notes(), id),
            final(self).notes()[id as u64] == choice::<Op, N, LA, LD, D>(
                old(self).graph(),
                old(self).query(),
                id,
            ),
            only_below(
                old(self).notes(),
                final(self).notes(),
                old(self).graph(),
                depth(old(self).graph(), id),
            ),
    {
        let ghost g = self.graph();
        let ghost q = self.query();
        let ghost start = self.notes();
        let ghost top = depth(g, id);
        proof {
            assert(settled::<Op, N, LA, LD, D>(start, g, q, top, Set::empty()));
        }
        self.extract_below::<LA, LD>(id);
        let ghost end = self.notes();
        proof {
            assert forall|d: nat| #[trigger]
                settled::<Op, N, LA, LD, D>(end, g, q, d, Set::empty()) by {
                assert(settled::<Op, N, LA, LD, D>(start, g, q, d, Set::empty()));
                lemma_settled_more::<Op, N, LA, LD, D>(start, end, g, q, top, d, Set::empty());
            }
        }
    }

    fn extract_below<LA, LD>(&mut self, id: usize) where Op: Schedulable<N, LA, LD>
        requires
            old(self).parts_wf(),
            id < old(self).graph().slots@.len(),
            acyclic_below(old(self).graph(), id),
            settled::<Op, N, LA, LD, D>(
                old(self).notes(),
                old(self).graph(),
                old(self).query(),
                depth(old(self).graph(), id),
                Set::empty(),
            ),
        ensures
            final(self).parts_wf(),
            final(self).graph() == old(self).graph(),
            final(self).query() == old(self).query(),
            noted_for(final(self).notes(), id),
            settled::<Op, N, LA, LD, D>(
                final(self).notes(),
                old(self).graph(),
                old(self).query(),
                depth(old(self).graph(), id),
                Set::empty(),
            ),
            only_below(
                old(self).notes(),
                final(self).notes(),
                old(self).graph(),
                depth(old(self).graph(), id),
            ),
        decreases depth(old(self).graph(), id),
    {
        if fx_get(&self.best_nodes, id as u64).is_some() {
            return;
        }
        let ghost g = self.graph();
        let ghost q = self.query();
        let ghost start = self.notes();
        let ghost top = depth(g, id);
        fx_insert(&mut self.best_nodes, id as u64, (0, N::top()));
        proof {
            lemma_noted::<Op, N, LA, LD, D>(start, g, q, top, id, (0, N::s_top()));
        }
        let egraph: &'a EGraph<Op, D> = self.egraph;
        let class: &EClass<Op, D> = egraph.get(id);
        let n: usize = class.nodes.len();
        for idx in 0..n
            invariant
                self.parts_wf(),
                self.graph() == g,
                g == old(self).graph(),
                self.query() == q,
                g.wf(),
                id < g.slots@.len(),
                acyclic_below(g, id),
                top == depth(g, id),
                *class == g.class(id),
                n == class.nodes@.len(),
                noted_for(self.notes(), id),
                settled::<Op, N, LA, LD, D>(self.notes(), g, q, top, set![id]),
                only_below(start, self.notes(), g, top),
                self.notes()[id as u64] == best_of::<Op, N, LA, LD, D>(g, q, id, idx as nat),
                forall|i: int| 0 <= i < idx ==> #[trigger] args_noted(self.notes(), g, id, i),
        {
            let cur_best: (usize, N) = fx_get(&self.best_nodes, id as u64).unwrap();
            let ghost before = self.notes();
            fx_insert(&mut self.best_nodes, id as u64, (idx, N::top()));
            proof {
                lemma_noted::<Op, N, LA, LD, D>(before, g, q, top, id, (idx, N::s_top()));
                lemma_only_below(start, before, self.notes(), g, top);
            }
            let node: &AstNode<Op> = &class.nodes[idx];
            assert(g.args_valid(g.class(id).nodes@[idx as int]@));
            let m: usize = node.args.len();
            for j in 0..m
                invariant
                    self.parts_wf(),
                    self.graph() == g,
                g == old(self).graph(),
                    self.query() == q,
                    g.wf(),
                    id < g.slots@.len(),
                    acyclic_below(g, id),
                    top == depth(g, id),
                    idx < g.class(id).nodes@.len(),
                    *node == g.class(id).nodes@[idx as int],
                    g.args_valid(node@),
                    m == node@.args.len(),
                    noted_for(self.notes(), id),
                    settled::<Op, N, LA, LD, D>(self.notes(), g, q, top, set![id]),
                    only_below(start, self.notes(), g, top),
                    only_below(before, self.notes(), g, top),
                    self.notes()[id as u64] == (idx, N::s_top()),
                    forall|i: int|
                        0 <= i < j ==> noted_for(self.notes(), #[trigger] node@.args[i]),
            {
                let child: usize = node.args[j];
                let ghost last = self.notes();
                proof {
                    assert(child == g.class(id).nodes@[idx as int]@.args[j as int]);
                    lemma_arg_is_lower(g, id, idx as int, j as int);
                    assert(child < g.slots@.len());
                    assert(settled::<Op, N, LA, LD, D>(
                        last,
                        g,
                        q,
                        depth(g, child),
                        Set::empty(),
                    ));
                }
                self.extract_below::<LA, LD>(child);
                proof {
                    let now = self.notes();
                    assert(same_note(last, now, id));
                    lemma_settled_more::<Op, N, LA, LD, D>(
                        last,
                        now,
                        g,
                        q,
                        depth(g, child),
                        top,
                        set![id],
                    );
                    lemma_only_below_deeper(last, now, g, depth(g, child), top);
                    lemma_only_below(start, last, now, g, top);
                    lemma_only_below(before, last, now, g, top);
                }
            }
            proof {
                let now = self.notes();
                assert forall|i: int| 0 <= i < idx + 1 implies #[trigger] args_noted(
                    now,
                    g,
                    id,
                    i,
                ) by {
                    if i < idx {
                        assert(args_noted(before, g, id, i));
                    }
                }
                assert(args_noted(now, g, id, idx as int));
            }
            if n > 1 {
                let expr: RecExpr<Op> = self.expr_from_id::<LA, LD>(id);
                let cost: N = self.cost::<LA, LD>(&expr);
                let ghost last = self.notes();
                let best: (usize, N) = if idx == 0 || (cost.le(cur_best.1) && !cur_best.1.le(
                    cost,
                )) {
                    (idx, cost)
                } else {
                    cur_best
                };
                fx_insert(&mut self.best_nodes, id as u64, best);
                proof {
                    lemma_noted::<Op, N, LA, LD, D>(last, g, q, top, id, best);
                    lemma_only_below(start, last, self.notes(), g, top);
                    assert forall|i: int| 0 <= i < idx + 1 implies #[trigger] args_noted(
                        self.notes(),
                        g,
                        id,
                        i,
                    ) by {
                        assert(args_noted(last, g, id, i));
                    }
                }
            }
        }
        proof {
            let end = self.notes();
            lemma_choice_exists::<Op, N, LA, LD, D>(g, q, id);
            assert(ready(end, g, id)) by {
                assert(args_noted(end, g, id, end[id as u64].0 as int));
            }
        }
    }

    /// The cheapest expression of a class.
    pub fn best<LA, LD>(&mut self, id: usize) -> (r: RecExpr<Op>) where Op: Schedulable<N, LA, LD>
        requires
            old(self).wf::<LA, LD>(),
            id < old(self).graph().slots@.len(),
            acyclic_below(old(self).graph(), id),
        ensures
            final(self).wf::<LA, LD>(),
            final(self).graph() == old(self).graph(),
            final(self).query() == old(self).query(),
            r@ == placed::<Op, N, LA, LD, D>(
                old(self).graph(),
                old(self).query(),
                id,
                nothing_placed(),
            ).nodes,
            r.wf(),
            r@.len() > 0,
            represents(old(self).graph(), id, root_tree(r@)),
    {
        self.extract::<LA, LD>(id);
        proof {
            assert(settled::<Op, N, LA, LD, D>(
                self.notes(),
                self.graph(),
                self.query(),
                depth(self.graph(), id),
                Set::empty(),
            ));
        }
        self.expr_from_id::<LA, LD>(id)
    }
}

proof fn lemma_grown<Op>(a: Placed<Op>, b: Placed<Op>, c: Placed<Op>)
    requires
        grown(a, b),
        grown(b, c),
    ensures
        grown(a, c),
{
    let n = a.nodes.len() as int;
    assert(a.nodes =~= c.nodes.subrange(0, n)) by {
        assert forall|i: int| 0 <= i < n implies a.nodes[i] == c.nodes[i] by {
            assert(a.nodes[i] == b.nodes.subrange(0, n)[i]);
            assert(b.nodes[i] == c.nodes.subrange(0, b.nodes.len() as int)[i]);
        }
    }
}

/// Where the depth is known, a class has a choice among its nodes.
pub(crate) proof fn lemma_choice_exists<Op, N, LA, LD, D>(g: EGraph<Op, D>, q: QueryView<N>, id: usize) where
    Op: Schedulable<N, LA, LD> + OperationInfo<N> + Teachable<N>,
    N: Number,

    requires
        acyclic_below(g, id),
        g.class(id).nodes@.len() <= usize::MAX,
    ensures
        choice::<Op, N, LA, LD, D>(g, q, id).0 < g.class(id).nodes@.len(),
{
    let n = g.class(id).nodes@.len();
    if n > 1 {
        lemma_best_of::<Op, N, LA, LD, D>(g, q, id, n);
    } else {
        let d = choose|d: nat| ends_within(g, id, d);
        assert(ends_within(g, id, d));
        assert(best_of::<Op, N, LA, LD, D>(g, q, id, 1).0 == 0);
    }
}

/// A note for one class settles or unsettles no other.
proof fn lemma_noted<Op, N, LA, LD, D>(
    m: Map<u64, (usize, N)>,
    g: EGraph<Op, D>,
    q: QueryView<N>,
    top: nat,
    id: usize,
    v: (usize, N),
) where Op: Schedulable<N, LA, LD> + OperationInfo<N> + Teachable<N>, N: Number
    requires
        acyclic_below(g, id),
        top == depth(g, id),
        settled::<Op, N, LA, LD, D>(m, g, q, top, set![id]) || settled::<Op, N, LA, LD, D>(
            m,
            g,
            q,
            top,
            Set::empty(),
        ),
    ensures
        settled::<Op, N, LA, LD, D>(m.insert(id as u64, v), g, q, top, set![id]),
        only_below(m, m.insert(id as u64, v), g, top),
{
    let t = m.insert(id as u64, v);
    assert forall|k: usize|
        #[trigger] noted_for(t, k) && !set![id].contains(k) && k < g.slots@.len() && acyclic_below(
            g,
            k,
        ) && depth(g, k) <= top implies t[k as u64] == choice::<Op, N, LA, LD, D>(g, q, k)
        && ready(t, g, k) by {
        assert(noted_for(m, k));
        assert(ready(m, g, k));
        lemma_still_ready(m, t, g, k);
    }
}

proof fn lemma_still_ready<Op, N, D>(
    a: Map<u64, (usize, N)>,
    b: Map<u64, (usize, N)>,
    g: EGraph<Op, D>,
    k: usize,
)
    requires
        ready(a, g, k),
        forall|i: usize| noted_for(a, i) ==> #[trigger] noted_for(b, i),
        b[k as u64] == a[k as u64],
    ensures
        ready(b, g, k),
{
    assert(noted_for(b, k));
}

/// What was settled above stays settled where only what is below changes.
proof fn lemma_settled_more<Op, N, LA, LD, D>(
    a: Map<u64, (usize, N)>,
    b: Map<u64, (usize, N)>,
    g: EGraph<Op, D>,
    q: QueryView<N>,
    low: nat,
    d: nat,
    open: Set<usize>,
) where Op: Schedulable<N, LA, LD> + OperationInfo<N> + Teachable<N>, N: Number
    requires
        settled::<Op, N, LA, LD, D>(a, g, q, d, open),
        settled::<Op, N, LA, LD, D>(b, g, q, low, Set::empty()),
        only_below(a, b, g, low),
    ensures
        settled::<Op, N, LA, LD, D>(b, g, q, d, open),
{
    assert forall|k: usize|
        #[trigger] noted_for(b, k) && !open.contains(k) && k < g.slots@.len() && acyclic_below(g, k)
            && depth(g, k) <= d implies b[k as u64] == choice::<Op, N, LA, LD, D>(g, q, k)
        && ready(b, g, k) by {
        if depth(g, k) > low {
            assert(same_note(a, b, k));
            assert(noted_for(a, k));
            lemma_still_ready(a, b, g, k);
        }
    }
}

proof fn lemma_only_below<Op, N, D>(
    a: Map<u64, (usize, N)>,
    b: Map<u64, (usize, N)>,
    c: Map<u64, (usize, N)>,
    g: EGraph<Op, D>,
    d: nat,
)
    requires
        only_below(a, b, g, d),
        only_below(b, c, g, d),
    ensures
        only_below(a, c, g, d),
{
    assert forall|k: usize| noted_for(a, k) implies #[trigger] noted_for(c, k) by {
        assert(noted_for(b, k));
    }
    assert forall|k: usize| !(acyclic_below(g, k) && depth(g, k) <= d) implies #[trigger] same_note(
        a,
        c,
        k,
    ) by {
        assert(same_note(a, b, k));
        assert(same_note(b, c, k));
    }
}

proof fn lemma_only_below_deeper<Op, N, D>(
    a: Map<u64, (usize, N)>,
    b: Map<u64, (usize, N)>,
    g: EGraph<Op, D>,
    low: nat,
    d: nat,
)
    requires
        only_below(a, b, g, low),
        low <= d,
    ensures
        only_below(a, b, g, d),
{
    assert forall|k: usize| !(acyclic_below(g, k) && depth(g, k) <= d) implies #[trigger] same_note(
        a,
        b,
        k,
    ) by {
        assert(!(acyclic_below(g, k) && depth(g, k) <= low));
    }
}

} // verus!
