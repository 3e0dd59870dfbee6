//! Costs of whole expressions and of single nodes.
use crate::assoc::SiteMap;
use crate::ast_node::{AstNode, NodeView};
use crate::bb_query::{BBQuery, QueryView};
use crate::extract::beam_pareto::ISAXAnalysis;
use crate::extract::lib_extractor::cycles_of;
use crate::number::Number;
use crate::rec_expr::RecExpr;
use crate::runner::operation::OperationInfo;
use crate::schedule::{latency_at, rec_cycles, Schedulable};
use crate::sorting::sorted;
use crate::teachable::{binding_of, BindingExpr, Teachable};
use crate::text::texts;
use crate::text_sort::{sort_texts, text_order};
use vstd::prelude::*;

verus! {

/// The cost of whole expressions: their cycles, with a bonus for operations
/// on vectors.
#[derive(Debug)]
pub struct ISAXCF<N: Number> {
    pub bb_query: BBQuery<N>,
}

/// How many of the first `n` nodes are operations on vectors.
pub open spec fn vector_ops<Op: OperationInfo<N>, N: Number>(e: Seq<NodeView<Op>>, n: nat) -> nat
    decreases n,
{
    if n == 0 {
        0
    } else {
        vector_ops::<Op, N>(e, (n - 1) as nat) + if e[n - 1].operation.s_is_vector_op() {
            1nat
        } else {
            0nat
        }
    }
}

/// The cycles of an expression, over one and a hundredth of the whole share
/// of its operations on vectors.
pub open spec fn bonus_cost<Op, N, LA, LD>(e: Seq<NodeView<Op>>, q: QueryView<N>) -> N where
    Op: Schedulable<N, LA, LD> + OperationInfo<N> + Teachable<N>,
    N: Number,
 {
    let whole = (vector_ops::<Op, N>(e, e.len()) / e.len()) as usize;
    let hundredth = N::s_count(1).s_over(N::s_count(100));
    cycles_of::<Op, N, LA, LD>(e, q).s_over(
        N::s_count(1).s_plus(N::s_count(whole).s_times(hundredth)),
    )
}

impl<N: Number> ISAXCF<N> {
    /// The cost with these basic blocks.
    pub fn new(bb_query: BBQuery<N>) -> (r: Self)
        ensures
            r.bb_query == bb_query,
    {
        ISAXCF { bb_query }
    }

    /// The cost of a node by itself: none.
    pub fn cost<Op>(&self, _enode: &AstNode<Op>) -> (r: N)
        ensures
            r == N::s_zero(),
    {
        N::zero()
    }

    /// The cost of an expression.
    pub fn cost_rec<Op, LA, LD>(&self, expr: &RecExpr<Op>) -> (r: N) where
        Op: Schedulable<N, LA, LD> + OperationInfo<N> + Teachable<N>,

        requires
            self.bb_query.wf(),
            expr@.len() > 0,
        ensures
            r == bonus_cost::<Op, N, LA, LD>(expr@, self.bb_query@),
    {
        let lats: SiteMap<N> = SiteMap::new();
        assert(lats@ =~= Map::empty());
        let cycles: N = rec_cycles::<Op, N, LA, LD>(expr, &self.bb_query, &lats);
        let n: usize = expr.nodes.len();
        let mut vec_num: usize = 0;
        for i in 0..n
            invariant
                n == expr@.len(),
                vec_num == vector_ops::<Op, N>(expr@, i as nat),
                vec_num <= i,
        {
            assert(expr@[i as int] == expr.nodes@[i as int]@);
            if expr.nodes[i].operation.is_vector_op() {
                vec_num = vec_num + 1;
            }
        }
        let hundredth: N = N::count(1).over(N::count(100));
        cycles.over(N::count(1).plus(N::count(vec_num / n).times(hundredth)))
    }
}

/// Operations that are not all on vectors earn no bonus.
pub proof fn law_bonus_needs_vectors_only<Op: OperationInfo<N>, N: Number>(
    e: Seq<NodeView<Op>>,
    i: int,
)
    requires
        0 <= i < e.len(),
        !e[i].operation.s_is_vector_op(),
    ensures
        vector_ops::<Op, N>(e, e.len()) / e.len() == 0,
{
    lemma_vector_ops::<Op, N>(e, e.len(), i);
    vstd::arithmetic::div_mod::lemma_basic_div(
        vector_ops::<Op, N>(e, e.len()) as int,
        e.len() as int,
    );
}

proof fn lemma_vector_ops<Op: OperationInfo<N>, N: Number>(e: Seq<NodeView<Op>>, n: nat, i: int)
    ensures
        vector_ops::<Op, N>(e, n) <= n,
        0 <= i < n && !e[i].operation.s_is_vector_op() ==> vector_ops::<Op, N>(e, n) < n,
    decreases n,
{
    if n > 0 {
        lemma_vector_ops::<Op, N>(e, (n - 1) as nat, i);
    }
}

/// The cost of single nodes, for an extraction that adds them up.
#[derive(Debug)]
pub struct ISAXLpCF<N: Number> {
    pub bb_query: BBQuery<N>,
}

/// The cost of a node: its latency times its executions. A library function
/// has the latency that is known for its basic blocks, taken in order.
pub open spec fn lp_cost<Op, N, LA, LD>(
    node: NodeView<Op>,
    q: QueryView<N>,
    lats: Map<(usize, Seq<Seq<char>>), N>,
) -> N where Op: Schedulable<N, LA, LD> + OperationInfo<N> + Teachable<N>, N: Number {
    let bbs = node.operation.s_bbs_info();
    let runs = node.operation.s_execution_count(q);
    if bbs.len() == 0 {
        N::s_zero()
    } else {
        match binding_of::<Op, usize, N>(node) {
            Some(BindingExpr::Lib(id, _, _, _, lat_acc, _)) => latency_at(
                lats,
                id.0,
                sorted(bbs, text_order()),
                lat_acc,
            ).s_times(runs),
            _ => if node.operation.s_is_op() {
                <Op as Schedulable<N, LA, LD>>::s_latency_cpu(node, q).s_times(runs)
            } else {
                N::s_zero()
            },
        }
    }
}

impl<N: Number> ISAXLpCF<N> {
    /// The cost with these basic blocks.
    pub fn new(bb_query: BBQuery<N>) -> (r: Self)
        ensures
            r.bb_query == bb_query,
    {
        ISAXLpCF { bb_query }
    }

    /// The cost of a node.
    pub fn node_cost<Op, LA, LD>(&self, analysis: &ISAXAnalysis<N>, enode: &AstNode<Op>) -> (r:
        N) where Op: Schedulable<N, LA, LD> + OperationInfo<N> + Teachable<N>
        requires
            self.bb_query.wf(),
            analysis.wf(),
        ensures
            r == lp_cost::<Op, N, LA, LD>(
                enode@,
                self.bb_query@,
                analysis.lat_acc_map@,
            ),
    {
        let bbs: Vec<String> = enode.operation.get_bbs_info();
        assert(texts(bbs@).len() == bbs@.len());
        if bbs.len() == 0 {
            return N::zero();
        }
        let runs: N = enode.operation.op_execution_count(&self.bb_query);
        match Op::as_binding_expr(enode) {
            Some(BindingExpr::Lib(id, _, _, _, lat_acc, _)) => {
                let in_order: Vec<String> = sort_texts(&bbs);
                let latency: N = match analysis.get_lat_acc(id.0, &in_order) {
                    Some(l) => l,
                    None => lat_acc,
                };
                latency.times(runs)
            },
            _ => {
                if enode.operation.is_op() {
                    let latency: N = <Op as Schedulable<N, LA, LD>>::op_latency_cpu(
                        enode,
                        &self.bb_query,
                    );
                    latency.times(runs)
                } else {
                    N::zero()
                }
            },
        }
    }
}

} // verus!
