//! What expressions and single nodes cost.
use crate::assoc::SiteMap;
use crate::ast_node::AstNode;
use crate::extract::beam_pareto::ISAXAnalysis;
use crate::extract::cost_fn::{
    law_bonus_needs_vectors_only, vector_ops, ISAXLpCF, ISAXCF,
};
use crate::number::Number;
use crate::rec_expr::RecExpr;
use crate::runner::operation::OperationInfo;
use crate::schedule::{rec_cycles, Schedulable};
use crate::teachable::{binding_of, BindingExpr, Teachable};
use crate::text_laws::lemma_one_order;
use crate::text_sort::text_le;
use vstd::prelude::*;

verus! {

proof fn lemma_all_vectors<Op: OperationInfo<N>, N: Number>(
    e: Seq<crate::ast_node::NodeView<Op>>,
    n: nat,
)
    requires
        n <= e.len(),
        forall|i: int| 0 <= i < e.len() ==> (#[trigger] e[i]).operation.s_is_vector_op(),
    ensures
        vector_ops::<Op, N>(e, n) == n,
    decreases n,
{
    if n > 0 {
        lemma_all_vectors::<Op, N>(e, (n - 1) as nat);
        assert(e[n - 1].operation.s_is_vector_op());
    }
}

/// An expression costs its cycles. Where all of its operations are on
/// vectors, they are divided by one and a hundredth.
pub proof fn law_vectors_alone_have_a_bonus<Op, N, LA, LD>(
    cf: &ISAXCF<N>,
    expr: &RecExpr<Op>,
    no_latencies: &SiteMap<N>,
    cycles: N,
    r: N,
) where Op: Schedulable<N, LA, LD> + OperationInfo<N> + Teachable<N>, N: Number
    requires
        cf.bb_query.wf(),
        expr@.len() > 0,
        no_latencies.wf(),
        no_latencies@ == Map::<(usize, Seq<Seq<char>>), N>::empty(),
        call_ensures(rec_cycles::<Op, N, LA, LD>, (expr, &cf.bb_query, no_latencies), cycles),
        call_ensures(ISAXCF::<N>::cost_rec::<Op, LA, LD>, (cf, expr), r),
    ensures
        (forall|i: int| 0 <= i < expr@.len() ==> (#[trigger] expr@[i]).operation.s_is_vector_op())
            ==> r == cycles.s_over(
            N::s_count(1).s_plus(N::s_count(1).s_times(N::s_count(1).s_over(N::s_count(100)))),
        ),
        (exists|i: int| 0 <= i < expr@.len() && !(#[trigger] expr@[i]).operation.s_is_vector_op())
            ==> r == cycles.s_over(
            N::s_count(1).s_plus(N::s_count(0).s_times(N::s_count(1).s_over(N::s_count(100)))),
        ),
{
    let e = expr@;
    if exists|i: int| 0 <= i < e.len() && !(#[trigger] e[i]).operation.s_is_vector_op() {
        let i = choose|i: int| 0 <= i < e.len() && !(#[trigger] e[i]).operation.s_is_vector_op();
        law_bonus_needs_vectors_only::<Op, N>(e, i);
    } else {
        lemma_all_vectors::<Op, N>(e, e.len());
        vstd::arithmetic::div_mod::lemma_div_by_self(e.len() as int);
    }
}

/// A node without basic blocks costs nothing. A call of a library function
/// costs, at each execution, the latency that is known for its basic blocks in
/// order, or else the one that the call states. An operation costs its cycles
/// on the processor at each execution, and any other node costs nothing.
pub proof fn law_cost_of_a_node<Op, N, LA, LD>(
    cf: &ISAXLpCF<N>,
    analysis: &ISAXAnalysis<N>,
    node: &AstNode<Op>,
    in_order: Seq<Seq<char>>,
    r: N,
) where Op: Schedulable<N, LA, LD> + OperationInfo<N> + Teachable<N>, N: Number
    requires
        cf.bb_query.wf(),
        analysis.wf(),
        in_order.to_multiset() == node@.operation.s_bbs_info().to_multiset(),
        forall|i: int, j: int|
            0 <= i < j < in_order.len() ==> text_le(
                #[trigger] in_order[i],
                #[trigger] in_order[j],
            ),
        call_ensures(ISAXLpCF::<N>::node_cost::<Op, LA, LD>, (cf, analysis, node), r),
    ensures
        ({
            let runs = node@.operation.s_execution_count(cf.bb_query@);
            let known = analysis.lat_acc_map@;
            if in_order.len() == 0 {
                r == N::s_zero()
            } else {
                match binding_of::<Op, usize, N>(node@) {
                    Some(BindingExpr::Lib(id, _, _, _, stated, _)) => if known.dom().contains(
                        (id.0, in_order),
                    ) {
                        r == known[(id.0, in_order)].s_times(runs)
                    } else {
                        r == stated.s_times(runs)
                    },
                    _ => if node@.operation.s_is_op() {
                        r == <Op as Schedulable<N, LA, LD>>::s_latency_cpu(
                            node@,
                            cf.bb_query@,
                        ).s_times(runs)
                    } else {
                        r == N::s_zero()
                    },
                }
            }
        }),
{
    broadcast use vstd::seq_lib::group_to_multiset_ensures;

    let bbs = node@.operation.s_bbs_info();
    assert(in_order.to_multiset().len() == bbs.to_multiset().len());
    lemma_one_order(bbs, in_order);
}

} // verus!
