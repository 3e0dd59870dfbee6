//! Which classes of an e-graph lose their operations with the lambdas.
use crate::egraph::EGraph;
use crate::extract::lambda::{
    eliminate_lambda, has_lambda, is_lambda, reached_within, under_lambda, uses,
};
use crate::number::Number;
use crate::runner::operation::OperationInfo;
use crate::teachable::{binding_of, BindingExpr, Teachable};
use crate::text::decimal;
use vstd::prelude::*;

verus! {

/// Whether node `n` of the class at `k` is a lambda.
pub open spec fn lambda_at<Op: Teachable<N>, N: Number, D>(
    g: EGraph<Op, D>,
    k: int,
    n: int,
) -> bool {
    0 <= n < g.classes@[k].nodes@.len() && (match binding_of::<Op, usize, N>(
        g.classes@[k].nodes@[n]@,
    ) {
        Some(BindingExpr::Lambda(_)) => true,
        _ => false,
    })
}

/// Whether a node of the class at `p` has an argument in the class at `k`.
pub open spec fn leads_down<Op, D>(g: EGraph<Op, D>, p: int, k: int) -> bool {
    exists|n: int, j: int|
        0 <= n < g.classes@[p].nodes@.len() && 0 <= j < g.classes@[p].nodes@[n]@.args.len()
            && g.slots@[(#[trigger] g.classes@[p].nodes@[n]@.args[j]) as int] == k
}

/// Whether `way` leads down from a lambda to the class at `k`.
pub open spec fn is_way_down<Op: Teachable<N>, N: Number, D>(
    g: EGraph<Op, D>,
    way: Seq<int>,
    k: int,
) -> bool {
    &&& way.len() > 0
    &&& way.last() == k
    &&& forall|i: int| 0 <= i < way.len() ==> 0 <= #[trigger] way[i] < g.classes@.len()
    &&& exists|n: int| #[trigger] lambda_at::<Op, N, D>(g, way[0], n)
    &&& forall|i: int| 0 < i < way.len() ==> leads_down(g, way[i - 1], #[trigger] way[i])
}

proof fn lemma_way<Op: Teachable<N>, N: Number, D>(g: EGraph<Op, D>, k: int, steps: nat) -> (way:
    Seq<int>)
    requires
        0 <= k < g.classes@.len(),
        reached_within::<Op, N, D>(g, k, steps),
    ensures
        is_way_down::<Op, N, D>(g, way, k),
    decreases steps,
{
    if has_lambda::<Op, N, D>(g, k) {
        let n = choose|n: int|
            0 <= n < g.classes@[k].nodes@.len() && is_lambda::<Op, N>(
                (#[trigger] g.classes@[k].nodes@[n])@,
            );
        assert(lambda_at::<Op, N, D>(g, k, n));
        let way = seq![k];
        assert(way[0] == k);
        way
    } else {
        let p = choose|p: int|
            0 <= p < g.classes@.len() && reached_within::<Op, N, D>(g, p, (steps - 1) as nat)
                && #[trigger] uses(g, p, k);
        let above = lemma_way::<Op, N, D>(g, p, (steps - 1) as nat);
        let way = above.push(k);
        assert(way[0] == above[0]);
        assert(leads_down(g, p, k));
        assert forall|i: int| 0 < i < way.len() implies leads_down(
            g,
            way[i - 1],
            #[trigger] way[i],
        ) by {
            if i < above.len() {
                assert(way[i] == above[i] && way[i - 1] == above[i - 1]);
            } else {
                assert(way[i - 1] == above.last());
            }
        }
        way
    }
}

proof fn lemma_reached<Op: Teachable<N>, N: Number, D>(g: EGraph<Op, D>, way: Seq<int>, k: int)
    requires
        is_way_down::<Op, N, D>(g, way, k),
    ensures
        reached_within::<Op, N, D>(g, k, way.len()),
    decreases way.len(),
{
    let l = way.len();
    if l == 1 {
        let n = choose|n: int| #[trigger] lambda_at::<Op, N, D>(g, way[0], n);
        assert(is_lambda::<Op, N>(g.classes@[k].nodes@[n]@));
    } else {
        let above = way.drop_last();
        let p = above.last();
        assert(above[0] == way[0]);
        assert forall|i: int| 0 < i < above.len() implies leads_down(
            g,
            above[i - 1],
            #[trigger] above[i],
        ) by {
            assert(leads_down(g, way[i - 1], way[i]));
        }
        lemma_reached::<Op, N, D>(g, above, p);
        assert(leads_down(g, way[l - 2], way[l - 1]));
        assert(uses(g, p, k));
        assert(reached_within::<Op, N, D>(g, p, (l - 1) as nat));
    }
}

/// A class that a way down from a lambda leads to has, in place of each of its
/// operations, a variable named after the class. Every other class stays as
/// it is. Identifiers, data and arguments stay in all of them.
pub proof fn law_variables_below_lambdas<Op, N, D>(
    egraph: EGraph<Op, D>,
    r: EGraph<Op, D>,
    k: int,
    n: int,
) where Op: OperationInfo<N> + Teachable<N>, N: Number
    requires
        egraph.wf(),
        0 <= k < egraph.classes@.len(),
        0 <= n < egraph.classes@[k].nodes@.len(),
        call_ensures(eliminate_lambda::<Op, N, D>, (egraph,), r),
    ensures
        r.slots@ == egraph.slots@,
        r.classes@.len() == egraph.classes@.len(),
        r.classes@[k].id == egraph.classes@[k].id,
        r.classes@[k].data == egraph.classes@[k].data,
        r.classes@[k].nodes@.len() == egraph.classes@[k].nodes@.len(),
        r.classes@[k].nodes@[n]@.args == egraph.classes@[k].nodes@[n]@.args,
        (exists|way: Seq<int>| #[trigger] is_way_down::<Op, N, D>(egraph, way, k))
            ==> Op::s_makes_rule_var(
            r.classes@[k].nodes@[n]@.operation,
            seq!['L', 'a', 'm', 'b', 'd', 'a'] + decimal(egraph.classes@[k].id as nat),
        ),
        (forall|way: Seq<int>| !#[trigger] is_way_down::<Op, N, D>(egraph, way, k))
            ==> r.classes@[k].nodes@[n]@.operation == egraph.classes@[k].nodes@[n]@.operation,
{
    let (before, after) = (egraph.classes@[k], r.classes@[k]);
    reveal_strlit("Lambda");
    assert("Lambda"@ =~= seq!['L', 'a', 'm', 'b', 'd', 'a']);
    if exists|way: Seq<int>| #[trigger] is_way_down::<Op, N, D>(egraph, way, k) {
        let way = choose|way: Seq<int>| #[trigger] is_way_down::<Op, N, D>(egraph, way, k);
        lemma_reached::<Op, N, D>(egraph, way, k);
        assert(under_lambda::<Op, N, D>(egraph, k));
    } else if under_lambda::<Op, N, D>(egraph, k) {
        let steps = choose|steps: nat| reached_within::<Op, N, D>(egraph, k, steps);
        let way = lemma_way::<Op, N, D>(egraph, k, steps);
    }
    assert(after.nodes@[n]@.args == before.nodes@[n]@.args);
}

} // verus!
