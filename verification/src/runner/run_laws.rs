//! What a run makes of the selections that it tries.
use crate::assoc::{SiteMap, TextMap};
use crate::ast_node::{AstNode, NodeView};
use crate::bb_query::BBQuery;
use crate::egraph::EGraph;
use crate::expand::{
    distinct_rules, law_rules_are_distinct, names, rule_views, rules_of, ExpandMessage, Pattern,
    Rule,
};
use crate::extract::beam_pareto::ISAXCost;
use crate::extract::lib_sel::LibSel;
use crate::id_map::{holds, keys, lookup, IdMap};
use crate::number::Number;
use crate::rec_expr::RecExpr;
use crate::runner::operation::OperationInfo;
use crate::runner::pareto::{
    conclude, count_reuses, is_chosen, join_roots, lib_uses, root_blocks, summarize,
    ExtractResult, ParetoResult,
};
use crate::runner::selection::{
    all_noted, choose_selection, chosen_rules, is_known, source, Chosen,
};
use crate::schedule::{cycles_for_every_function, rec_cost, Schedulable};
use crate::teachable::Teachable;
use crate::text_sort::{law_text_union, text_le};
use std::sync::Arc;
use vstd::prelude::*;

verus! {

/// The nodes that use a library function.
pub open spec fn users<Op: OperationInfo<N>, N: Number>(
    nodes: Seq<NodeView<Op>>,
    id: usize,
) -> Seq<NodeView<Op>> {
    nodes.filter(
        |n: NodeView<Op>| n.operation.s_is_lib() && n.operation.s_libid() == id,
    )
}

proof fn lemma_users<Op: OperationInfo<N>, N: Number>(
    nodes: Seq<NodeView<Op>>,
    id: usize,
    n: nat,
)
    requires
        n <= nodes.len(),
    ensures
        lib_uses::<Op, N>(nodes, id, n) == users::<Op, N>(nodes.take(n as int), id).len(),
        lib_uses::<Op, N>(nodes, id, n) <= n,
    decreases n,
{
    reveal(Seq::filter);
    if n > 0 {
        lemma_users::<Op, N>(nodes, id, (n - 1) as nat);
        assert(nodes.take(n as int).drop_last() =~= nodes.take(n - 1));
    }
}

/// A library function is counted once for each node that uses it, and not at
/// all where none does.
pub proof fn law_every_use_counts<Op: OperationInfo<N>, N: Number>(
    expr: &RecExpr<Op>,
    r: IdMap<usize>,
    id: usize,
)
    requires
        call_ensures(count_reuses::<Op, N>, (expr,), r),
        expr@.len() <= usize::MAX,
    ensures
        match lookup(r.entries@, id) {
            Some(n) => n > 0 && n == users::<Op, N>(expr@, id).len(),
            None => users::<Op, N>(expr@, id).len() == 0,
        },
{
    lemma_users::<Op, N>(expr@, id, expr@.len());
    assert(expr@.take(expr@.len() as int) =~= expr@);
}

/// The expression is kept as it is, with its cycles, its area and the cycles
/// of its functions. Of the library functions those stay that it uses.
pub proof fn law_concluded<Op, N, LA, LD>(
    best: RecExpr<Op>,
    libs: IdMap<Arc<Pattern<Op>>>,
    exact: &SiteMap<N>,
    bb_query: &BBQuery<N>,
    r: ExtractResult<Op, N>,
    cost: (N, usize),
    functions: TextMap<N>,
    id: usize,
) where Op: Schedulable<N, LA, LD> + OperationInfo<N> + Teachable<N>, N: Number
    requires
        best@.len() <= usize::MAX,
        call_ensures(conclude::<Op, N, LA, LD>, (best, libs, exact, bb_query), r),
        call_ensures(rec_cost::<Op, N, LA, LD>, (&best, bb_query, exact), cost),
        call_ensures(
            cycles_for_every_function::<Op, N, LA, LD>,
            (&best, bb_query, exact),
            functions,
        ),
    ensures
        r.expr == best,
        r.cycles == cost.0,
        r.area == cost.1,
        r.func_cycles@ == functions@,
        users::<Op, N>(best@, id).len() > 0 ==> lookup(r.libs.entries@, id) == lookup(
            libs.entries@,
            id,
        ) && lookup(r.lib_reuses.entries@, id) == Some(
            users::<Op, N>(best@, id).len() as usize,
        ),
        users::<Op, N>(best@, id).len() == 0 ==> !holds(r.libs.entries@, id) && !holds(
            r.lib_reuses.entries@,
            id,
        ),
{
    lemma_users::<Op, N>(best@, id, best@.len());
    assert(best@.take(best@.len() as int) =~= best@);
    assert(lookup(r.libs.entries@, id) is Some <==> holds(r.libs.entries@, id));
    assert(lookup(r.lib_reuses.entries@, id) is Some <==> holds(r.lib_reuses.entries@, id));
}

/// What is known of a library function is kept where a result uses it, and
/// forgotten otherwise. The number of library functions is the number of
/// different names among the rules.
pub proof fn law_summarized<Op, T, N: Number, D>(
    results: Vec<ExtractResult<Op, N>>,
    message: ExpandMessage<Op, T>,
    rules: Vec<Rule>,
    vectorized: Option<(EGraph<Op, D>, usize)>,
    run_time: u64,
    size: (usize, usize),
    r: ParetoResult<Op, T, N, D>,
    id: usize,
)
    requires
        message.wf(),
        call_ensures(
            summarize::<Op, T, N, D>,
            (results, message, rules, vectorized, run_time, size),
            r,
        ),
    ensures
        r.extract_results == results,
        r.vectorized_egraph_with_root == vectorized,
        r.run_time == run_time,
        r.egraph_size == size,
        r.num_libs == names(rule_views(rules@)).to_set().len(),
        (exists|i: int|
            0 <= i < results@.len() && holds((#[trigger] results@[i]).libs.entries@, id)) ==> {
            let after = r.lib_message;
            &&& lookup(after.rewrites_conditions.entries@, id) == lookup(
                message.rewrites_conditions.entries@,
                id,
            )
            &&& lookup(after.searchers.entries@, id) == lookup(message.searchers.entries@, id)
            &&& lookup(after.appliers.entries@, id) == lookup(message.appliers.entries@, id)
            &&& lookup(after.lib_search_results.entries@, id) == lookup(
                message.lib_search_results.entries@,
                id,
            )
            &&& after.meta_libs@.contains(id) == message.meta_libs@.contains(id)
        },
        (forall|i: int|
            0 <= i < results@.len() ==> !holds((#[trigger] results@[i]).libs.entries@, id)) ==> {
            let after = r.lib_message;
            &&& !holds(after.rewrites_conditions.entries@, id)
            &&& !holds(after.searchers.entries@, id)
            &&& !holds(after.appliers.entries@, id)
            &&& !holds(after.lib_search_results.entries@, id)
            &&& !after.meta_libs@.contains(id)
        },
{
    let s = rule_views(rules@);
    let t = distinct_rules(s);
    law_rules_are_distinct(s);
    assert(names(t).no_duplicates()) by {
        assert forall|i: int, j: int|
            0 <= i < names(t).len() && 0 <= j < names(t).len() && i != j implies names(t)[i]
            != names(t)[j] by {
            if i < j {
                assert(names(t)[i] != names(t)[j]);
            } else {
                assert(names(t)[j] != names(t)[i]);
            }
        }
    }
    names(t).unique_seq_to_set();
    assert(names(t).to_set() =~= names(s).to_set());
    assert(names(t).len() == t.len());
    let chosen = is_chosen(results@, id);
    assert(chosen <==> exists|i: int|
        0 <= i < results@.len() && holds((#[trigger] results@[i]).libs.entries@, id));
}

/// Several roots are joined by a list of them. Its basic blocks are those of
/// the roots, each once and in order.
pub proof fn law_joined_roots<Op, N, T>(
    egraph: &EGraph<Op, ISAXCost<N, T>>,
    roots: &Vec<usize>,
    r: Option<AstNode<Op>>,
) where Op: OperationInfo<N> + Teachable<N>, N: Number
    requires
        egraph.wf(),
        roots@.len() > 0,
        call_ensures(join_roots::<Op, N, T>, (egraph, roots), r),
    ensures
        roots@.len() == 1 <==> r is None,
        r is Some ==> r->Some_0@.args == roots@ && exists|bbs: Seq<Seq<char>>|
            <Op as Teachable<N>>::s_list().s_moved(r->Some_0@.operation, bbs)
                && #[trigger] are_blocks_of(*egraph, roots@, bbs),
{
    if r is Some {
        let bbs = root_blocks(*egraph, roots@, roots@.len());
        lemma_root_blocks(*egraph, roots@, roots@.len());
        assert(roots@.take(roots@.len() as int) =~= roots@);
        assert(are_blocks_of(*egraph, roots@, bbs));
    }
}

/// Whether the texts are the basic blocks of the roots, each once and in
/// order.
pub open spec fn are_blocks_of<Op, N: Number, T>(
    g: EGraph<Op, ISAXCost<N, T>>,
    roots: Seq<usize>,
    bbs: Seq<Seq<char>>,
) -> bool {
    &&& forall|x: Seq<char>| #[trigger]
        bbs.contains(x) <==> exists|i: int|
            0 <= i < roots.len() && g.class(#[trigger] roots[i]).data@.bb.contains(x)
    &&& forall|i: int, j: int|
        0 <= i < j < bbs.len() ==> text_le(#[trigger] bbs[i], #[trigger] bbs[j]) && bbs[i]
            != bbs[j]
}

proof fn lemma_root_blocks<Op, N: Number, T>(
    g: EGraph<Op, ISAXCost<N, T>>,
    roots: Seq<usize>,
    k: nat,
)
    requires
        k <= roots.len(),
    ensures
        are_blocks_of(g, roots.take(k as int), root_blocks(g, roots, k)),
    decreases k,
{
    let done = roots.take(k as int);
    let bbs = root_blocks(g, roots, k);
    if k > 0 {
        lemma_root_blocks(g, roots, (k - 1) as nat);
        let before = root_blocks(g, roots, (k - 1) as nat);
        let less = roots.take(k - 1);
        let own = g.class(roots[k - 1]).data@.bb;
        law_text_union(before, own);
        assert forall|x: Seq<char>| #[trigger] bbs.contains(x) <==> exists|i: int|
            0 <= i < done.len() && g.class(#[trigger] done[i]).data@.bb.contains(x) by {
            assert(bbs.contains(x) <==> before.contains(x) || own.contains(x));
            if before.contains(x) {
                let i = choose|i: int|
                    0 <= i < less.len() && g.class(#[trigger] less[i]).data@.bb.contains(x);
                assert(done[i] == less[i]);
            }
            if own.contains(x) {
                assert(done[k - 1] == roots[k - 1]);
            }
            if exists|i: int|
                0 <= i < done.len() && g.class(#[trigger] done[i]).data@.bb.contains(x) {
                let i = choose|i: int|
                    0 <= i < done.len() && g.class(#[trigger] done[i]).data@.bb.contains(x);
                if i < k - 1 {
                    assert(less[i] == done[i]);
                }
            }
        }
    } else {
        assert forall|x: Seq<char>| #[trigger] bbs.contains(x) <==> exists|i: int|
            0 <= i < done.len() && g.class(#[trigger] done[i]).data@.bb.contains(x) by {}
    }
}

/// A library function that was learned earlier, one before `max_lib_id`, is
/// used as it was known then. A later one is used as it was learned now. What
/// may be stood for is known only where there is any.
pub proof fn law_selection_is_looked_up<Op, T, N: Number>(
    sel: &LibSel<N>,
    past: &ExpandMessage<Op, T>,
    new: &ExpandMessage<Op, T>,
    max_lib_id: usize,
    r: Chosen<Op>,
    id: usize,
)
    requires
        call_ensures(choose_selection::<Op, T, N>, (sel, past, new, max_lib_id), r),
    ensures
        !holds(sel.libs.entries@, id) ==> !holds(r.libs.entries@, id) && !holds(
            r.searchers.entries@,
            id,
        ),
        holds(sel.libs.entries@, id) ==> {
            let (appliers, searchers) = if id < max_lib_id {
                (past.appliers.entries@, past.searchers.entries@)
            } else {
                (new.appliers.entries@, new.searchers.entries@)
            };
            &&& lookup(r.libs.entries@, id) == lookup(appliers, id)
            &&& match lookup(searchers, id) {
                Some(list) => if list@.len() == 0 {
                    !holds(r.searchers.entries@, id)
                } else {
                    lookup(r.searchers.entries@, id) == Some(list)
                },
                None => !holds(r.searchers.entries@, id),
            }
        },
{
    let ids = keys(sel.libs.entries@);
    let s = source(*past, *new, max_lib_id, id);
    if holds(sel.libs.entries@, id) {
        let i = choose|i: int|
            0 <= i < sel.libs.entries@.len() && (#[trigger] sel.libs.entries@[i]).0 == id;
        assert(ids[i] == id);
    }
    if ids.contains(id) {
        let i = choose|i: int| 0 <= i < ids.len() && ids[i] == id;
        assert(sel.libs.entries@[i].0 == id);
    }
    assert(lookup(r.libs.entries@, id) is Some <==> holds(r.libs.entries@, id));
    assert(lookup(r.searchers.entries@, id) is Some <==> holds(r.searchers.entries@, id));
}

/// A selection with one more library function, behind all others, has its
/// rules behind all others: those that were known earlier where it was learned
/// earlier, or else those that were learned now.
pub proof fn law_rules_of_one_more<Op, T, N: Number>(
    sel: &LibSel<N>,
    more: &LibSel<N>,
    past: &ExpandMessage<Op, T>,
    new: &ExpandMessage<Op, T>,
    max_lib_id: usize,
    r: Chosen<Op>,
    s: Chosen<Op>,
)
    requires
        more.libs.entries@.len() == sel.libs.entries@.len() + 1,
        more.libs.entries@.drop_last() == sel.libs.entries@,
        is_known(*past, *new, max_lib_id, more.libs.entries@.last().0),
        call_ensures(choose_selection::<Op, T, N>, (sel, past, new, max_lib_id), r),
        call_ensures(choose_selection::<Op, T, N>, (more, past, new, max_lib_id), s),
    ensures
        ({
            let id = more.libs.entries@.last().0;
            let known = if id < max_lib_id {
                past.rewrites_conditions.entries@
            } else {
                new.rewrites_conditions.entries@
            };
            rule_views(s.rules@) == rule_views(r.rules@) + rules_of(lookup(known, id)->Some_0@)
        }),
{
    let (a, b) = (keys(sel.libs.entries@), keys(more.libs.entries@));
    assert(b.drop_last() =~= a);
    lemma_same_rules(*past, *new, max_lib_id, a, b, a.len());
    assert(b[b.len() - 1] == more.libs.entries@.last().0);
}

proof fn lemma_same_rules<Op, T>(
    past: ExpandMessage<Op, T>,
    new: ExpandMessage<Op, T>,
    max_lib_id: usize,
    a: Seq<usize>,
    b: Seq<usize>,
    k: nat,
)
    requires
        k <= a.len(),
        a.len() <= b.len(),
        forall|i: int| 0 <= i < a.len() ==> a[i] == b[i],
    ensures
        chosen_rules(past, new, max_lib_id, a, k) == chosen_rules(past, new, max_lib_id, b, k),
    decreases k,
{
    if k > 0 {
        lemma_same_rules(past, new, max_lib_id, a, b, (k - 1) as nat);
    }
}

/// A selection without library functions has no rules.
pub proof fn law_no_functions_no_rules<Op, T, N: Number>(
    sel: &LibSel<N>,
    past: &ExpandMessage<Op, T>,
    new: &ExpandMessage<Op, T>,
    max_lib_id: usize,
    r: Chosen<Op>,
)
    requires
        sel.libs.entries@.len() == 0,
        call_ensures(choose_selection::<Op, T, N>, (sel, past, new, max_lib_id), r),
    ensures
        r.rules@.len() == 0,
{
    assert(rule_views(r.rules@).len() == r.rules@.len());
}

/// What a message knows of the library functions of a selection is what is
/// known of them where they come from. Of all others it knows what it knew.
pub proof fn law_selection_is_noted<Op, T>(
    before: ExpandMessage<Op, T>,
    after: ExpandMessage<Op, T>,
    past: ExpandMessage<Op, T>,
    new: ExpandMessage<Op, T>,
    max_lib_id: usize,
    taken: bool,
    id: usize,
)
    requires
        all_noted(before, after, source(past, new, max_lib_id, id), taken, id),
    ensures
        ({
            let from = if id < max_lib_id {
                past
            } else {
                new
            };
            &&& lookup(after.rewrites_conditions.entries@, id) == if taken && holds(
                from.rewrites_conditions.entries@,
                id,
            ) {
                lookup(from.rewrites_conditions.entries@, id)
            } else {
                lookup(before.rewrites_conditions.entries@, id)
            }
            &&& lookup(after.searchers.entries@, id) == if taken && holds(
                from.searchers.entries@,
                id,
            ) {
                lookup(from.searchers.entries@, id)
            } else {
                lookup(before.searchers.entries@, id)
            }
            &&& lookup(after.appliers.entries@, id) == if taken && holds(
                from.appliers.entries@,
                id,
            ) {
                lookup(from.appliers.entries@, id)
            } else {
                lookup(before.appliers.entries@, id)
            }
            &&& lookup(after.lib_search_results.entries@, id) == if taken && holds(
                from.lib_search_results.entries@,
                id,
            ) {
                lookup(from.lib_search_results.entries@, id)
            } else {
                lookup(before.lib_search_results.entries@, id)
            }
            &&& after.meta_libs@.contains(id) <==> before.meta_libs@.contains(id) || (taken
                && from.meta_libs@.contains(id))
        }),
{
}

} // verus!
