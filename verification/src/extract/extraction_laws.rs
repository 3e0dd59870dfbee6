//! What the extraction of a class finds: an expression, if there is one and no
//! way down leads back, and none that costs more than another candidate.
use crate::ast_node::expr::Tree;
use crate::ast_node::{Identical, NodeView};
use crate::bb_query::QueryView;
use crate::egraph::EGraph;
use crate::extract::isax_extractor::{acyclic_below, depth, lemma_arg_is_lower};
use crate::extract::lib_context::with_id;
use crate::extract::lib_extractor::{
    allowed, arg_context, args_extracted, considered, context_of, cycles_of, defined_lib, defines,
    depth_left, extracted, extraction, lemma_considered, lemma_context_grows, lemma_depth_left,
    lemma_inner_depth, node_extracted, nodes_tried, noted, represents, shifted, stands_for, Found,
};
use crate::extract::sharing::shared;
use crate::id_map::{increasing, lemma_slot, slot};
use crate::number::{ranks_before, Number};
use crate::runner::operation::OperationInfo;
use crate::schedule::Schedulable;
use crate::teachable::Teachable;
use vstd::prelude::*;

verus! {

/// Whether a class represents an expression that may stand in the context.
pub open spec fn has_expr<Op: Teachable<N>, N: Number, D>(
    g: EGraph<Op, D>,
    id: usize,
    context: Seq<usize>,
) -> bool {
    exists|t: Tree<Op>| represents(g, id, t) && #[trigger] allowed::<Op, N>(t, context)
}

/// Whether a class was visited in a context.
pub open spec fn seen<Op, N>(st: Found<Op, N>, id: usize, context: Seq<usize>) -> bool {
    st.memo.dom().contains((id, context))
}

/// Whether an expression was found for a class in a context.
pub open spec fn got<Op, N>(st: Found<Op, N>, id: usize, context: Seq<usize>) -> bool {
    seen(st, id, context) && st.exprs[st.memo[(id, context)] as int] is Some
}

/// Whether a class and a context are of the e-graph.
pub open spec fn is_site<Op: Teachable<N>, N: Number, D>(
    g: EGraph<Op, D>,
    id: usize,
    context: Seq<usize>,
) -> bool {
    id < g.slots@.len() && context_of::<Op, N, D>(g, context)
}

/// Whether no way down from a class leads back, and each has fewer than `d`
/// steps.
spec fn is_low<Op, D>(g: EGraph<Op, D>, id: usize, d: nat) -> bool {
    acyclic_below(g, id) && depth(g, id) < d
}

/// Whether of every class that was visited an expression was found, if it has
/// one and no way down from it leads back.
pub open spec fn complete<Op: Teachable<N>, N: Number, D>(
    g: EGraph<Op, D>,
    st: Found<Op, N>,
) -> bool {
    forall|id: usize, context: Seq<usize>| #[trigger]
        seen(st, id, context) && is_site::<Op, N, D>(g, id, context) && acyclic_below(g, id)
            && has_expr::<Op, N, D>(g, id, context) ==> got(st, id, context)
}

/// The same of the classes whose ways down have fewer than `d` steps.
spec fn complete_to<Op: Teachable<N>, N: Number, D>(
    g: EGraph<Op, D>,
    st: Found<Op, N>,
    d: nat,
) -> bool {
    forall|id: usize, context: Seq<usize>| #[trigger]
        seen(st, id, context) && is_site::<Op, N, D>(g, id, context) && is_low(g, id, d)
            && has_expr::<Op, N, D>(g, id, context) ==> got(st, id, context)
}

/// Whether no way down from the class leads back, and what was found so far
/// is complete.
pub open spec fn complete_below<Op: Teachable<N>, N: Number, D>(
    g: EGraph<Op, D>,
    id: usize,
    st: Found<Op, N>,
) -> bool {
    &&& acyclic_below(g, id)
    &&& complete::<Op, N, D>(g, st)
}

/// Whether what was visited and found stays so, and only classes whose ways
/// down have fewer than `d` steps are visited for the first time.
spec fn grows<Op: Teachable<N>, N: Number, D>(
    g: EGraph<Op, D>,
    a: Found<Op, N>,
    b: Found<Op, N>,
    d: nat,
) -> bool {
    forall|id: usize, context: Seq<usize>|
        #![trigger seen(a, id, context)]
        #![trigger seen(b, id, context)]
        is_site::<Op, N, D>(g, id, context) ==> {
            &&& seen(a, id, context) ==> seen(b, id, context)
            &&& got(a, id, context) ==> got(b, id, context)
            &&& seen(b, id, context) && !is_low(g, id, d) ==> seen(a, id, context)
        }
}

/// Whether the results stand where the memo says.
spec fn stored<Op, N>(st: Found<Op, N>) -> bool {
    forall|k: (usize, Seq<usize>)| #[trigger] st.memo.dom().contains(k) ==> st.memo[k] < st.exprs.len()
}

/// Whether a node has an expression in the context.
spec fn node_has<Op: Teachable<N>, N: Number, D>(
    g: EGraph<Op, D>,
    node: NodeView<Op>,
    context: Seq<usize>,
) -> bool {
    &&& match defined_lib::<Op, N>(node) {
        Some(lib) => !context.contains(lib),
        None => true,
    }
    &&& forall|j: int|
        0 <= j < node.args.len() ==> has_expr::<Op, N, D>(
            g,
            #[trigger] node.args[j],
            arg_context::<Op, N>(node, context, j),
        )
}

proof fn lemma_some_node_has<Op: Teachable<N>, N: Number, D>(
    g: EGraph<Op, D>,
    id: usize,
    context: Seq<usize>,
) -> (n: int)
    requires
        has_expr::<Op, N, D>(g, id, context),
    ensures
        0 <= n < g.class(id).nodes@.len(),
        node_has::<Op, N, D>(g, g.class(id).nodes@[n]@, context),
{
    let t = choose|t: Tree<Op>| represents(g, id, t) && #[trigger] allowed::<Op, N>(t, context);
    let n = choose|n: int|
        0 <= n < g.class(id).nodes@.len() && stands_for(g, (#[trigger] g.class(id).nodes@[n])@, t);
    let node = g.class(id).nodes@[n]@;
    assert(stands_for(g, node, t));
    let bare = NodeView { operation: t.operation, args: Seq::new(t.args.len(), |j: int| 0usize) };
    assert(defined_lib::<Op, N>(bare) == defined_lib::<Op, N>(node));
    assert forall|j: int| 0 <= j < node.args.len() implies has_expr::<Op, N, D>(
        g,
        #[trigger] node.args[j],
        arg_context::<Op, N>(node, context, j),
    ) by {
        let part = t.args[j];
        assert(represents(g, node.args[j], part));
        assert(arg_context::<Op, N>(bare, context, j) == arg_context::<Op, N>(node, context, j));
        assert(allowed::<Op, N>(part, arg_context::<Op, N>(node, context, j)));
    }
    n
}

proof fn lemma_inner_context<Op: Teachable<N>, N: Number, D>(
    g: EGraph<Op, D>,
    node: NodeView<Op>,
    context: Seq<usize>,
    j: int,
)
    requires
        context_of::<Op, N, D>(g, context),
        match defined_lib::<Op, N>(node) {
            Some(lib) => defines::<Op, N, D>(g, lib),
            None => true,
        },
    ensures
        context_of::<Op, N, D>(g, arg_context::<Op, N>(node, context, j)),
{
    if let Some(lib) = defined_lib::<Op, N>(node) {
        lemma_slot(context, lib);
        let more = with_id(context, lib);
        let p = slot(context, lib);
        assert(increasing(more)) by {
            if !context.contains(lib) {
                assert forall|a: int, b: int| 0 <= a < b < more.len() implies more[a] < more[b] by {
                    let x = if a < p {
                        a
                    } else {
                        a - 1
                    };
                    let y = if b < p {
                        b
                    } else {
                        b - 1
                    };
                    if a != p {
                        assert(more[a] == context[x]);
                    }
                    if b != p {
                        assert(more[b] == context[y]);
                    }
                    if a == p {
                        assert(context.contains(context[y]));
                    }
                }
            }
        }
        lemma_context_grows::<Op, N, D>(g, context, lib);
    }
}

proof fn lemma_grows_on<Op: Teachable<N>, N: Number, D>(
    g: EGraph<Op, D>,
    a: Found<Op, N>,
    b: Found<Op, N>,
    c: Found<Op, N>,
    d: nat,
)
    requires
        grows::<Op, N, D>(g, a, b, d),
        grows::<Op, N, D>(g, b, c, d),
    ensures
        grows::<Op, N, D>(g, a, c, d),
{
    assert forall|id: usize, context: Seq<usize>|
        #![trigger seen(a, id, context)]
        #![trigger seen(c, id, context)]
        is_site::<Op, N, D>(g, id, context) implies {
        &&& seen(a, id, context) ==> seen(c, id, context)
        &&& got(a, id, context) ==> got(c, id, context)
        &&& seen(c, id, context) && !is_low(g, id, d) ==> seen(a, id, context)
    } by {
        assert(seen(b, id, context) || !seen(b, id, context));
    }
}

proof fn lemma_stays_complete<Op: Teachable<N>, N: Number, D>(
    g: EGraph<Op, D>,
    a: Found<Op, N>,
    b: Found<Op, N>,
    e: nat,
    d: nat,
)
    requires
        e <= d,
        complete_to::<Op, N, D>(g, a, d),
        grows::<Op, N, D>(g, a, b, e),
        complete_to::<Op, N, D>(g, b, e),
    ensures
        grows::<Op, N, D>(g, a, b, d),
        complete_to::<Op, N, D>(g, b, d),
{
    assert forall|id: usize, context: Seq<usize>| #[trigger]
        seen(b, id, context) && is_site::<Op, N, D>(g, id, context) && is_low(g, id, d)
            && has_expr::<Op, N, D>(g, id, context) implies got(b, id, context) by {
        if !is_low(g, id, e) {
            assert(seen(a, id, context));
        }
    }
}

/// Whether a later state has as many results, everything that was visited,
/// and the same context.
spec fn keeps<Op, N>(a: Found<Op, N>, b: Found<Op, N>) -> bool {
    &&& a.exprs.len() <= b.exprs.len()
    &&& forall|k: (usize, Seq<usize>)| #[trigger]
        a.memo.dom().contains(k) ==> b.memo.dom().contains(k)
    &&& a.context == b.context
}

proof fn lemma_class_keeps<Op, N, LA, LD, D>(
    g: EGraph<Op, D>,
    q: QueryView<N>,
    id: usize,
    st: Found<Op, N>,
    fuel: nat,
) where Op: Schedulable<N, LA, LD> + OperationInfo<N> + Teachable<N> + Identical, N: Number
    ensures
        keeps(st, extracted::<Op, N, LA, LD, D>(g, q, id, st, fuel)),
    decreases fuel, 0nat, 0nat,
{
    if !st.visited(id) && fuel > 0 {
        let start = noted(st, id, None, None);
        let len = g.class(id).nodes@.len();
        lemma_nodes_keep::<Op, N, LA, LD, D>(g, q, id, len, start, (fuel - 1) as nat);
        assert forall|k: (usize, Seq<usize>)| #[trigger]
            st.memo.dom().contains(k) implies start.memo.dom().contains(k) by {}
    }
}

proof fn lemma_nodes_keep<Op, N, LA, LD, D>(
    g: EGraph<Op, D>,
    q: QueryView<N>,
    id: usize,
    k: nat,
    st: Found<Op, N>,
    fuel: nat,
) where Op: Schedulable<N, LA, LD> + OperationInfo<N> + Teachable<N> + Identical, N: Number
    ensures
        keeps(st, nodes_tried::<Op, N, LA, LD, D>(g, q, id, k, st, fuel)),
    decreases fuel, 3nat, k,
{
    if k > 0 {
        lemma_nodes_keep::<Op, N, LA, LD, D>(g, q, id, (k - 1) as nat, st, fuel);
        let before = nodes_tried::<Op, N, LA, LD, D>(g, q, id, (k - 1) as nat, st, fuel);
        let node = g.class(id).nodes@[k - 1]@;
        lemma_node_keeps::<Op, N, LA, LD, D>(g, q, node, before, fuel);
        let (after, cand) = node_extracted::<Op, N, LA, LD, D>(g, q, node, before, fuel);
        if let Some(e) = cand {
            lemma_considered::<Op, N, LA, LD>(after, q, id, e);
        }
    }
}

proof fn lemma_node_keeps<Op, N, LA, LD, D>(
    g: EGraph<Op, D>,
    q: QueryView<N>,
    node: NodeView<Op>,
    st: Found<Op, N>,
    fuel: nat,
) where Op: Schedulable<N, LA, LD> + OperationInfo<N> + Teachable<N> + Identical, N: Number
    ensures
        keeps(st, node_extracted::<Op, N, LA, LD, D>(g, q, node, st, fuel).0),
    decreases fuel, 2nat, node.args.len() + 1,
{
    lemma_args_keep::<Op, N, LA, LD, D>(g, q, node, 0, Seq::empty(), Seq::empty(), st, fuel);
}

proof fn lemma_args_keep<Op, N, LA, LD, D>(
    g: EGraph<Op, D>,
    q: QueryView<N>,
    node: NodeView<Op>,
    cur: nat,
    partial: Seq<NodeView<Op>>,
    ids: Seq<usize>,
    st: Found<Op, N>,
    fuel: nat,
) where Op: Schedulable<N, LA, LD> + OperationInfo<N> + Teachable<N> + Identical, N: Number
    ensures
        keeps(
            st,
            args_extracted::<Op, N, LA, LD, D>(g, q, node, cur, partial, ids, st, fuel).0,
        ),
    decreases fuel, 2nat, node.args.len() - cur,
{
    if cur < node.args.len() {
        let inner = arg_context::<Op, N>(node, st.context, cur as int);
        let arg = node.args[cur as int];
        lemma_class_keeps::<Op, N, LA, LD, D>(g, q, arg, st.within(inner), fuel);
        let s = extracted::<Op, N, LA, LD, D>(g, q, arg, st.within(inner), fuel);
        if let Some(e) = s.result(arg) {
            let more = partial + shifted(e, partial.len());
            lemma_args_keep::<Op, N, LA, LD, D>(
                g,
                q,
                node,
                cur + 1,
                more,
                ids.push((more.len() - 1) as usize),
                s.within(st.context),
                fuel,
            );
        }
    }
}

proof fn lemma_noted<Op: Teachable<N> + Identical, N: Number, D>(
    g: EGraph<Op, D>,
    st: Found<Op, N>,
    id: usize,
    val: Option<Seq<NodeView<Op>>>,
    cost: Option<N>,
)
    requires
        is_site::<Op, N, D>(g, id, st.context),
        stored(st),
        st.exprs.len() < usize::MAX,
    ensures
        stored(noted(st, id, val, cost)),
        seen(noted(st, id, val, cost), id, st.context),
        got(noted(st, id, val, cost), id, st.context) == (val is Some),
        forall|i: usize, c: Seq<usize>|
            #![trigger seen(st, i, c)]
            #![trigger seen(noted(st, id, val, cost), i, c)]
            is_site::<Op, N, D>(g, i, c) && !(i == id && c == st.context) ==> {
                &&& seen(noted(st, id, val, cost), i, c) == seen(st, i, c)
                &&& got(noted(st, id, val, cost), i, c) == got(st, i, c)
            },
{
    let r = noted(st, id, val, cost);
    assert forall|i: usize, c: Seq<usize>|
        #![trigger seen(st, i, c)]
        #![trigger seen(r, i, c)]
        is_site::<Op, N, D>(g, i, c) && !(i == id && c == st.context) implies {
        &&& seen(r, i, c) == seen(st, i, c)
        &&& got(r, i, c) == got(st, i, c)
    } by {
        assert((i, c) != st.key(id));
    }
}

proof fn lemma_candidate_found<Op, N, LA, LD, D>(
    g: EGraph<Op, D>,
    q: QueryView<N>,
    id: usize,
    st: Found<Op, N>,
    cand: Seq<NodeView<Op>>,
    d: nat,
) where Op: Schedulable<N, LA, LD> + OperationInfo<N> + Teachable<N> + Identical, N: Number
    requires
        is_site::<Op, N, D>(g, id, st.context),
        stored(st),
        seen(st, id, st.context),
        complete_to::<Op, N, D>(g, st, d),
        considered::<Op, N, LA, LD>(st, q, id, cand).exprs.len() <= usize::MAX,
    ensures
        stored(considered::<Op, N, LA, LD>(st, q, id, cand)),
        grows::<Op, N, D>(g, st, considered::<Op, N, LA, LD>(st, q, id, cand), d),
        complete_to::<Op, N, D>(g, considered::<Op, N, LA, LD>(st, q, id, cand), d),
        got(considered::<Op, N, LA, LD>(st, q, id, cand), id, st.context),
{
    let r = considered::<Op, N, LA, LD>(st, q, id, cand);
    let cost = cycles_of::<Op, N, LA, LD>(cand, q);
    assert forall|i: usize, c: Seq<usize>|
        #![trigger seen(st, i, c)]
        #![trigger seen(r, i, c)]
        is_site::<Op, N, D>(g, i, c) implies {
        &&& seen(r, i, c) == seen(st, i, c)
        &&& got(st, i, c) ==> got(r, i, c)
    } by {
        match st.result(id) {
            None => {
                lemma_noted::<Op, N, D>(g, st, id, Some(cand), Some(cost));
                assert(seen(st, i, c) || !seen(st, i, c));
            },
            Some(_) => {
                let s = Found { costs: r.costs.take(st.costs.len() as int), ..st };
                if r.exprs.len() > st.exprs.len() {
                    assert(r.memo == noted(s, id, Some(cand), Some(cost)).memo);
                    lemma_noted::<Op, N, D>(g, s, id, Some(cand), Some(cost));
                    assert(seen(s, i, c) == seen(st, i, c));
                }
            },
        }
    }
}

proof fn lemma_class_found<Op, N, LA, LD, D>(
    g: EGraph<Op, D>,
    q: QueryView<N>,
    id: usize,
    st: Found<Op, N>,
    fuel: nat,
) where Op: Schedulable<N, LA, LD> + OperationInfo<N> + Teachable<N> + Identical, N: Number
    requires
        g.wf(),
        is_site::<Op, N, D>(g, id, st.context),
        acyclic_below(g, id),
        stored(st),
        complete_to::<Op, N, D>(g, st, depth(g, id) + 1),
        depth_left::<Op, N, D>(g, st) < fuel,
        extracted::<Op, N, LA, LD, D>(g, q, id, st, fuel).exprs.len() <= usize::MAX,
    ensures
        stored(extracted::<Op, N, LA, LD, D>(g, q, id, st, fuel)),
        seen(extracted::<Op, N, LA, LD, D>(g, q, id, st, fuel), id, st.context),
        grows::<Op, N, D>(
            g,
            st,
            extracted::<Op, N, LA, LD, D>(g, q, id, st, fuel),
            depth(g, id) + 1,
        ),
        complete_to::<Op, N, D>(
            g,
            extracted::<Op, N, LA, LD, D>(g, q, id, st, fuel),
            depth(g, id) + 1,
        ),
    decreases fuel, 0nat, 0nat,
{
    let d = depth(g, id);
    let context = st.context;
    let r = extracted::<Op, N, LA, LD, D>(g, q, id, st, fuel);
    if st.visited(id) {
        assert(seen(st, id, context));
    } else {
        let start = noted(st, id, None, None);
        let len = g.class(id).nodes@.len();
        lemma_depth_left::<Op, N, D>(g, st, start);
        assert(start.visited(id));
        lemma_nodes_keep::<Op, N, LA, LD, D>(g, q, id, len, start, (fuel - 1) as nat);
        lemma_noted::<Op, N, D>(g, st, id, None, None);
        assert(!seen(st, id, context));
        assert(complete_to::<Op, N, D>(g, start, d));
        lemma_nodes_found::<Op, N, LA, LD, D>(g, q, id, len, start, (fuel - 1) as nat);
        assert forall|i: usize, c: Seq<usize>|
            #![trigger seen(st, i, c)]
            #![trigger seen(r, i, c)]
            is_site::<Op, N, D>(g, i, c) implies {
            &&& seen(st, i, c) ==> seen(r, i, c)
            &&& got(st, i, c) ==> got(r, i, c)
            &&& seen(r, i, c) && !is_low(g, i, d + 1) ==> seen(st, i, c)
        } by {
            assert(seen(start, i, c) || !seen(start, i, c));
        }
        assert forall|i: usize, c: Seq<usize>| #[trigger]
            seen(r, i, c) && is_site::<Op, N, D>(g, i, c) && is_low(g, i, d + 1) && has_expr::<
                Op,
                N,
                D,
            >(g, i, c) implies got(r, i, c) by {
            if i == id && c == context {
                let n = lemma_some_node_has::<Op, N, D>(g, id, context);
                assert(node_has::<Op, N, D>(g, g.class(id).nodes@[n]@, context));
            } else if !is_low(g, i, d) {
                assert(seen(start, i, c));
                assert(seen(st, i, c));
            }
        }
    }
}

proof fn lemma_nodes_found<Op, N, LA, LD, D>(
    g: EGraph<Op, D>,
    q: QueryView<N>,
    id: usize,
    k: nat,
    st: Found<Op, N>,
    fuel: nat,
) where Op: Schedulable<N, LA, LD> + OperationInfo<N> + Teachable<N> + Identical, N: Number
    requires
        g.wf(),
        is_site::<Op, N, D>(g, id, st.context),
        acyclic_below(g, id),
        k <= g.class(id).nodes@.len(),
        stored(st),
        seen(st, id, st.context),
        complete_to::<Op, N, D>(g, st, depth(g, id)),
        depth_left::<Op, N, D>(g, st) < fuel,
        nodes_tried::<Op, N, LA, LD, D>(g, q, id, k, st, fuel).exprs.len() <= usize::MAX,
    ensures
        stored(nodes_tried::<Op, N, LA, LD, D>(g, q, id, k, st, fuel)),
        grows::<Op, N, D>(
            g,
            st,
            nodes_tried::<Op, N, LA, LD, D>(g, q, id, k, st, fuel),
            depth(g, id),
        ),
        complete_to::<Op, N, D>(
            g,
            nodes_tried::<Op, N, LA, LD, D>(g, q, id, k, st, fuel),
            depth(g, id),
        ),
        forall|n: int|
            0 <= n < k && node_has::<Op, N, D>(g, (#[trigger] g.class(id).nodes@[n])@, st.context)
                ==> got(nodes_tried::<Op, N, LA, LD, D>(g, q, id, k, st, fuel), id, st.context),
    decreases fuel, 3nat, k,
{
    if k > 0 {
        let d = depth(g, id);
        let j = (k - 1) as nat;
        let before = nodes_tried::<Op, N, LA, LD, D>(g, q, id, j, st, fuel);
        let node = g.class(id).nodes@[k - 1]@;
        let (after, cand) = node_extracted::<Op, N, LA, LD, D>(g, q, node, before, fuel);
        let r = nodes_tried::<Op, N, LA, LD, D>(g, q, id, k, st, fuel);
        lemma_nodes_keep::<Op, N, LA, LD, D>(g, q, id, j, st, fuel);
        lemma_node_keeps::<Op, N, LA, LD, D>(g, q, node, before, fuel);
        if let Some(e) = cand {
            lemma_considered::<Op, N, LA, LD>(after, q, id, e);
        }
        lemma_nodes_found::<Op, N, LA, LD, D>(g, q, id, j, st, fuel);
        lemma_depth_left::<Op, N, D>(g, st, before);
        lemma_node_found::<Op, N, LA, LD, D>(g, q, id, k - 1, before, fuel);
        lemma_grows_on::<Op, N, D>(g, st, before, after, d);
        assert(seen(after, id, st.context)) by {
            assert(seen(before, id, st.context));
        }
        if let Some(e) = cand {
            lemma_candidate_found::<Op, N, LA, LD, D>(g, q, id, after, e, d);
            lemma_grows_on::<Op, N, D>(g, st, after, r, d);
        }
        assert forall|n: int|
            0 <= n < k && node_has::<Op, N, D>(
                g,
                (#[trigger] g.class(id).nodes@[n])@,
                st.context,
            ) implies got(r, id, st.context) by {
            if n < k - 1 {
                assert(got(before, id, st.context));
                assert(got(after, id, st.context));
                assert(seen(r, id, st.context) || !seen(r, id, st.context));
            }
        }
    }
}

proof fn lemma_node_found<Op, N, LA, LD, D>(
    g: EGraph<Op, D>,
    q: QueryView<N>,
    id: usize,
    n: int,
    st: Found<Op, N>,
    fuel: nat,
) where Op: Schedulable<N, LA, LD> + OperationInfo<N> + Teachable<N> + Identical, N: Number
    requires
        g.wf(),
        is_site::<Op, N, D>(g, id, st.context),
        acyclic_below(g, id),
        0 <= n < g.class(id).nodes@.len(),
        stored(st),
        complete_to::<Op, N, D>(g, st, depth(g, id)),
        depth_left::<Op, N, D>(g, st) < fuel,
        node_extracted::<Op, N, LA, LD, D>(
            g,
            q,
            g.class(id).nodes@[n]@,
            st,
            fuel,
        ).0.exprs.len() <= usize::MAX,
    ensures
        ({
            let node = g.class(id).nodes@[n]@;
            let (r, cand) = node_extracted::<Op, N, LA, LD, D>(g, q, node, st, fuel);
            &&& stored(r)
            &&& grows::<Op, N, D>(g, st, r, depth(g, id))
            &&& complete_to::<Op, N, D>(g, r, depth(g, id))
            &&& node_has::<Op, N, D>(g, node, st.context) ==> cand is Some
        }),
    decreases fuel, 2nat, g.class(id).nodes@[n]@.args.len() + 1,
{
    let node = g.class(id).nodes@[n]@;
    let blocked = match defined_lib::<Op, N>(node) {
        Some(lib) => st.context.contains(lib),
        None => false,
    };
    if !blocked {
        lemma_args_found::<Op, N, LA, LD, D>(
            g,
            q,
            id,
            n,
            0,
            Seq::empty(),
            Seq::empty(),
            st,
            fuel,
        );
    }
}

proof fn lemma_args_found<Op, N, LA, LD, D>(
    g: EGraph<Op, D>,
    q: QueryView<N>,
    id: usize,
    n: int,
    cur: nat,
    partial: Seq<NodeView<Op>>,
    ids: Seq<usize>,
    st: Found<Op, N>,
    fuel: nat,
) where Op: Schedulable<N, LA, LD> + OperationInfo<N> + Teachable<N> + Identical, N: Number
    requires
        g.wf(),
        is_site::<Op, N, D>(g, id, st.context),
        acyclic_below(g, id),
        0 <= n < g.class(id).nodes@.len(),
        cur <= g.class(id).nodes@[n]@.args.len(),
        match defined_lib::<Op, N>(g.class(id).nodes@[n]@) {
            Some(lib) => !st.context.contains(lib),
            None => true,
        },
        stored(st),
        complete_to::<Op, N, D>(g, st, depth(g, id)),
        depth_left::<Op, N, D>(g, st) < fuel,
        args_extracted::<Op, N, LA, LD, D>(
            g,
            q,
            g.class(id).nodes@[n]@,
            cur,
            partial,
            ids,
            st,
            fuel,
        ).0.exprs.len() <= usize::MAX,
    ensures
        ({
            let node = g.class(id).nodes@[n]@;
            let (r, cand) = args_extracted::<Op, N, LA, LD, D>(
                g,
                q,
                node,
                cur,
                partial,
                ids,
                st,
                fuel,
            );
            &&& stored(r)
            &&& grows::<Op, N, D>(g, st, r, depth(g, id))
            &&& complete_to::<Op, N, D>(g, r, depth(g, id))
            &&& node_has::<Op, N, D>(g, node, st.context) ==> cand is Some
        }),
    decreases fuel, 2nat, g.class(id).nodes@[n]@.args.len() - cur,
{
    let d = depth(g, id);
    let node = g.class(id).nodes@[n]@;
    if cur < node.args.len() {
        let arg = node.args[cur as int];
        let inner = arg_context::<Op, N>(node, st.context, cur as int);
        let from = st.within(inner);
        let s = extracted::<Op, N, LA, LD, D>(g, q, arg, from, fuel);
        let back = s.within(st.context);
        lemma_class_keeps::<Op, N, LA, LD, D>(g, q, arg, from, fuel);
        lemma_arg_is_lower(g, id, n, cur as int);
        assert(g.args_valid(node));
        lemma_inner_context::<Op, N, D>(g, node, st.context, cur as int);
        lemma_same_sites(st, from);
        lemma_same_sites(s, back);
        assert(depth_left::<Op, N, D>(g, from) <= depth_left::<Op, N, D>(g, st)) by {
            if let Some(lib) = defined_lib::<Op, N>(node) {
                lemma_inner_depth::<Op, N, D>(g, st, lib);
            }
            if inner == st.context {
                assert(from =~= st);
            }
        }
        assert(from.memo == st.memo && s.memo == back.memo);
        lemma_depth_left::<Op, N, D>(g, st, back);
        let more = match s.result(arg) {
            Some(e) => partial + shifted(e, partial.len()),
            None => partial,
        };
        let next = ids.push((more.len() - 1) as usize);
        if s.result(arg) is Some {
            lemma_args_keep::<Op, N, LA, LD, D>(g, q, node, cur + 1, more, next, back, fuel);
        }
        lemma_class_found::<Op, N, LA, LD, D>(g, q, arg, from, fuel);
        lemma_stays_complete::<Op, N, D>(g, from, s, depth(g, arg) + 1, d);
        assert(grows::<Op, N, D>(g, st, back, d));
        assert(complete_to::<Op, N, D>(g, back, d));
        if s.result(arg) is Some {
            lemma_args_found::<Op, N, LA, LD, D>(
                g,
                q,
                id,
                n,
                cur + 1,
                more,
                next,
                back,
                fuel,
            );
            let r = args_extracted::<Op, N, LA, LD, D>(
                g,
                q,
                node,
                cur + 1,
                more,
                next,
                back,
                fuel,
            ).0;
            lemma_grows_on::<Op, N, D>(g, st, back, r, d);
        } else if node_has::<Op, N, D>(g, node, st.context) {
            assert(has_expr::<Op, N, D>(g, arg, inner));
            assert(got(s, arg, inner));
        }
    }
}

proof fn lemma_same_sites<Op, N>(a: Found<Op, N>, b: Found<Op, N>)
    requires
        a.memo == b.memo,
        a.exprs == b.exprs,
    ensures
        forall|id: usize, context: Seq<usize>|
            #![trigger seen(a, id, context)]
            #![trigger seen(b, id, context)]
            seen(a, id, context) == seen(b, id, context) && got(a, id, context) == got(
                b,
                id,
                context,
            ),
{
}

pub(crate) proof fn lemma_extraction_is_complete<Op, N, LA, LD, D>(
    g: EGraph<Op, D>,
    q: QueryView<N>,
    id: usize,
    st: Found<Op, N>,
) where Op: Schedulable<N, LA, LD> + OperationInfo<N> + Teachable<N> + Identical, N: Number
    requires
        g.wf(),
        is_site::<Op, N, D>(g, id, st.context),
        acyclic_below(g, id),
        forall|k: (usize, Seq<usize>)| #[trigger] st.memo.dom().contains(k) ==> st.memo[k] < st.exprs.len(),
        complete::<Op, N, D>(g, st),
        extraction::<Op, N, LA, LD, D>(g, q, id, st).exprs.len() <= usize::MAX,
    ensures
        complete::<Op, N, D>(g, extraction::<Op, N, LA, LD, D>(g, q, id, st)),
        has_expr::<Op, N, D>(g, id, st.context) ==> extraction::<Op, N, LA, LD, D>(
            g,
            q,
            id,
            st,
        ).result(id) is Some,
{
    let r = extraction::<Op, N, LA, LD, D>(g, q, id, st);
    let d = depth(g, id) + 1;
    lemma_class_found::<Op, N, LA, LD, D>(g, q, id, st, depth_left::<Op, N, D>(g, st) + 1);
    lemma_class_keeps::<Op, N, LA, LD, D>(g, q, id, st, depth_left::<Op, N, D>(g, st) + 1);
    assert forall|i: usize, c: Seq<usize>| #[trigger]
        seen(r, i, c) && is_site::<Op, N, D>(g, i, c) && acyclic_below(g, i) && has_expr::<
            Op,
            N,
            D,
        >(g, i, c) implies got(r, i, c) by {
        if !is_low(g, i, d) {
            assert(seen(st, i, c));
        }
    }
}

/// Whether everything that was noted stays as it is.
spec fn leaves<Op, N>(a: Found<Op, N>, b: Found<Op, N>) -> bool {
    &&& forall|k: (usize, Seq<usize>)| #[trigger]
        a.memo.dom().contains(k) ==> b.memo.dom().contains(k) && b.memo[k] == a.memo[k]
    &&& leaves_to(a, b, a.exprs.len())
}

/// Whether the first `base` results and their costs stay as they are.
spec fn leaves_to<Op, N>(a: Found<Op, N>, b: Found<Op, N>, base: nat) -> bool {
    &&& base <= a.exprs.len() <= b.exprs.len()
    &&& forall|i: int| 0 <= i < base ==> #[trigger] b.exprs[i] == a.exprs[i]
    &&& forall|i: int| 0 <= i < base ==> #[trigger] b.costs[i] == a.costs[i]
}

/// Whether the results stand where the memo says, each with a place for its
/// cost.
spec fn is_even<Op, N>(st: Found<Op, N>) -> bool {
    stored(st) && st.costs.len() == st.exprs.len()
}

/// Whether at most the class `id` is noted anew, among what comes after the
/// first `base` results.
spec fn leaves_but<Op, N>(a: Found<Op, N>, b: Found<Op, N>, id: usize, base: nat) -> bool {
    &&& forall|k: (usize, Seq<usize>)| #[trigger]
        a.memo.dom().contains(k) ==> b.memo.dom().contains(k) && (k != a.key(id) ==> b.memo[k]
            == a.memo[k])
    &&& b.visited(id)
    &&& base <= b.memo[b.key(id)]
    &&& leaves_to(a, b, base)
}

proof fn lemma_candidate_leaves<Op, N, LA, LD>(
    st: Found<Op, N>,
    q: QueryView<N>,
    id: usize,
    cand: Seq<NodeView<Op>>,
    base: nat,
) where Op: Schedulable<N, LA, LD> + OperationInfo<N> + Teachable<N> + Identical, N: Number
    requires
        is_even(st),
        st.visited(id),
        base <= st.memo[st.key(id)],
        considered::<Op, N, LA, LD>(st, q, id, cand).exprs.len() <= usize::MAX,
    ensures
        is_even(considered::<Op, N, LA, LD>(st, q, id, cand)),
        leaves_but(st, considered::<Op, N, LA, LD>(st, q, id, cand), id, base),
{
}

proof fn lemma_class_leaves<Op, N, LA, LD, D>(
    g: EGraph<Op, D>,
    q: QueryView<N>,
    id: usize,
    st: Found<Op, N>,
    fuel: nat,
) where Op: Schedulable<N, LA, LD> + OperationInfo<N> + Teachable<N> + Identical, N: Number
    requires
        is_even(st),
        extracted::<Op, N, LA, LD, D>(g, q, id, st, fuel).exprs.len() <= usize::MAX,
    ensures
        is_even(extracted::<Op, N, LA, LD, D>(g, q, id, st, fuel)),
        leaves(st, extracted::<Op, N, LA, LD, D>(g, q, id, st, fuel)),
    decreases fuel, 0nat, 0nat,
{
    if !st.visited(id) && fuel > 0 {
        let start = noted(st, id, None, None);
        let len = g.class(id).nodes@.len();
        let base = st.exprs.len();
        lemma_nodes_keep::<Op, N, LA, LD, D>(g, q, id, len, start, (fuel - 1) as nat);
        lemma_nodes_leave::<Op, N, LA, LD, D>(g, q, id, len, start, (fuel - 1) as nat, base);
        let r = extracted::<Op, N, LA, LD, D>(g, q, id, st, fuel);
        assert forall|k: (usize, Seq<usize>)| #[trigger] st.memo.dom().contains(k) implies r.memo.dom().contains(k)
            && r.memo[k] == st.memo[k] by {
            assert(start.memo.dom().contains(k));
        }
    }
}

proof fn lemma_nodes_leave<Op, N, LA, LD, D>(
    g: EGraph<Op, D>,
    q: QueryView<N>,
    id: usize,
    k: nat,
    st: Found<Op, N>,
    fuel: nat,
    base: nat,
) where Op: Schedulable<N, LA, LD> + OperationInfo<N> + Teachable<N> + Identical, N: Number
    requires
        is_even(st),
        st.visited(id),
        base <= st.memo[st.key(id)],
        nodes_tried::<Op, N, LA, LD, D>(g, q, id, k, st, fuel).exprs.len() <= usize::MAX,
    ensures
        is_even(nodes_tried::<Op, N, LA, LD, D>(g, q, id, k, st, fuel)),
        leaves_but(st, nodes_tried::<Op, N, LA, LD, D>(g, q, id, k, st, fuel), id, base),
    decreases fuel, 3nat, k,
{
    if k > 0 {
        let j = (k - 1) as nat;
        let before = nodes_tried::<Op, N, LA, LD, D>(g, q, id, j, st, fuel);
        let node = g.class(id).nodes@[k - 1]@;
        let (after, cand) = node_extracted::<Op, N, LA, LD, D>(g, q, node, before, fuel);
        lemma_nodes_keep::<Op, N, LA, LD, D>(g, q, id, j, st, fuel);
        lemma_node_keeps::<Op, N, LA, LD, D>(g, q, node, before, fuel);
        if let Some(e) = cand {
            lemma_considered::<Op, N, LA, LD>(after, q, id, e);
        }
        lemma_nodes_leave::<Op, N, LA, LD, D>(g, q, id, j, st, fuel, base);
        lemma_node_leaves::<Op, N, LA, LD, D>(g, q, node, before, fuel);
        assert(before.memo.dom().contains(st.key(id)));
        assert(leaves_but(st, after, id, base));
        if let Some(e) = cand {
            lemma_candidate_leaves::<Op, N, LA, LD>(after, q, id, e, base);
        }
    }
}

proof fn lemma_node_leaves<Op, N, LA, LD, D>(
    g: EGraph<Op, D>,
    q: QueryView<N>,
    node: NodeView<Op>,
    st: Found<Op, N>,
    fuel: nat,
) where Op: Schedulable<N, LA, LD> + OperationInfo<N> + Teachable<N> + Identical, N: Number
    requires
        is_even(st),
        node_extracted::<Op, N, LA, LD, D>(g, q, node, st, fuel).0.exprs.len() <= usize::MAX,
    ensures
        is_even(node_extracted::<Op, N, LA, LD, D>(g, q, node, st, fuel).0),
        leaves(st, node_extracted::<Op, N, LA, LD, D>(g, q, node, st, fuel).0),
    decreases fuel, 2nat, node.args.len() + 1,
{
    let blocked = match defined_lib::<Op, N>(node) {
        Some(lib) => st.context.contains(lib),
        None => false,
    };
    if !blocked {
        lemma_args_leave::<Op, N, LA, LD, D>(g, q, node, 0, Seq::empty(), Seq::empty(), st, fuel);
    }
}

proof fn lemma_args_leave<Op, N, LA, LD, D>(
    g: EGraph<Op, D>,
    q: QueryView<N>,
    node: NodeView<Op>,
    cur: nat,
    partial: Seq<NodeView<Op>>,
    ids: Seq<usize>,
    st: Found<Op, N>,
    fuel: nat,
) where Op: Schedulable<N, LA, LD> + OperationInfo<N> + Teachable<N> + Identical, N: Number
    requires
        is_even(st),
        args_extracted::<Op, N, LA, LD, D>(
            g,
            q,
            node,
            cur,
            partial,
            ids,
            st,
            fuel,
        ).0.exprs.len() <= usize::MAX,
    ensures
        is_even(args_extracted::<Op, N, LA, LD, D>(g, q, node, cur, partial, ids, st, fuel).0),
        leaves(st, args_extracted::<Op, N, LA, LD, D>(g, q, node, cur, partial, ids, st, fuel).0),
    decreases fuel, 2nat, node.args.len() - cur,
{
    if cur < node.args.len() {
        let inner = arg_context::<Op, N>(node, st.context, cur as int);
        let arg = node.args[cur as int];
        let from = st.within(inner);
        let s = extracted::<Op, N, LA, LD, D>(g, q, arg, from, fuel);
        let back = s.within(st.context);
        let more = match s.result(arg) {
            Some(e) => partial + shifted(e, partial.len()),
            None => partial,
        };
        let next = ids.push((more.len() - 1) as usize);
        if s.result(arg) is Some {
            lemma_args_keep::<Op, N, LA, LD, D>(g, q, node, cur + 1, more, next, back, fuel);
        }
        lemma_class_leaves::<Op, N, LA, LD, D>(g, q, arg, from, fuel);
        assert(leaves(st, back)) by {
            assert forall|k: (usize, Seq<usize>)| #[trigger] st.memo.dom().contains(k) implies back.memo.dom().contains(
                k,
            ) && back.memo[k] == st.memo[k] by {
                assert(from.memo.dom().contains(k));
            }
        }
        if s.result(arg) is Some {
            lemma_args_leave::<Op, N, LA, LD, D>(
                g,
                q,
                node,
                cur + 1,
                more,
                next,
                back,
                fuel,
            );
        }
    }
}

/// The candidate that the node `n` gives when the nodes of a class are tried.
pub open spec fn candidate<Op, N, LA, LD, D>(
    g: EGraph<Op, D>,
    q: QueryView<N>,
    id: usize,
    n: int,
    st: Found<Op, N>,
    fuel: nat,
) -> Option<Seq<NodeView<Op>>> where
    Op: Schedulable<N, LA, LD> + OperationInfo<N> + Teachable<N> + Identical,
    N: Number,
 {
    node_extracted::<Op, N, LA, LD, D>(
        g,
        q,
        g.class(id).nodes@[n]@,
        nodes_tried::<Op, N, LA, LD, D>(g, q, id, n as nat, st, fuel),
        fuel,
    ).1
}

/// Whether the node `m` gives the cheapest candidate among the first `k`, and
/// none behind it gives one that costs no more.
pub open spec fn is_cheapest<Op, N, LA, LD, D>(
    g: EGraph<Op, D>,
    q: QueryView<N>,
    id: usize,
    k: nat,
    st: Found<Op, N>,
    fuel: nat,
    m: int,
) -> bool where
    Op: Schedulable<N, LA, LD> + OperationInfo<N> + Teachable<N> + Identical,
    N: Number,
 {
    &&& 0 <= m < k
    &&& candidate::<Op, N, LA, LD, D>(g, q, id, m, st, fuel) is Some
    &&& forall|n: int|
        0 <= n < k && (#[trigger] candidate::<Op, N, LA, LD, D>(g, q, id, n, st, fuel)) is Some
            ==> cycles_of::<Op, N, LA, LD>(
            candidate::<Op, N, LA, LD, D>(g, q, id, m, st, fuel)->0,
            q,
        ).s_le(
            cycles_of::<Op, N, LA, LD>(
                candidate::<Op, N, LA, LD, D>(g, q, id, n, st, fuel)->0,
                q,
            ),
        )
    &&& forall|n: int|
        m < n < k && (#[trigger] candidate::<Op, N, LA, LD, D>(g, q, id, n, st, fuel)) is Some
            ==> !cycles_of::<Op, N, LA, LD>(
            candidate::<Op, N, LA, LD, D>(g, q, id, n, st, fuel)->0,
            q,
        ).s_le(
            cycles_of::<Op, N, LA, LD>(
                candidate::<Op, N, LA, LD, D>(g, q, id, m, st, fuel)->0,
                q,
            ),
        )
}

/// The cost that is noted for a class in the current context.
pub open spec fn noted_cost<Op, N>(st: Found<Op, N>, id: usize) -> Option<N> {
    st.costs[st.memo[st.key(id)] as int]
}

proof fn lemma_candidate_kept<Op, N, LA, LD>(
    st: Found<Op, N>,
    q: QueryView<N>,
    id: usize,
    cand: Seq<NodeView<Op>>,
) where Op: Schedulable<N, LA, LD> + OperationInfo<N> + Teachable<N> + Identical, N: Number
    requires
        is_even(st),
        st.visited(id),
        considered::<Op, N, LA, LD>(st, q, id, cand).exprs.len() <= usize::MAX,
    ensures
        ({
            let r = considered::<Op, N, LA, LD>(st, q, id, cand);
            let cost = cycles_of::<Op, N, LA, LD>(cand, q);
            let stays = st.result(id) is Some && noted_cost(st, id) is Some && ranks_before(
                noted_cost(st, id)->0,
                cost,
            );
            &&& r.visited(id)
            &&& stays ==> r.result(id) == st.result(id) && noted_cost(r, id) == noted_cost(st, id)
            &&& !stays && (st.result(id) is Some ==> noted_cost(st, id) is Some) ==> r.result(id)
                == Some(shared(cand)) && noted_cost(r, id) == Some(cost)
        }),
{
}

proof fn lemma_cheapest_of_more<Op, N, LA, LD, D>(
    g: EGraph<Op, D>,
    q: QueryView<N>,
    id: usize,
    k: nat,
    st: Found<Op, N>,
    fuel: nat,
    m: int,
) where Op: Schedulable<N, LA, LD> + OperationInfo<N> + Teachable<N> + Identical, N: Number
    requires
        is_cheapest::<Op, N, LA, LD, D>(g, q, id, k, st, fuel, m),
        candidate::<Op, N, LA, LD, D>(g, q, id, k as int, st, fuel) is Some,
    ensures
        ({
            let old_cost = cycles_of::<Op, N, LA, LD>(
                candidate::<Op, N, LA, LD, D>(g, q, id, m, st, fuel)->0,
                q,
            );
            let new_cost = cycles_of::<Op, N, LA, LD>(
                candidate::<Op, N, LA, LD, D>(g, q, id, k as int, st, fuel)->0,
                q,
            );
            is_cheapest::<Op, N, LA, LD, D>(
                g,
                q,
                id,
                k + 1,
                st,
                fuel,
                if ranks_before(old_cost, new_cost) {
                    m
                } else {
                    k as int
                },
            )
        }),
{
    let best = cycles_of::<Op, N, LA, LD>(
        candidate::<Op, N, LA, LD, D>(g, q, id, m, st, fuel)->0,
        q,
    );
    let cost = cycles_of::<Op, N, LA, LD>(
        candidate::<Op, N, LA, LD, D>(g, q, id, k as int, st, fuel)->0,
        q,
    );
    N::le_total(best, cost);
    N::le_total(cost, cost);
    if !ranks_before(best, cost) {
        assert forall|n: int|
            0 <= n < k + 1 && (#[trigger] candidate::<Op, N, LA, LD, D>(
                g,
                q,
                id,
                n,
                st,
                fuel,
            )) is Some implies cost.s_le(
            cycles_of::<Op, N, LA, LD>(
                candidate::<Op, N, LA, LD, D>(g, q, id, n, st, fuel)->0,
                q,
            ),
        ) by {
            if n < k {
                let c = cycles_of::<Op, N, LA, LD>(
                    candidate::<Op, N, LA, LD, D>(g, q, id, n, st, fuel)->0,
                    q,
                );
                N::le_transitive(cost, best, c);
            }
        }
    }
}

/// Whether what the state holds of a class is the candidate of the node `m`,
/// the cheapest among the first `k`; where `m` is negative, that it holds
/// nothing and no node gave a candidate.
spec fn holds_cheapest<Op, N, LA, LD, D>(
    g: EGraph<Op, D>,
    q: QueryView<N>,
    id: usize,
    k: nat,
    st: Found<Op, N>,
    fuel: nat,
    m: int,
    r: Found<Op, N>,
) -> bool where
    Op: Schedulable<N, LA, LD> + OperationInfo<N> + Teachable<N> + Identical,
    N: Number,
 {
    let e = candidate::<Op, N, LA, LD, D>(g, q, id, m, st, fuel)->0;
    &&& r.visited(id)
    &&& m < 0 ==> r.result(id) is None && forall|n: int|
        0 <= n < k ==> (#[trigger] candidate::<Op, N, LA, LD, D>(g, q, id, n, st, fuel)) is None
    &&& m >= 0 ==> {
        &&& is_cheapest::<Op, N, LA, LD, D>(g, q, id, k, st, fuel, m)
        &&& r.result(id) == Some(shared(e))
        &&& noted_cost(r, id) == Some(cycles_of::<Op, N, LA, LD>(e, q))
    }
}

proof fn lemma_nodes_cheapest<Op, N, LA, LD, D>(
    g: EGraph<Op, D>,
    q: QueryView<N>,
    id: usize,
    k: nat,
    st: Found<Op, N>,
    fuel: nat,
) -> (m: int) where
    Op: Schedulable<N, LA, LD> + OperationInfo<N> + Teachable<N> + Identical,
    N: Number,

    requires
        is_even(st),
        st.visited(id),
        st.result(id) is None,
        nodes_tried::<Op, N, LA, LD, D>(g, q, id, k, st, fuel).exprs.len() <= usize::MAX,
    ensures
        holds_cheapest::<Op, N, LA, LD, D>(
            g,
            q,
            id,
            k,
            st,
            fuel,
            m,
            nodes_tried::<Op, N, LA, LD, D>(g, q, id, k, st, fuel),
        ),
    decreases k,
{
    if k == 0 {
        -1
    } else {
        let j = (k - 1) as nat;
        let before = nodes_tried::<Op, N, LA, LD, D>(g, q, id, j, st, fuel);
        let node = g.class(id).nodes@[k - 1]@;
        let (after, cand) = node_extracted::<Op, N, LA, LD, D>(g, q, node, before, fuel);
        lemma_nodes_keep::<Op, N, LA, LD, D>(g, q, id, j, st, fuel);
        lemma_node_keeps::<Op, N, LA, LD, D>(g, q, node, before, fuel);
        if let Some(e) = cand {
            lemma_considered::<Op, N, LA, LD>(after, q, id, e);
        }
        let m = lemma_nodes_cheapest::<Op, N, LA, LD, D>(g, q, id, j, st, fuel);
        lemma_nodes_leave::<Op, N, LA, LD, D>(g, q, id, j, st, fuel, 0);
        lemma_node_leaves::<Op, N, LA, LD, D>(g, q, node, before, fuel);
        assert(holds_cheapest::<Op, N, LA, LD, D>(g, q, id, j, st, fuel, m, after)) by {
            let at = before.memo[before.key(id)] as int;
            assert(before.memo.dom().contains(before.key(id)));
            assert(after.memo[after.key(id)] == at);
            assert(after.exprs[at] == before.exprs[at]);
            assert(after.costs[at] == before.costs[at]);
        }
        lemma_one_more_cheapest::<Op, N, LA, LD, D>(g, q, id, j, st, fuel, m, after)
    }
}

proof fn lemma_one_more_cheapest<Op, N, LA, LD, D>(
    g: EGraph<Op, D>,
    q: QueryView<N>,
    id: usize,
    k: nat,
    st: Found<Op, N>,
    fuel: nat,
    m: int,
    after: Found<Op, N>,
) -> (r: int) where
    Op: Schedulable<N, LA, LD> + OperationInfo<N> + Teachable<N> + Identical,
    N: Number,

    requires
        is_even(after),
        holds_cheapest::<Op, N, LA, LD, D>(g, q, id, k, st, fuel, m, after),
        after == node_extracted::<Op, N, LA, LD, D>(
            g,
            q,
            g.class(id).nodes@[k as int]@,
            nodes_tried::<Op, N, LA, LD, D>(g, q, id, k, st, fuel),
            fuel,
        ).0,
        nodes_tried::<Op, N, LA, LD, D>(g, q, id, k + 1, st, fuel).exprs.len() <= usize::MAX,
    ensures
        holds_cheapest::<Op, N, LA, LD, D>(
            g,
            q,
            id,
            k + 1,
            st,
            fuel,
            r,
            nodes_tried::<Op, N, LA, LD, D>(g, q, id, k + 1, st, fuel),
        ),
{
    match candidate::<Op, N, LA, LD, D>(g, q, id, k as int, st, fuel) {
        None => {
            m
        },
        Some(e) => {
            let cost = cycles_of::<Op, N, LA, LD>(e, q);
            lemma_candidate_kept::<Op, N, LA, LD>(after, q, id, e);
            N::le_total(cost, cost);
            if m < 0 {
                k as int
            } else {
                lemma_cheapest_of_more::<Op, N, LA, LD, D>(g, q, id, k, st, fuel, m);
                let best = candidate::<Op, N, LA, LD, D>(g, q, id, m, st, fuel)->0;
                if ranks_before(cycles_of::<Op, N, LA, LD>(best, q), cost) {
                    m
                } else {
                    k as int
                }
            }
        },
    }
}

/// What is found for a class that was not visited yet is the cheapest of the
/// candidates that its nodes give, the last of those that cost the same, with
/// equal parts made one, and the cost of that candidate is noted with it. Nothing is found exactly if no node gives a
/// candidate.
pub proof fn law_cheapest_candidate_is_found<Op, N, LA, LD, D>(
    g: EGraph<Op, D>,
    q: QueryView<N>,
    id: usize,
    st: Found<Op, N>,
) where Op: Schedulable<N, LA, LD> + OperationInfo<N> + Teachable<N> + Identical, N: Number
    requires
        forall|k: (usize, Seq<usize>)| #[trigger] st.memo.dom().contains(k) ==> st.memo[k] < st.exprs.len(),
        st.costs.len() == st.exprs.len(),
        !st.visited(id),
        extraction::<Op, N, LA, LD, D>(g, q, id, st).exprs.len() <= usize::MAX,
    ensures
        ({
            let r = extraction::<Op, N, LA, LD, D>(g, q, id, st);
            let start = noted(st, id, None, None);
            let len = g.class(id).nodes@.len();
            let fuel = depth_left::<Op, N, D>(g, st);
            match r.result(id) {
                Some(found) => exists|m: int|
                    {
                        let e = candidate::<Op, N, LA, LD, D>(g, q, id, m, start, fuel)->0;
                        &&& #[trigger] is_cheapest::<Op, N, LA, LD, D>(
                            g,
                            q,
                            id,
                            len,
                            start,
                            fuel,
                            m,
                        )
                        &&& found == shared(e)
                        &&& noted_cost(r, id) == Some(cycles_of::<Op, N, LA, LD>(e, q))
                    },
                None => forall|n: int|
                    0 <= n < len ==> (#[trigger] candidate::<Op, N, LA, LD, D>(
                        g,
                        q,
                        id,
                        n,
                        start,
                        fuel,
                    )) is None,
            }
        }),
{
    let start = noted(st, id, None, None);
    let len = g.class(id).nodes@.len();
    let fuel = depth_left::<Op, N, D>(g, st);
    lemma_nodes_keep::<Op, N, LA, LD, D>(g, q, id, len, start, fuel);
    let m = lemma_nodes_cheapest::<Op, N, LA, LD, D>(g, q, id, len, start, fuel);
    if m >= 0 {
        assert(is_cheapest::<Op, N, LA, LD, D>(g, q, id, len, start, fuel, m));
    }
}

} // verus!
