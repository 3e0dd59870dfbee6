//! The latencies of library functions at the places where they are used.
use crate::assoc::SiteMap;
use crate::ast_node::partial_expr::PatternOp;
use crate::ast_node::{AstNode, Duplicate, NodeView};
use crate::egraph::{EClass, EGraph};
use crate::expand::Pattern;
use crate::id_map::{holds, lookup, IdMap};
use crate::number::Number;
use crate::rec_expr::{points_back, RecExpr};
use crate::runner::operation::OperationInfo;
use crate::schedule::{
    can_schedule, scheduled, Estimates, Schedulable, ScheduleResult, Scheduler,
};
use crate::sorting::sorted;
use crate::teachable::{binding_of, BindingExpr, DeBruijnIndex, Teachable};
use crate::text::{copy_texts, texts};
use crate::text_sort::{sort_texts, text_order};
use std::sync::Arc;
use vstd::prelude::*;

verus! {

/// The library function that a node uses and its basic blocks, in order.
pub open spec fn site_of<Op: OperationInfo<N>, N: Number>(node: NodeView<Op>) -> Option<
    (usize, Seq<Seq<char>>),
> {
    if node.operation.s_is_lib() {
        Some((node.operation.s_libid(), sorted(node.operation.s_bbs_info(), text_order())))
    } else {
        None
    }
}

/// Whether `e` is a pattern with these basic blocks, its variables taken for
/// arguments.
pub open spec fn moved_to<Op: OperationInfo<N> + Teachable<N>, N: Number>(
    pattern: Seq<NodeView<PatternOp<Op, String>>>,
    bbs: Seq<Seq<char>>,
    e: Seq<NodeView<Op>>,
) -> bool {
    &&& e.len() == pattern.len()
    &&& forall|i: int|
        0 <= i < e.len() ==> match pattern[i].operation {
            PatternOp::Op(op) => (#[trigger] e[i]).args == pattern[i].args && op.s_moved(
                e[i].operation,
                bbs,
            ),
            PatternOp::Var(_) => e[i] == (NodeView {
                operation: Op::s_operation(BindingExpr::Var(DeBruijnIndex(0))),
                args: Seq::<usize>::empty(),
            }),
        }
}

/// Whether what the library function of a node stands for is an expression
/// that can be scheduled with the basic blocks of the node, if it is known.
pub open spec fn site_fits<Op, N, LA, LD>(
    est: Estimates<N, LA, LD>,
    searchers: Seq<(usize, Arc<Vec<Pattern<Op>>>)>,
    node: NodeView<Op>,
) -> bool where Op: Schedulable<N, LA, LD> + OperationInfo<N> + Teachable<N>, N: Number {
    match site_of::<Op, N>(node) {
        Some((id, bbs)) => holds(searchers, id) ==> {
            let list = lookup(searchers, id)->Some_0@;
            &&& list.len() > 0
            &&& list[0].wf()
            &&& forall|e: Seq<NodeView<Op>>| #[trigger]
                moved_to::<Op, N>(list[0]@, bbs, e) ==> can_schedule(est, e)
        },
        None => true,
    }
}

/// The same of every node of an e-graph.
pub open spec fn sites_fit<Op, N, LA, LD, D>(
    est: Estimates<N, LA, LD>,
    searchers: Seq<(usize, Arc<Vec<Pattern<Op>>>)>,
    g: EGraph<Op, D>,
) -> bool where Op: Schedulable<N, LA, LD> + OperationInfo<N> + Teachable<N>, N: Number {
    forall|k: int, n: int|
        0 <= k < g.classes@.len() && 0 <= n < g.classes@[k].nodes@.len() ==> site_fits(
            est,
            searchers,
            (#[trigger] g.classes@[k].nodes@[n])@,
        )
}

/// The latency that a node says its library function has.
pub open spec fn stated_latency<Op: Teachable<N>, N: Number>(node: NodeView<Op>) -> Option<N> {
    match binding_of::<Op, usize, N>(node) {
        Some(BindingExpr::Lib(_, _, _, _, lat_acc, _)) => Some(lat_acc),
        _ => None,
    }
}

/// The latency of a library function: that of its schedule, where it takes
/// time and area; otherwise the one that its node states.
pub open spec fn settled_latency<N: Number>(schedule: ScheduleResult<N>, stated: Option<N>) -> N {
    if N::s_zero().s_below(schedule.1) && schedule.2 > 0 {
        schedule.1
    } else {
        match stated {
            Some(l) => l,
            None => schedule.1,
        }
    }
}

/// Whether this is the latency of a library function at a node.
pub open spec fn is_latency<Op, N, LA, LD>(
    est: Estimates<N, LA, LD>,
    searcher: Seq<NodeView<PatternOp<Op, String>>>,
    node: NodeView<Op>,
    bbs: Seq<Seq<char>>,
    latency: N,
) -> bool where Op: Schedulable<N, LA, LD> + OperationInfo<N> + Teachable<N>, N: Number {
    exists|e: Seq<NodeView<Op>>| #[trigger]
        moved_to::<Op, N>(searcher, bbs, e) && latency == settled_latency(
            scheduled(est, e),
            stated_latency::<Op, N>(node),
        )
}

/// The first of the first `n` nodes with a site.
pub open spec fn first_at<Op: OperationInfo<N>, N: Number>(
    nodes: Seq<NodeView<Op>>,
    site: (usize, Seq<Seq<char>>),
    n: nat,
) -> Option<NodeView<Op>>
    decreases n,
{
    if n == 0 {
        None
    } else {
        match first_at::<Op, N>(nodes, site, (n - 1) as nat) {
            Some(x) => Some(x),
            None => if site_of::<Op, N>(nodes[n - 1]) == Some(site) {
                Some(nodes[n - 1])
            } else {
                None
            },
        }
    }
}

/// The nodes of the first `k` classes, one after the other.
pub open spec fn nodes_of_classes<Op, D>(g: EGraph<Op, D>, k: nat) -> Seq<NodeView<Op>>
    decreases k,
{
    if k == 0 {
        Seq::empty()
    } else {
        nodes_of_classes(g, (k - 1) as nat) + crate::ast_node::node_views(
            g.classes@[k - 1].nodes@,
        )
    }
}

/// Whether a latency is known for a site exactly where a node has it and it
/// is known what the library function stands for, and is the right one.
pub open spec fn latency_known<Op, N, LA, LD>(
    lats: Map<(usize, Seq<Seq<char>>), N>,
    est: Estimates<N, LA, LD>,
    searchers: Seq<(usize, Arc<Vec<Pattern<Op>>>)>,
    nodes: Seq<NodeView<Op>>,
    site: (usize, Seq<Seq<char>>),
) -> bool where Op: Schedulable<N, LA, LD> + OperationInfo<N> + Teachable<N>, N: Number {
    match (first_at::<Op, N>(nodes, site, nodes.len()), lookup(searchers, site.0)) {
        (Some(node), Some(list)) => lats.dom().contains(site) && is_latency(
            est,
            list@[0]@,
            node,
            site.1,
            lats[site],
        ),
        _ => !lats.dom().contains(site),
    }
}

/// The pattern with these basic blocks, its variables taken for arguments.
pub fn move_to<Op: OperationInfo<N> + Teachable<N> + Duplicate, N: Number>(
    pattern: &Pattern<Op>,
    bbs: &Vec<String>,
) -> (r: RecExpr<Op>)
    requires
        pattern.wf(),
    ensures
        r.wf(),
        moved_to::<Op, N>(pattern@, texts(bbs@), r@),
{
    let ghost p = pattern@;
    let mut r: RecExpr<Op> = RecExpr::new();
    let n: usize = pattern.nodes.len();
    for i in 0..n
        invariant
            pattern.wf(),
            p == pattern@,
            n == p.len(),
            r.wf(),
            r@.len() == i,
            forall|k: int|
                0 <= k < i ==> match p[k].operation {
                    PatternOp::Op(op) => (#[trigger] r@[k]).args == p[k].args && op.s_moved(
                        r@[k].operation,
                        texts(bbs@),
                    ),
                    PatternOp::Var(_) => r@[k] == (NodeView {
                        operation: Op::s_operation(BindingExpr::Var(DeBruijnIndex(0))),
                        args: Seq::<usize>::empty(),
                    }),
                },
    {
        let node: &AstNode<PatternOp<Op, String>> = &pattern.nodes[i];
        assert(p[i as int] == node@);
        assert(points_back(p, i as int));
        match &node.operation {
            PatternOp::Op(op) => {
                let mut op: Op = op.duplicate();
                op.set_bbs_info(copy_texts(bbs));
                let m: usize = node.args.len();
                let mut args: Vec<usize> = Vec::new();
                for j in 0..m
                    invariant
                        m == node.args@.len(),
                        args@ == node.args@.take(j as int),
                {
                    args.push(node.args[j]);
                    assert(args@ =~= node.args@.take(j + 1));
                }
                assert(args@ =~= node.args@);
                assert forall|j: int| 0 <= j < args@.len() implies (#[trigger] args@[j]) < i by {
                    assert(p[i as int].args[j] < i);
                }
                let _id: usize = r.add(AstNode::new(op, args));
            },
            PatternOp::Var(_) => {
                let _id: usize = r.add(Op::var(0));
            },
        }
    }
    r
}

/// Finds the latency of each library function at each of its sites.
pub fn exact_latencies<Op, N, LA, LD, D>(
    egraph: &EGraph<Op, D>,
    searchers: &IdMap<Arc<Vec<Pattern<Op>>>>,
    scheduler: &Scheduler<N, LA, LD>,
) -> (r: SiteMap<N>) where
    Op: Schedulable<N, LA, LD> + OperationInfo<N> + Teachable<N> + Duplicate,
    N: Number,

    requires
        searchers.wf(),
        scheduler.bb_query.wf(),
        sites_fit(scheduler@, searchers.entries@, *egraph),
    ensures
        r.wf(),
        forall|site: (usize, Seq<Seq<char>>)| #[trigger]
            latency_known(
                r@,
                scheduler@,
                searchers.entries@,
                nodes_of_classes(*egraph, egraph.classes@.len()),
                site,
            ),
{
    let ghost est = scheduler@;
    let ghost list = searchers.entries@;
    let ghost mut done: Seq<NodeView<Op>> = Seq::empty();
    let mut r: SiteMap<N> = SiteMap::new();
    let count: usize = egraph.classes.len();
    assert forall|site: (usize, Seq<Seq<char>>)| #[trigger]
        latency_known(r@, est, list, done, site) by {}
    for c in 0..count
        invariant
            count == egraph.classes@.len(),
            searchers.wf(),
            scheduler.bb_query.wf(),
            est == scheduler@,
            list == searchers.entries@,
            sites_fit(est, list, *egraph),
            r.wf(),
            done == nodes_of_classes(*egraph, c as nat),
            forall|site: (usize, Seq<Seq<char>>)| #[trigger]
                latency_known(r@, est, list, done, site),
    {
        let class: &EClass<Op, D> = &egraph.classes[c];
        let ghost start = done;
        let ghost here = crate::ast_node::node_views(class.nodes@);
        let n: usize = class.nodes.len();
        assert(start + here.take(0) =~= start);
        assert forall|m: int| 0 <= m < n implies site_fits(
            est,
            list,
            (#[trigger] class.nodes@[m])@,
        ) by {
            assert(egraph.classes@[c as int].nodes@[m] == class.nodes@[m]);
        }
        for i in 0..n
            invariant
                n == class.nodes@.len() == here.len(),
                here == crate::ast_node::node_views(class.nodes@),
                searchers.wf(),
                scheduler.bb_query.wf(),
                est == scheduler@,
                list == searchers.entries@,
                forall|m: int|
                    0 <= m < n ==> site_fits(est, list, (#[trigger] class.nodes@[m])@),
                r.wf(),
                done == start + here.take(i as int),
                forall|site: (usize, Seq<Seq<char>>)| #[trigger]
                    latency_known(r@, est, list, done, site),
        {
            let node: &AstNode<Op> = &class.nodes[i];
            let ghost before = r@;
            let ghost more = done.push(node@);
            assert(here[i as int] == node@);
            proof {
                lemma_first_more::<Op, N>(done, node@);
            }
            if node.operation.is_lib() {
                let bbs: Vec<String> = sort_texts(&node.operation.get_bbs_info());
                let id: usize = node.operation.get_libid();
                let ghost site = (id, texts(bbs@));
                assert(site_of::<Op, N>(node@) == Some(site));
                assert(latency_known(before, est, list, done, site));
                if r.get(id, &bbs).is_none() {
                    if let Some(known) = searchers.get(id) {
                        assert(site_fits(est, list, class.nodes@[i as int]@));
                        assert(holds(list, id));
                        let expr: RecExpr<Op> = move_to(&known[0], &bbs);
                        assert(moved_to::<Op, N>(known@[0]@, site.1, expr@));
                        assert(lookup(list, id)->Some_0 == *known);
                        assert(can_schedule(est, expr@));
                        let schedule: ScheduleResult<N> = scheduler.asap_schedule(&expr);
                        let stated: Option<N> = match Op::as_binding_expr(node) {
                            Some(BindingExpr::Lib(_, _, _, _, lat_acc, _)) => Some(lat_acc),
                            _ => None,
                        };
                        let latency: N = if N::zero().below(schedule.1) && schedule.2 > 0 {
                            schedule.1
                        } else {
                            match stated {
                                Some(l) => l,
                                None => schedule.1,
                            }
                        };
                        assert(is_latency(est, known@[0]@, node@, site.1, latency));
                        r.insert(id, bbs, latency);
                    }
                }
            }
            proof {
                assert forall|site: (usize, Seq<Seq<char>>)| #[trigger]
                    latency_known(r@, est, list, more, site) by {
                    assert(latency_known(before, est, list, done, site));
                }
                done = more;
                assert(done =~= start + here.take(i + 1));
            }
        }
        assert(here.take(n as int) =~= here);
    }
    r
}

proof fn lemma_first_more<Op: OperationInfo<N>, N: Number>(
    nodes: Seq<NodeView<Op>>,
    node: NodeView<Op>,
)
    ensures
        forall|site: (usize, Seq<Seq<char>>)| #[trigger]
            first_at::<Op, N>(nodes.push(node), site, nodes.len() + 1) == match first_at::<Op, N>(
                nodes,
                site,
                nodes.len(),
            ) {
                Some(x) => Some(x),
                None => if site_of::<Op, N>(node) == Some(site) {
                    Some(node)
                } else {
                    None
                },
            },
{
    assert forall|site: (usize, Seq<Seq<char>>)| #[trigger]
        first_at::<Op, N>(nodes.push(node), site, nodes.len() + 1) == match first_at::<Op, N>(
            nodes,
            site,
            nodes.len(),
        ) {
            Some(x) => Some(x),
            None => if site_of::<Op, N>(node) == Some(site) {
                Some(node)
            } else {
                None
            },
        } by {
        lemma_first_prefix::<Op, N>(nodes, nodes.push(node), site, nodes.len());
    }
}

proof fn lemma_first_prefix<Op: OperationInfo<N>, N: Number>(
    a: Seq<NodeView<Op>>,
    b: Seq<NodeView<Op>>,
    site: (usize, Seq<Seq<char>>),
    n: nat,
)
    requires
        forall|i: int| 0 <= i < n ==> a[i] == b[i],
    ensures
        first_at::<Op, N>(a, site, n) == first_at::<Op, N>(b, site, n),
    decreases n,
{
    if n > 0 {
        lemma_first_prefix::<Op, N>(a, b, site, (n - 1) as nat);
    }
}

} // verus!
