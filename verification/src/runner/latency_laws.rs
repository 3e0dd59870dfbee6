//! Which latencies are found for library functions, and which widths for
//! constants.
use crate::ast_node::partial_expr::PatternOp;
use crate::ast_node::NodeView;
use crate::egraph::EGraph;
use crate::expand::Pattern;
use crate::id_map::{holds, lookup};
use crate::number::Number;
use crate::runner::exact_latency::{
    first_at, is_latency, latency_known, moved_to, nodes_of_classes, settled_latency, site_of,
    stated_latency,
};
use crate::runner::operation::OperationInfo;
use crate::runner::widths::{
    all_consts, class_consts, has_class, has_value, has_width, is_group, missing_widths,
    width_groups, widths, ConstGroup, ConstSite,
};
use crate::schedule::{scheduled, Estimates, Schedulable};
use crate::sorting::lemma_sorted;
use crate::teachable::{binding_of, BindingExpr, DeBruijnIndex, Teachable};
use crate::text_laws::lemma_one_order;
use crate::text_sort::{law_texts_are_ordered, text_le, text_order};
use std::sync::Arc;
use vstd::prelude::*;

verus! {

// ---------------------------------------------------------------------------
// Latencies
// ---------------------------------------------------------------------------

/// Whether a node uses library function `id` in these basic blocks, which are
/// in order.
pub open spec fn uses_at<Op: OperationInfo<N>, N: Number>(
    node: NodeView<Op>,
    id: usize,
    bbs: Seq<Seq<char>>,
) -> bool {
    &&& node.operation.s_is_lib()
    &&& node.operation.s_libid() == id
    &&& bbs.to_multiset() == node.operation.s_bbs_info().to_multiset()
    &&& forall|i: int, j: int|
        0 <= i < j < bbs.len() ==> text_le(#[trigger] bbs[i], #[trigger] bbs[j])
}

/// Whether node `n` of class `k` is the first that uses library function `id`
/// in these basic blocks.
pub open spec fn is_first_use<Op: OperationInfo<N>, N: Number, D>(
    g: EGraph<Op, D>,
    k: int,
    n: int,
    id: usize,
    bbs: Seq<Seq<char>>,
) -> bool {
    &&& 0 <= k < g.classes@.len()
    &&& 0 <= n < g.classes@[k].nodes@.len()
    &&& uses_at::<Op, N>(g.classes@[k].nodes@[n]@, id, bbs)
    &&& forall|a: int, b: int|
        0 <= a < g.classes@.len() && 0 <= b < g.classes@[a].nodes@.len() && (a < k || (a == k && b
            < n)) ==> !uses_at::<Op, N>((#[trigger] g.classes@[a].nodes@[b])@, id, bbs)
}

/// Whether a node uses library function `id` in these basic blocks.
pub open spec fn is_used<Op: OperationInfo<N>, N: Number, D>(
    g: EGraph<Op, D>,
    id: usize,
    bbs: Seq<Seq<char>>,
) -> bool {
    exists|a: int, b: int|
        0 <= a < g.classes@.len() && 0 <= b < g.classes@[a].nodes@.len() && uses_at::<Op, N>(
            (#[trigger] g.classes@[a].nodes@[b])@,
            id,
            bbs,
        )
}

/// Whether `e` is the pattern with its operations in these basic blocks and
/// the innermost argument in place of each variable.
pub open spec fn is_in_blocks<Op: OperationInfo<N> + Teachable<N>, N: Number>(
    pattern: Seq<NodeView<PatternOp<Op, String>>>,
    bbs: Seq<Seq<char>>,
    e: Seq<NodeView<Op>>,
) -> bool {
    &&& e.len() == pattern.len()
    &&& forall|i: int|
        0 <= i < e.len() ==> match (#[trigger] pattern[i]).operation {
            PatternOp::Op(op) => e[i].args == pattern[i].args && op.s_moved(e[i].operation, bbs),
            PatternOp::Var(_) => e[i].args.len() == 0 && e[i].operation == Op::s_operation(
                BindingExpr::Var(DeBruijnIndex(0)),
            ),
        }
}

proof fn lemma_uses_at<Op: OperationInfo<N>, N: Number>(
    node: NodeView<Op>,
    id: usize,
    bbs: Seq<Seq<char>>,
)
    ensures
        site_of::<Op, N>(node) == Some((id, bbs)) <==> uses_at::<Op, N>(node, id, bbs),
{
    let own = node.operation.s_bbs_info();
    if uses_at::<Op, N>(node, id, bbs) {
        lemma_one_order(own, bbs);
    }
    if site_of::<Op, N>(node) == Some((id, bbs)) {
        law_texts_are_ordered();
        lemma_sorted(own, text_order());
        let le = text_order();
        assert forall|i: int, j: int| 0 <= i < j < bbs.len() implies text_le(
            #[trigger] bbs[i],
            #[trigger] bbs[j],
        ) by {
            assert(le(bbs[i], bbs[j]));
        }
    }
}

proof fn lemma_first_in<Op: OperationInfo<N>, N: Number>(
    nodes: Seq<NodeView<Op>>,
    site: (usize, Seq<Seq<char>>),
    n: nat,
) -> (i: int)
    requires
        n <= nodes.len(),
    ensures
        match first_at::<Op, N>(nodes, site, n) {
            Some(x) => {
                &&& 0 <= i < n
                &&& x == nodes[i]
                &&& uses_at::<Op, N>(nodes[i], site.0, site.1)
                &&& forall|j: int|
                    0 <= j < i ==> !uses_at::<Op, N>(#[trigger] nodes[j], site.0, site.1)
            },
            None => forall|j: int|
                0 <= j < n ==> !uses_at::<Op, N>(#[trigger] nodes[j], site.0, site.1),
        },
    decreases n,
{
    if n == 0 {
        0
    } else {
        let i = lemma_first_in::<Op, N>(nodes, site, (n - 1) as nat);
        lemma_uses_at::<Op, N>(nodes[n - 1], site.0, site.1);
        if first_at::<Op, N>(nodes, site, (n - 1) as nat) is Some {
            i
        } else {
            n - 1
        }
    }
}

/// Where the nodes of a class stand among those of all classes.
proof fn lemma_place<Op, D>(g: EGraph<Op, D>, k: nat, i: int) -> (p: (int, int))
    requires
        k <= g.classes@.len(),
        0 <= i < nodes_of_classes(g, k).len(),
    ensures
        0 <= p.0 < k,
        0 <= p.1 < g.classes@[p.0].nodes@.len(),
        i == nodes_of_classes(g, p.0 as nat).len() + p.1,
        nodes_of_classes(g, k)[i] == g.classes@[p.0].nodes@[p.1]@,
    decreases k,
{
    let before = nodes_of_classes(g, (k - 1) as nat);
    if i < before.len() {
        lemma_place(g, (k - 1) as nat, i)
    } else {
        (k - 1, i - before.len())
    }
}

proof fn lemma_at_place<Op, D>(g: EGraph<Op, D>, k: nat, a: int, b: int)
    requires
        0 <= a < k <= g.classes@.len(),
        0 <= b < g.classes@[a].nodes@.len(),
    ensures
        nodes_of_classes(g, a as nat).len() + b < nodes_of_classes(g, (a + 1) as nat).len()
            <= nodes_of_classes(g, k).len(),
        nodes_of_classes(g, k)[nodes_of_classes(g, a as nat).len() + b]
            == g.classes@[a].nodes@[b]@,
    decreases k,
{
    if a < k - 1 {
        lemma_at_place(g, (k - 1) as nat, a, b);
    }
}

proof fn lemma_fewer<Op, D>(g: EGraph<Op, D>, a: nat, k: nat)
    requires
        a <= k,
    ensures
        nodes_of_classes(g, a).len() <= nodes_of_classes(g, k).len(),
    decreases k,
{
    if a < k {
        lemma_fewer(g, a, (k - 1) as nat);
    }
}

/// A latency is found exactly for the library functions that are known and
/// used, in the basic blocks in which they are used. It is that of the first
/// expression that the function stands for, scheduled in those basic blocks,
/// where it takes time and area; otherwise it is the one that the first of the
/// nodes states, if it states one.
pub proof fn law_latency_of_a_use<Op, N, LA, LD, D>(
    g: EGraph<Op, D>,
    searchers: Seq<(usize, Arc<Vec<Pattern<Op>>>)>,
    est: Estimates<N, LA, LD>,
    found: Map<(usize, Seq<Seq<char>>), N>,
    id: usize,
    bbs: Seq<Seq<char>>,
) where
    Op: Schedulable<N, LA, LD> + OperationInfo<N> + Teachable<N>,
    N: Number,

    requires
        latency_known(
            found,
            est,
            searchers,
            nodes_of_classes(g, g.classes@.len()),
            (id, bbs),
        ),
    ensures
        found.dom().contains((id, bbs)) <==> holds(searchers, id) && is_used::<Op, N, D>(
            g,
            id,
            bbs,
        ),
        found.dom().contains((id, bbs)) ==> exists|k: int, n: int, e: Seq<NodeView<Op>>|
            #![trigger g.classes@[k].nodes@[n], scheduled(est, e)]
            is_first_use::<Op, N, D>(g, k, n, id, bbs) && is_in_blocks::<Op, N>(
                lookup(searchers, id)->Some_0@[0]@,
                bbs,
                e,
            ) && ({
                let (_, cycles, area) = scheduled(est, e);
                match binding_of::<Op, usize, N>(g.classes@[k].nodes@[n]@) {
                    Some(BindingExpr::Lib(_, _, _, _, stated, _)) => if N::s_zero().s_below(cycles)
                        && area > 0 {
                        found[(id, bbs)] == cycles
                    } else {
                        found[(id, bbs)] == stated
                    },
                    _ => found[(id, bbs)] == cycles,
                }
            }),
{
    let all = nodes_of_classes(g, g.classes@.len());
    let site = (id, bbs);
    let i = lemma_first_in::<Op, N>(all, site, all.len());
    if is_used::<Op, N, D>(g, id, bbs) {
        let (a, b) = choose|a: int, b: int|
            0 <= a < g.classes@.len() && 0 <= b < g.classes@[a].nodes@.len() && uses_at::<Op, N>(
                (#[trigger] g.classes@[a].nodes@[b])@,
                id,
                bbs,
            );
        lemma_at_place(g, g.classes@.len(), a, b);
        assert(uses_at::<Op, N>(all[nodes_of_classes(g, a as nat).len() + b], id, bbs));
    }
    if first_at::<Op, N>(all, site, all.len()) is Some {
        let (k, n) = lemma_place(g, g.classes@.len(), i);
        assert(uses_at::<Op, N>(g.classes@[k].nodes@[n]@, id, bbs));
        assert(is_first_use::<Op, N, D>(g, k, n, id, bbs)) by {
            assert forall|a: int, b: int|
                0 <= a < g.classes@.len() && 0 <= b < g.classes@[a].nodes@.len() && (a < k || (a
                    == k && b < n)) implies !uses_at::<Op, N>(
                (#[trigger] g.classes@[a].nodes@[b])@,
                id,
                bbs,
            ) by {
                lemma_at_place(g, g.classes@.len(), a, b);
                if a < k {
                    lemma_fewer(g, (a + 1) as nat, k as nat);
                }
                assert(!uses_at::<Op, N>(
                    all[nodes_of_classes(g, a as nat).len() + b],
                    id,
                    bbs,
                ));
            }
        }
        if holds(searchers, id) {
            let node = g.classes@[k].nodes@[n]@;
            let p = lookup(searchers, id)->Some_0@[0]@;
            assert(is_latency(est, p, node, bbs, found[site]));
            let e = choose|e: Seq<NodeView<Op>>| #[trigger]
                moved_to::<Op, N>(p, bbs, e) && found[site]
                    == settled_latency(
                    scheduled(est, e),
                    stated_latency::<Op, N>(node),
                );
            assert(is_in_blocks::<Op, N>(p, bbs, e)) by {
                assert forall|j: int| 0 <= j < e.len() implies match (
                #[trigger] p[j]).operation {
                    PatternOp::Op(op) => e[j].args == p[j].args && op.s_moved(
                        e[j].operation,
                        bbs,
                    ),
                    PatternOp::Var(_) => e[j].args.len() == 0 && e[j].operation
                        == Op::s_operation(BindingExpr::Var(DeBruijnIndex(0))),
                } by {
                    assert(e[j] == e[j]);
                }
            }
            let s = scheduled(est, e);
            assert(g.classes@[k].nodes@[n]@ == node);
        }
    }
}

// ---------------------------------------------------------------------------
// Widths
// ---------------------------------------------------------------------------

/// Whether class `k` holds a constant of this value and width.
pub open spec fn holds_const<Op: OperationInfo<N>, N: Number, D>(
    g: EGraph<Op, D>,
    k: int,
    value: i64,
    width: u32,
) -> bool {
    exists|n: int|
        0 <= n < g.classes@[k].nodes@.len() && (
        #[trigger] g.classes@[k].nodes@[n])@.operation.s_const() == Some((value, width))
}

proof fn lemma_class_consts<Op: OperationInfo<N>, N: Number, D>(
    g: EGraph<Op, D>,
    k: int,
    n: nat,
    c: ConstSite,
)
    requires
        0 <= k < g.classes@.len(),
        n <= g.classes@[k].nodes@.len(),
    ensures
        class_consts::<Op, N, D>(g.classes@[k], n).contains(c) <==> c.2 == g.classes@[k].id
            && exists|i: int|
            0 <= i < n && (#[trigger] g.classes@[k].nodes@[i])@.operation.s_const() == Some(
                (c.0, c.1),
            ),
    decreases n,
{
    if n > 0 {
        lemma_class_consts::<Op, N, D>(g, k, (n - 1) as nat, c);
        let before = class_consts::<Op, N, D>(g.classes@[k], (n - 1) as nat);
        let now = class_consts::<Op, N, D>(g.classes@[k], n);
        let own = g.classes@[k].nodes@[n - 1]@.operation.s_const();
        if own is Some {
            let x = (own->Some_0.0, own->Some_0.1, g.classes@[k].id);
            assert(now =~= before.push(x));
            assert(now[before.len() as int] == x);
            if before.contains(c) {
                let i = choose|i: int| 0 <= i < before.len() && before[i] == c;
                assert(now[i] == c);
            }
            if now.contains(c) && c != x {
                let i = choose|i: int| 0 <= i < now.len() && now[i] == c;
                assert(before[i] == c);
            }
        }
    }
}

proof fn lemma_all_consts<Op: OperationInfo<N>, N: Number, D>(
    g: EGraph<Op, D>,
    k: nat,
    c: ConstSite,
)
    requires
        k <= g.classes@.len(),
    ensures
        all_consts::<Op, N, D>(g, k).contains(c) <==> exists|a: int|
            0 <= a < k && (#[trigger] g.classes@[a]).id == c.2 && holds_const::<Op, N, D>(
                g,
                a,
                c.0,
                c.1,
            ),
    decreases k,
{
    if k > 0 {
        lemma_all_consts::<Op, N, D>(g, (k - 1) as nat, c);
        let len = g.classes@[k - 1].nodes@.len();
        lemma_class_consts::<Op, N, D>(g, k - 1, len, c);
        let before = all_consts::<Op, N, D>(g, (k - 1) as nat);
        let own = class_consts::<Op, N, D>(g.classes@[k - 1], len);
        let now = before + own;
        if before.contains(c) {
            let i = choose|i: int| 0 <= i < before.len() && before[i] == c;
            assert(now[i] == c);
        }
        if own.contains(c) {
            let i = choose|i: int| 0 <= i < own.len() && own[i] == c;
            assert(now[before.len() + i] == c);
            assert(holds_const::<Op, N, D>(g, k - 1, c.0, c.1));
        }
        if now.contains(c) {
            let i = choose|i: int| 0 <= i < now.len() && now[i] == c;
            if i < before.len() {
                assert(before[i] == c);
            } else {
                assert(own[i - before.len()] == c);
            }
        }
    }
}

proof fn lemma_missing(s: Seq<ConstSite>, value: i64, n: nat)
    requires
        n <= 4,
    ensures
        forall|w: u32| #[trigger]
            missing_widths(s, value, n).contains(w) <==> widths().take(n as int).contains(w)
                && !has_width(s, value, w),
        missing_widths(s, value, n).no_duplicates(),
    decreases n,
{
    if n > 0 {
        lemma_missing(s, value, (n - 1) as nat);
        let before = missing_widths(s, value, (n - 1) as nat);
        let now = missing_widths(s, value, n);
        let x = widths()[n - 1];
        let (a, b) = (widths().take(n - 1), widths().take(n as int));
        assert(b =~= a.push(x));
        assert(!a.contains(x));
        assert forall|w: u32| #[trigger] now.contains(w) <==> b.contains(w)
            && !has_width(s, value, w) by {
            assert(before.contains(w) <==> a.contains(w) && !has_width(
                s,
                value,
                w,
            ));
            if a.contains(w) {
                let i = choose|i: int| 0 <= i < a.len() && a[i] == w;
                assert(b[i] == w);
            }
            if b.contains(w) && w != x {
                let i = choose|i: int| 0 <= i < b.len() && b[i] == w;
                assert(a[i] == w);
            }
            assert(b[n - 1] == x);
            if !has_width(s, value, x) {
                assert(now =~= before.push(x));
                assert(now[before.len() as int] == x);
                if before.contains(w) {
                    let i = choose|i: int| 0 <= i < before.len() && before[i] == w;
                    assert(now[i] == w);
                }
                if now.contains(w) && w != x {
                    let i = choose|i: int| 0 <= i < now.len() && now[i] == w;
                    assert(before[i] == w);
                }
            }
        }
        assert(now.no_duplicates()) by {
            if !has_width(s, value, x) {
                assert(!before.contains(x));
                assert(now =~= before.push(x));
            }
        }
    }
}

/// Each value that occurs as a constant has one group: the classes that hold
/// it in some width, and those of the widths eight, sixteen, thirty-two and
/// sixty-four that it does not occur with.
pub proof fn law_groups_of_constants<Op: OperationInfo<N>, N: Number, D>(
    egraph: &EGraph<Op, D>,
    r: Vec<ConstGroup>,
    value: i64,
)
    requires
        call_ensures(width_groups::<Op, N, D>, (egraph,), r),
    ensures
        (exists|k: int, w: u32|
            0 <= k < egraph.classes@.len() && #[trigger] holds_const::<Op, N, D>(
                *egraph,
                k,
                value,
                w,
            )) <==> exists|i: int| 0 <= i < r@.len() && (#[trigger] r@[i]).value == value,
        forall|i: int, j: int|
            0 <= i < j < r@.len() ==> (#[trigger] r@[i]).value != (#[trigger] r@[j]).value,
        forall|i: int|
            0 <= i < r@.len() && (#[trigger] r@[i]).value == value ==> {
                &&& r@[i].classes@.no_duplicates()
                &&& r@[i].missing@.no_duplicates()
                &&& forall|c: usize| #[trigger]
                    r@[i].classes@.contains(c) <==> exists|k: int, w: u32|
                        0 <= k < egraph.classes@.len() && egraph.classes@[k].id == c
                            && #[trigger] holds_const::<Op, N, D>(*egraph, k, value, w)
                &&& forall|w: u32| #[trigger]
                    r@[i].missing@.contains(w) <==> (w == 8 || w == 16 || w == 32 || w == 64)
                        && forall|k: int|
                        0 <= k < egraph.classes@.len() ==> !#[trigger] holds_const::<Op, N, D>(
                            *egraph,
                            k,
                            value,
                            w,
                        )
            },
{
    let g = *egraph;
    let len = g.classes@.len();
    let s = all_consts::<Op, N, D>(g, len);
    assert forall|k: int, w: u32| 0 <= k < len && #[trigger] holds_const::<Op, N, D>(
        g,
        k,
        value,
        w,
    ) implies s.contains((value, w, g.classes@[k].id)) by {
        lemma_all_consts::<Op, N, D>(g, len, (value, w, g.classes@[k].id));
    }
    assert forall|i: int| 0 <= i < s.len() && (#[trigger] s[i]).0 == value implies exists|k: int|
        0 <= k < len && (#[trigger] g.classes@[k]).id == s[i].2 && holds_const::<Op, N, D>(
            g,
            k,
            value,
            s[i].1,
        ) by {
        assert(s.contains(s[i]));
        lemma_all_consts::<Op, N, D>(g, len, s[i]);
    }
    if exists|k: int, w: u32| 0 <= k < len && #[trigger] holds_const::<Op, N, D>(g, k, value, w) {
        let (k, w) = choose|k: int, w: u32|
            0 <= k < len && #[trigger] holds_const::<Op, N, D>(g, k, value, w);
        let c = (value, w, g.classes@[k].id);
        assert(s.contains(c));
        let i = choose|i: int| 0 <= i < s.len() && s[i] == c;
        assert(s[i].0 == value);
        assert(has_value(s, value));
    }
    assert forall|i: int| 0 <= i < r@.len() && (#[trigger] r@[i]).value == value implies {
        &&& r@[i].classes@.no_duplicates()
        &&& r@[i].missing@.no_duplicates()
        &&& forall|c: usize| #[trigger]
            r@[i].classes@.contains(c) <==> exists|k: int, w: u32|
                0 <= k < len && g.classes@[k].id == c && #[trigger] holds_const::<Op, N, D>(
                    g,
                    k,
                    value,
                    w,
                )
        &&& forall|w: u32| #[trigger]
            r@[i].missing@.contains(w) <==> (w == 8 || w == 16 || w == 32 || w == 64)
                && forall|k: int|
                0 <= k < len ==> !#[trigger] holds_const::<Op, N, D>(g, k, value, w)
    } by {
        let group = r@[i];
        assert(is_group(s, group));
        lemma_missing(s, value, 4);
        assert(widths().take(4) =~= widths());
        assert forall|c: usize| #[trigger] group.classes@.contains(c) <==> exists|
            k: int,
            w: u32,
        |
            0 <= k < len && g.classes@[k].id == c && #[trigger] holds_const::<Op, N, D>(
                g,
                k,
                value,
                w,
            ) by {
            assert(group.classes@.contains(c) <==> has_class(s, value, c));
            if exists|k: int, w: u32|
                0 <= k < len && g.classes@[k].id == c && #[trigger] holds_const::<Op, N, D>(
                    g,
                    k,
                    value,
                    w,
                ) {
                let (k, w) = choose|k: int, w: u32|
                    0 <= k < len && g.classes@[k].id == c && #[trigger] holds_const::<Op, N, D>(
                        g,
                        k,
                        value,
                        w,
                    );
                assert(s.contains((value, w, c)));
                let q = choose|q: int| 0 <= q < s.len() && s[q] == (value, w, c);
                assert(s[q].0 == value);
            }
        }
        assert forall|w: u32| #[trigger] group.missing@.contains(w) <==> (w == 8 || w == 16 || w
            == 32 || w == 64) && forall|k: int|
            0 <= k < len ==> !#[trigger] holds_const::<Op, N, D>(g, k, value, w) by {
            assert(group.missing@ == missing_widths(s, value, 4));
            assert(widths().contains(w) <==> (w == 8 || w == 16 || w == 32 || w == 64)) by {
                assert(widths()[0] == 8 && widths()[1] == 16 && widths()[2] == 32 && widths()[3]
                    == 64);
                assert(widths().len() == 4);
            }
            if has_width(s, value, w) {
                let q = choose|q: int|
                    0 <= q < s.len() && (#[trigger] s[q]).0 == value && s[q].1 == w;
                assert(s[q].0 == value);
            }
            if exists|k: int| 0 <= k < len && #[trigger] holds_const::<Op, N, D>(g, k, value, w) {
                let k = choose|k: int|
                    0 <= k < len && #[trigger] holds_const::<Op, N, D>(g, k, value, w);
                assert(s.contains((value, w, g.classes@[k].id)));
                let q = choose|q: int| 0 <= q < s.len() && s[q] == (value, w, g.classes@[k].id);
                assert(s[q].0 == value && s[q].1 == w);
            }
        }
    }
}

} // verus!
