//! What the analysis of a node makes of the selections of its arguments.
use crate::ast_node::{AstNode, Duplicate, NodeView};
use crate::bb_query::QueryView;
use crate::egraph::EGraph;
use crate::extract::beam_pareto::{
    child, child_lanes, child_sets, crossed_all, known, merged, normalized_runs, CostView,
    ISAXAnalysis, ISAXCost, TypeInfo,
};
use crate::extract::cost_laws::{
    lemma_filter_all, lemma_filter_none, lemma_same_libs_as_itself,
};
use crate::extract::cost_set::{
    all_with_lib, crossed, crossed_row, cycle_slot, distinct, dominated, dominates, frontier,
    has_libs, has_same, inserted, law_pruning_adds_nothing, law_pruning_keeps_the_best, law_unified,
    lemma_cycle_slot_range, lemma_distinct_members, lemma_sorted_members, pruned, remaining,
    same_sel, sel_order, set_order, unified, united,
};
use crate::extract::lib_sel::{combined, merged_known, taken_new, with_lib, SelView};
use crate::extract::selection_laws::{is_better, law_unifying_keeps_the_best};
use crate::learn::LibId;
use crate::number::{Fixed, Number};
use crate::runner::operation::OperationInfo;
use crate::sorting::{lemma_sorted, sorted};
use crate::teachable::{binding_of, BindingExpr, Teachable};
use crate::text_sort::law_text_union;
use vstd::prelude::*;

verus! {

/// The selections of argument `j` of a node.
pub open spec fn of_arg<Op, N: Number, T>(
    g: EGraph<Op, ISAXCost<N, T>>,
    node: NodeView<Op>,
    j: int,
) -> Seq<SelView<N>> {
    g.class(node.args[j]).data@.cs
}

/// The selections of all arguments of a node.
pub open spec fn of_args<Op, N: Number, T>(
    g: EGraph<Op, ISAXCost<N, T>>,
    node: NodeView<Op>,
) -> Seq<Seq<SelView<N>>> {
    Seq::new(node.args.len(), |j: int| of_arg(g, node, j))
}

/// Whether a node defines a library function.
pub open spec fn defines_lib<Op: Teachable<N>, N: Number>(node: NodeView<Op>) -> bool {
    match binding_of::<Op, usize, N>(node) {
        Some(BindingExpr::Lib(_, _, _, _, _, _)) => true,
        _ => false,
    }
}

/// The cycles of an operation on so many lanes: the cycles per operation of
/// its block on each lane, as often as the block is executed, or one cycle,
/// once, where the block was not measured; none where the operation takes no
/// time.
pub open spec fn work<Op: OperationInfo<N>, N: Number>(
    op: Op,
    q: QueryView<N>,
    lanes: usize,
) -> N {
    let bbs = op.s_bbs_info();
    let runs = if bbs.len() > 0 && q.map.dom().contains(bbs[0]) {
        q.map[bbs[0]].execution_count
    } else {
        1
    };
    if !op.s_is_op() {
        N::s_zero().s_times(N::s_count(runs))
    } else if bbs.len() > 0 && q.map.dom().contains(bbs[0]) {
        q.map[bbs[0]].cpo.s_times(N::s_count(lanes)).s_times(N::s_count(runs))
    } else {
        N::s_count(1).s_times(N::s_count(lanes)).s_times(N::s_count(1))
    }
}

proof fn lemma_of_args<Op, N: Number, T>(g: EGraph<Op, ISAXCost<N, T>>, node: NodeView<Op>)
    requires
        g.wf(),
        g.args_valid(node),
    ensures
        child_sets(known(g), node) == of_args(g, node),
        forall|j: int|
            0 <= j < node.args.len() ==> #[trigger] child(known(g), node, j) == g.class(
                node.args[j],
            ).data@,
{
    assert forall|j: int| 0 <= j < node.args.len() implies #[trigger] child(known(g), node, j)
        == g.class(node.args[j]).data@ by {
        assert(node.args[j] < g.slots@.len());
        assert(g.slots@[node.args[j] as int] < g.classes@.len());
    }
    assert(child_sets(known(g), node) =~= of_args(g, node)) by {
        assert forall|j: int| 0 <= j < node.args.len() implies child_sets(known(g), node)[j]
            == of_args(g, node)[j] by {
            assert(child(known(g), node, j) == g.class(node.args[j]).data@);
        }
    }
}

// ---------------------------------------------------------------------------
// What a node knows but its selections
// ---------------------------------------------------------------------------

proof fn lemma_child_lanes<Op, N: Number, T>(
    g: EGraph<Op, ISAXCost<N, T>>,
    node: NodeView<Op>,
    n: nat,
)
    requires
        g.wf(),
        g.args_valid(node),
        n <= node.args.len(),
    ensures
        n == 0 ==> child_lanes(known(g), node, n) == 1,
        forall|j: int|
            0 <= j < n ==> g.class(#[trigger] node.args[j]).data.vec_len <= child_lanes(
                known(g),
                node,
                n,
            ),
        n > 0 ==> exists|j: int|
            0 <= j < n && g.class(#[trigger] node.args[j]).data.vec_len == child_lanes(
                known(g),
                node,
                n,
            ),
    decreases n,
{
    lemma_of_args(g, node);
    if n > 0 {
        lemma_child_lanes(g, node, (n - 1) as nat);
        let last = node.args[n - 1];
        assert(child(known(g), node, n - 1) == g.class(last).data@);
        if n == 1 {
            assert(g.class(node.args[0]).data.vec_len == child_lanes(known(g), node, 1));
        } else {
            let before = child_lanes(known(g), node, (n - 1) as nat);
            if child(known(g), node, n - 1).vec_len <= before {
                let j = choose|j: int|
                    0 <= j < n - 1 && g.class(#[trigger] node.args[j]).data.vec_len == before;
                assert(g.class(node.args[j]).data.vec_len == child_lanes(known(g), node, n));
            }
        }
    }
}

/// A node has the basic blocks of its operation and the type that they have
/// with the types of the arguments. Its lanes are one, unless the operation
/// works on vectors: then they are the most of its own and of those of its
/// arguments.
pub proof fn law_node_knows<Op, N: Number, T>(
    a: &ISAXAnalysis<N>,
    g: &EGraph<Op, ISAXCost<N, T>>,
    enode: &AstNode<Op>,
    r: ISAXCost<N, T>,
) where Op: OperationInfo<N> + Teachable<N> + TypeInfo<T>, T: Duplicate
    requires
        g.wf(),
        g.args_valid(enode@),
        call_ensures(ISAXAnalysis::<N>::make::<Op, T>, (a, g, enode), r),
    ensures
        r@.bb == enode@.operation.s_bbs_info(),
        r@.ty == Op::s_rtype(
            enode@,
            Seq::new(enode@.args.len(), |j: int| g.class(enode@.args[j]).data.ty),
        ),
        !enode@.operation.s_is_vector_op() ==> r@.vec_len == 1,
        enode@.operation.s_is_vector_op() ==> {
            &&& enode@.operation.s_vec_len() <= r@.vec_len
            &&& forall|j: int|
                0 <= j < enode@.args.len() ==> g.class(#[trigger] enode@.args[j]).data.vec_len
                    <= r@.vec_len
            &&& r@.vec_len == enode@.operation.s_vec_len() || (enode@.args.len() == 0
                && r@.vec_len == 1) || exists|j: int|
                0 <= j < enode@.args.len() && g.class(#[trigger] enode@.args[j]).data.vec_len
                    == r@.vec_len
        },
{
    let node = enode@;
    lemma_of_args(*g, node);
    lemma_child_lanes(*g, node, node.args.len());
    assert(crate::extract::beam_pareto::child_types(known(*g), node) =~= Seq::new(
        node.args.len(),
        |j: int| g.class(node.args[j]).data.ty,
    )) by {
        assert forall|j: int| 0 <= j < node.args.len() implies child(known(*g), node, j).ty
            == g.class(node.args[j]).data.ty by {
            assert(child(known(*g), node, j) == g.class(node.args[j]).data@);
        }
    }
}

// ---------------------------------------------------------------------------
// Nodes with few arguments
// ---------------------------------------------------------------------------

/// A node without arguments has one selection: no library function, and its
/// own cycles.
pub proof fn law_leaf<Op, N: Number, T>(
    a: &ISAXAnalysis<N>,
    g: &EGraph<Op, ISAXCost<N, T>>,
    enode: &AstNode<Op>,
    r: ISAXCost<N, T>,
) where Op: OperationInfo<N> + Teachable<N> + TypeInfo<T>, T: Duplicate
    requires
        call_ensures(ISAXAnalysis::<N>::make::<Op, T>, (a, g, enode), r),
        enode@.args.len() == 0,
        !defines_lib::<Op, N>(enode@),
    ensures
        r@.cs == seq![
            SelView::<N> {
                cycles: N::s_zero().s_plus(
                    work::<Op, N>(enode@.operation, a.bb_query@, r@.vec_len),
                ),
                area: 0,
                libs: Seq::empty(),
            },
        ],
{
}

/// A node with one argument has the selections of the argument, each with the
/// cycles of the node more. Where it takes a part out of a vector, the cycles
/// are shared among the lanes of the vector.
pub proof fn law_one_argument<Op, N: Number, T>(
    a: &ISAXAnalysis<N>,
    g: &EGraph<Op, ISAXCost<N, T>>,
    enode: &AstNode<Op>,
    r: ISAXCost<N, T>,
) where Op: OperationInfo<N> + Teachable<N> + TypeInfo<T>, T: Duplicate
    requires
        g.wf(),
        g.args_valid(enode@),
        call_ensures(ISAXAnalysis::<N>::make::<Op, T>, (a, g, enode), r),
        enode@.args.len() == 1,
        !defines_lib::<Op, N>(enode@),
    ensures
        r@.cs.len() == of_arg(*g, enode@, 0).len(),
        forall|i: int|
            0 <= i < r@.cs.len() ==> {
                let x = of_arg(*g, enode@, 0)[i];
                let sum = x.cycles.s_plus(
                    work::<Op, N>(enode@.operation, a.bb_query@, r@.vec_len),
                );
                &&& (#[trigger] r@.cs[i]).libs == x.libs
                &&& r@.cs[i].area == x.area
                &&& r@.cs[i].cycles == if enode@.operation.s_is_get_from_vec() {
                    sum.s_over(N::s_count(g.class(enode@.args[0]).data.vec_len))
                } else {
                    sum
                }
            },
{
    lemma_of_args(*g, enode@);
    assert(child(known(*g), enode@, 0) == g.class(enode@.args[0]).data@);
}

// ---------------------------------------------------------------------------
// Definitions and merged classes
// ---------------------------------------------------------------------------

proof fn lemma_with_lib_from<N: Number>(
    s: Seq<SelView<N>>,
    n: nat,
    lib: usize,
    latency_acc: N,
    latency_cpu: N,
    area: usize,
    exe_count: N,
    id: usize,
    lps: usize,
    x: SelView<N>,
)
    requires
        n <= s.len(),
        all_with_lib(s, n, lib, latency_acc, latency_cpu, area, exe_count, id, lps).contains(x),
    ensures
        exists|i: int|
            0 <= i < n && x == with_lib(
                #[trigger] s[i],
                lib,
                latency_acc,
                latency_cpu,
                area,
                exe_count,
                id,
                lps,
            ),
    decreases n,
{
    if n > 0 {
        let m = (n - 1) as nat;
        let before = all_with_lib(s, m, lib, latency_acc, latency_cpu, area, exe_count, id, lps);
        let y = with_lib(s[n - 1], lib, latency_acc, latency_cpu, area, exe_count, id, lps);
        lemma_inserted_from(before, y, x);
        if before.contains(x) {
            lemma_with_lib_from(s, m, lib, latency_acc, latency_cpu, area, exe_count, id, lps, x);
            let i = choose|i: int|
                0 <= i < m && x == with_lib(
                    #[trigger] s[i],
                    lib,
                    latency_acc,
                    latency_cpu,
                    area,
                    exe_count,
                    id,
                    lps,
                );
            assert(x == with_lib(
                s[i],
                lib,
                latency_acc,
                latency_cpu,
                area,
                exe_count,
                id,
                lps,
            ));
        } else {
            assert(x == with_lib(
                s[n - 1],
                lib,
                latency_acc,
                latency_cpu,
                area,
                exe_count,
                id,
                lps,
            ));
        }
    }
}

/// A node that defines a library function has selections of the expression
/// that uses it, with one more site of the library function: that expression,
/// which runs as often as its first basic block. Where the library function is
/// not faster than the processor, or takes no area, they are as they were.
pub proof fn law_definition_node<Op, N: Number, T>(
    a: &ISAXAnalysis<N>,
    g: &EGraph<Op, ISAXCost<N, T>>,
    enode: &AstNode<Op>,
    r: ISAXCost<N, T>,
    lib: LibId,
    value: usize,
    body: usize,
    lat_cpu: N,
    lat_acc: N,
    area: usize,
) where Op: OperationInfo<N> + Teachable<N> + TypeInfo<T>, T: Duplicate
    requires
        g.wf(),
        body < g.slots@.len(),
        binding_of::<Op, usize, N>(enode@) == Some(
            BindingExpr::<usize, N>::Lib(lib, value, body, lat_cpu, lat_acc, area),
        ),
        call_ensures(ISAXAnalysis::<N>::make::<Op, T>, (a, g, enode), r),
    ensures
        ({
            let used = g.class(body).data@;
            let q = a.bb_query@;
            let runs = if used.bb.len() > 0 && q.map.dom().contains(used.bb[0]) {
                q.map[used.bb[0]].execution_count_normalized
            } else {
                q.factor
            };
            if lat_cpu.s_le(lat_acc) || area == 0 {
                r@.cs == used.cs
            } else {
                &&& r@.cs.len() <= a.inter_beam
                &&& used.cs.len() > 0 && a.inter_beam > 0 ==> r@.cs.len() > 0
                &&& forall|k: int|
                    0 <= k < r@.cs.len() ==> exists|i: int|
                        0 <= i < used.cs.len() && #[trigger] r@.cs[k] == with_lib(
                            #[trigger] used.cs[i],
                            lib.0,
                            lat_acc,
                            lat_cpu,
                            area,
                            runs,
                            body,
                            a.lps,
                        )
            }
        }),
{
    let used = g.class(body).data@;
    assert(g.slots@[body as int] < g.classes@.len());
    assert(known(*g).of(body) == used);
    let q = a.bb_query@;
    let runs = normalized_runs(q, used.bb);
    if !(lat_cpu.s_le(lat_acc) || area == 0) {
        let n = used.cs.len();
        let all = all_with_lib(used.cs, n, lib.0, lat_acc, lat_cpu, area, runs, body, a.lps);
        law_pruning_keeps_the_best(unified(all), a.inter_beam);
        law_unified(all);
        if n > 0 {
            lemma_inserted_nonempty(
                all_with_lib(
                    used.cs,
                    (n - 1) as nat,
                    lib.0,
                    lat_acc,
                    lat_cpu,
                    area,
                    runs,
                    body,
                    a.lps,
                ),
                with_lib(used.cs[n - 1], lib.0, lat_acc, lat_cpu, area, runs, body, a.lps),
            );
        }
        assert forall|k: int| 0 <= k < r@.cs.len() implies exists|i: int|
            0 <= i < used.cs.len() && #[trigger] r@.cs[k] == with_lib(
                #[trigger] used.cs[i],
                lib.0,
                lat_acc,
                lat_cpu,
                area,
                runs,
                body,
                a.lps,
            ) by {
            let x = r@.cs[k];
            assert(r@.cs.contains(x));
            lemma_reduced_from(all, a.inter_beam, x);
            lemma_with_lib_from(
                used.cs,
                n,
                lib.0,
                lat_acc,
                lat_cpu,
                area,
                runs,
                body,
                a.lps,
                x,
            );
        }
    }
}

proof fn lemma_inserted_nonempty<N: Number>(s: Seq<SelView<N>>, x: SelView<N>)
    ensures
        inserted(s, x).len() > 0,
{
    lemma_cycle_slot_range(s, x.cycles);
}

/// Merging two classes keeps selections of the one or the other, as many as
/// the beam holds, and none where something of either is better. The class has
/// the basic blocks of both and the most lanes.
pub proof fn law_merged_classes<Op, N: Number, T>(
    to: CostView<N, T>,
    from: CostView<N, T>,
    beam: usize,
) where Op: TypeInfo<T>
    ensures
        ({
            let r = merged::<Op, N, T>(to, from, beam);
            &&& r.cs.len() <= beam
            &&& to.cs.len() + from.cs.len() > 0 && beam > 0 ==> r.cs.len() > 0
            &&& forall|x: SelView<N>| #[trigger]
                r.cs.contains(x) ==> to.cs.contains(x) || from.cs.contains(x)
            &&& forall|x: SelView<N>, y: SelView<N>|
                #![trigger r.cs.contains(x), to.cs.contains(y)]
                #![trigger r.cs.contains(x), from.cs.contains(y)]
                r.cs.contains(x) && (to.cs.contains(y) || from.cs.contains(y)) ==> !is_better(y, x)
            &&& r.ty == Op::s_merge_types(to.ty, from.ty)
            &&& forall|b: Seq<char>| #[trigger]
                r.bb.contains(b) <==> to.bb.contains(b) || from.bb.contains(b)
            &&& r.vec_len >= to.vec_len && r.vec_len >= from.vec_len
            &&& r.vec_len == to.vec_len || r.vec_len == from.vec_len
        }),
{
    let both = to.cs + from.cs;
    let r = merged::<Op, N, T>(to, from, beam);
    let all = united(to.cs, from.cs);
    law_text_union(to.bb, from.bb);
    law_pruning_keeps_the_best(unified(all), beam);
    law_unified(all);
    let d = distinct(both, both.len());
    lemma_distinct_members(both, both.len());
    lemma_sorted_members(d, sel_order::<N>(true));
    if both.len() > 0 {
        lemma_distinct_nonempty(both, both.len());
    }
    assert forall|x: SelView<N>, y: SelView<N>|
        #![trigger r.cs.contains(x), to.cs.contains(y)]
        #![trigger r.cs.contains(x), from.cs.contains(y)]
        r.cs.contains(x) && (to.cs.contains(y) || from.cs.contains(y)) implies !is_better(y, x) by {
        if to.cs.contains(y) {
            let i = choose|i: int| 0 <= i < to.cs.len() && to.cs[i] == y;
            assert(both[i] == y);
        } else {
            let i = choose|i: int| 0 <= i < from.cs.len() && from.cs[i] == y;
            assert(both[to.cs.len() + i] == y);
        }
        lemma_none_better(both, beam, x, y);
    }
    assert forall|x: SelView<N>| #[trigger] r.cs.contains(x) implies to.cs.contains(x)
        || from.cs.contains(x) by {
        lemma_reduced_from(all, beam, x);
        assert(d.contains(x));
        assert(both.contains(x));
        let i = choose|i: int| 0 <= i < both.len() && both[i] == x;
        if i < to.cs.len() {
            assert(to.cs[i] == x);
        } else {
            assert(from.cs[i - to.cs.len()] == x);
        }
    }
}

proof fn lemma_distinct_covers<N: Number>(s: Seq<SelView<N>>, n: nat, k: int)
    requires
        0 <= k < n <= s.len(),
    ensures
        has_same(distinct(s, n), s[k]),
    decreases n,
{
    let d = distinct(s, (n - 1) as nat);
    let e = distinct(s, n);
    if k < n - 1 {
        lemma_distinct_covers(s, (n - 1) as nat, k);
        let i = choose|i: int| 0 <= i < d.len() && same_sel(#[trigger] d[i], s[k]);
        assert(e[i] == d[i]);
    } else if !has_same(d, s[k]) {
        lemma_same_libs_as_itself(s[k].libs);
        N::le_total(s[k].cycles, s[k].cycles);
        assert(same_sel(e[d.len() as int], s[k]));
    }
}

proof fn lemma_none_better<N: Number>(both: Seq<SelView<N>>, beam: usize, x: SelView<N>, y: SelView<N>)
    requires
        ({
            let d = distinct(both, both.len());
            pruned(unified(sorted(d, sel_order(true))), beam).contains(x)
        }),
        both.contains(y),
    ensures
        !is_better(y, x),
{
    let d = distinct(both, both.len());
    let all = sorted(d, sel_order(true));
    let k = choose|k: int| 0 <= k < both.len() && both[k] == y;
    lemma_distinct_covers(both, both.len(), k);
    let i = choose|i: int| 0 <= i < d.len() && same_sel(#[trigger] d[i], y);
    let z = d[i];
    lemma_sorted_members(d, sel_order::<N>(true));
    assert(d.contains(z));
    assert(all.contains(z));
    law_pruning_adds_nothing(unified(all), beam);
    assert(unified(all).contains(x));
    law_unifying_keeps_the_best(all);
    assert(!is_better(z, x));
    if is_better(y, x) {
        N::le_transitive(z.cycles, y.cycles, x.cycles);
        if x.cycles.s_le(z.cycles) {
            N::le_transitive(x.cycles, z.cycles, y.cycles);
        }
    }
}

proof fn lemma_distinct_nonempty<N: Number>(s: Seq<SelView<N>>, n: nat)
    requires
        0 < n <= s.len(),
    ensures
        distinct(s, n).len() > 0,
    decreases n,
{
    if n > 1 {
        lemma_distinct_nonempty(s, (n - 1) as nat);
    } else {
        assert(distinct(s, 0).len() == 0);
    }
}

// ---------------------------------------------------------------------------
// Crossing
// ---------------------------------------------------------------------------

proof fn lemma_inserted_from<N: Number>(s: Seq<SelView<N>>, x: SelView<N>, y: SelView<N>)
    requires
        inserted(s, x).contains(y),
    ensures
        s.contains(y) || y == x,
{
    lemma_cycle_slot_range(s, x.cycles);
    let p = cycle_slot(s, x.cycles);
    let t = inserted(s, x);
    let i = choose|i: int| 0 <= i < t.len() && t[i] == y;
    if t.len() == s.len() || i < p {
        assert(s[i] == y);
    } else if i > p {
        assert(s[i - 1] == y);
    }
}

/// Whether a selection is one of `s` combined with one of `others`.
pub open spec fn is_pair<N: Number>(
    x: SelView<N>,
    s: Seq<SelView<N>>,
    others: Seq<SelView<N>>,
    lps: usize,
) -> bool {
    exists|a: SelView<N>, b: SelView<N>|
        s.contains(a) && others.contains(b) && x == #[trigger] combined(a, b, lps)
}

proof fn lemma_row_from<N: Number>(
    acc: Seq<SelView<N>>,
    s: Seq<SelView<N>>,
    a: SelView<N>,
    others: Seq<SelView<N>>,
    m: nat,
    lps: usize,
    x: SelView<N>,
)
    requires
        s.contains(a),
        m <= others.len(),
        crossed_row(acc, a, others, m, lps).contains(x),
    ensures
        acc.contains(x) || is_pair(x, s, others, lps),
    decreases m,
{
    if m > 0 {
        let before = crossed_row(acc, a, others, (m - 1) as nat, lps);
        let b = others[m - 1];
        lemma_inserted_from(before, combined(a, b, lps), x);
        if before.contains(x) {
            lemma_row_from(acc, s, a, others, (m - 1) as nat, lps, x);
        } else {
            assert(others.contains(b));
        }
    }
}

proof fn lemma_crossed_from<N: Number>(
    s: Seq<SelView<N>>,
    n: nat,
    others: Seq<SelView<N>>,
    lps: usize,
    x: SelView<N>,
)
    requires
        n <= s.len(),
        crossed(s, n, others, lps).contains(x),
    ensures
        is_pair(x, s, others, lps),
    decreases n,
{
    if n > 0 {
        let before = crossed(s, (n - 1) as nat, others, lps);
        assert(s.contains(s[n - 1]));
        lemma_row_from(before, s, s[n - 1], others, others.len(), lps, x);
        if before.contains(x) {
            lemma_crossed_from(s, (n - 1) as nat, others, lps, x);
        }
    }
}

/// Whether a selection with the same cycles is there.
spec fn has_cycles<N: Number>(s: Seq<SelView<N>>, c: N) -> bool {
    exists|k: int|
        0 <= k < s.len() && (#[trigger] s[k]).cycles.s_le(c) && c.s_le(s[k].cycles)
}

proof fn lemma_inserted_cycles<N: Number>(s: Seq<SelView<N>>, x: SelView<N>, c: N)
    requires
        has_cycles(s, c) || c == x.cycles,
    ensures
        has_cycles(inserted(s, x), c),
{
    lemma_cycle_slot_range(s, x.cycles);
    let p = cycle_slot(s, x.cycles);
    let t = inserted(s, x);
    N::le_total(c, c);
    if has_cycles(s, c) {
        let k = choose|k: int|
            0 <= k < s.len() && (#[trigger] s[k]).cycles.s_le(c) && c.s_le(s[k].cycles);
        if t.len() == s.len() || k < p {
            assert(t[k] == s[k]);
        } else {
            assert(t[k + 1] == s[k]);
        }
    } else if t.len() == s.len() {
        assert(t[p] == s[p]);
    } else {
        assert(t[p] == x);
    }
}

proof fn lemma_row_cycles<N: Number>(
    acc: Seq<SelView<N>>,
    a: SelView<N>,
    others: Seq<SelView<N>>,
    m: nat,
    lps: usize,
    c: N,
)
    requires
        m <= others.len(),
        has_cycles(acc, c) || exists|j: int|
            0 <= j < m && c == combined(a, #[trigger] others[j], lps).cycles,
    ensures
        has_cycles(crossed_row(acc, a, others, m, lps), c),
    decreases m,
{
    if m > 0 {
        let before = crossed_row(acc, a, others, (m - 1) as nat, lps);
        if has_cycles(acc, c) {
            lemma_row_cycles(acc, a, others, (m - 1) as nat, lps, c);
        } else {
            let j = choose|j: int|
                0 <= j < m && c == combined(a, #[trigger] others[j], lps).cycles;
            if j < m - 1 {
                lemma_row_cycles(acc, a, others, (m - 1) as nat, lps, c);
            }
        }
        lemma_inserted_cycles(before, combined(a, others[m - 1], lps), c);
    }
}

proof fn lemma_crossed_cycles<N: Number>(
    s: Seq<SelView<N>>,
    n: nat,
    others: Seq<SelView<N>>,
    lps: usize,
    i: int,
    j: int,
)
    requires
        0 <= i < n <= s.len(),
        0 <= j < others.len(),
    ensures
        has_cycles(crossed(s, n, others, lps), combined(s[i], others[j], lps).cycles),
    decreases n,
{
    let c = combined(s[i], others[j], lps).cycles;
    let before = crossed(s, (n - 1) as nat, others, lps);
    if i < n - 1 {
        lemma_crossed_cycles(s, (n - 1) as nat, others, lps, i, j);
    } else {
        assert(c == combined(s[n - 1], others[j], lps).cycles);
    }
    lemma_row_cycles(before, s[n - 1], others, others.len(), lps, c);
}

/// Crossing two sets combines selections of the one with selections of the
/// other, and each two of them: the cycles of every such pair are among those
/// of the result.
pub proof fn law_crossing<N: Number>(
    s: Seq<SelView<N>>,
    others: Seq<SelView<N>>,
    lps: usize,
)
    ensures
        forall|x: SelView<N>| #[trigger]
            crossed(s, s.len(), others, lps).contains(x) ==> is_pair(x, s, others, lps),
        forall|i: int, j: int|
            0 <= i < s.len() && 0 <= j < others.len() ==> exists|k: int|
                0 <= k < crossed(s, s.len(), others, lps).len() && (#[trigger] crossed(
                    s,
                    s.len(),
                    others,
                    lps,
                )[k]).cycles.s_le(
                    combined(#[trigger] s[i], #[trigger] others[j], lps).cycles,
                ) && combined(s[i], others[j], lps).cycles.s_le(
                    crossed(s, s.len(), others, lps)[k].cycles,
                ),
{
    let t = crossed(s, s.len(), others, lps);
    assert forall|x: SelView<N>| #[trigger] t.contains(x) implies is_pair(x, s, others, lps) by {
        lemma_crossed_from(s, s.len(), others, lps, x);
    }
    assert forall|i: int, j: int| 0 <= i < s.len() && 0 <= j < others.len() implies exists|k: int|
        0 <= k < t.len() && (#[trigger] t[k]).cycles.s_le(
            combined(#[trigger] s[i], #[trigger] others[j], lps).cycles,
        ) && combined(s[i], others[j], lps).cycles.s_le(t[k].cycles) by {
        lemma_crossed_cycles(s, s.len(), others, lps, i, j);
        let c = combined(s[i], others[j], lps).cycles;
        let k = choose|k: int|
            0 <= k < t.len() && (#[trigger] t[k]).cycles.s_le(c) && c.s_le(t[k].cycles);
        assert(t[k].cycles.s_le(c));
    }
}

/// Whether `chosen` has one selection of each of the sets.
pub open spec fn one_of_each<N: Number>(
    chosen: Seq<SelView<N>>,
    sets: Seq<Seq<SelView<N>>>,
) -> bool {
    chosen.len() == sets.len() && forall|i: int|
        0 <= i < sets.len() ==> (#[trigger] sets[i]).contains(chosen[i])
}

/// Selections combined, one after the other.
pub open spec fn all_combined<N: Number>(chosen: Seq<SelView<N>>, lps: usize) -> SelView<N> {
    chosen.drop_first().fold_left(
        chosen[0],
        |x: SelView<N>, y: SelView<N>| combined(x, y, lps),
    )
}

proof fn lemma_reduced_from<N: Number>(s: Seq<SelView<N>>, beam: usize, x: SelView<N>)
    requires
        pruned(unified(s), beam).contains(x),
    ensures
        s.contains(x),
{
    law_pruning_adds_nothing(unified(s), beam);
    law_unified(s);
    assert(unified(s).contains(x));
}

proof fn lemma_crossed_all_from<N: Number>(
    sets: Seq<Seq<SelView<N>>>,
    k: nat,
    lps: usize,
    beam: usize,
    x: SelView<N>,
) -> (chosen: Seq<SelView<N>>)
    requires
        0 < k <= sets.len(),
        crossed_all(sets, k, lps, beam).contains(x),
    ensures
        one_of_each(chosen, sets.take(k as int)),
        x == all_combined(chosen, lps),
    decreases k,
{
    let f = |x: SelView<N>, y: SelView<N>| combined(x, y, lps);
    if k == 1 {
        let chosen = seq![x];
        assert(chosen.drop_first() =~= Seq::<SelView<N>>::empty());
        assert(Seq::<SelView<N>>::empty().fold_left(x, f) == x);
        chosen
    } else {
        let before = crossed_all(sets, (k - 1) as nat, lps, beam);
        lemma_reduced_from(crossed(before, before.len(), sets[k - 1], lps), beam, x);
        lemma_crossed_from(before, before.len(), sets[k - 1], lps, x);
        let (a, b) = choose|a: SelView<N>, b: SelView<N>|
            before.contains(a) && sets[k - 1].contains(b) && x == #[trigger] combined(a, b, lps);
        let fewer = lemma_crossed_all_from(sets, (k - 1) as nat, lps, beam, a);
        let chosen = fewer.push(b);
        let t = sets.take(k as int);
        assert forall|i: int| 0 <= i < t.len() implies (#[trigger] t[i]).contains(chosen[i]) by {
            if i < k - 1 {
                assert(sets.take(k - 1)[i] == t[i]);
                assert(fewer[i] == chosen[i]);
            }
        }
        assert(chosen.drop_first() =~= fewer.drop_first().push(b));
        assert(fewer.drop_first().push(b).drop_last() =~= fewer.drop_first());
        assert(all_combined(chosen, lps) == combined(all_combined(fewer, lps), b, lps));
        chosen
    }
}

/// Every selection of a node with several arguments is a combination of one
/// selection of each of them, with the cycles of the node more.
pub proof fn law_selections_are_combinations<Op, N: Number, T>(
    a: &ISAXAnalysis<N>,
    g: &EGraph<Op, ISAXCost<N, T>>,
    enode: &AstNode<Op>,
    r: ISAXCost<N, T>,
    i: int,
) where Op: OperationInfo<N> + Teachable<N> + TypeInfo<T>, T: Duplicate
    requires
        g.wf(),
        g.args_valid(enode@),
        call_ensures(ISAXAnalysis::<N>::make::<Op, T>, (a, g, enode), r),
        enode@.args.len() >= 2,
        !defines_lib::<Op, N>(enode@),
        0 <= i < r@.cs.len(),
    ensures
        exists|order: Seq<Seq<SelView<N>>>, chosen: Seq<SelView<N>>|
            order.to_multiset() == of_args(*g, enode@).to_multiset() && #[trigger] one_of_each(
                chosen,
                order,
            ) && r@.cs[i] == (SelView {
                cycles: all_combined(chosen, a.lps).cycles.s_plus(
                    work::<Op, N>(enode@.operation, a.bb_query@, r@.vec_len),
                ),
                ..all_combined(chosen, a.lps)
            }),
{
    let node = enode@;
    lemma_of_args(*g, node);
    let order = sorted(of_args(*g, node), set_order());
    lemma_sorted(of_args(*g, node), set_order());
    let all = crossed_all(order, order.len(), a.lps, a.inter_beam);
    assert(order.len() == node.args.len());
    assert(all.contains(all[i]));
    let chosen = lemma_crossed_all_from(order, order.len(), a.lps, a.inter_beam, all[i]);
    assert(order.take(order.len() as int) =~= order);
    assert(one_of_each(chosen, order));
}

// ---------------------------------------------------------------------------
// One selection each
// ---------------------------------------------------------------------------

/// The selection without library functions that has these cycles.
pub open spec fn bare<N: Number>(cycles: N) -> SelView<N> {
    SelView { cycles, area: 0, libs: Seq::empty() }
}

proof fn lemma_bare_combined<N: Number>(x: N, y: N, lps: usize)
    ensures
        combined(bare(x), bare(y), lps) == bare(x.s_plus(y)),
{
    let (a, b) = (bare(x), bare(y));
    assert(merged_known(a, b.libs, 0) == a);
    assert(taken_new(a, b.libs, 0, lps) == a);
}

proof fn lemma_one_stays<N: Number>(x: SelView<N>, beam: usize)
    requires
        beam > 0,
    ensures
        pruned(unified(seq![x]), beam) == seq![x],
{
    let s = seq![x];
    law_unified(s);
    let u = unified(s);
    assert(u.contains(u[0]));
    assert(u =~= s);
    let best = |c: SelView<N>| !dominated(s, c);
    let other = |c: SelView<N>| !has_libs(s, c);
    assert forall|i: int| 0 <= i < s.len() implies best(#[trigger] s[i]) && !other(s[i]) by {
        if dominated(s, s[i]) {
            let j = choose|j: int| 0 <= j < s.len() && dominates(#[trigger] s[j], s[i]);
            assert(s[j] == x);
        }
        lemma_same_libs_as_itself(x.libs);
        assert(has_libs(s, s[i]));
    }
    lemma_filter_all(s, best);
    lemma_filter_none(s, other);
    assert(frontier(s) == s);
    lemma_sorted_members(remaining(s, s), sel_order::<N>(false));
    assert(s + sorted(remaining(s, s), sel_order(false)) =~= s);
}

proof fn lemma_bare_crossed<N: Number>(x: N, y: N, lps: usize)
    ensures
        crossed(seq![bare(x)], 1, seq![bare(y)], lps) == seq![bare(x.s_plus(y))],
{
    let s = seq![bare(x)];
    let t = seq![bare(y)];
    let none = Seq::<SelView<N>>::empty();
    lemma_bare_combined(x, y, lps);
    assert(crossed(s, 0, t, lps) == none);
    assert(crossed_row(none, s[0], t, 0, lps) == none);
    let z = bare(x.s_plus(y));
    assert(cycle_slot(none, z.cycles) == 0);
    assert(inserted(none, z) =~= seq![z]);
    assert(crossed_row(none, s[0], t, 1, lps) == inserted(none, z));
}

proof fn lemma_bare_crossed_all<N: Number>(
    sets: Seq<Seq<SelView<N>>>,
    cycles: Seq<N>,
    k: nat,
    lps: usize,
    beam: usize,
)
    requires
        0 < k <= sets.len() == cycles.len(),
        beam > 0,
        forall|i: int| 0 <= i < sets.len() ==> #[trigger] sets[i] == seq![bare(cycles[i])],
    ensures
        crossed_all(sets, k, lps, beam) == seq![
            bare(
                cycles.take(k as int).drop_first().fold_left(
                    cycles[0],
                    |x: N, y: N| x.s_plus(y),
                ),
            ),
        ],
    decreases k,
{
    let f = |x: N, y: N| x.s_plus(y);
    let c = cycles.take(k as int).drop_first();
    if k == 1 {
        assert(c =~= Seq::<N>::empty());
        assert(c.fold_left(cycles[0], f) == cycles[0]);
        assert(sets[0] == seq![bare(cycles[0])]);
    } else {
        lemma_bare_crossed_all(sets, cycles, (k - 1) as nat, lps, beam);
        let before = cycles.take(k - 1).drop_first();
        assert(c.drop_last() =~= before);
        assert(c.last() == cycles[k - 1]);
        let x = before.fold_left(cycles[0], f);
        assert(sets[k - 1] == seq![bare(cycles[k - 1])]);
        lemma_bare_crossed(x, cycles[k - 1], lps);
        lemma_one_stays(bare(x.s_plus(cycles[k - 1])), beam);
    }
}

/// The cycles of the only selection of each argument.
pub open spec fn only_cycles<Op, N: Number, T>(
    g: EGraph<Op, ISAXCost<N, T>>,
    node: NodeView<Op>,
) -> Seq<N> {
    Seq::new(node.args.len(), |j: int| of_arg(g, node, j)[0].cycles)
}

/// Whether every argument has one selection, without library functions.
pub open spec fn args_are_bare<Op, N: Number, T>(
    g: EGraph<Op, ISAXCost<N, T>>,
    node: NodeView<Op>,
) -> bool {
    forall|j: int|
        0 <= j < node.args.len() ==> of_arg(g, node, j) == seq![
            bare(#[trigger] only_cycles(g, node)[j]),
        ]
}

proof fn lemma_rearranged<A, B>(s: Seq<A>, t: Seq<A>, f: spec_fn(A) -> B)
    requires
        s.to_multiset() == t.to_multiset(),
    ensures
        s.map_values(f).to_multiset() == t.map_values(f).to_multiset(),
    decreases s.len(),
{
    broadcast use {vstd::seq_lib::group_to_multiset_ensures, vstd::multiset::group_multiset_axioms};

    assert(s.to_multiset().len() == s.len() && t.to_multiset().len() == t.len());
    if s.len() == 0 {
        assert(s.map_values(f) =~= t.map_values(f));
    } else {
        let x = s.last();
        assert(s.contains(x));
        assert(t.to_multiset().count(x) > 0);
        assert(t.contains(x));
        let i = choose|i: int| 0 <= i < t.len() && t[i] == x;
        let rest = t.remove(i);
        assert(s.drop_last().push(x) =~= s);
        assert(s.drop_last().to_multiset() =~= rest.to_multiset()) by {
            assert(s.to_multiset() =~= s.drop_last().to_multiset().insert(x));
            assert(rest.to_multiset() =~= t.to_multiset().remove(x));
        }
        lemma_rearranged(s.drop_last(), rest, f);
        assert(s.map_values(f) =~= s.drop_last().map_values(f).push(f(x)));
        assert(t.map_values(f).remove(i) =~= rest.map_values(f));
        assert(t.map_values(f) =~= t.map_values(f).remove(i).insert(i, f(x)));
        vstd::seq_lib::to_multiset_insert(rest.map_values(f), i, f(x));
    }
}

/// Where every argument has one selection, without library functions, so has
/// the node. Its cycles are those of all arguments, in some order, and its
/// own.
pub proof fn law_bare_arguments<Op, N: Number, T>(
    a: &ISAXAnalysis<N>,
    g: &EGraph<Op, ISAXCost<N, T>>,
    enode: &AstNode<Op>,
    r: ISAXCost<N, T>,
) where Op: OperationInfo<N> + Teachable<N> + TypeInfo<T>, T: Duplicate
    requires
        g.wf(),
        g.args_valid(enode@),
        call_ensures(ISAXAnalysis::<N>::make::<Op, T>, (a, g, enode), r),
        enode@.args.len() >= 2,
        !defines_lib::<Op, N>(enode@),
        a.inter_beam > 0,
        args_are_bare(*g, enode@),
    ensures
        exists|order: Seq<N>|
            #![trigger order.to_multiset()]
            order.to_multiset() == only_cycles(*g, enode@).to_multiset() && r@.cs == seq![
                bare(
                    order.drop_first().fold_left(order[0], |x: N, y: N| x.s_plus(y)).s_plus(
                        work::<Op, N>(enode@.operation, a.bb_query@, r@.vec_len),
                    ),
                ),
            ],
{
    let node = enode@;
    let sets = of_args(*g, node);
    lemma_of_args(*g, node);
    let order = sorted(sets, set_order());
    lemma_sorted(sets, set_order());
    lemma_sorted_members(sets, set_order());
    let f = |s: Seq<SelView<N>>| s[0].cycles;
    let cycles = order.map_values(f);
    lemma_rearranged(order, sets, f);
    assert(sets.map_values(f) =~= only_cycles(*g, node));
    assert forall|i: int| 0 <= i < order.len() implies #[trigger] order[i] == seq![
        bare(cycles[i]),
    ] by {
        assert(order.contains(order[i]));
        assert(sets.contains(order[i]));
        let j = choose|j: int| 0 <= j < sets.len() && sets[j] == order[i];
        assert(of_arg(*g, node, j) == seq![bare(only_cycles(*g, node)[j])]);
    }
    lemma_bare_crossed_all(order, cycles, order.len(), a.lps, a.inter_beam);
    assert(cycles.take(order.len() as int) =~= cycles);
    let sum = cycles.drop_first().fold_left(cycles[0], |x: N, y: N| x.s_plus(y));
    assert(r@.cs =~= seq![
        bare(sum.s_plus(work::<Op, N>(node.operation, a.bb_query@, r@.vec_len))),
    ]);
    assert(cycles.to_multiset() == only_cycles(*g, node).to_multiset());
}

// ---------------------------------------------------------------------------
// Fixed-point cycles
// ---------------------------------------------------------------------------

/// Cycles in thousandths, together.
pub open spec fn sum_raw(s: Seq<Fixed>) -> int {
    s.fold_left(0int, |sum: int, x: Fixed| sum + x.raw)
}

proof fn lemma_sum_raw_bounds(s: Seq<Fixed>, n: int)
    requires
        0 <= n <= s.len(),
        forall|i: int| 0 <= i < s.len() ==> (#[trigger] s[i]).raw >= 0,
    ensures
        0 <= sum_raw(s.take(n)) <= sum_raw(s),
    decreases s.len() - n, n,
{
    let f = |sum: int, x: Fixed| sum + x.raw;
    if n < s.len() {
        lemma_sum_raw_bounds(s, n + 1);
        assert(s.take(n + 1).drop_last() =~= s.take(n));
        assert(s.take(n + 1).last() == s[n]);
    } else {
        assert(s.take(n) =~= s);
    }
    lemma_sum_raw_nonnegative(s.take(n));
}

proof fn lemma_sum_raw_nonnegative(s: Seq<Fixed>)
    requires
        forall|i: int| 0 <= i < s.len() ==> (#[trigger] s[i]).raw >= 0,
    ensures
        sum_raw(s) >= 0,
    decreases s.len(),
{
    if s.len() > 0 {
        let t = s.drop_last();
        assert forall|i: int| 0 <= i < t.len() implies (#[trigger] t[i]).raw >= 0 by {
            assert(s[i] == t[i]);
        }
        lemma_sum_raw_nonnegative(t);
        assert(s[s.len() - 1].raw >= 0);
    }
}

proof fn lemma_fixed_fold(s: Seq<Fixed>, n: int)
    requires
        1 <= n <= s.len(),
        forall|i: int| 0 <= i < s.len() ==> (#[trigger] s[i]).raw >= 0,
        sum_raw(s) <= i64::MAX,
    ensures
        s.take(n).drop_first().fold_left(s[0], |x: Fixed, y: Fixed| x.s_plus(y)).raw == sum_raw(
            s.take(n),
        ),
    decreases n,
{
    let f = |x: Fixed, y: Fixed| x.s_plus(y);
    let t = s.take(n);
    let c = t.drop_first();
    lemma_sum_raw_bounds(s, n);
    assert(t.drop_last() =~= s.take(n - 1));
    assert(t.last() == s[n - 1]);
    if n == 1 {
        assert(c =~= Seq::<Fixed>::empty());
        assert(c.fold_left(s[0], f) == s[0]);
        assert(sum_raw(s.take(0)) == 0);
    } else {
        lemma_fixed_fold(s, n - 1);
        assert(c.drop_last() =~= s.take(n - 1).drop_first());
        assert(c.last() == s[n - 1]);
    }
}

proof fn lemma_sum_rearranged(s: Seq<Fixed>, t: Seq<Fixed>)
    requires
        s.to_multiset() == t.to_multiset(),
    ensures
        sum_raw(s) == sum_raw(t),
{
    let f = |sum: int, x: Fixed| sum + x.raw;
    assert(vstd::seq_lib::commutative_foldl(f));
    vstd::seq_lib::lemma_fold_left_permutation(s, t, f, 0int);
}

/// Where every argument has one selection, without library functions, the
/// cycles of the node are the sum of those of all its arguments and its own.
pub proof fn law_cycles_add_up<Op, T>(
    a: &ISAXAnalysis<Fixed>,
    g: &EGraph<Op, ISAXCost<Fixed, T>>,
    enode: &AstNode<Op>,
    r: ISAXCost<Fixed, T>,
) where Op: OperationInfo<Fixed> + Teachable<Fixed> + TypeInfo<T>, T: Duplicate
    requires
        g.wf(),
        g.args_valid(enode@),
        call_ensures(ISAXAnalysis::<Fixed>::make::<Op, T>, (a, g, enode), r),
        !defines_lib::<Op, Fixed>(enode@),
        !enode@.operation.s_is_get_from_vec(),
        a.inter_beam > 0,
        args_are_bare(*g, enode@),
        ({
            let own = work::<Op, Fixed>(enode@.operation, a.bb_query@, r@.vec_len);
            let each = only_cycles(*g, enode@);
            &&& own.raw >= 0
            &&& forall|j: int| 0 <= j < each.len() ==> (#[trigger] each[j]).raw >= 0
            &&& sum_raw(each) + own.raw <= i64::MAX
        }),
    ensures
        r@.cs.len() == 1,
        r@.cs[0].libs.len() == 0,
        r@.cs[0].area == 0,
        r@.cs[0].cycles.raw == sum_raw(only_cycles(*g, enode@)) + work::<Op, Fixed>(
            enode@.operation,
            a.bb_query@,
            r@.vec_len,
        ).raw,
{
    let node = enode@;
    let each = only_cycles(*g, node);
    if node.args.len() == 0 {
        law_leaf(a, g, enode, r);
        assert(sum_raw(each) == 0);
    } else if node.args.len() == 1 {
        law_one_argument(a, g, enode, r);
        assert(of_arg(*g, node, 0) == seq![bare(each[0])]);
        assert(r@.cs[0].libs == of_arg(*g, node, 0)[0].libs);
        assert(each.drop_last() =~= Seq::<Fixed>::empty());
        assert(sum_raw(each.drop_last()) == 0);
        assert(sum_raw(each) == each[0].raw);
    } else {
        law_bare_arguments(a, g, enode, r);
        let order = choose|order: Seq<Fixed>|
            #![trigger order.to_multiset()]
            order.to_multiset() == each.to_multiset() && r@.cs == seq![
                bare(
                    order.drop_first().fold_left(
                        order[0],
                        |x: Fixed, y: Fixed| x.s_plus(y),
                    ).s_plus(work::<Op, Fixed>(node.operation, a.bb_query@, r@.vec_len)),
                ),
            ];
        broadcast use vstd::seq_lib::group_to_multiset_ensures;

        assert(order.to_multiset().len() == order.len());
        assert(each.to_multiset().len() == each.len());
        assert forall|i: int| 0 <= i < order.len() implies (#[trigger] order[i]).raw >= 0 by {
            assert(order.contains(order[i]));
            assert(each.to_multiset().count(order[i]) > 0);
            assert(each.contains(order[i]));
            let j = choose|j: int| 0 <= j < each.len() && each[j] == order[i];
            assert(each[j].raw >= 0);
        }
        lemma_sum_rearranged(order, each);
        assert(order.take(order.len() as int) =~= order);
        lemma_fixed_fold(order, order.len() as int);
        lemma_sum_raw_nonnegative(order);
    }
}

} // verus!
