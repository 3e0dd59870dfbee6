//! What the analysis of an e-graph keeps.
use crate::ast_node::NodeView;
use crate::extract::beam_pareto::{
    analyzed, child, child_sets, crossed_all, merged, CostView, ISAXAnalysis, Known, TypeInfo,
};
use crate::extract::cost_set::{
    all_with_lib, crossed, crossed_row, cycle_slot, distinct, inserted, law_pruning_adds_nothing,
    law_unified, lemma_cycle_slot_range, lemma_distinct_members, lemma_sorted_members, pruned,
    sel_order, set_order, unified, united,
};
use crate::extract::lib_sel::{
    combined, law_combined_selection, law_selection_with_lib, with_lib, SelView,
};
use crate::number::Number;
use crate::runner::operation::OperationInfo;
use crate::sorting::sorted;
use crate::teachable::{binding_of, law_binding_parts_are_args, BindingExpr, Teachable};
use vstd::prelude::*;

verus! {

/// Whether every selection is well formed and has at most `lps` library
/// functions.
pub open spec fn all_small<N: Number>(s: Seq<SelView<N>>, lps: usize) -> bool {
    forall|i: int| 0 <= i < s.len() ==> (#[trigger] s[i]).wf() && s[i].libs.len() <= lps
}

proof fn lemma_members_small<N: Number>(a: Seq<SelView<N>>, b: Seq<SelView<N>>, lps: usize)
    requires
        all_small(b, lps),
        forall|x: SelView<N>| a.contains(x) ==> b.contains(x),
    ensures
        all_small(a, lps),
{
    assert forall|i: int| 0 <= i < a.len() implies (#[trigger] a[i]).wf() && a[i].libs.len()
        <= lps by {
        assert(a.contains(a[i]));
        let j = choose|j: int| 0 <= j < b.len() && b[j] == a[i];
        assert(b[j].wf());
    }
}

proof fn lemma_inserted_small<N: Number>(s: Seq<SelView<N>>, x: SelView<N>, lps: usize)
    requires
        all_small(s, lps),
        x.wf(),
        x.libs.len() <= lps,
    ensures
        all_small(inserted(s, x), lps),
{
    lemma_cycle_slot_range(s, x.cycles);
    let p = cycle_slot(s, x.cycles);
    let t = inserted(s, x);
    assert forall|i: int| 0 <= i < t.len() implies (#[trigger] t[i]).wf() && t[i].libs.len()
        <= lps by {
        if t.len() == s.len() || i < p {
            assert(t[i] == s[i]);
        } else if i > p {
            assert(t[i] == s[i - 1]);
        }
    }
}

proof fn lemma_row_small<N: Number>(
    acc: Seq<SelView<N>>,
    a: SelView<N>,
    others: Seq<SelView<N>>,
    m: nat,
    lps: usize,
)
    requires
        all_small(acc, lps),
        a.wf(),
        a.libs.len() <= lps,
        all_small(others, lps),
        m <= others.len(),
    ensures
        all_small(crossed_row(acc, a, others, m, lps), lps),
    decreases m,
{
    if m > 0 {
        lemma_row_small(acc, a, others, (m - 1) as nat, lps);
        assert(others[m - 1].wf());
        law_combined_selection(a, others[m - 1], lps);
        lemma_inserted_small(
            crossed_row(acc, a, others, (m - 1) as nat, lps),
            combined(a, others[m - 1], lps),
            lps,
        );
    }
}

proof fn lemma_crossed_small<N: Number>(
    s: Seq<SelView<N>>,
    n: nat,
    others: Seq<SelView<N>>,
    lps: usize,
)
    requires
        all_small(s, lps),
        all_small(others, lps),
        n <= s.len(),
    ensures
        all_small(crossed(s, n, others, lps), lps),
    decreases n,
{
    if n > 0 {
        lemma_crossed_small(s, (n - 1) as nat, others, lps);
        assert(s[n - 1].wf());
        lemma_row_small(
            crossed(s, (n - 1) as nat, others, lps),
            s[n - 1],
            others,
            others.len(),
            lps,
        );
    }
}

proof fn lemma_reduced_small<N: Number>(s: Seq<SelView<N>>, beam: usize, lps: usize)
    requires
        all_small(s, lps),
    ensures
        all_small(pruned(unified(s), beam), lps),
{
    law_unified(s);
    lemma_members_small(unified(s), s, lps);
    law_pruning_adds_nothing(unified(s), beam);
    lemma_members_small(pruned(unified(s), beam), unified(s), lps);
}

proof fn lemma_crossed_all_small<N: Number>(
    sets: Seq<Seq<SelView<N>>>,
    k: nat,
    lps: usize,
    beam: usize,
)
    requires
        0 < k <= sets.len(),
        forall|i: int| 0 <= i < sets.len() ==> all_small(#[trigger] sets[i], lps),
    ensures
        all_small(crossed_all(sets, k, lps, beam), lps),
    decreases k,
{
    if k > 1 {
        lemma_crossed_all_small(sets, (k - 1) as nat, lps, beam);
        let before = crossed_all(sets, (k - 1) as nat, lps, beam);
        lemma_crossed_small(before, before.len(), sets[k - 1], lps);
        lemma_reduced_small(crossed(before, before.len(), sets[k - 1], lps), beam, lps);
    }
}

proof fn lemma_with_lib_small<N: Number>(
    s: Seq<SelView<N>>,
    n: nat,
    lib: usize,
    latency_acc: N,
    latency_cpu: N,
    area: usize,
    exe_count: N,
    id: usize,
    lps: usize,
)
    requires
        all_small(s, lps),
        n <= s.len(),
    ensures
        all_small(all_with_lib(s, n, lib, latency_acc, latency_cpu, area, exe_count, id, lps), lps),
    decreases n,
{
    if n > 0 {
        let m = (n - 1) as nat;
        lemma_with_lib_small(s, m, lib, latency_acc, latency_cpu, area, exe_count, id, lps);
        assert(s[n - 1].wf());
        law_selection_with_lib(
            s[n - 1],
            lib,
            latency_acc,
            latency_cpu,
            area,
            exe_count,
            id,
            lps,
        );
        lemma_inserted_small(
            all_with_lib(s, m, lib, latency_acc, latency_cpu, area, exe_count, id, lps),
            with_lib(s[n - 1], lib, latency_acc, latency_cpu, area, exe_count, id, lps),
            lps,
        );
    }
}

/// Where the selections of the arguments have at most so many library
/// functions as the analysis allows, so have those of the node.
pub proof fn law_nodes_have_small_selections<Op, N: Number, T>(
    a: ISAXAnalysis<N>,
    g: Known<N, T>,
    node: NodeView<Op>,
) where Op: OperationInfo<N> + Teachable<N> + TypeInfo<T>
    requires
        forall|j: int|
            0 <= j < node.args.len() ==> all_small((#[trigger] child(g, node, j)).cs, a.lps),
    ensures
        all_small(analyzed(a, g, node).cs, a.lps),
{
    let lps = a.lps;
    let r = analyzed(a, g, node).cs;
    law_binding_parts_are_args::<Op, usize, N>(node);
    match binding_of::<Op, usize, N>(node) {
        Some(BindingExpr::Lib(id, value, body, lat_cpu, lat_acc, area)) => {
            assert(seq![value, body][1] == body);
            assert(node.args[1] == body);
            assert(all_small(child(g, node, 1).cs, lps));
            let data = g.of(body);
            let runs = crate::extract::beam_pareto::normalized_runs(a.bb_query@, data.bb);
            lemma_with_lib_small(
                data.cs,
                data.cs.len(),
                id.0,
                lat_acc,
                lat_cpu,
                area,
                runs,
                body,
                lps,
            );
            lemma_reduced_small(
                all_with_lib(
                    data.cs,
                    data.cs.len(),
                    id.0,
                    lat_acc,
                    lat_cpu,
                    area,
                    runs,
                    body,
                    lps,
                ),
                a.inter_beam,
                lps,
            );
        },
        _ => {
            if node.args.len() == 1 {
                let only = child(g, node, 0).cs;
                assert(all_small(only, lps));
                assert forall|i: int| 0 <= i < r.len() implies (#[trigger] r[i]).wf()
                    && r[i].libs.len() <= lps by {
                    assert(only[i].wf());
                    assert(r[i].libs == only[i].libs && r[i].area == only[i].area);
                }
            } else if node.args.len() > 1 {
                let unordered = child_sets(g, node);
                let sets = sorted(unordered, set_order());
                lemma_sorted_members(unordered, set_order());
                assert forall|i: int| 0 <= i < sets.len() implies all_small(
                    #[trigger] sets[i],
                    lps,
                ) by {
                    assert(sets.contains(sets[i]));
                    assert(unordered.contains(sets[i]));
                    let j = choose|j: int| 0 <= j < unordered.len() && unordered[j] == sets[i];
                    assert(child(g, node, j).cs == unordered[j]);
                }
                lemma_crossed_all_small(sets, sets.len(), lps, a.inter_beam);
                let all = crossed_all(sets, sets.len(), lps, a.inter_beam);
                assert forall|i: int| 0 <= i < r.len() implies (#[trigger] r[i]).wf()
                    && r[i].libs.len() <= lps by {
                    assert(all[i].wf());
                    assert(r[i].libs == all[i].libs && r[i].area == all[i].area);
                }
            }
        },
    }
}

/// Merging two classes leaves no selection with more library functions than
/// one of them had.
pub proof fn law_classes_have_small_selections<Op, N: Number, T>(
    to: CostView<N, T>,
    from: CostView<N, T>,
    beam_size: usize,
    lps: usize,
) where Op: TypeInfo<T>
    requires
        all_small(to.cs, lps),
        all_small(from.cs, lps),
    ensures
        all_small(merged::<Op, N, T>(to, from, beam_size).cs, lps),
{
    let both = to.cs + from.cs;
    assert forall|i: int| 0 <= i < both.len() implies (#[trigger] both[i]).wf()
        && both[i].libs.len() <= lps by {
        if i < to.cs.len() {
            assert(both[i] == to.cs[i]);
        } else {
            assert(both[i] == from.cs[i - to.cs.len()]);
        }
    }
    lemma_distinct_members(both, both.len());
    lemma_sorted_members(distinct(both, both.len()), sel_order(true));
    assert forall|x: SelView<N>| united(to.cs, from.cs).contains(x) implies both.contains(x) by {
        assert(distinct(both, both.len()).contains(x));
    }
    lemma_members_small(united(to.cs, from.cs), both, lps);
    lemma_reduced_small(united(to.cs, from.cs), beam_size, lps);
}

} // verus!
