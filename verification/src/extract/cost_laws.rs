//! What the operations on sets of selections keep.
use crate::extract::cost_set::{
    all_with_lib, cycles_increase, dominated, dominates, frontier, group_of, grouped, has_libs,
    law_selections_are_ordered, law_sets_are_ordered, law_unified, lemma_filter_len,
    lemma_filter_members, lemma_group_of, lemma_grouped, lemma_inserted_increasing,
    lemma_sorted_members, pruned, remaining, same_info, same_libs, sel_order, thinned, unified,
};
use crate::extract::lib_sel::{uses_subset, with_lib, InfoView, SelView};
use crate::id_map::keys;
use crate::number::{same_rank, Number};
use crate::sorting::{in_order, lemma_sorted, sorted};
use vstd::prelude::*;

verus! {

/// Adding a site of a library function leaves the cycles growing from each
/// selection to the next.
pub proof fn law_libs_are_added_in_order<N: Number>(
    s: Seq<SelView<N>>,
    n: nat,
    lib: usize,
    latency_acc: N,
    latency_cpu: N,
    area: usize,
    exe_count: N,
    id: usize,
    lps: usize,
)
    ensures
        cycles_increase(
            all_with_lib(s, n, lib, latency_acc, latency_cpu, area, exe_count, id, lps),
        ),
    decreases n,
{
    if n > 0 {
        let m = (n - 1) as nat;
        law_libs_are_added_in_order(
            s,
            m,
            lib,
            latency_acc,
            latency_cpu,
            area,
            exe_count,
            id,
            lps,
        );
        lemma_inserted_increasing(
            all_with_lib(s, m, lib, latency_acc, latency_cpu, area, exe_count, id, lps),
            with_lib(s[n - 1], lib, latency_acc, latency_cpu, area, exe_count, id, lps),
        );
    }
}

/// Whether `x` has the smallest area, and the fewest cycles for it, of the
/// first `n` selections with its library functions.
spec fn least_of<N: Number>(s: Seq<SelView<N>>, n: nat, x: SelView<N>) -> bool {
    forall|k: int|
        0 <= k < n && keys((#[trigger] s[k]).libs) == keys(x.libs) ==> {
            &&& x.area <= s[k].area
            &&& x.area == s[k].area ==> x.cycles.s_le(s[k].cycles)
        }
}

/// Whether `x` is one of the first `n` selections.
spec fn is_among<N: Number>(s: Seq<SelView<N>>, n: nat, x: SelView<N>) -> bool {
    exists|k: int| 0 <= k < n && #[trigger] s[k] == x
}

/// A selection does not come behind one that follows it.
proof fn lemma_earlier<N: Number>(s: Seq<SelView<N>>, m: nat, x: SelView<N>)
    requires
        m < s.len(),
        in_order(s, sel_order(true)),
        is_among(s, m, x),
    ensures
        x.cycles.s_le(s[m as int].cycles),
{
    let j = choose|j: int| 0 <= j < m && #[trigger] s[j] == x;
    assert(sel_order::<N>(true)(s[j], s[m as int]));
}

/// The selections of which none was kept have other library functions.
proof fn lemma_no_group<N: Number>(s: Seq<SelView<N>>, m: nat, ids: Seq<usize>)
    requires
        m <= s.len(),
        group_of(grouped(s, m), ids, 0) >= grouped(s, m).len(),
    ensures
        forall|k: int| 0 <= k < m ==> keys((#[trigger] s[k]).libs) != ids,
{
    let acc = grouped(s, m);
    lemma_grouped(s, m);
    lemma_group_of(acc, ids, 0);
    assert forall|k: int| 0 <= k < m implies keys((#[trigger] s[k]).libs) != ids by {
        let i = choose|i: int|
            0 <= i < acc.len() && keys((#[trigger] acc[i]).libs) == keys(s[k].libs);
        assert(keys(acc[i].libs) != ids);
    }
}

/// The group of the library functions is the only one with them.
proof fn lemma_one_group<N: Number>(s: Seq<SelView<N>>, m: nat, ids: Seq<usize>, g: int)
    requires
        m <= s.len(),
        0 <= g < grouped(s, m).len(),
        keys(grouped(s, m)[g].libs) == ids,
    ensures
        group_of(grouped(s, m), ids, 0) == g,
{
    let acc = grouped(s, m);
    lemma_grouped(s, m);
    lemma_group_of(acc, ids, 0);
    let at = group_of(acc, ids, 0);
    if at < g {
        assert(keys(acc[at].libs) != keys(acc[g].libs));
    } else if g < at {
        assert(keys(acc[g].libs) != ids);
    }
}

proof fn lemma_grouped_least<N: Number>(s: Seq<SelView<N>>, n: nat)
    requires
        n <= s.len(),
        in_order(s, sel_order(true)),
    ensures
        forall|g: int|
            0 <= g < grouped(s, n).len() ==> least_of(s, n, #[trigger] grouped(s, n)[g])
                && is_among(s, n, grouped(s, n)[g]),
    decreases n,
{
    if n > 0 {
        let m = (n - 1) as nat;
        lemma_grouped_least(s, m);
        let acc = grouped(s, m);
        let cand = s[n - 1];
        let ids = keys(cand.libs);
        let at = group_of(acc, ids, 0);
        lemma_group_of(acc, ids, 0);
        N::le_total(cand.cycles, cand.cycles);
        let t = grouped(s, n);
        assert forall|g: int| 0 <= g < t.len() implies least_of(s, n, #[trigger] t[g]) && is_among(
            s,
            n,
            t[g],
        ) by {
            let x = t[g];
            if g < acc.len() {
                assert(least_of(s, m, acc[g]) && is_among(s, m, acc[g]));
                lemma_earlier(s, m, acc[g]);
            }
            if g < acc.len() && x == acc[g] {
                let k = choose|k: int| 0 <= k < m && #[trigger] s[k] == x;
                assert(s[k] == x);
                if keys(x.libs) == ids {
                    lemma_one_group(s, m, ids, g);
                    assert(x.area <= cand.area);
                }
            } else {
                assert(x == cand);
                assert(s[n - 1] == x);
                if g >= acc.len() {
                    lemma_no_group(s, m, ids);
                } else {
                    assert(acc[g].area > cand.area);
                }
            }
        }
    }
}

/// Unifying keeps only the frontier: no selection of the set is at least as
/// good as one that it keeps in cycles and in area, and better in one of them.
pub proof fn law_unified_is_a_frontier<N: Number>(s: Seq<SelView<N>>, x: SelView<N>, y: SelView<N>)
    requires
        unified(s).contains(x),
        s.contains(y),
    ensures
        !dominates(y, x),
{
    law_unified(s);
    let k = choose|k: int| 0 <= k < s.len() && s[k] == y;
    assert(s[k] == y);
    assert(!dominated(s, x));
}

/// Of the selections on the frontier with the same library functions, the one
/// with the smallest area stays.
pub proof fn law_unified_keeps_the_smallest<N: Number>(
    s: Seq<SelView<N>>,
    x: SelView<N>,
    y: SelView<N>,
)
    requires
        unified(s).contains(x),
        frontier(s).contains(y),
        keys(x.libs) == keys(y.libs),
    ensures
        x.area <= y.area,
        x.area == y.area ==> x.cycles.s_le(y.cycles),
{
    let le = sel_order::<N>(true);
    let f = frontier(s);
    law_selections_are_ordered::<N>(true);
    lemma_sorted(f, le);
    lemma_sorted_members(f, le);
    let t = sorted(f, le);
    let g = grouped(t, t.len());
    lemma_sorted_members(g, le);
    lemma_grouped_least(t, t.len());
    assert(g.contains(x));
    assert(t.contains(y));
    let i = choose|i: int| 0 <= i < g.len() && g[i] == x;
    let k = choose|k: int| 0 <= k < t.len() && t[k] == y;
    assert(least_of(t, t.len(), g[i]) && is_among(t, t.len(), g[i]));
    assert(keys(t[k].libs) == keys(x.libs));
}

/// Pruning what unifying keeps leaves it in ascending order of cycles, then of
/// area.
pub proof fn law_pruned_stays_in_order<N: Number>(s: Seq<SelView<N>>, beam_size: usize)
    ensures
        in_order(pruned(unified(s), beam_size), sel_order(false)),
{
    let u = unified(s);
    let le = sel_order::<N>(false);
    let best = |c: SelView<N>| !dominated(u, c);
    let other = |c: SelView<N>| !has_libs(u, c);
    law_unified(s);
    law_sets_are_ordered(s, s);
    law_selections_are_ordered::<N>(false);
    lemma_sorted(u, le);
    assert forall|i: int| 0 <= i < u.len() implies best(#[trigger] u[i]) by {
        assert(u.contains(u[i]));
        if dominated(u, u[i]) {
            let j = choose|j: int| 0 <= j < u.len() && dominates(#[trigger] u[j], u[i]);
            assert(u.contains(u[j]));
            law_unified_is_a_frontier(s, u[i], u[j]);
        }
    }
    lemma_filter_all(u, best);
    assert forall|i: int| 0 <= i < u.len() implies !other(#[trigger] u[i]) by {
        lemma_same_libs_as_itself(u[i].libs);
        assert(has_libs(u, u[i]));
    }
    lemma_filter_none(u, other);
    assert(frontier(u) == u);
    assert(remaining(u, u).len() == 0);
    assert(u + sorted(remaining(u, u), le) =~= u) by {
        lemma_sorted(remaining(u, u), le);
    }
    assert forall|i: int, j: int| 0 <= i < j < u.len() implies le(
        #[trigger] u[i],
        #[trigger] u[j],
    ) by {
        assert(sel_order::<N>(true)(u[i], u[j]));
    }
}

pub(crate) proof fn lemma_same_libs_as_itself<N: Number>(libs: Seq<(usize, InfoView<N>)>)
    ensures
        same_libs(libs, libs),
{
    assert forall|i: int| 0 <= i < libs.len() implies (#[trigger] libs[i]).0 == libs[i].0
        && same_info(libs[i].1, libs[i].1) by {
        let info = libs[i].1;
        N::le_total(info.latency_acc, info.latency_acc);
        N::le_total(info.latency_cpu, info.latency_cpu);
        assert forall|k: int| 0 <= k < info.instances.len() implies same_rank(
            (#[trigger] info.instances[k]).1,
            info.instances[k].1,
        ) by {
            N::le_total(info.instances[k].1, info.instances[k].1);
        }
    }
}

pub(crate) proof fn lemma_filter_all<T>(s: Seq<T>, p: spec_fn(T) -> bool)
    requires
        forall|i: int| 0 <= i < s.len() ==> p(#[trigger] s[i]),
    ensures
        s.filter(p) == s,
    decreases s.len(),
{
    reveal(Seq::filter);
    if s.len() > 0 {
        lemma_filter_all(s.drop_last(), p);
        assert(s.drop_last().push(s.last()) =~= s);
    } else {
        assert(s.filter(p) =~= s);
    }
}

pub(crate) proof fn lemma_filter_none<T>(s: Seq<T>, p: spec_fn(T) -> bool)
    requires
        forall|i: int| 0 <= i < s.len() ==> !p(#[trigger] s[i]),
    ensures
        s.filter(p).len() == 0,
    decreases s.len(),
{
    reveal(Seq::filter);
    if s.len() > 0 {
        lemma_filter_none(s.drop_last(), p);
    }
}

proof fn lemma_thinned<N: Number>(s: Seq<SelView<N>>, i: int)
    requires
        0 <= i <= s.len(),
        forall|a: int, b: int|
            0 <= a < i && a < b < s.len() ==> !uses_subset(#[trigger] s[b], #[trigger] s[a]),
    ensures
        s.take(i).is_prefix_of(thinned(s, i)),
        forall|a: int, b: int|
            0 <= a < b < thinned(s, i).len() ==> !uses_subset(
                #[trigger] thinned(s, i)[b],
                #[trigger] thinned(s, i)[a],
            ),
        forall|x: SelView<N>| #[trigger] thinned(s, i).contains(x) ==> s.contains(x),
        forall|x: SelView<N>| #[trigger]
            s.contains(x) ==> exists|a: int|
                0 <= a < thinned(s, i).len() && uses_subset(x, #[trigger] thinned(s, i)[a]),
    decreases s.len() - i,
{
    let t = thinned(s, i);
    if i == s.len() {
        assert(s.take(i) =~= s);
        assert forall|x: SelView<N>| #[trigger] s.contains(x) implies exists|a: int|
            0 <= a < t.len() && uses_subset(x, #[trigger] t[a]) by {
            let a = choose|a: int| 0 <= a < s.len() && s[a] == x;
            assert(uses_subset(x, t[a]));
        }
    } else {
        let p = |x: SelView<N>| !uses_subset(x, s[i]);
        let tail = s.skip(i + 1);
        let rest = tail.filter(p);
        let u = s.take(i + 1) + rest;
        lemma_filter_len(tail, p);
        lemma_filter_members(tail, p);
        assert forall|b: int| i < b < u.len() implies p(#[trigger] u[b]) && tail.contains(u[b]) by {
            assert(u[b] == rest[b - (i + 1)]);
            assert(rest.contains(u[b]));
        }
        assert forall|a: int, b: int| 0 <= a < i + 1 && a < b < u.len() implies !uses_subset(
            #[trigger] u[b],
            #[trigger] u[a],
        ) by {
            assert(u[a] == s[a]);
            if b <= i {
                assert(u[b] == s[b]);
            } else {
                let k = choose|k: int| 0 <= k < tail.len() && tail[k] == u[b];
                assert(s[i + 1 + k] == u[b]);
                if a == i {
                    assert(p(u[b]));
                }
            }
        }
        lemma_thinned(u, i + 1);
        assert(t == thinned(u, i + 1));
        assert(u.take(i + 1) =~= s.take(i + 1));
        assert(s.take(i).is_prefix_of(t)) by {
            assert forall|k: int| 0 <= k < i implies s.take(i)[k] == t[k] by {
                assert(u.take(i + 1)[k] == t.take(i + 1)[k]);
            }
            assert(s.take(i) =~= t.subrange(0, i));
        }
        assert forall|x: SelView<N>| #[trigger] t.contains(x) implies s.contains(x) by {
            assert(u.contains(x));
            let k = choose|k: int| 0 <= k < u.len() && u[k] == x;
            if k <= i {
                assert(s[k] == x);
            } else {
                let m = choose|m: int| 0 <= m < tail.len() && tail[m] == u[k];
                assert(s[i + 1 + m] == x);
            }
        }
        assert forall|x: SelView<N>| #[trigger] s.contains(x) implies exists|a: int|
            0 <= a < t.len() && uses_subset(x, #[trigger] t[a]) by {
            let k = choose|k: int| 0 <= k < s.len() && s[k] == x;
            if k <= i {
                assert(u[k] == x);
                assert(u.contains(x));
            } else {
                assert(tail[k - (i + 1)] == x);
                assert(tail.contains(x));
                if p(x) {
                    assert(rest.contains(x));
                    let m = choose|m: int| 0 <= m < rest.len() && rest[m] == x;
                    assert(u[i + 1 + m] == x);
                    assert(u.contains(x));
                } else {
                    assert(u.take(i + 1)[i] == t.subrange(0, i + 1)[i]);
                    assert(t[i] == s[i]);
                    assert(uses_subset(x, t[i]));
                }
            }
        }
    }
}

/// After thinning, no selection uses only library functions of an earlier
/// one; every selection was there before; and what a selection that was there
/// before uses, one that is left uses too.
pub proof fn law_thinned<N: Number>(s: Seq<SelView<N>>)
    ensures
        forall|a: int, b: int|
            0 <= a < b < thinned(s, 0).len() ==> !uses_subset(
                #[trigger] thinned(s, 0)[b],
                #[trigger] thinned(s, 0)[a],
            ),
        forall|x: SelView<N>| #[trigger] thinned(s, 0).contains(x) ==> s.contains(x),
        forall|x: SelView<N>| #[trigger]
            s.contains(x) ==> exists|a: int|
                0 <= a < thinned(s, 0).len() && uses_subset(x, #[trigger] thinned(s, 0)[a]),
{
    lemma_thinned(s, 0);
}

} // verus!
