//! What selections of library functions become when they are combined.
use crate::extract::cost_laws::{
    law_unified_is_a_frontier, law_unified_keeps_the_smallest, lemma_filter_all, lemma_filter_none,
    lemma_same_libs_as_itself,
};
use crate::extract::cost_set::{
    dominated, dominates, frontier, has_libs, law_pruning_adds_nothing, law_selections_are_ordered,
    law_unified, lemma_filter_members, lemma_sorted_members, pruned, remaining, sel_order, unified,
};
use crate::extract::lib_sel::{
    cheaper, cheapest, combined, evicted, gain, law_evicts_the_least_saving, merged_known, runs,
    shared_cycles, shared_sites, taken, taken_new, with_lib, InfoView, LibSel, SelView,
};
use crate::id_map::{
    holds, increasing, keys, lemma_holds, lemma_put, put, slot, value_of,
};
use crate::number::Number;
use crate::sorting::{lemma_sorted, sorted};
use vstd::prelude::*;

verus! {

/// The cycles with what a site of a library function takes taken off, where
/// the site is among `mine`.
pub open spec fn less_if_shared<N: Number>(
    cycles: N,
    mine: Seq<(usize, N)>,
    latency: N,
    site: (usize, N),
) -> N {
    if holds(mine, site.0) {
        cycles.s_minus(latency.s_times(site.1))
    } else {
        cycles
    }
}

/// The cycles without those of the sites of a library function that the
/// library functions `mine` have already.
pub open spec fn less_shared<N: Number>(
    cycles: N,
    mine: Seq<(usize, InfoView<N>)>,
    lib: (usize, InfoView<N>),
) -> N {
    if holds(mine, lib.0) {
        lib.1.instances.fold_left(
            cycles,
            |c: N, site: (usize, N)|
                less_if_shared(c, value_of(mine, lib.0).instances, lib.1.latency_acc, site),
        )
    } else {
        cycles
    }
}

proof fn lemma_sites<N: Number>(
    cycles: N,
    latency: N,
    mine: Seq<(usize, N)>,
    theirs: Seq<(usize, N)>,
    n: nat,
)
    requires
        increasing(keys(mine)),
        increasing(keys(theirs)),
        n <= theirs.len(),
    ensures
        increasing(keys(shared_sites(mine, theirs, n))),
        forall|s: usize| #[trigger]
            holds(shared_sites(mine, theirs, n), s) <==> holds(mine, s) || holds(
                theirs.take(n as int),
                s,
            ),
        forall|s: usize|
            holds(mine, s) ==> #[trigger] value_of(shared_sites(mine, theirs, n), s) == value_of(
                mine,
                s,
            ),
        forall|s: usize|
            !holds(mine, s) && holds(theirs.take(n as int), s) ==> #[trigger] value_of(
                shared_sites(mine, theirs, n),
                s,
            ) == value_of(theirs, s),
        shared_cycles(cycles, latency, mine, theirs, n) == theirs.take(n as int).fold_left(
            cycles,
            |c: N, site: (usize, N)| less_if_shared(c, mine, latency, site),
        ),
    decreases n,
{
    let f = |c: N, site: (usize, N)| less_if_shared(c, mine, latency, site);
    let t = theirs.take(n as int);
    if n > 0 {
        lemma_sites(cycles, latency, mine, theirs, (n - 1) as nat);
        let before = shared_sites(mine, theirs, (n - 1) as nat);
        let fewer = theirs.take(n - 1);
        let (id, count) = theirs[n - 1];
        assert(t.drop_last() =~= fewer);
        assert(t.last() == theirs[n - 1]);
        assert(!holds(fewer, id)) by {
            if holds(fewer, id) {
                let i = choose|i: int| 0 <= i < fewer.len() && (#[trigger] fewer[i]).0 == id;
                assert(keys(theirs)[i] == id && keys(theirs)[n - 1] == id);
            }
        }
        assert forall|s: usize| holds(t, s) <==> holds(fewer, s) || s == id by {
            if holds(t, s) {
                let i = choose|i: int| 0 <= i < t.len() && (#[trigger] t[i]).0 == s;
                if i < n - 1 {
                    assert(fewer[i].0 == s);
                }
            }
            if holds(fewer, s) {
                let i = choose|i: int| 0 <= i < fewer.len() && (#[trigger] fewer[i]).0 == s;
                assert(t[i].0 == s);
            }
            if s == id {
                assert(t[n - 1].0 == s);
            }
        }
        assert(holds(before, id) <==> holds(mine, id));
        lemma_put(before, id, count);
        lemma_entry(theirs, n - 1);
        let after = shared_sites(mine, theirs, n);
        assert forall|s: usize| #[trigger] holds(after, s) <==> holds(mine, s) || holds(t, s) by {
            assert(holds(before, s) <==> holds(mine, s) || holds(fewer, s));
        }
        assert forall|s: usize| holds(mine, s) implies #[trigger] value_of(after, s) == value_of(
            mine,
            s,
        ) by {
            assert(value_of(before, s) == value_of(mine, s));
            assert(holds(before, s));
        }
        assert forall|s: usize| !holds(mine, s) && holds(t, s) implies #[trigger] value_of(after, s)
            == value_of(theirs, s) by {
            if s != id {
                assert(holds(fewer, s));
                assert(value_of(before, s) == value_of(theirs, s));
                assert(holds(before, s));
            }
        }
    } else {
        assert(t =~= Seq::<(usize, N)>::empty());
    }
}

/// The value of an entry is found under its key.
proof fn lemma_entry<V>(s: Seq<(usize, V)>, i: int)
    requires
        increasing(keys(s)),
        0 <= i < s.len(),
    ensures
        holds(s, s[i].0),
        value_of(s, s[i].0) == s[i].1,
{
    lemma_holds(s, s[i].0);
    let p = slot(keys(s), s[i].0);
    assert(holds(s, s[i].0));
    if p < i {
        assert(keys(s)[p] < keys(s)[i]);
    }
    if i < p {
        assert(keys(s)[i] < keys(s)[p]);
    }
}

/// What is known of a library function with the sites of another record of it.
pub open spec fn has_both_sites<N: Number>(
    r: InfoView<N>,
    a: InfoView<N>,
    b: InfoView<N>,
) -> bool {
    &&& r.latency_acc == a.latency_acc && r.latency_cpu == a.latency_cpu && r.area == a.area
    &&& forall|s: usize| #[trigger]
        holds(r.instances, s) <==> holds(a.instances, s) || holds(b.instances, s)
    &&& forall|s: usize|
        holds(r.instances, s) ==> #[trigger] value_of(r.instances, s) == if holds(a.instances, s) {
            value_of(a.instances, s)
        } else {
            value_of(b.instances, s)
        }
}

proof fn lemma_merged<N: Number>(a: SelView<N>, theirs: Seq<(usize, InfoView<N>)>, n: nat)
    requires
        a.wf(),
        increasing(keys(theirs)),
        forall|i: int|
            0 <= i < theirs.len() ==> increasing(keys((#[trigger] theirs[i]).1.instances)),
        n <= theirs.len(),
    ensures
        ({
            let r = merged_known(a, theirs, n);
            &&& increasing(keys(r.libs))
            &&& r.area == a.area
            &&& r.libs.len() == a.libs.len()
            &&& r.cycles == theirs.take(n as int).fold_left(
                a.cycles,
                |c: N, lib: (usize, InfoView<N>)| less_shared(c, a.libs, lib),
            )
            &&& forall|id: usize| #[trigger] holds(r.libs, id) <==> holds(a.libs, id)
            &&& forall|id: usize|
                holds(a.libs, id) && !holds(theirs.take(n as int), id) ==> #[trigger] value_of(
                    r.libs,
                    id,
                ) == value_of(a.libs, id)
            &&& forall|id: usize|
                holds(a.libs, id) && holds(theirs.take(n as int), id) ==> has_both_sites(
                    #[trigger] value_of(r.libs, id),
                    value_of(a.libs, id),
                    value_of(theirs, id),
                )
        }),
    decreases n,
{
    let f = |c: N, lib: (usize, InfoView<N>)| less_shared(c, a.libs, lib);
    let t = theirs.take(n as int);
    if n == 0 {
        assert(t =~= Seq::<(usize, InfoView<N>)>::empty());
    } else {
        lemma_merged(a, theirs, (n - 1) as nat);
        let before = merged_known(a, theirs, (n - 1) as nat);
        let fewer = theirs.take(n - 1);
        let (id, info) = theirs[n - 1];
        assert(t.drop_last() =~= fewer);
        assert(t.last() == theirs[n - 1]);
        assert(!holds(fewer, id)) by {
            if holds(fewer, id) {
                let i = choose|i: int| 0 <= i < fewer.len() && (#[trigger] fewer[i]).0 == id;
                assert(keys(theirs)[i] == id && keys(theirs)[n - 1] == id);
            }
        }
        assert forall|s: usize| holds(t, s) <==> holds(fewer, s) || s == id by {
            if holds(t, s) {
                let i = choose|i: int| 0 <= i < t.len() && (#[trigger] t[i]).0 == s;
                if i < n - 1 {
                    assert(fewer[i].0 == s);
                }
            }
            if holds(fewer, s) {
                let i = choose|i: int| 0 <= i < fewer.len() && (#[trigger] fewer[i]).0 == s;
                assert(t[i].0 == s);
            }
            if s == id {
                assert(t[n - 1].0 == s);
            }
        }
        lemma_entry(theirs, n - 1);
        let after = merged_known(a, theirs, n);
        if holds(before.libs, id) {
            let mine = value_of(before.libs, id);
            assert(mine == value_of(a.libs, id));
            lemma_holds(a.libs, id);
            assert(increasing(keys(a.libs[slot(keys(a.libs), id)].1.instances)));
            assert(increasing(keys(theirs[n - 1].1.instances)));
            lemma_sites(
                before.cycles,
                info.latency_acc,
                mine.instances,
                info.instances,
                info.instances.len(),
            );
            assert(info.instances.take(info.instances.len() as int) =~= info.instances);
            let new = InfoView {
                instances: shared_sites(mine.instances, info.instances, info.instances.len()),
                ..mine
            };
            lemma_put(before.libs, id, new);
            lemma_holds(before.libs, id);
            assert(has_both_sites(new, mine, info));
            assert forall|k: usize| #[trigger] holds(after.libs, k) <==> holds(a.libs, k) by {
                assert(holds(before.libs, k) <==> holds(a.libs, k));
            }
            assert forall|k: usize| holds(a.libs, k) && !holds(t, k) implies #[trigger] value_of(
                after.libs,
                k,
            ) == value_of(a.libs, k) by {
                assert(holds(before.libs, k));
                assert(value_of(before.libs, k) == value_of(a.libs, k));
            }
            assert forall|k: usize| holds(a.libs, k) && holds(t, k) implies has_both_sites(
                #[trigger] value_of(after.libs, k),
                value_of(a.libs, k),
                value_of(theirs, k),
            ) by {
                assert(holds(before.libs, k));
                if k != id {
                    assert(has_both_sites(
                        value_of(before.libs, k),
                        value_of(a.libs, k),
                        value_of(theirs, k),
                    ));
                }
            }
        } else {
            assert(!holds(a.libs, id));
        }
    }
}

proof fn lemma_all_taken<N: Number>(
    s: SelView<N>,
    theirs: Seq<(usize, InfoView<N>)>,
    n: nat,
    lps: usize,
)
    requires
        increasing(keys(s.libs)),
        increasing(keys(theirs)),
        n <= theirs.len(),
        s.libs.len() + n <= lps,
    ensures
        ({
            let r = taken_new(s, theirs, n, lps);
            &&& increasing(keys(r.libs))
            &&& r.libs.len() <= s.libs.len() + n
            &&& r.cycles == s.cycles
            &&& r.area == theirs.take(n as int).fold_left(
                s.area,
                |x: int, lib: (usize, InfoView<N>)|
                    if holds(s.libs, lib.0) {
                        x
                    } else {
                        x + lib.1.area
                    },
            )
            &&& forall|id: usize| #[trigger]
                holds(r.libs, id) <==> holds(s.libs, id) || holds(theirs.take(n as int), id)
            &&& forall|id: usize|
                holds(s.libs, id) ==> #[trigger] value_of(r.libs, id) == value_of(s.libs, id)
            &&& forall|id: usize|
                !holds(s.libs, id) && holds(theirs.take(n as int), id) ==> #[trigger] value_of(
                    r.libs,
                    id,
                ) == value_of(theirs, id)
        }),
    decreases n,
{
    let f = |x: int, lib: (usize, InfoView<N>)|
        if holds(s.libs, lib.0) {
            x
        } else {
            x + lib.1.area
        };
    let t = theirs.take(n as int);
    if n == 0 {
        assert(t =~= Seq::<(usize, InfoView<N>)>::empty());
    } else {
        lemma_all_taken(s, theirs, (n - 1) as nat, lps);
        let before = taken_new(s, theirs, (n - 1) as nat, lps);
        let fewer = theirs.take(n - 1);
        let (id, info) = theirs[n - 1];
        assert(t.drop_last() =~= fewer);
        assert(t.last() == theirs[n - 1]);
        assert(!holds(fewer, id)) by {
            if holds(fewer, id) {
                let i = choose|i: int| 0 <= i < fewer.len() && (#[trigger] fewer[i]).0 == id;
                assert(keys(theirs)[i] == id && keys(theirs)[n - 1] == id);
            }
        }
        assert forall|k: usize| holds(t, k) <==> holds(fewer, k) || k == id by {
            if holds(t, k) {
                let i = choose|i: int| 0 <= i < t.len() && (#[trigger] t[i]).0 == k;
                if i < n - 1 {
                    assert(fewer[i].0 == k);
                }
            }
            if holds(fewer, k) {
                let i = choose|i: int| 0 <= i < fewer.len() && (#[trigger] fewer[i]).0 == k;
                assert(t[i].0 == k);
            }
            if k == id {
                assert(t[n - 1].0 == k);
            }
        }
        assert(holds(before.libs, id) <==> holds(s.libs, id));
        lemma_entry(theirs, n - 1);
        lemma_put(before.libs, id, info);
        lemma_holds(before.libs, id);
        let after = taken_new(s, theirs, n, lps);
        assert forall|k: usize| #[trigger] holds(after.libs, k) <==> holds(s.libs, k) || holds(
            t,
            k,
        ) by {
            assert(holds(before.libs, k) <==> holds(s.libs, k) || holds(fewer, k));
        }
        assert forall|k: usize| holds(s.libs, k) implies #[trigger] value_of(after.libs, k)
            == value_of(s.libs, k) by {
            assert(value_of(before.libs, k) == value_of(s.libs, k));
            assert(holds(before.libs, k));
        }
        assert forall|k: usize| !holds(s.libs, k) && holds(t, k) implies #[trigger] value_of(
            after.libs,
            k,
        ) == value_of(theirs, k) by {
            if k != id {
                assert(holds(fewer, k));
                assert(value_of(before.libs, k) == value_of(theirs, k));
                assert(holds(before.libs, k));
            }
        }
    }
}

/// Where there is room for the library functions of both, combining two
/// selections keeps those of both. A library function that both have keeps
/// what the first knows of it, with the sites of both. The cycles add up, less
/// what the sites take that both have; the areas add up, less those of the
/// library functions that both have.
pub proof fn law_combining_with_room<N: Number>(
    a: &LibSel<N>,
    b: &LibSel<N>,
    lps: usize,
    r: Option<LibSel<N>>,
)
    requires
        a@.wf(),
        b@.wf(),
        a@.libs.len() + b@.libs.len() <= lps,
        call_ensures(LibSel::<N>::combine, (a, b, lps), r),
    ensures
        r is Some,
        r->Some_0@.cycles == b@.libs.fold_left(
            a@.cycles,
            |c: N, lib: (usize, InfoView<N>)| less_shared(c, a@.libs, lib),
        ).s_plus(b@.cycles),
        r->Some_0@.area == b@.libs.fold_left(
            a@.area,
            |x: int, lib: (usize, InfoView<N>)|
                if holds(a@.libs, lib.0) {
                    x
                } else {
                    x + lib.1.area
                },
        ),
        forall|id: usize| #[trigger]
            holds(r->Some_0@.libs, id) <==> holds(a@.libs, id) || holds(b@.libs, id),
        forall|id: usize|
            holds(a@.libs, id) && !holds(b@.libs, id) ==> #[trigger] value_of(r->Some_0@.libs, id)
                == value_of(a@.libs, id),
        forall|id: usize|
            !holds(a@.libs, id) && holds(b@.libs, id) ==> #[trigger] value_of(r->Some_0@.libs, id)
                == value_of(b@.libs, id),
        forall|id: usize|
            holds(a@.libs, id) && holds(b@.libs, id) ==> has_both_sites(
                #[trigger] value_of(r->Some_0@.libs, id),
                value_of(a@.libs, id),
                value_of(b@.libs, id),
            ),
{
    let (x, y) = (a@, b@);
    let n = y.libs.len();
    assert(y.libs.take(n as int) =~= y.libs);
    lemma_merged(x, y.libs, n);
    let known = merged_known(x, y.libs, n);
    lemma_all_taken(known, y.libs, n, lps);
    let all = taken_new(known, y.libs, n, lps);
    let z = r->Some_0@;
    assert(z == combined(x, y, lps));
    let f = |x: int, lib: (usize, InfoView<N>)|
        if holds(known.libs, lib.0) {
            x
        } else {
            x + lib.1.area
        };
    let g = |x: int, lib: (usize, InfoView<N>)|
        if holds(a@.libs, lib.0) {
            x
        } else {
            x + lib.1.area
        };
    assert(f =~= g) by {
        assert forall|x: int, lib: (usize, InfoView<N>)| #[trigger] f(x, lib) == g(x, lib) by {
            assert(holds(known.libs, lib.0) <==> holds(a@.libs, lib.0));
        }
    }
    assert forall|id: usize| #[trigger] holds(z.libs, id) <==> holds(x.libs, id) || holds(
        y.libs,
        id,
    ) by {
        assert(holds(known.libs, id) <==> holds(x.libs, id));
        assert(holds(all.libs, id) <==> holds(known.libs, id) || holds(y.libs, id));
    }
    assert forall|id: usize| holds(x.libs, id) && !holds(y.libs, id) implies #[trigger] value_of(
        z.libs,
        id,
    ) == value_of(x.libs, id) by {
        assert(holds(known.libs, id));
        assert(value_of(known.libs, id) == value_of(x.libs, id));
        assert(value_of(all.libs, id) == value_of(known.libs, id));
    }
    assert forall|id: usize| !holds(x.libs, id) && holds(y.libs, id) implies #[trigger] value_of(
        z.libs,
        id,
    ) == value_of(y.libs, id) by {
        assert(!holds(known.libs, id));
        assert(value_of(all.libs, id) == value_of(y.libs, id));
    }
    assert forall|id: usize| holds(x.libs, id) && holds(y.libs, id) implies has_both_sites(
        #[trigger] value_of(z.libs, id),
        value_of(x.libs, id),
        value_of(y.libs, id),
    ) by {
        assert(holds(known.libs, id));
        assert(has_both_sites(
            value_of(known.libs, id),
            value_of(x.libs, id),
            value_of(y.libs, id),
        ));
        assert(value_of(all.libs, id) == value_of(known.libs, id));
    }
}

// ---------------------------------------------------------------------------
// Too many library functions
// ---------------------------------------------------------------------------

/// What a library function saves: the cycles that it saves each time, as often
/// as its sites run (`by_runs`), or once for each of them.
pub open spec fn saving<N: Number>(info: InfoView<N>, by_runs: bool) -> N {
    info.latency_cpu.s_minus(info.latency_acc).s_times(
        if by_runs {
            info.instances.fold_left(
                N::s_zero(),
                |sum: N, site: (usize, N)| sum.s_plus(site.1),
            )
        } else {
            N::s_count(info.instances.len() as usize)
        },
    )
}

proof fn lemma_runs<N: Number>(sites: Seq<(usize, N)>, n: nat)
    requires
        n <= sites.len(),
    ensures
        runs(sites, n) == sites.take(n as int).fold_left(
            N::s_zero(),
            |sum: N, site: (usize, N)| sum.s_plus(site.1),
        ),
    decreases n,
{
    let t = sites.take(n as int);
    if n > 0 {
        lemma_runs(sites, (n - 1) as nat);
        assert(t.drop_last() =~= sites.take(n - 1));
        assert(t.last() == sites[n - 1]);
    }
}

proof fn lemma_saving<N: Number>(info: InfoView<N>, by_runs: bool)
    ensures
        gain(info, by_runs) == saving(info, by_runs),
{
    lemma_runs(info.instances, info.instances.len());
    assert(info.instances.take(info.instances.len() as int) =~= info.instances);
}

/// Whether `r` are the library functions without the one at `j`, which saves
/// no more than any other.
pub open spec fn least_left<N: Number>(
    all: Seq<(usize, InfoView<N>)>,
    j: int,
    by_runs: bool,
    r: Seq<(usize, InfoView<N>)>,
) -> bool {
    &&& 0 <= j < all.len()
    &&& r == all.remove(j)
    &&& forall|i: int|
        0 <= i < all.len() ==> saving(all[j].1, by_runs).s_le(
            saving((#[trigger] all[i]).1, by_runs),
        )
}

proof fn lemma_evicts<N: Number>(more: SelView<N>, by_runs: bool) -> (j: int)
    requires
        more.libs.len() > 0,
    ensures
        least_left(more.libs, j, by_runs, evicted(more, by_runs).libs),
        evicted(more, by_runs).cycles == more.cycles.s_plus(saving(more.libs[j].1, by_runs)),
        evicted(more, by_runs).area == more.area - more.libs[j].1.area,
{
    let j = cheapest(more.libs, by_runs, more.libs.len());
    law_evicts_the_least_saving(more.libs, by_runs, more.libs.len());
    lemma_saving(more.libs[j].1, by_runs);
    assert forall|i: int| 0 <= i < more.libs.len() implies saving(more.libs[j].1, by_runs).s_le(
        saving((#[trigger] more.libs[i]).1, by_runs),
    ) by {
        lemma_saving(more.libs[i].1, by_runs);
        assert(!cheaper(more.libs[i], more.libs[j], by_runs));
        N::le_total(saving(more.libs[j].1, by_runs), saving(more.libs[i].1, by_runs));
    }
    j
}

/// Adding a site to a library function that a selection has changes no area
/// and adds the cycles of the library function. A library function that it
/// lacks comes with its area and the site alone. Where that is one too many,
/// one that saves least leaves: its area is free, and what it saved is spent
/// again.
pub proof fn law_adding_a_site<N: Number>(
    sel: SelView<N>,
    lib: usize,
    latency_acc: N,
    latency_cpu: N,
    area: usize,
    exe_count: N,
    id: usize,
    lps: usize,
)
    requires
        sel.wf(),
    ensures
        ({
            let r = with_lib(sel, lib, latency_acc, latency_cpu, area, exe_count, id, lps);
            let info = InfoView {
                latency_acc,
                latency_cpu,
                area,
                instances: seq![(id, exe_count)],
            };
            if holds(sel.libs, lib) {
                let mine = value_of(sel.libs, lib);
                let now = value_of(r.libs, lib);
                &&& r.cycles == sel.cycles.s_plus(latency_acc)
                &&& r.area == sel.area
                &&& keys(r.libs) == keys(sel.libs)
                &&& forall|k: usize|
                    k != lib && holds(sel.libs, k) ==> #[trigger] value_of(r.libs, k) == value_of(
                        sel.libs,
                        k,
                    )
                &&& now.latency_acc == mine.latency_acc && now.latency_cpu == mine.latency_cpu
                    && now.area == mine.area
                &&& value_of(now.instances, id) == exe_count
                &&& forall|s: usize| #[trigger]
                    holds(now.instances, s) <==> holds(mine.instances, s) || s == id
                &&& forall|s: usize|
                    s != id && holds(mine.instances, s) ==> #[trigger] value_of(now.instances, s)
                        == value_of(mine.instances, s)
            } else if sel.libs.len() < lps {
                &&& is_with(r.libs, sel.libs, lib, info)
                &&& r.cycles == sel.cycles.s_plus(latency_acc)
                &&& r.area == sel.area + area
            } else {
                exists|all: Seq<(usize, InfoView<N>)>, j: int|
                    is_with(all, sel.libs, lib, info) && #[trigger] least_left(
                        all,
                        j,
                        false,
                        r.libs,
                    ) && r.cycles == sel.cycles.s_plus(saving(all[j].1, false)).s_plus(latency_acc)
                        && r.area == sel.area + area - all[j].1.area
            }
        }),
{
    let r = with_lib(sel, lib, latency_acc, latency_cpu, area, exe_count, id, lps);
    lemma_holds(sel.libs, lib);
    if holds(sel.libs, lib) {
        let mine = value_of(sel.libs, lib);
        assert(increasing(keys(sel.libs[slot(keys(sel.libs), lib)].1.instances)));
        lemma_put(mine.instances, id, exe_count);
        let now = InfoView { instances: put(mine.instances, id, exe_count), ..mine };
        lemma_put(sel.libs, lib, now);
        assert(keys(r.libs) =~= keys(sel.libs));
        assert forall|s: usize| #[trigger] holds(now.instances, s) <==> holds(mine.instances, s)
            || s == id by {
            if s != id {
                assert(holds(put(mine.instances, id, exe_count), s) <==> holds(mine.instances, s));
            }
        }
    } else {
        let none = Seq::<(usize, N)>::empty();
        assert(put(none, id, exe_count) =~= seq![(id, exe_count)]);
        let info = InfoView { latency_acc, latency_cpu, area, instances: seq![(id, exe_count)] };
        let all = put(sel.libs, lib, info);
        lemma_put(sel.libs, lib, info);
        assert(is_with(all, sel.libs, lib, info));
        let more = SelView { cycles: sel.cycles, area: sel.area + area, libs: all };
        let j = lemma_evicts(more, false);
        if sel.libs.len() >= lps {
            assert(r.libs == evicted(more, false).libs);
            assert(least_left(all, j, false, r.libs));
        }
    }
}

/// Whether `all` are the library functions `libs` and one more.
pub open spec fn is_with<N: Number>(
    all: Seq<(usize, InfoView<N>)>,
    libs: Seq<(usize, InfoView<N>)>,
    id: usize,
    info: InfoView<N>,
) -> bool {
    &&& all.len() == libs.len() + 1
    &&& increasing(keys(all))
    &&& forall|k: usize| #[trigger] holds(all, k) <==> holds(libs, k) || k == id
    &&& value_of(all, id) == info
    &&& forall|k: usize|
        k != id && holds(libs, k) ==> #[trigger] value_of(all, k) == value_of(libs, k)
}

/// Where the second selection has one library function that the first lacks,
/// and that is one too many, one that saves least in all its runs leaves.
pub proof fn law_combining_with_one_too_many<N: Number>(
    a: SelView<N>,
    b: SelView<N>,
    lps: usize,
)
    requires
        a.wf(),
        b.wf(),
        b.libs.len() == 1,
        !holds(a.libs, b.libs[0].0),
        a.libs.len() >= lps,
    ensures
        exists|all: Seq<(usize, InfoView<N>)>, j: int|
            is_with(all, a.libs, b.libs[0].0, b.libs[0].1) && #[trigger] least_left(
                all,
                j,
                true,
                combined(a, b, lps).libs,
            ) && combined(a, b, lps).cycles == a.cycles.s_plus(saving(all[j].1, true)).s_plus(
                b.cycles,
            ) && combined(a, b, lps).area == a.area + b.libs[0].1.area - all[j].1.area,
{
    let (id, info) = b.libs[0];
    reveal_with_fuel(merged_known, 2);
    reveal_with_fuel(taken_new, 2);
    lemma_holds(a.libs, id);
    lemma_put(a.libs, id, info);
    let all = put(a.libs, id, info);
    assert(is_with(all, a.libs, id, info));
    let more = SelView { cycles: a.cycles, area: a.area + info.area, libs: all };
    let j = lemma_evicts(more, true);
    assert(merged_known(a, b.libs, 1) == a);
    assert(taken_new(a, b.libs, 0, lps) == a);
    assert(taken_new(a, b.libs, 1, lps) == taken(a, id, info, lps, true));
    assert(taken(a, id, info, lps, true) == evicted(more, true));
    assert(least_left(all, j, true, combined(a, b, lps).libs));
}

// ---------------------------------------------------------------------------
// The best selections
// ---------------------------------------------------------------------------

/// Whether `y` is as good as `x` in cycles and in area, and better in one of
/// them.
pub open spec fn is_better<N: Number>(y: SelView<N>, x: SelView<N>) -> bool {
    y.cycles.s_le(x.cycles) && y.area <= x.area && (!x.cycles.s_le(y.cycles) || y.area < x.area)
}

/// What unifying keeps was there, and nothing that was there is better. No two
/// that it keeps have the same library functions, and what it drops is worse
/// than something, or has the library functions of something that it keeps
/// with no larger area.
pub proof fn law_unifying_keeps_the_best<N: Number>(s: Seq<SelView<N>>)
    ensures
        forall|x: SelView<N>, y: SelView<N>|
            #![trigger unified(s).contains(x), s.contains(y)]
            unified(s).contains(x) && s.contains(y) ==> s.contains(x) && !is_better(y, x),
        forall|i: int, j: int|
            0 <= i < j < unified(s).len() ==> keys((#[trigger] unified(s)[i]).libs) != keys(
                (#[trigger] unified(s)[j]).libs,
            ),
        forall|y: SelView<N>| #[trigger]
            s.contains(y) ==> (exists|z: SelView<N>| #[trigger] s.contains(z) && is_better(z, y))
                || exists|i: int|
                0 <= i < unified(s).len() && keys((#[trigger] unified(s)[i]).libs) == keys(y.libs)
                    && unified(s)[i].area <= y.area,
{
    law_unified(s);
    assert forall|x: SelView<N>, y: SelView<N>|
        #![trigger unified(s).contains(x), s.contains(y)]
        unified(s).contains(x) && s.contains(y) implies s.contains(x) && !is_better(y, x) by {
        let k = choose|k: int| 0 <= k < s.len() && s[k] == y;
        assert(!dominated(s, x));
        assert(!dominates(s[k], x));
    }
    assert forall|y: SelView<N>| #[trigger] s.contains(y) implies (exists|z: SelView<N>| #[trigger]
        s.contains(z) && is_better(z, y)) || exists|i: int|
        0 <= i < unified(s).len() && keys((#[trigger] unified(s)[i]).libs) == keys(y.libs)
            && unified(s)[i].area <= y.area by {
        if dominated(s, y) {
            let k = choose|k: int| 0 <= k < s.len() && dominates(#[trigger] s[k], y);
            assert(s.contains(s[k]) && is_better(s[k], y));
        } else {
            let i = choose|i: int|
                0 <= i < unified(s).len() && keys((#[trigger] unified(s)[i]).libs) == keys(y.libs);
            let x = unified(s)[i];
            assert(unified(s).contains(x));
            lemma_filter_members(s, |c: SelView<N>| !dominated(s, c));
            assert(frontier(s).contains(y));
            law_unified_keeps_the_smallest(s, x, y);
        }
    }
}

/// Of what unifying keeps, pruning leaves as much as the beam holds: those
/// with the fewest cycles.
pub proof fn law_pruning_keeps_the_fastest<N: Number>(s: Seq<SelView<N>>, beam: usize)
    ensures
        pruned(unified(s), beam).len() == if unified(s).len() <= beam {
            unified(s).len()
        } else {
            beam as nat
        },
        forall|x: SelView<N>| #[trigger]
            pruned(unified(s), beam).contains(x) ==> unified(s).contains(x),
        forall|x: SelView<N>, y: SelView<N>|
            #![trigger pruned(unified(s), beam).contains(x), unified(s).contains(y)]
            pruned(unified(s), beam).contains(x) && unified(s).contains(y) && !pruned(
                unified(s),
                beam,
            ).contains(y) ==> x.cycles.s_le(y.cycles),
{
    let u = unified(s);
    let r = pruned(u, beam);
    let le = sel_order::<N>(false);
    law_pruning_adds_nothing(u, beam);
    if beam > 0 {
        lemma_unified_is_its_frontier(s);
        law_selections_are_ordered::<N>(false);
        lemma_sorted(u, le);
        lemma_sorted_members(u, le);
        let rest = remaining(u, u);
        lemma_sorted_members(rest, le);
        if u.len() <= beam {
            assert(u + sorted(rest, le) =~= u);
        } else {
            let o = sorted(u, le);
            assert forall|x: SelView<N>, y: SelView<N>|
                #![trigger r.contains(x), u.contains(y)]
                r.contains(x) && u.contains(y) && !r.contains(y) implies x.cycles.s_le(
                y.cycles,
            ) by {
                let i = choose|i: int| 0 <= i < r.len() && r[i] == x;
                assert(o.contains(y));
                let k = choose|k: int| 0 <= k < o.len() && o[k] == y;
                if k < beam {
                    assert(r[k] == y);
                }
                assert(le(o[i], o[k]));
            }
        }
    }
}

/// What unifying keeps is its own frontier.
proof fn lemma_unified_is_its_frontier<N: Number>(s: Seq<SelView<N>>)
    ensures
        frontier(unified(s)) == unified(s),
        remaining(unified(s), unified(s)).len() == 0,
{
    let u = unified(s);
    let best = |c: SelView<N>| !dominated(u, c);
    let other = |c: SelView<N>| !has_libs(u, c);
    law_unified(s);
    assert forall|i: int| 0 <= i < u.len() implies best(#[trigger] u[i]) && !other(u[i]) by {
        assert(u.contains(u[i]));
        if dominated(u, u[i]) {
            let j = choose|j: int| 0 <= j < u.len() && dominates(#[trigger] u[j], u[i]);
            assert(u.contains(u[j]));
            law_unified_is_a_frontier(s, u[i], u[j]);
        }
        lemma_same_libs_as_itself(u[i].libs);
        assert(has_libs(u, u[i]));
    }
    lemma_filter_all(u, best);
    lemma_filter_none(u, other);
}

} // verus!
