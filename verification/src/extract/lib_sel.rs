//! A selection of library functions and what it costs.
use crate::id_map::{
    holds, increasing, keys, lemma_holds, lemma_put, lemma_remove, put, slot, value_of, IdMap,
};
use crate::learn::LibId;
use crate::number::{ranks_before, same_rank, Number};
use vstd::prelude::*;

verus! {

/// What is known of one library function: its latency as hardware and as
/// software, its area, and how often each of its sites runs.
#[derive(Debug)]
pub struct LibInfo<N: Number> {
    pub latency_acc: N,
    pub latency_cpu: N,
    pub area: usize,
    /// The sites of the library function. The key is the class of the site,
    /// the value is how often it runs.
    pub instances: IdMap<N>,
}

/// A selection of library functions, with the cycles of the expression that
/// uses them and the area that they take together.
#[derive(Debug)]
pub struct LibSel<N: Number> {
    pub cycles: N,
    pub area: usize,
    /// The library functions that the expression uses.
    pub libs: IdMap<LibInfo<N>>,
}

/// The contents of a [`LibInfo`].
#[verifier::ext_equal]
pub struct InfoView<N> {
    pub latency_acc: N,
    pub latency_cpu: N,
    pub area: usize,
    pub instances: Seq<(usize, N)>,
}

/// The contents of a [`LibSel`].
#[verifier::ext_equal]
pub struct SelView<N> {
    pub cycles: N,
    pub area: int,
    pub libs: Seq<(usize, InfoView<N>)>,
}

/// The contents of each entry.
pub open spec fn lib_views<N: Number>(s: Seq<(usize, LibInfo<N>)>) -> Seq<(usize, InfoView<N>)> {
    Seq::new(s.len(), |i: int| (s[i].0, s[i].1@))
}

impl<N: Number> View for LibInfo<N> {
    type V = InfoView<N>;

    open spec fn view(&self) -> InfoView<N> {
        InfoView {
            latency_acc: self.latency_acc,
            latency_cpu: self.latency_cpu,
            area: self.area,
            instances: self.instances.entries@,
        }
    }
}

impl<N: Number> View for LibSel<N> {
    type V = SelView<N>;

    open spec fn view(&self) -> SelView<N> {
        SelView {
            cycles: self.cycles,
            area: self.area as int,
            libs: lib_views(self.libs.entries@),
        }
    }
}

/// The areas of all library functions together.
pub open spec fn total_area<N>(libs: Seq<(usize, InfoView<N>)>) -> int
    decreases libs.len(),
{
    if libs.len() == 0 {
        0
    } else {
        total_area(libs.drop_last()) + libs.last().1.area
    }
}

impl<N: Number> SelView<N> {
    /// The library functions and their sites are in order, and the area is
    /// the area of the library functions together.
    pub open spec fn wf(self) -> bool {
        &&& increasing(keys(self.libs))
        &&& forall|i: int|
            0 <= i < self.libs.len() ==> increasing(keys((#[trigger] self.libs[i]).1.instances))
        &&& self.area == total_area(self.libs)
    }
}

// ---------------------------------------------------------------------------
// What a library function saves
// ---------------------------------------------------------------------------

/// How often the first `n` sites run together.
pub open spec fn runs<N: Number>(sites: Seq<(usize, N)>, n: nat) -> N
    decreases n,
{
    if n == 0 {
        N::s_zero()
    } else {
        runs(sites, (n - 1) as nat).s_plus(sites[n - 1].1)
    }
}

/// What a library function saves: the latency that hardware saves, as often
/// as its sites run (`by_runs`), or once for each site.
pub open spec fn gain<N: Number>(info: InfoView<N>, by_runs: bool) -> N {
    let times = if by_runs {
        runs(info.instances, info.instances.len())
    } else {
        N::s_count(info.instances.len() as usize)
    };
    info.latency_cpu.s_minus(info.latency_acc).s_times(times)
}

/// Whether `a` saves less than `b`; of two that save the same, the smaller
/// area comes first, then the smaller identifier.
pub open spec fn cheaper<N: Number>(
    a: (usize, InfoView<N>),
    b: (usize, InfoView<N>),
    by_runs: bool,
) -> bool {
    let ga = gain(a.1, by_runs);
    let gb = gain(b.1, by_runs);
    ||| ranks_before(ga, gb)
    ||| same_rank(ga, gb) && (a.1.area < b.1.area || (a.1.area == b.1.area && a.0 < b.0))
}

/// Which of the first `n` library functions saves least.
pub open spec fn cheapest<N: Number>(
    libs: Seq<(usize, InfoView<N>)>,
    by_runs: bool,
    n: nat,
) -> int
    decreases n,
{
    if n <= 1 {
        0
    } else {
        let best = cheapest(libs, by_runs, (n - 1) as nat);
        if cheaper(libs[n - 1], libs[best], by_runs) {
            n - 1
        } else {
            best
        }
    }
}

/// The selection without the library function that saves least: the
/// expression runs without it again.
pub open spec fn evicted<N: Number>(sel: SelView<N>, by_runs: bool) -> SelView<N> {
    let j = cheapest(sel.libs, by_runs, sel.libs.len());
    SelView {
        cycles: sel.cycles.s_plus(gain(sel.libs[j].1, by_runs)),
        area: sel.area - sel.libs[j].1.area,
        libs: sel.libs.remove(j),
    }
}

/// The selection with one more library function. Where that makes more than
/// `lps`, the one that saves least leaves.
pub open spec fn taken<N: Number>(
    sel: SelView<N>,
    id: usize,
    info: InfoView<N>,
    lps: usize,
    by_runs: bool,
) -> SelView<N> {
    let more = SelView {
        cycles: sel.cycles,
        area: sel.area + info.area,
        libs: put(sel.libs, id, info),
    };
    if more.libs.len() > lps {
        evicted(more, by_runs)
    } else {
        more
    }
}

// ---------------------------------------------------------------------------
// Combining selections
// ---------------------------------------------------------------------------

/// The sites `mine` with the first `n` of `theirs` added.
pub open spec fn shared_sites<N: Number>(
    mine: Seq<(usize, N)>,
    theirs: Seq<(usize, N)>,
    n: nat,
) -> Seq<(usize, N)>
    decreases n,
{
    if n == 0 {
        mine
    } else {
        let m = shared_sites(mine, theirs, (n - 1) as nat);
        let (id, count) = theirs[n - 1];
        if holds(m, id) {
            m
        } else {
            put(m, id, count)
        }
    }
}

/// The cycles left when the first `n` sites of `theirs` that are already among
/// `mine` are not counted twice.
pub open spec fn shared_cycles<N: Number>(
    cycles: N,
    latency: N,
    mine: Seq<(usize, N)>,
    theirs: Seq<(usize, N)>,
    n: nat,
) -> N
    decreases n,
{
    if n == 0 {
        cycles
    } else {
        let c = shared_cycles(cycles, latency, mine, theirs, (n - 1) as nat);
        let (id, count) = theirs[n - 1];
        if holds(shared_sites(mine, theirs, (n - 1) as nat), id) {
            c.s_minus(latency.s_times(count))
        } else {
            c
        }
    }
}

/// The selection after the sites of those of the first `n` library functions
/// of `theirs` that it has too were added to it.
pub open spec fn merged_known<N: Number>(
    sel: SelView<N>,
    theirs: Seq<(usize, InfoView<N>)>,
    n: nat,
) -> SelView<N>
    decreases n,
{
    if n == 0 {
        sel
    } else {
        let s = merged_known(sel, theirs, (n - 1) as nat);
        let (id, info) = theirs[n - 1];
        if holds(s.libs, id) {
            let mine = value_of(s.libs, id);
            SelView {
                cycles: shared_cycles(
                    s.cycles,
                    info.latency_acc,
                    mine.instances,
                    info.instances,
                    info.instances.len(),
                ),
                area: s.area,
                libs: put(
                    s.libs,
                    id,
                    InfoView {
                        instances: shared_sites(
                            mine.instances,
                            info.instances,
                            info.instances.len(),
                        ),
                        ..mine
                    },
                ),
            }
        } else {
            s
        }
    }
}

/// The selection after those of the first `n` library functions of `theirs`
/// that it lacks were taken into it.
pub open spec fn taken_new<N: Number>(
    sel: SelView<N>,
    theirs: Seq<(usize, InfoView<N>)>,
    n: nat,
    lps: usize,
) -> SelView<N>
    decreases n,
{
    if n == 0 {
        sel
    } else {
        let s = taken_new(sel, theirs, (n - 1) as nat, lps);
        let (id, info) = theirs[n - 1];
        if holds(s.libs, id) {
            s
        } else {
            taken(s, id, info, lps, true)
        }
    }
}

/// Two selections as one: sites that both have count once, at most `lps`
/// library functions stay, and the cycles add up.
pub open spec fn combined<N: Number>(a: SelView<N>, b: SelView<N>, lps: usize) -> SelView<N> {
    let known = merged_known(a, b.libs, b.libs.len());
    let all = taken_new(known, b.libs, b.libs.len(), lps);
    SelView { cycles: all.cycles.s_plus(b.cycles), ..all }
}

/// The selection with a site of a library function added.
pub open spec fn with_lib<N: Number>(
    sel: SelView<N>,
    lib: usize,
    latency_acc: N,
    latency_cpu: N,
    area: usize,
    exe_count: N,
    id: usize,
    lps: usize,
) -> SelView<N> {
    let s = if holds(sel.libs, lib) {
        let mine = value_of(sel.libs, lib);
        SelView {
            libs: put(
                sel.libs,
                lib,
                InfoView { instances: put(mine.instances, id, exe_count), ..mine },
            ),
            ..sel
        }
    } else {
        let info = InfoView {
            latency_acc,
            latency_cpu,
            area,
            instances: put(Seq::<(usize, N)>::empty(), id, exe_count),
        };
        taken(sel, lib, info, lps, false)
    };
    SelView { cycles: s.cycles.s_plus(latency_acc), ..s }
}

/// Whether every library function of `a` is also in `b`.
pub open spec fn uses_subset<N>(a: SelView<N>, b: SelView<N>) -> bool {
    forall|k: usize| holds(a.libs, k) ==> #[trigger] holds(b.libs, k)
}

// ---------------------------------------------------------------------------
// Facts about the model
// ---------------------------------------------------------------------------

pub(crate) proof fn lemma_area_insert<N>(
    libs: Seq<(usize, InfoView<N>)>,
    p: int,
    x: (usize, InfoView<N>),
)
    requires
        0 <= p <= libs.len(),
    ensures
        total_area(libs.insert(p, x)) == total_area(libs) + x.1.area,
    decreases libs.len(),
{
    let t = libs.insert(p, x);
    if p == libs.len() {
        assert(t.drop_last() =~= libs);
    } else {
        lemma_area_insert(libs.drop_last(), p, x);
        assert(t.drop_last() =~= libs.drop_last().insert(p, x));
        assert(t.last() == libs.last());
    }
}

pub(crate) proof fn lemma_area_remove<N>(libs: Seq<(usize, InfoView<N>)>, p: int)
    requires
        0 <= p < libs.len(),
    ensures
        total_area(libs) == total_area(libs.remove(p)) + libs[p].1.area,
{
    lemma_area_insert(libs.remove(p), p, libs[p]);
    assert(libs.remove(p).insert(p, libs[p]) =~= libs);
}

pub(crate) proof fn lemma_area_nonnegative<N>(libs: Seq<(usize, InfoView<N>)>)
    ensures
        total_area(libs) >= 0,
    decreases libs.len(),
{
    if libs.len() > 0 {
        lemma_area_nonnegative(libs.drop_last());
    }
}

pub(crate) proof fn lemma_area_prefix<N>(libs: Seq<(usize, InfoView<N>)>, n: int)
    requires
        0 <= n <= libs.len(),
    ensures
        total_area(libs.take(n)) <= total_area(libs),
    decreases libs.len(),
{
    if n < libs.len() {
        lemma_area_prefix(libs.drop_last(), n);
        assert(libs.drop_last().take(n) =~= libs.take(n));
    } else {
        assert(libs.take(n) =~= libs);
    }
}

pub(crate) proof fn lemma_area_update<N>(
    libs: Seq<(usize, InfoView<N>)>,
    p: int,
    x: (usize, InfoView<N>),
)
    requires
        0 <= p < libs.len(),
        x.1.area == libs[p].1.area,
    ensures
        total_area(libs.update(p, x)) == total_area(libs),
{
    lemma_area_remove(libs, p);
    lemma_area_remove(libs.update(p, x), p);
    assert(libs.update(p, x).remove(p) =~= libs.remove(p));
}

proof fn lemma_cheapest_in_range<N: Number>(
    libs: Seq<(usize, InfoView<N>)>,
    by_runs: bool,
    n: nat,
)
    requires
        1 <= n <= libs.len(),
    ensures
        0 <= cheapest(libs, by_runs, n) < n,
    decreases n,
{
    if n > 1 {
        lemma_cheapest_in_range(libs, by_runs, (n - 1) as nat);
    }
}

proof fn lemma_not_cheaper_transitive<N: Number>(
    a: (usize, InfoView<N>),
    b: (usize, InfoView<N>),
    c: (usize, InfoView<N>),
    by_runs: bool,
)
    requires
        !cheaper(b, a, by_runs),
        !cheaper(c, b, by_runs),
    ensures
        !cheaper(c, a, by_runs),
{
    let ga = gain(a.1, by_runs);
    let gb = gain(b.1, by_runs);
    let gc = gain(c.1, by_runs);
    N::le_total(ga, gb);
    N::le_total(gb, gc);
    N::le_total(ga, gc);
    N::le_transitive(ga, gb, gc);
    if gc.s_le(gb) && gb.s_le(ga) {
        N::le_transitive(gc, gb, ga);
    }
    if gc.s_le(ga) {
        N::le_transitive(gc, ga, gb);
        N::le_transitive(gb, gc, ga);
    }
}

/// The library function that leaves is one that saves least: no other one
/// comes before it.
pub proof fn law_evicts_the_least_saving<N: Number>(
    libs: Seq<(usize, InfoView<N>)>,
    by_runs: bool,
    n: nat,
)
    requires
        1 <= n <= libs.len(),
    ensures
        0 <= cheapest(libs, by_runs, n) < n,
        forall|i: int|
            0 <= i < n ==> !cheaper(#[trigger] libs[i], libs[cheapest(libs, by_runs, n)], by_runs),
    decreases n,
{
    lemma_cheapest_in_range(libs, by_runs, n);
    let best = cheapest(libs, by_runs, n);
    if n == 1 {
        N::le_total(gain(libs[0].1, by_runs), gain(libs[0].1, by_runs));
    } else {
        law_evicts_the_least_saving(libs, by_runs, (n - 1) as nat);
        let prev = cheapest(libs, by_runs, (n - 1) as nat);
        let last = n - 1;
        N::le_total(gain(libs[last].1, by_runs), gain(libs[last].1, by_runs));
        assert forall|i: int| 0 <= i < n implies !cheaper(
            #[trigger] libs[i],
            libs[best],
            by_runs,
        ) by {
            if best == last && i < last {
                N::le_total(gain(libs[last].1, by_runs), gain(libs[prev].1, by_runs));
                assert(!cheaper(libs[prev], libs[last], by_runs));
                lemma_not_cheaper_transitive(libs[last], libs[prev], libs[i], by_runs);
            }
        }
    }
}

proof fn lemma_evicted<N: Number>(sel: SelView<N>, by_runs: bool)
    requires
        sel.wf(),
        sel.libs.len() > 0,
    ensures
        evicted(sel, by_runs).wf(),
        evicted(sel, by_runs).libs.len() == sel.libs.len() - 1,
        0 <= evicted(sel, by_runs).area <= sel.area,
{
    let j = cheapest(sel.libs, by_runs, sel.libs.len());
    lemma_cheapest_in_range(sel.libs, by_runs, sel.libs.len());
    lemma_area_remove(sel.libs, j);
    lemma_area_nonnegative(sel.libs.remove(j));
    lemma_remove(sel.libs, j);
    let t = evicted(sel, by_runs);
    assert forall|i: int| 0 <= i < t.libs.len() implies increasing(
        keys((#[trigger] t.libs[i]).1.instances),
    ) by {
        let i0 = if i < j {
            i
        } else {
            i + 1
        };
        assert(t.libs[i] == sel.libs[i0]);
    }
}

proof fn lemma_more<N: Number>(sel: SelView<N>, id: usize, info: InfoView<N>)
    requires
        sel.wf(),
        !holds(sel.libs, id),
        increasing(keys(info.instances)),
    ensures
        (SelView { cycles: sel.cycles, area: sel.area + info.area, libs: put(sel.libs, id, info) }).wf(),
        put(sel.libs, id, info) == sel.libs.insert(slot(keys(sel.libs), id), (id, info)),
        0 <= slot(keys(sel.libs), id) <= sel.libs.len(),
{
    lemma_holds(sel.libs, id);
    lemma_put(sel.libs, id, info);
    let p = slot(keys(sel.libs), id);
    lemma_area_insert(sel.libs, p, (id, info));
    let t = put(sel.libs, id, info);
    assert forall|i: int| 0 <= i < t.len() implies increasing(
        keys((#[trigger] t[i]).1.instances),
    ) by {
        if i < p {
            assert(t[i] == sel.libs[i]);
        } else if i > p {
            assert(t[i] == sel.libs[i - 1]);
        }
    }
}

proof fn lemma_taken<N: Number>(
    sel: SelView<N>,
    id: usize,
    info: InfoView<N>,
    lps: usize,
    by_runs: bool,
)
    requires
        sel.wf(),
        !holds(sel.libs, id),
        increasing(keys(info.instances)),
    ensures
        taken(sel, id, info, lps, by_runs).wf(),
        taken(sel, id, info, lps, by_runs).area <= sel.area + info.area,
        taken(sel, id, info, lps, by_runs).libs.len() <= sel.libs.len() + 1,
        taken(sel, id, info, lps, by_runs).libs.len() <= lps
            || taken(sel, id, info, lps, by_runs).libs.len() == sel.libs.len(),
{
    lemma_more(sel, id, info);
    let more = SelView {
        cycles: sel.cycles,
        area: sel.area + info.area,
        libs: put(sel.libs, id, info),
    };
    if more.libs.len() > lps {
        lemma_evicted(more, by_runs);
    }
}

proof fn lemma_shared_sites<N: Number>(mine: Seq<(usize, N)>, theirs: Seq<(usize, N)>, n: nat)
    requires
        increasing(keys(mine)),
    ensures
        increasing(keys(shared_sites(mine, theirs, n))),
    decreases n,
{
    if n > 0 {
        lemma_shared_sites(mine, theirs, (n - 1) as nat);
        let (id, count) = theirs[n - 1];
        lemma_put(shared_sites(mine, theirs, (n - 1) as nat), id, count);
    }
}

/// Replacing what is known of a library function, but not its area, keeps a
/// selection well formed.
proof fn lemma_replace<N: Number>(sel: SelView<N>, id: usize, info: InfoView<N>, cycles: N)
    requires
        sel.wf(),
        holds(sel.libs, id),
        increasing(keys(info.instances)),
        info.area == value_of(sel.libs, id).area,
    ensures
        put(sel.libs, id, info) == sel.libs.update(slot(keys(sel.libs), id), (id, info)),
        0 <= slot(keys(sel.libs), id) < sel.libs.len(),
        (SelView { cycles, area: sel.area, libs: put(sel.libs, id, info) }).wf(),
{
    lemma_holds(sel.libs, id);
    lemma_put(sel.libs, id, info);
    let p = slot(keys(sel.libs), id);
    lemma_area_update(sel.libs, p, (id, info));
    let t = put(sel.libs, id, info);
    assert forall|i: int| 0 <= i < t.len() implies increasing(
        keys((#[trigger] t[i]).1.instances),
    ) by {
        if i != p {
            assert(t[i] == sel.libs[i]);
        }
    }
}

proof fn lemma_merged_known<N: Number>(
    sel: SelView<N>,
    theirs: Seq<(usize, InfoView<N>)>,
    n: nat,
)
    requires
        sel.wf(),
        n <= theirs.len(),
    ensures
        merged_known(sel, theirs, n).wf(),
        merged_known(sel, theirs, n).area == sel.area,
        merged_known(sel, theirs, n).libs.len() == sel.libs.len(),
    decreases n,
{
    if n > 0 {
        lemma_merged_known(sel, theirs, (n - 1) as nat);
        let s = merged_known(sel, theirs, (n - 1) as nat);
        let (id, info) = theirs[n - 1];
        if holds(s.libs, id) {
            let mine = value_of(s.libs, id);
            lemma_holds(s.libs, id);
            assert(increasing(keys(s.libs[slot(keys(s.libs), id)].1.instances)));
            lemma_shared_sites(mine.instances, info.instances, info.instances.len());
            lemma_replace(
                s,
                id,
                InfoView {
                    instances: shared_sites(mine.instances, info.instances, info.instances.len()),
                    ..mine
                },
                merged_known(sel, theirs, n).cycles,
            );
        }
    }
}

proof fn lemma_taken_new<N: Number>(
    sel: SelView<N>,
    theirs: Seq<(usize, InfoView<N>)>,
    n: nat,
    lps: usize,
)
    requires
        sel.wf(),
        n <= theirs.len(),
        forall|i: int|
            0 <= i < theirs.len() ==> increasing(keys((#[trigger] theirs[i]).1.instances)),
    ensures
        taken_new(sel, theirs, n, lps).wf(),
        taken_new(sel, theirs, n, lps).area <= sel.area + total_area(theirs.take(n as int)),
        taken_new(sel, theirs, n, lps).libs.len() <= sel.libs.len() + n,
        taken_new(sel, theirs, n, lps).libs.len() <= lps
            || taken_new(sel, theirs, n, lps).libs.len() <= sel.libs.len(),
    decreases n,
{
    if n > 0 {
        lemma_taken_new(sel, theirs, (n - 1) as nat, lps);
        let s = taken_new(sel, theirs, (n - 1) as nat, lps);
        let (id, info) = theirs[n - 1];
        assert(theirs.take(n as int).drop_last() =~= theirs.take(n - 1));
        if !holds(s.libs, id) {
            assert(increasing(keys(theirs[n - 1].1.instances)));
            lemma_taken(s, id, info, lps, true);
        }
    } else {
        assert(theirs.take(0) =~= Seq::<(usize, InfoView<N>)>::empty());
    }
}

/// Combining two selections keeps them well formed, takes no more area than
/// both together, and leaves at most `lps` library functions unless the first
/// selection already had more.
pub proof fn law_combined_selection<N: Number>(a: SelView<N>, b: SelView<N>, lps: usize)
    requires
        a.wf(),
        b.wf(),
    ensures
        combined(a, b, lps).wf(),
        combined(a, b, lps).area <= a.area + b.area,
        combined(a, b, lps).libs.len() <= lps || combined(a, b, lps).libs.len() <= a.libs.len(),
{
    lemma_merged_known(a, b.libs, b.libs.len());
    let known = merged_known(a, b.libs, b.libs.len());
    lemma_taken_new(known, b.libs, b.libs.len(), lps);
    assert(b.libs.take(b.libs.len() as int) =~= b.libs);
}

/// Adding a site of a library function keeps a selection well formed and
/// leaves at most `lps` library functions unless there were more before.
pub proof fn law_selection_with_lib<N: Number>(
    sel: SelView<N>,
    lib: usize,
    latency_acc: N,
    latency_cpu: N,
    area: usize,
    exe_count: N,
    id: usize,
    lps: usize,
)
    requires
        sel.wf(),
    ensures
        with_lib(sel, lib, latency_acc, latency_cpu, area, exe_count, id, lps).wf(),
        with_lib(sel, lib, latency_acc, latency_cpu, area, exe_count, id, lps).area <= sel.area
            + area,
        with_lib(sel, lib, latency_acc, latency_cpu, area, exe_count, id, lps).libs.len() <= lps
            || with_lib(sel, lib, latency_acc, latency_cpu, area, exe_count, id, lps).libs.len()
            <= sel.libs.len(),
{
    if holds(sel.libs, lib) {
        let mine = value_of(sel.libs, lib);
        lemma_holds(sel.libs, lib);
        assert(increasing(keys(sel.libs[slot(keys(sel.libs), lib)].1.instances)));
        lemma_put(mine.instances, id, exe_count);
        lemma_replace(
            sel,
            lib,
            InfoView { instances: put(mine.instances, id, exe_count), ..mine },
            sel.cycles.s_plus(latency_acc),
        );
        let t = SelView {
            cycles: sel.cycles.s_plus(latency_acc),
            area: sel.area,
            libs: put(
                sel.libs,
                lib,
                InfoView { instances: put(mine.instances, id, exe_count), ..mine },
            ),
        };
        assert(t.wf());
    } else {
        let none = Seq::<(usize, N)>::empty();
        lemma_put(none, id, exe_count);
        let info = InfoView { latency_acc, latency_cpu, area, instances: put(none, id, exe_count) };
        lemma_taken(sel, lib, info, lps, false);
    }
}

// ---------------------------------------------------------------------------
// Operations
// ---------------------------------------------------------------------------

pub(crate) proof fn lemma_view_keys<N: Number>(s: Seq<(usize, LibInfo<N>)>)
    ensures
        keys(lib_views(s)) == keys(s),
        forall|k: usize| holds(lib_views(s), k) <==> holds(s, k),
{
    assert(keys(lib_views(s)) =~= keys(s));
    assert forall|k: usize| holds(lib_views(s), k) <==> holds(s, k) by {
        if holds(s, k) {
            let i = choose|i: int| 0 <= i < s.len() && (#[trigger] s[i]).0 == k;
            assert(lib_views(s)[i].0 == k);
        }
        if holds(lib_views(s), k) {
            let i = choose|i: int|
                0 <= i < lib_views(s).len() && (#[trigger] lib_views(s)[i]).0 == k;
            assert(s[i].0 == k);
        }
    }
}

impl<N: Number> LibInfo<N> {
    /// A second record with the same contents.
    pub fn duplicate(&self) -> (r: Self)
        ensures
            r@ == self@,
    {
        LibInfo {
            latency_acc: self.latency_acc,
            latency_cpu: self.latency_cpu,
            area: self.area,
            instances: self.instances.duplicate(),
        }
    }

    /// What the library function saves.
    fn gain(&self, by_runs: bool) -> (r: N)
        ensures
            r == gain(self@, by_runs),
    {
        let times: N = if by_runs {
            let mut sum: N = N::zero();
            let n: usize = self.instances.entries.len();
            for i in 0..n
                invariant
                    n == self.instances.entries@.len(),
                    sum == runs(self.instances.entries@, i as nat),
            {
                sum = sum.plus(self.instances.entries[i].1);
            }
            sum
        } else {
            N::count(self.instances.entries.len())
        };
        self.latency_cpu.minus(self.latency_acc).times(times)
    }

    /// Adds the sites of `theirs` and returns `cycles` without those that
    /// were there already.
    fn share(&mut self, theirs: &LibInfo<N>, cycles: N) -> (r: N)
        requires
            increasing(keys(old(self)@.instances)),
        ensures
            final(self)@ == (InfoView {
                instances: shared_sites(
                    old(self)@.instances,
                    theirs@.instances,
                    theirs@.instances.len(),
                ),
                ..old(self)@
            }),
            r == shared_cycles(
                cycles,
                theirs@.latency_acc,
                old(self)@.instances,
                theirs@.instances,
                theirs@.instances.len(),
            ),
    {
        let ghost mine = self@.instances;
        let ghost start = self@;
        let mut c: N = cycles;
        let n: usize = theirs.instances.entries.len();
        for i in 0..n
            invariant
                n == theirs.instances.entries@.len(),
                theirs.instances.entries@ == theirs@.instances,
                increasing(keys(mine)),
                mine == start.instances,
                self@ == (InfoView {
                    instances: shared_sites(mine, theirs@.instances, i as nat),
                    ..start
                }),
                c == shared_cycles(cycles, theirs@.latency_acc, mine, theirs@.instances, i as nat),
        {
            proof {
                lemma_shared_sites(mine, theirs@.instances, i as nat);
            }
            let (id, count) = theirs.instances.entries[i];
            if self.instances.has(id) {
                c = c.minus(theirs.latency_acc.times(count));
            } else {
                self.instances.insert(id, count);
            }
        }
        c
    }
}

impl<N: Number> LibSel<N> {
    /// The library functions and their sites are in order, and the area is
    /// the area of the library functions together.
    pub open spec fn wf(&self) -> bool {
        self@.wf()
    }

    /// The selection without library functions, of an expression that takes
    /// no cycles.
    pub fn new() -> (r: LibSel<N>)
        ensures
            r.wf(),
            r@ == (SelView::<N> { cycles: N::s_zero(), area: 0, libs: Seq::empty() }),
    {
        let r: LibSel<N> = LibSel { cycles: N::zero(), area: 0, libs: IdMap::new() };
        assert(r@.libs =~= Seq::empty());
        r
    }

    /// A second selection with the same contents.
    pub fn duplicate(&self) -> (r: LibSel<N>)
        ensures
            r@ == self@,
    {
        let mut entries: Vec<(usize, LibInfo<N>)> = Vec::new();
        let n: usize = self.libs.entries.len();
        for i in 0..n
            invariant
                n == self.libs.entries@.len(),
                lib_views(entries@) == self@.libs.take(i as int),
        {
            let (id, info) = &self.libs.entries[i];
            let ghost before = entries@;
            entries.push((*id, info.duplicate()));
            assert(lib_views(entries@) =~= lib_views(before).push(self@.libs[i as int]));
            assert(self@.libs.take(i as int).push(self@.libs[i as int]) =~= self@.libs.take(i + 1));
        }
        assert(self@.libs.take(n as int) =~= self@.libs);
        LibSel { cycles: self.cycles, area: self.area, libs: IdMap { entries } }
    }

    /// Adds cycles.
    pub fn inc_cycles(&mut self, amount: N)
        ensures
            final(self)@ == (SelView { cycles: old(self).cycles.s_plus(amount), ..old(self)@ }),
    {
        self.cycles = self.cycles.plus(amount);
    }

    /// Divides the cycles among the lanes of a vector.
    pub fn split_cycles(&mut self, vec_len: usize)
        ensures
            final(self)@ == (SelView {
                cycles: old(self).cycles.s_over(N::s_count(vec_len)),
                ..old(self)@
            }),
    {
        self.cycles = self.cycles.over(N::count(vec_len));
    }

    /// Removes the library function that saves least.
    fn evict(&mut self, by_runs: bool)
        requires
            old(self).wf(),
            old(self)@.libs.len() > 0,
        ensures
            final(self)@ == evicted(old(self)@, by_runs),
    {
        let ghost libs = self@.libs;
        let mut best: usize = 0;
        let mut best_gain: N = self.libs.entries[0].1.gain(by_runs);
        let n: usize = self.libs.entries.len();
        let mut i: usize = 1;
        while i < n
            invariant
                1 <= i <= n,
                n == self.libs.entries@.len(),
                libs == lib_views(self.libs.entries@),
                best < i,
                best == cheapest(libs, by_runs, i as nat),
                best_gain == gain(libs[best as int].1, by_runs),
            decreases n - i,
        {
            let g: N = self.libs.entries[i].1.gain(by_runs);
            let area: usize = self.libs.entries[i].1.area;
            let best_area: usize = self.libs.entries[best].1.area;
            let first: bool = if g.le(best_gain) {
                if best_gain.le(g) {
                    area < best_area || (area == best_area && self.libs.entries[i].0
                        < self.libs.entries[best].0)
                } else {
                    true
                }
            } else {
                false
            };
            assert(first == cheaper(libs[i as int], libs[best as int], by_runs));
            if first {
                best = i;
                best_gain = g;
            }
            i = i + 1;
        }
        proof {
            lemma_area_remove(libs, best as int);
            lemma_area_nonnegative(libs.remove(best as int));
        }
        let ghost before = self.libs.entries@;
        let (_id, info) = self.libs.entries.remove(best);
        assert(lib_views(self.libs.entries@) =~= libs.remove(best as int));
        self.area = self.area - info.area;
        self.cycles = self.cycles.plus(best_gain);
    }

    /// Takes a library function in that is not there yet.
    fn take(&mut self, id: usize, info: LibInfo<N>, lps: usize, by_runs: bool)
        requires
            old(self).wf(),
            !holds(old(self)@.libs, id),
            increasing(keys(info@.instances)),
            old(self)@.area + info@.area <= usize::MAX,
        ensures
            final(self)@ == taken(old(self)@, id, info@, lps, by_runs),
    {
        let ghost before = self@;
        proof {
            lemma_view_keys(self.libs.entries@);
            lemma_more(before, id, info@);
        }
        let p: usize = self.libs.find(id);
        self.area = self.area + info.area;
        let ghost old_entries = self.libs.entries@;
        let ghost info_view = info@;
        self.libs.entries.insert(p, (id, info));
        assert(lib_views(self.libs.entries@) =~= before.libs.insert(p as int, (id, info_view)));
        if self.libs.entries.len() > lps {
            self.evict(by_runs);
        }
    }

    /// Combines two selections of parts of one expression: the library
    /// functions are united, sites that both have are counted once, and the
    /// cycles add up. Where there are more than `lps` library functions, those
    /// that save least leave.
    pub fn combine(&self, other: &LibSel<N>, lps: usize) -> (r: Option<LibSel<N>>)
        requires
            self.wf(),
            other.wf(),
            self@.area + other@.area <= usize::MAX,
        ensures
            r is Some,
            r->0@ == combined(self@, other@, lps),
            r->0.wf(),
    {
        let mut res: LibSel<N> = self.duplicate();
        let n: usize = other.libs.entries.len();
        let ghost theirs = other@.libs;
        for i in 0..n
            invariant
                n == other.libs.entries@.len(),
                theirs == other@.libs,
                self.wf(),
                res@ == merged_known(self@, theirs, i as nat),
        {
            let ghost s = res@;
            proof {
                lemma_merged_known(self@, theirs, i as nat);
                lemma_view_keys(res.libs.entries@);
            }
            let id: usize = other.libs.entries[i].0;
            assert(theirs[i as int].0 == id);
            if res.libs.has(id) {
                let p: usize = res.libs.find(id);
                proof {
                    lemma_holds(s.libs, id);
                    assert(increasing(keys(s.libs[p as int].1.instances)));
                }
                let ghost before = res.libs.entries@;
                let (_key, mut info) = res.libs.entries.remove(p);
                assert(info@ == value_of(s.libs, id));
                let c: N = info.share(&other.libs.entries[i].1, res.cycles);
                res.cycles = c;
                let ghost info_view = info@;
                res.libs.entries.insert(p, (id, info));
                assert(lib_views(res.libs.entries@) =~= s.libs.update(p as int, (id, info_view)));
                assert(res@ =~= merged_known(self@, theirs, (i + 1) as nat));
            }
        }
        let ghost known = res@;
        proof {
            lemma_merged_known(self@, theirs, n as nat);
        }
        for i in 0..n
            invariant
                n == other.libs.entries@.len(),
                theirs == other@.libs,
                known.wf(),
                other.wf(),
                known.area + total_area(theirs) <= usize::MAX,
                res@ == taken_new(known, theirs, i as nat, lps),
        {
            let ghost s = res@;
            proof {
                lemma_taken_new(known, theirs, i as nat, lps);
                lemma_view_keys(res.libs.entries@);
                lemma_area_prefix(theirs, i + 1);
                assert(theirs.take(i + 1).drop_last() =~= theirs.take(i as int));
                assert(increasing(keys(theirs[i as int].1.instances)));
            }
            let id: usize = other.libs.entries[i].0;
            assert(theirs[i as int].0 == id);
            if !res.libs.has(id) {
                let info: LibInfo<N> = other.libs.entries[i].1.duplicate();
                res.take(id, info, lps, true);
            }
        }
        res.cycles = res.cycles.plus(other.cycles);
        proof {
            law_combined_selection(self@, other@, lps);
        }
        Some(res)
    }

    /// Adds a site of a library function. Where that makes more than `lps`
    /// library functions, the one that saves least leaves.
    pub fn add_lib(
        &self,
        lib: LibId,
        latency_acc: N,
        latency_cpu: N,
        area: usize,
        _search_result: usize,
        exe_count: N,
        id: usize,
        lps: usize,
    ) -> (r: Option<LibSel<N>>)
        requires
            self.wf(),
            self@.area + area <= usize::MAX,
        ensures
            r is Some,
            r->0@ == with_lib(self@, lib.0, latency_acc, latency_cpu, area, exe_count, id, lps),
            r->0.wf(),
    {
        let mut res: LibSel<N> = self.duplicate();
        proof {
            lemma_view_keys(res.libs.entries@);
        }
        if res.libs.has(lib.0) {
            let p: usize = res.libs.find(lib.0);
            proof {
                lemma_holds(self@.libs, lib.0);
                assert(increasing(keys(self@.libs[p as int].1.instances)));
            }
            let ghost before = res.libs.entries@;
            let (_key, mut info) = res.libs.entries.remove(p);
            assert(info@ == value_of(self@.libs, lib.0));
            info.instances.insert(id, exe_count);
            let ghost info_view = info@;
            res.libs.entries.insert(p, (lib.0, info));
            assert(lib_views(res.libs.entries@) =~= self@.libs.update(
                p as int,
                (lib.0, info_view),
            ));
        } else {
            let mut instances: IdMap<N> = IdMap::new();
            instances.insert(id, exe_count);
            let info: LibInfo<N> = LibInfo { latency_acc, latency_cpu, area, instances };
            res.take(lib.0, info, lps, false);
        }
        res.cycles = res.cycles.plus(latency_acc);
        proof {
            law_selection_with_lib(
                self@,
                lib.0,
                latency_acc,
                latency_cpu,
                area,
                exe_count,
                id,
                lps,
            );
        }
        Some(res)
    }

    /// Whether every library function of this selection is in `other` too.
    pub fn is_subset(&self, other: &LibSel<N>) -> (r: bool)
        requires
            self.wf(),
            other.wf(),
        ensures
            r == uses_subset(self@, other@),
    {
        let n: usize = self.libs.entries.len();
        proof {
            lemma_view_keys(self.libs.entries@);
            lemma_view_keys(other.libs.entries@);
        }
        for i in 0..n
            invariant
                n == self.libs.entries@.len(),
                other.libs.wf(),
                keys(other@.libs) == keys(other.libs.entries@),
                forall|k: usize| holds(other@.libs, k) <==> holds(other.libs.entries@, k),
                forall|j: int|
                    0 <= j < i ==> holds(other@.libs, (#[trigger] self@.libs[j]).0),
        {
            if !other.libs.has(self.libs.entries[i].0) {
                assert(self@.libs[i as int].0 == self.libs.entries@[i as int].0);
                assert(holds(self@.libs, self@.libs[i as int].0));
                assert(!holds(other@.libs, self@.libs[i as int].0));
                return false;
            }
        }
        true
    }
}

} // verus!
