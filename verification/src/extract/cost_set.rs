//! Sets of library selections: crossing, uniting and pruning them.
use crate::extract::lib_sel::{
    combined, lemma_view_keys, uses_subset, with_lib, InfoView, LibInfo, LibSel, SelView,
};
use crate::id_map::{keys, IdMap};
use crate::learn::LibId;
use crate::number::{ranks_before, same_rank, Number};
use crate::sorting::{in_order, lemma_placed_at, lemma_sorted, sorted, total, transitive};
use vstd::prelude::*;

verus! {

/// A set of selections of library functions for one expression, each with its
/// cost.
#[derive(Debug)]
pub struct CostSet<N: Number> {
    pub set: Vec<LibSel<N>>,
}

/// The contents of each selection.
pub open spec fn sel_views<N: Number>(s: Seq<LibSel<N>>) -> Seq<SelView<N>> {
    Seq::new(s.len(), |i: int| s[i]@)
}

impl<N: Number> View for CostSet<N> {
    type V = Seq<SelView<N>>;

    open spec fn view(&self) -> Seq<SelView<N>> {
        sel_views(self.set@)
    }
}

/// Whether every selection is well formed.
pub open spec fn all_wf<N: Number>(s: Seq<SelView<N>>) -> bool {
    forall|i: int| 0 <= i < s.len() ==> (#[trigger] s[i]).wf()
}

// ---------------------------------------------------------------------------
// Comparing selections
// ---------------------------------------------------------------------------

/// Whether two records of a library function are equal.
pub open spec fn same_info<N: Number>(a: InfoView<N>, b: InfoView<N>) -> bool {
    &&& same_rank(a.latency_acc, b.latency_acc)
    &&& same_rank(a.latency_cpu, b.latency_cpu)
    &&& a.area == b.area
    &&& a.instances.len() == b.instances.len()
    &&& forall|i: int|
        0 <= i < a.instances.len() ==> {
            &&& (#[trigger] a.instances[i]).0 == b.instances[i].0
            &&& same_rank(a.instances[i].1, b.instances[i].1)
        }
}

/// Whether two sets of library functions are equal.
pub open spec fn same_libs<N: Number>(
    a: Seq<(usize, InfoView<N>)>,
    b: Seq<(usize, InfoView<N>)>,
) -> bool {
    &&& a.len() == b.len()
    &&& forall|i: int|
        0 <= i < a.len() ==> (#[trigger] a[i]).0 == b[i].0 && same_info(a[i].1, b[i].1)
}

/// Whether two selections are equal.
pub open spec fn same_sel<N: Number>(a: SelView<N>, b: SelView<N>) -> bool {
    same_rank(a.cycles, b.cycles) && a.area == b.area && same_libs(a.libs, b.libs)
}

/// The lexicographic order of sequences of identifiers.
pub open spec fn ids_le(a: Seq<usize>, b: Seq<usize>) -> bool
    decreases a.len(),
{
    if a.len() == 0 {
        true
    } else if b.len() == 0 {
        false
    } else {
        a[0] < b[0] || (a[0] == b[0] && ids_le(a.drop_first(), b.drop_first()))
    }
}

/// The order of selections: by cycles, then by area, then, where `full`, by
/// the identifiers of their library functions.
pub open spec fn sel_le<N: Number>(a: SelView<N>, b: SelView<N>, full: bool) -> bool {
    ||| ranks_before(a.cycles, b.cycles)
    ||| same_rank(a.cycles, b.cycles) && (a.area < b.area || (a.area == b.area && (!full || ids_le(
        keys(a.libs),
        keys(b.libs),
    ))))
}

/// [`sel_le`] as a function.
pub open spec fn sel_order<N: Number>(full: bool) -> spec_fn(SelView<N>, SelView<N>) -> bool {
    |a: SelView<N>, b: SelView<N>| sel_le(a, b, full)
}

/// Whether `other` is at least as good as `cand` in cycles and in area, and
/// better in one of them.
pub open spec fn dominates<N: Number>(other: SelView<N>, cand: SelView<N>) -> bool {
    &&& other.cycles.s_le(cand.cycles)
    &&& other.area <= cand.area
    &&& ranks_before(other.cycles, cand.cycles) || other.area < cand.area
}

// ---------------------------------------------------------------------------
// Operations on sets
// ---------------------------------------------------------------------------

/// `s` with more cycles in every selection.
pub open spec fn more_cycles<N: Number>(s: Seq<SelView<N>>, amount: N) -> Seq<SelView<N>> {
    Seq::new(s.len(), |i: int| SelView { cycles: s[i].cycles.s_plus(amount), ..s[i] })
}

/// `s` with the cycles of every selection divided among lanes.
pub open spec fn split_cycles<N: Number>(s: Seq<SelView<N>>, vec_len: usize) -> Seq<SelView<N>> {
    Seq::new(
        s.len(),
        |i: int| SelView { cycles: s[i].cycles.s_over(N::s_count(vec_len)), ..s[i] },
    )
}

/// Where cycles `c` belong among selections with increasing cycles.
pub open spec fn cycle_slot<N: Number>(s: Seq<SelView<N>>, c: N) -> int
    decreases s.len(),
{
    if s.len() == 0 {
        0
    } else if ranks_before(s.last().cycles, c) {
        s.len() as int
    } else {
        cycle_slot(s.drop_last(), c)
    }
}

/// `s` with `x` at its place, unless there is a selection with the same
/// cycles.
pub open spec fn inserted<N: Number>(s: Seq<SelView<N>>, x: SelView<N>) -> Seq<SelView<N>> {
    let p = cycle_slot(s, x.cycles);
    if p < s.len() && same_rank(s[p].cycles, x.cycles) {
        s
    } else {
        s.insert(p, x)
    }
}

/// `acc` with the combinations of `a` and the first `m` selections of `others`.
pub open spec fn crossed_row<N: Number>(
    acc: Seq<SelView<N>>,
    a: SelView<N>,
    others: Seq<SelView<N>>,
    m: nat,
    lps: usize,
) -> Seq<SelView<N>>
    decreases m,
{
    if m == 0 {
        acc
    } else {
        inserted(
            crossed_row(acc, a, others, (m - 1) as nat, lps),
            combined(a, others[m - 1], lps),
        )
    }
}

/// The combinations of the first `n` selections of `s` and those of `others`.
pub open spec fn crossed<N: Number>(
    s: Seq<SelView<N>>,
    n: nat,
    others: Seq<SelView<N>>,
    lps: usize,
) -> Seq<SelView<N>>
    decreases n,
{
    if n == 0 {
        Seq::empty()
    } else {
        crossed_row(crossed(s, (n - 1) as nat, others, lps), s[n - 1], others, others.len(), lps)
    }
}

/// Whether `s` has a selection equal to `x`.
pub open spec fn has_same<N: Number>(s: Seq<SelView<N>>, x: SelView<N>) -> bool {
    exists|i: int| 0 <= i < s.len() && same_sel(#[trigger] s[i], x)
}

/// The first `n` selections, of equal ones only the first.
pub open spec fn distinct<N: Number>(s: Seq<SelView<N>>, n: nat) -> Seq<SelView<N>>
    decreases n,
{
    if n == 0 {
        Seq::empty()
    } else {
        let d = distinct(s, (n - 1) as nat);
        if has_same(d, s[n - 1]) {
            d
        } else {
            d.push(s[n - 1])
        }
    }
}

/// Two sets as one, in order.
pub open spec fn united<N: Number>(a: Seq<SelView<N>>, b: Seq<SelView<N>>) -> Seq<SelView<N>> {
    let both = a + b;
    sorted(distinct(both, both.len()), sel_order(true))
}

/// The first selection with the library functions `ids`, or the number of
/// selections if there is none.
pub open spec fn group_of<N: Number>(s: Seq<SelView<N>>, ids: Seq<usize>, n: nat) -> int
    decreases s.len() - n,
{
    if n >= s.len() {
        s.len() as int
    } else if keys(s[n as int].libs) == ids {
        n as int
    } else {
        group_of(s, ids, n + 1)
    }
}

/// Of the first `n` selections, one for each set of library functions: the
/// first one, until a later one has fewer cycles or a smaller area.
pub open spec fn grouped<N: Number>(s: Seq<SelView<N>>, n: nat) -> Seq<SelView<N>>
    decreases n,
{
    if n == 0 {
        Seq::empty()
    } else {
        let acc = grouped(s, (n - 1) as nat);
        let cand = s[n - 1];
        let g = group_of(acc, keys(cand.libs), 0);
        if g < acc.len() {
            if ranks_before(cand.cycles, acc[g].cycles) || acc[g].area > cand.area {
                acc.update(g, cand)
            } else {
                acc
            }
        } else {
            acc.push(cand)
        }
    }
}

/// The selections that no other one dominates, of those with the same library
/// functions only one, in order.
pub open spec fn unified<N: Number>(s: Seq<SelView<N>>) -> Seq<SelView<N>> {
    let t = sorted(frontier(s), sel_order(true));
    sorted(grouped(t, t.len()), sel_order(true))
}

/// Whether some selection of `s` dominates `c`.
pub open spec fn dominated<N: Number>(s: Seq<SelView<N>>, c: SelView<N>) -> bool {
    exists|i: int| 0 <= i < s.len() && dominates(#[trigger] s[i], c)
}

/// The selections that no other one dominates.
pub open spec fn frontier<N: Number>(s: Seq<SelView<N>>) -> Seq<SelView<N>> {
    s.filter(|c: SelView<N>| !dominated(s, c))
}

/// Whether some selection of `s` has the library functions of `c`.
pub open spec fn has_libs<N: Number>(s: Seq<SelView<N>>, c: SelView<N>) -> bool {
    exists|i: int| 0 <= i < s.len() && same_libs((#[trigger] s[i]).libs, c.libs)
}

/// The selections whose library functions are not among those of `f`.
pub open spec fn remaining<N: Number>(s: Seq<SelView<N>>, f: Seq<SelView<N>>) -> Seq<SelView<N>> {
    s.filter(|c: SelView<N>| !has_libs(f, c))
}

/// The first `n` of `s`, or all where there are fewer.
pub open spec fn at_most<T>(s: Seq<T>, n: usize) -> Seq<T> {
    if s.len() <= n {
        s
    } else {
        s.take(n as int)
    }
}

/// At most `beam_size` selections: the frontier, the best by cycles and area
/// where it is too large, and filled up with the best others where there is
/// room.
pub open spec fn pruned<N: Number>(s: Seq<SelView<N>>, beam_size: usize) -> Seq<SelView<N>> {
    if beam_size == 0 {
        Seq::empty()
    } else {
        let f = frontier(s);
        if f.len() > beam_size {
            sorted(f, sel_order(false)).take(beam_size as int)
        } else {
            at_most(f + sorted(remaining(s, f), sel_order(false)), beam_size)
        }
    }
}

/// `s` where no selection behind the `i`-th or a later one uses only library
/// functions of it.
pub open spec fn thinned<N: Number>(s: Seq<SelView<N>>, i: int) -> Seq<SelView<N>>
    decreases s.len() - i,
{
    if i < 0 || i >= s.len() {
        s
    } else {
        let rest = s.skip(i + 1).filter(|x: SelView<N>| !uses_subset(x, s[i]));
        proof {
            lemma_filter_len(s.skip(i + 1), |x: SelView<N>| !uses_subset(x, s[i]));
        }
        thinned(s.take(i + 1) + rest, i + 1)
    }
}

/// A filter keeps no more than there is.
pub proof fn lemma_filter_len<T>(s: Seq<T>, p: spec_fn(T) -> bool)
    ensures
        s.filter(p).len() <= s.len(),
    decreases s.len(),
{
    reveal(Seq::filter);
    if s.len() > 0 {
        lemma_filter_len(s.drop_last(), p);
    }
}

// ---------------------------------------------------------------------------
// Comparing selections, executably
// ---------------------------------------------------------------------------

fn equal_rank<N: Number>(a: N, b: N) -> (r: bool)
    ensures
        r == same_rank(a, b),
{
    a.le(b) && b.le(a)
}

fn strictly_before<N: Number>(a: N, b: N) -> (r: bool)
    ensures
        r == ranks_before(a, b),
{
    a.le(b) && !b.le(a)
}

fn equal_info<N: Number>(a: &LibInfo<N>, b: &LibInfo<N>) -> (r: bool)
    ensures
        r == same_info(a@, b@),
{
    if !equal_rank(a.latency_acc, b.latency_acc) || !equal_rank(a.latency_cpu, b.latency_cpu)
        || a.area != b.area || a.instances.entries.len() != b.instances.entries.len() {
        return false;
    }
    let n: usize = a.instances.entries.len();
    for i in 0..n
        invariant
            n == a.instances.entries@.len() == b.instances.entries@.len(),
            forall|j: int|
                0 <= j < i ==> {
                    &&& (#[trigger] a@.instances[j]).0 == b@.instances[j].0
                    &&& same_rank(a@.instances[j].1, b@.instances[j].1)
                },
    {
        let (ka, va) = a.instances.entries[i];
        let (kb, vb) = b.instances.entries[i];
        if ka != kb || !equal_rank(va, vb) {
            assert(a@.instances[i as int] == (ka, va));
            return false;
        }
    }
    true
}

fn equal_libs<N: Number>(a: &LibSel<N>, b: &LibSel<N>) -> (r: bool)
    ensures
        r == same_libs(a@.libs, b@.libs),
{
    if a.libs.entries.len() != b.libs.entries.len() {
        return false;
    }
    let n: usize = a.libs.entries.len();
    for i in 0..n
        invariant
            n == a.libs.entries@.len() == b.libs.entries@.len(),
            forall|j: int|
                0 <= j < i ==> (#[trigger] a@.libs[j]).0 == b@.libs[j].0 && same_info(
                    a@.libs[j].1,
                    b@.libs[j].1,
                ),
    {
        let x = &a.libs.entries[i];
        let y = &b.libs.entries[i];
        assert(a@.libs[i as int] == (x.0, x.1@));
        assert(b@.libs[i as int] == (y.0, y.1@));
        if x.0 != y.0 || !equal_info(&x.1, &y.1) {
            return false;
        }
    }
    true
}

fn equal_sel<N: Number>(a: &LibSel<N>, b: &LibSel<N>) -> (r: bool)
    ensures
        r == same_sel(a@, b@),
{
    equal_rank(a.cycles, b.cycles) && a.area == b.area && equal_libs(a, b)
}

fn ids_in_order<N: Number>(a: &IdMap<LibInfo<N>>, b: &IdMap<LibInfo<N>>) -> (r: bool)
    ensures
        r == ids_le(keys(a.entries@), keys(b.entries@)),
{
    let ghost ka = keys(a.entries@);
    let ghost kb = keys(b.entries@);
    let mut i: usize = 0;
    assert(ka.skip(0) =~= ka && kb.skip(0) =~= kb);
    while i < a.entries.len() && i < b.entries.len()
        invariant
            ka == keys(a.entries@),
            kb == keys(b.entries@),
            i <= ka.len(),
            i <= kb.len(),
            ids_le(ka, kb) == ids_le(ka.skip(i as int), kb.skip(i as int)),
        decreases a.entries@.len() - i,
    {
        let x: usize = a.entries[i].0;
        let y: usize = b.entries[i].0;
        assert(ka.skip(i as int)[0] == x && kb.skip(i as int)[0] == y);
        assert(ka.skip(i as int).drop_first() =~= ka.skip(i + 1));
        assert(kb.skip(i as int).drop_first() =~= kb.skip(i + 1));
        if x < y {
            return true;
        }
        if y < x {
            return false;
        }
        i = i + 1;
    }
    i >= a.entries.len()
}

fn equal_ids<N: Number>(a: &LibSel<N>, b: &LibSel<N>) -> (r: bool)
    ensures
        r == (keys(a@.libs) == keys(b@.libs)),
{
    let ghost ka = keys(a@.libs);
    let ghost kb = keys(b@.libs);
    if a.libs.entries.len() != b.libs.entries.len() {
        assert(ka.len() != kb.len());
        return false;
    }
    let n: usize = a.libs.entries.len();
    for i in 0..n
        invariant
            n == a.libs.entries@.len() == b.libs.entries@.len(),
            ka == keys(a@.libs),
            kb == keys(b@.libs),
            forall|j: int| 0 <= j < i ==> ka[j] == kb[j],
    {
        if a.libs.entries[i].0 != b.libs.entries[i].0 {
            assert(ka[i as int] != kb[i as int]);
            return false;
        }
    }
    assert(ka =~= kb);
    true
}

fn sel_in_order<N: Number>(a: &LibSel<N>, b: &LibSel<N>, full: bool) -> (r: bool)
    ensures
        r == sel_le(a@, b@, full),
{
    proof {
        lemma_view_keys(a.libs.entries@);
        lemma_view_keys(b.libs.entries@);
    }
    if a.cycles.le(b.cycles) {
        if !b.cycles.le(a.cycles) {
            true
        } else {
            a.area < b.area || (a.area == b.area && (!full || ids_in_order(&a.libs, &b.libs)))
        }
    } else {
        false
    }
}

fn dominating<N: Number>(other: &LibSel<N>, cand: &LibSel<N>) -> (r: bool)
    ensures
        r == dominates(other@, cand@),
{
    other.cycles.le(cand.cycles) && other.area <= cand.area && (strictly_before(
        other.cycles,
        cand.cycles,
    ) || other.area < cand.area)
}

/// The selections in order, equal ones staying in the order in which they
/// were.
fn sort_sels<N: Number>(v: &Vec<LibSel<N>>, full: bool) -> (r: Vec<LibSel<N>>)
    ensures
        sel_views(r@) == sorted(sel_views(v@), sel_order(full)),
{
    let ghost s = sel_views(v@);
    let ghost le = sel_order::<N>(full);
    let mut out: Vec<LibSel<N>> = Vec::new();
    let n: usize = v.len();
    assert(sel_views(out@) =~= sorted(s.take(0), le));
    for i in 0..n
        invariant
            n == v@.len(),
            s == sel_views(v@),
            le == sel_order::<N>(full),
            sel_views(out@) == sorted(s.take(i as int), le),
    {
        let ghost t = sel_views(out@);
        let mut p: usize = out.len();
        while p > 0 && !sel_in_order(&out[p - 1], &v[i], full)
            invariant
                i < v@.len(),
                p <= out@.len(),
                t == sel_views(out@),
                s == sel_views(v@),
                le == sel_order::<N>(full),
                forall|j: int| p <= j < t.len() ==> !le(#[trigger] t[j], s[i as int]),
            decreases p,
        {
            assert(!le(t[p - 1], s[i as int]));
            p = p - 1;
        }
        proof {
            if p > 0 {
                assert(le(t[p - 1], s[i as int]));
            }
            lemma_placed_at(t, s[i as int], le, p as int);
            assert(s.take(i + 1).drop_last() =~= s.take(i as int));
        }
        out.insert(p, v[i].duplicate());
        assert(sel_views(out@) =~= t.insert(p as int, s[i as int]));
    }
    assert(s.take(n as int) =~= s);
    out
}

// ---------------------------------------------------------------------------
// Comparing sets
// ---------------------------------------------------------------------------

/// The order of sets: lexicographically, by the cycles of their selections.
pub open spec fn set_le<N: Number>(a: Seq<SelView<N>>, b: Seq<SelView<N>>) -> bool
    decreases a.len(),
{
    if a.len() == 0 {
        true
    } else if b.len() == 0 {
        false
    } else {
        ||| ranks_before(a[0].cycles, b[0].cycles)
        ||| same_rank(a[0].cycles, b[0].cycles) && set_le(a.drop_first(), b.drop_first())
    }
}

/// [`set_le`] as a function.
pub open spec fn set_order<N: Number>() -> spec_fn(Seq<SelView<N>>, Seq<SelView<N>>) -> bool {
    |a: Seq<SelView<N>>, b: Seq<SelView<N>>| set_le(a, b)
}

proof fn lemma_set_le_total<N: Number>(a: Seq<SelView<N>>, b: Seq<SelView<N>>)
    ensures
        set_le(a, b) || set_le(b, a),
    decreases a.len(),
{
    if a.len() > 0 && b.len() > 0 {
        N::le_total(a[0].cycles, b[0].cycles);
        lemma_set_le_total(a.drop_first(), b.drop_first());
    }
}

proof fn lemma_set_le_transitive<N: Number>(
    a: Seq<SelView<N>>,
    b: Seq<SelView<N>>,
    c: Seq<SelView<N>>,
)
    requires
        set_le(a, b),
        set_le(b, c),
    ensures
        set_le(a, c),
    decreases a.len(),
{
    if a.len() > 0 {
        let x = a[0].cycles;
        let y = b[0].cycles;
        let z = c[0].cycles;
        N::le_transitive(x, y, z);
        if z.s_le(x) {
            N::le_transitive(z, x, y);
            N::le_transitive(y, z, x);
            lemma_set_le_transitive(a.drop_first(), b.drop_first(), c.drop_first());
        }
    }
}

/// The order of sets is total and transitive.
pub proof fn law_sets_compare<N: Number>()
    ensures
        total(set_order::<N>()),
        transitive(set_order::<N>()),
{
    let le = set_order::<N>();
    assert forall|a: Seq<SelView<N>>, b: Seq<SelView<N>>| #[trigger] le(a, b) || le(b, a) by {
        lemma_set_le_total(a, b);
    }
    assert forall|a: Seq<SelView<N>>, b: Seq<SelView<N>>, c: Seq<SelView<N>>| #[trigger]
        le(a, b) && #[trigger] le(b, c) implies le(a, c) by {
        lemma_set_le_transitive(a, b, c);
    }
}

/// The contents of each set.
pub open spec fn set_views<N: Number>(s: Seq<CostSet<N>>) -> Seq<Seq<SelView<N>>> {
    Seq::new(s.len(), |i: int| s[i]@)
}

fn sets_in_order<N: Number>(a: &CostSet<N>, b: &CostSet<N>) -> (r: bool)
    ensures
        r == set_le(a@, b@),
{
    let n: usize = a.set.len();
    let m: usize = b.set.len();
    let mut i: usize = 0;
    assert(a@.skip(0) =~= a@ && b@.skip(0) =~= b@);
    while i < n && i < m
        invariant
            n == a.set@.len(),
            m == b.set@.len(),
            i <= n,
            i <= m,
            set_le(a@, b@) == set_le(a@.skip(i as int), b@.skip(i as int)),
        decreases n - i,
    {
        assert(a@.skip(i as int)[0] == a.set@[i as int]@);
        assert(b@.skip(i as int)[0] == b.set@[i as int]@);
        assert(a@.skip(i as int).drop_first() =~= a@.skip(i + 1));
        assert(b@.skip(i as int).drop_first() =~= b@.skip(i + 1));
        if !equal_rank(a.set[i].cycles, b.set[i].cycles) {
            return strictly_before(a.set[i].cycles, b.set[i].cycles);
        }
        i = i + 1;
    }
    i == n
}

/// The sets in order, equal ones staying in the order in which they were.
pub(crate) fn sort_sets<N: Number>(v: Vec<CostSet<N>>) -> (r: Vec<CostSet<N>>)
    ensures
        set_views(r@) == sorted(set_views(v@), set_order()),
{
    let ghost s = set_views(v@);
    let ghost le = set_order::<N>();
    let mut out: Vec<CostSet<N>> = Vec::new();
    let n: usize = v.len();
    assert(set_views(out@) =~= sorted(s.take(0), le));
    for i in 0..n
        invariant
            n == v@.len(),
            s == set_views(v@),
            le == set_order::<N>(),
            set_views(out@) == sorted(s.take(i as int), le),
    {
        let ghost t = set_views(out@);
        let mut p: usize = out.len();
        while p > 0 && !sets_in_order(&out[p - 1], &v[i])
            invariant
                i < v@.len(),
                p <= out@.len(),
                t == set_views(out@),
                s == set_views(v@),
                le == set_order::<N>(),
                forall|j: int| p <= j < t.len() ==> !le(#[trigger] t[j], s[i as int]),
            decreases p,
        {
            assert(!le(t[p - 1], s[i as int]));
            p = p - 1;
        }
        proof {
            if p > 0 {
                assert(le(t[p - 1], s[i as int]));
            }
            lemma_placed_at(t, s[i as int], le, p as int);
            assert(s.take(i + 1).drop_last() =~= s.take(i as int));
        }
        out.insert(p, v[i].duplicate());
        assert(set_views(out@) =~= t.insert(p as int, s[i as int]));
    }
    assert(s.take(n as int) =~= s);
    out
}

// ---------------------------------------------------------------------------
// The set
// ---------------------------------------------------------------------------

pub(crate) proof fn lemma_cycle_slot_range<N: Number>(s: Seq<SelView<N>>, c: N)
    ensures
        0 <= cycle_slot(s, c) <= s.len(),
    decreases s.len(),
{
    if s.len() > 0 {
        lemma_cycle_slot_range(s.drop_last(), c);
    }
}

proof fn lemma_inserted_wf<N: Number>(s: Seq<SelView<N>>, x: SelView<N>)
    requires
        all_wf(s),
        x.wf(),
    ensures
        all_wf(inserted(s, x)),
{
    lemma_cycle_slot_range(s, x.cycles);
    let p = cycle_slot(s, x.cycles);
    let t = inserted(s, x);
    assert forall|i: int| 0 <= i < t.len() implies (#[trigger] t[i]).wf() by {
        if t.len() == s.len() {
            assert(t[i] == s[i]);
        } else if i < p {
            assert(t[i] == s[i]);
        } else if i > p {
            assert(t[i] == s[i - 1]);
        }
    }
}

pub(crate) proof fn lemma_filter_members<T>(s: Seq<T>, p: spec_fn(T) -> bool)
    ensures
        forall|x: T| s.filter(p).contains(x) <==> s.contains(x) && p(x),
{
    assert forall|x: T| s.filter(p).contains(x) <==> s.contains(x) && p(x) by {
        if s.filter(p).contains(x) {
            s.lemma_filter_contains_rev(p, x);
            let i = choose|i: int| 0 <= i < s.filter(p).len() && s.filter(p)[i] == x;
            s.lemma_filter_pred(p, i);
        }
        if s.contains(x) && p(x) {
            let i = choose|i: int| 0 <= i < s.len() && s[i] == x;
            s.lemma_filter_contains(p, i);
        }
    }
}

proof fn lemma_rearranged_members<T>(a: Seq<T>, b: Seq<T>)
    requires
        a.to_multiset() == b.to_multiset(),
    ensures
        forall|x: T| a.contains(x) <==> b.contains(x),
{
    broadcast use vstd::seq_lib::group_to_multiset_ensures;

    assert forall|x: T| a.contains(x) <==> b.contains(x) by {
        assert(a.contains(x) <==> a.to_multiset().count(x) > 0);
        assert(b.contains(x) <==> b.to_multiset().count(x) > 0);
    }
}

pub(crate) proof fn lemma_sorted_members<T>(s: Seq<T>, le: spec_fn(T, T) -> bool)
    ensures
        forall|x: T| sorted(s, le).contains(x) <==> s.contains(x),
        sorted(s, le).len() == s.len(),
{
    lemma_sorted(s, le);
    lemma_rearranged_members(sorted(s, le), s);
}

pub(crate) proof fn lemma_distinct_members<N: Number>(s: Seq<SelView<N>>, n: nat)
    requires
        n <= s.len(),
    ensures
        forall|x: SelView<N>| distinct(s, n).contains(x) ==> s.contains(x),
    decreases n,
{
    if n > 0 {
        lemma_distinct_members(s, (n - 1) as nat);
        let d = distinct(s, (n - 1) as nat);
        assert forall|x: SelView<N>| distinct(s, n).contains(x) implies s.contains(x) by {
            if !has_same(d, s[n - 1]) {
                let e = d.push(s[n - 1]);
                let i = choose|i: int| 0 <= i < e.len() && e[i] == x;
                if i < d.len() {
                    assert(d[i] == x);
                    assert(d.contains(x));
                } else {
                    assert(s[n - 1] == x);
                }
            }
        }
    }
}

pub(crate) proof fn lemma_group_of<N: Number>(s: Seq<SelView<N>>, ids: Seq<usize>, n: nat)
    requires
        n <= s.len(),
    ensures
        n <= group_of(s, ids, n) <= s.len(),
        forall|j: int| n <= j < group_of(s, ids, n) ==> keys((#[trigger] s[j]).libs) != ids,
        group_of(s, ids, n) < s.len() ==> keys(s[group_of(s, ids, n)].libs) == ids,
    decreases s.len() - n,
{
    if n < s.len() && keys(s[n as int].libs) != ids {
        lemma_group_of(s, ids, n + 1);
    }
}

proof fn lemma_group_of_is<N: Number>(s: Seq<SelView<N>>, ids: Seq<usize>, p: int)
    requires
        0 <= p <= s.len(),
        forall|j: int| 0 <= j < p ==> keys((#[trigger] s[j]).libs) != ids,
        p < s.len() ==> keys(s[p].libs) == ids,
    ensures
        group_of(s, ids, 0) == p,
{
    lemma_group_of(s, ids, 0);
    let g = group_of(s, ids, 0);
    if g < p {
        assert(keys(s[g].libs) != ids);
    }
    if p < g {
        assert(keys(s[p].libs) != ids);
    }
}

pub(crate) proof fn lemma_grouped<N: Number>(s: Seq<SelView<N>>, n: nat)
    requires
        n <= s.len(),
    ensures
        forall|x: SelView<N>| grouped(s, n).contains(x) ==> s.contains(x),
        forall|i: int, j: int|
            0 <= i < j < grouped(s, n).len() ==> keys((#[trigger] grouped(s, n)[i]).libs) != keys(
                (#[trigger] grouped(s, n)[j]).libs,
            ),
        forall|k: int|
            0 <= k < n ==> exists|i: int|
                0 <= i < grouped(s, n).len() && keys((#[trigger] grouped(s, n)[i]).libs) == keys(
                    (#[trigger] s[k]).libs,
                ),
        grouped(s, n).len() <= n,
    decreases n,
{
    if n > 0 {
        lemma_grouped(s, (n - 1) as nat);
        let acc = grouped(s, (n - 1) as nat);
        let cand = s[n - 1];
        let ids = keys(cand.libs);
        lemma_group_of(acc, ids, 0);
        let g = group_of(acc, ids, 0);
        let t = grouped(s, n);
        assert forall|x: SelView<N>| t.contains(x) implies s.contains(x) by {
            let i = choose|i: int| 0 <= i < t.len() && t[i] == x;
            if i < acc.len() && t[i] == acc[i] {
                assert(acc.contains(x));
            } else {
                assert(x == s[n - 1]);
            }
        }
        assert forall|i: int| 0 <= i < acc.len() implies keys((#[trigger] t[i]).libs) == keys(
            acc[i].libs,
        ) by {}
        assert forall|i: int, j: int| 0 <= i < j < t.len() implies keys((#[trigger] t[i]).libs)
            != keys((#[trigger] t[j]).libs) by {
            if j < acc.len() {
                assert(keys(acc[i].libs) != keys(acc[j].libs));
            } else {
                assert(keys(acc[i].libs) != ids);
            }
        }
        assert forall|k: int| 0 <= k < n implies exists|i: int|
            0 <= i < t.len() && keys((#[trigger] t[i]).libs) == keys((#[trigger] s[k]).libs) by {
            if k < n - 1 {
                let i = choose|i: int|
                    0 <= i < acc.len() && keys((#[trigger] acc[i]).libs) == keys(s[k].libs);
                assert(keys(t[i].libs) == keys(s[k].libs));
            } else {
                if g < acc.len() {
                    assert(keys(t[g].libs) == keys(s[k].libs));
                } else {
                    assert(t[acc.len() as int] == s[k]);
                }
            }
        }
    }
}

pub(crate) proof fn lemma_members_wf<N: Number>(a: Seq<SelView<N>>, b: Seq<SelView<N>>)
    requires
        all_wf(b),
        forall|x: SelView<N>| a.contains(x) ==> b.contains(x),
    ensures
        all_wf(a),
{
    assert forall|i: int| 0 <= i < a.len() implies (#[trigger] a[i]).wf() by {
        assert(a.contains(a[i]));
        let j = choose|j: int| 0 <= j < b.len() && b[j] == a[i];
        assert(b[j].wf());
    }
}

/// Every selection that is left after pruning was there before.
pub proof fn law_pruning_adds_nothing<N: Number>(s: Seq<SelView<N>>, beam_size: usize)
    ensures
        forall|x: SelView<N>| pruned(s, beam_size).contains(x) ==> s.contains(x),
{
    let r = pruned(s, beam_size);
    if beam_size > 0 {
        let f = frontier(s);
        lemma_filter_members(s, |c: SelView<N>| !dominated(s, c));
        if f.len() > beam_size {
            let o = sorted(f, sel_order(false));
            lemma_sorted_members(f, sel_order(false));
            assert forall|x: SelView<N>| r.contains(x) implies s.contains(x) by {
                let i = choose|i: int| 0 <= i < r.len() && r[i] == x;
                assert(o[i] == x);
                assert(o.contains(x));
                assert(f.contains(x));
            }
        } else {
            let rest = remaining(s, f);
            let o = sorted(rest, sel_order(false));
            lemma_filter_members(s, |c: SelView<N>| !has_libs(f, c));
            lemma_sorted_members(rest, sel_order(false));
            assert forall|x: SelView<N>| r.contains(x) implies s.contains(x) by {
                let i = choose|i: int| 0 <= i < r.len() && r[i] == x;
                assert((f + o)[i] == x);
                if i < f.len() {
                    assert(f.contains(x));
                } else {
                    assert(o[i - f.len()] == x);
                    assert(o.contains(x));
                    assert(rest.contains(x));
                }
            }
        }
    }
}

/// Unifying invents no selection. What it keeps no selection of the set
/// dominates, and each set of library functions that has such a selection
/// stays, with one of them.
pub proof fn law_unified<N: Number>(s: Seq<SelView<N>>)
    ensures
        forall|x: SelView<N>| #[trigger]
            unified(s).contains(x) ==> s.contains(x) && !dominated(s, x),
        forall|i: int, j: int|
            0 <= i < j < unified(s).len() ==> keys((#[trigger] unified(s)[i]).libs) != keys(
                (#[trigger] unified(s)[j]).libs,
            ),
        forall|x: SelView<N>| #[trigger]
            s.contains(x) && !dominated(s, x) ==> exists|i: int|
                0 <= i < unified(s).len() && keys((#[trigger] unified(s)[i]).libs) == keys(x.libs),
        unified(s).len() <= s.len(),
        s.len() > 0 ==> unified(s).len() > 0,
{
    let le = sel_order::<N>(true);
    let f = frontier(s);
    let best = |c: SelView<N>| !dominated(s, c);
    lemma_filter_members(s, best);
    lemma_filter_len(s, best);
    let t = sorted(f, le);
    let g = grouped(t, t.len());
    let u = unified(s);
    lemma_sorted_members(f, le);
    lemma_sorted_members(g, le);
    lemma_grouped(t, t.len());
    assert forall|x: SelView<N>| #[trigger] u.contains(x) implies s.contains(x) && !dominated(
        s,
        x,
    ) by {
        assert(g.contains(x));
        assert(t.contains(x));
        assert(f.contains(x));
    }
    lemma_sorted_differ(g);
    assert forall|x: SelView<N>| #[trigger]
        s.contains(x) && !dominated(s, x) implies exists|i: int|
        0 <= i < u.len() && keys((#[trigger] u[i]).libs) == keys(x.libs) by {
        assert(f.contains(x));
        assert(t.contains(x));
        let k = choose|k: int| 0 <= k < t.len() && t[k] == x;
        let i = choose|i: int|
            0 <= i < g.len() && keys((#[trigger] g[i]).libs) == keys((#[trigger] t[k]).libs);
        assert(g.contains(g[i]));
        assert(u.contains(g[i]));
        let j = choose|j: int| 0 <= j < u.len() && u[j] == g[i];
        assert(keys(u[j].libs) == keys(x.libs));
    }
    if s.len() > 0 {
        let m = lemma_undominated(s);
        assert(s.contains(s[m]));
    }
}

/// Sorting selections with different library functions leaves them different.
proof fn lemma_sorted_differ<N: Number>(s: Seq<SelView<N>>)
    requires
        forall|i: int, j: int|
            0 <= i < j < s.len() ==> keys((#[trigger] s[i]).libs) != keys((#[trigger] s[j]).libs),
    ensures
        forall|i: int, j: int|
            0 <= i < j < sorted(s, sel_order(true)).len() ==> keys(
                (#[trigger] sorted(s, sel_order(true))[i]).libs,
            ) != keys((#[trigger] sorted(s, sel_order(true))[j]).libs),
{
    let le = sel_order::<N>(true);
    let t = sorted(s, le);
    law_selections_are_ordered::<N>(true);
    lemma_sorted(s, le);
    lemma_sorted_members(s, le);
    assert(s.no_duplicates());
    s.lemma_multiset_has_no_duplicates();
    t.lemma_multiset_has_no_duplicates_conv();
    assert forall|i: int, j: int| 0 <= i < j < t.len() implies keys((#[trigger] t[i]).libs) != keys(
        (#[trigger] t[j]).libs,
    ) by {
        assert(t.contains(t[i]) && t.contains(t[j]));
        assert(s.contains(t[i]) && s.contains(t[j]));
        let a = choose|a: int| 0 <= a < s.len() && s[a] == t[i];
        let b = choose|b: int| 0 <= b < s.len() && s[b] == t[j];
        if keys(t[i].libs) == keys(t[j].libs) {
            assert(a == b);
        }
    }
}

proof fn lemma_undominated<N: Number>(s: Seq<SelView<N>>) -> (m: int)
    requires
        s.len() > 0,
    ensures
        0 <= m < s.len(),
        !dominated(s, s[m]),
        forall|i: int| 0 <= i < s.len() ==> sel_le(s[m], #[trigger] s[i], false),
{
    let m = lemma_least(s, s.len());
    assert(!dominated(s, s[m])) by {
        if dominated(s, s[m]) {
            let i = choose|i: int| 0 <= i < s.len() && dominates(#[trigger] s[i], s[m]);
            assert(sel_le(s[m], s[i], false));
        }
    }
    m
}

proof fn lemma_ids_le_total(a: Seq<usize>, b: Seq<usize>)
    ensures
        ids_le(a, b) || ids_le(b, a),
    decreases a.len(),
{
    if a.len() > 0 && b.len() > 0 {
        lemma_ids_le_total(a.drop_first(), b.drop_first());
    }
}

proof fn lemma_ids_le_transitive(a: Seq<usize>, b: Seq<usize>, c: Seq<usize>)
    requires
        ids_le(a, b),
        ids_le(b, c),
    ensures
        ids_le(a, c),
    decreases a.len(),
{
    if a.len() > 0 && a[0] == b[0] && b[0] == c[0] {
        lemma_ids_le_transitive(a.drop_first(), b.drop_first(), c.drop_first());
    }
}

/// The order of selections is total and transitive.
pub proof fn law_selections_are_ordered<N: Number>(full: bool)
    ensures
        total(sel_order::<N>(full)),
        transitive(sel_order::<N>(full)),
{
    let le = sel_order::<N>(full);
    assert forall|a: SelView<N>, b: SelView<N>| #[trigger] le(a, b) || le(b, a) by {
        N::le_total(a.cycles, b.cycles);
        lemma_ids_le_total(keys(a.libs), keys(b.libs));
    }
    assert forall|a: SelView<N>, b: SelView<N>, c: SelView<N>| #[trigger]
        le(a, b) && #[trigger] le(b, c) implies le(a, c) by {
        N::le_transitive(a.cycles, b.cycles, c.cycles);
        if c.cycles.s_le(a.cycles) {
            N::le_transitive(c.cycles, a.cycles, b.cycles);
            N::le_transitive(b.cycles, c.cycles, a.cycles);
        }
        if full && ids_le(keys(a.libs), keys(b.libs)) && ids_le(keys(b.libs), keys(c.libs)) {
            lemma_ids_le_transitive(keys(a.libs), keys(b.libs), keys(c.libs));
        }
    }
}

/// Uniting two sets and unifying a set leave the selections in ascending
/// order of cycles, then of area.
pub proof fn law_sets_are_ordered<N: Number>(a: Seq<SelView<N>>, b: Seq<SelView<N>>)
    ensures
        in_order(united(a, b), sel_order(true)),
        in_order(unified(a), sel_order(true)),
{
    law_selections_are_ordered::<N>(true);
    let both = a + b;
    let t = sorted(frontier(a), sel_order(true));
    lemma_sorted(distinct(both, both.len()), sel_order(true));
    lemma_sorted(grouped(t, t.len()), sel_order(true));
}

/// Whether the cycles grow from each selection to the next.
pub open spec fn cycles_increase<N: Number>(s: Seq<SelView<N>>) -> bool {
    forall|i: int, j: int|
        0 <= i < j < s.len() ==> ranks_before(
            (#[trigger] s[i]).cycles,
            (#[trigger] s[j]).cycles,
        )
}

proof fn lemma_before_transitive<N: Number>(a: N, b: N, c: N)
    requires
        a.s_le(b),
        ranks_before(b, c),
    ensures
        ranks_before(a, c),
{
    N::le_transitive(a, b, c);
    if c.s_le(a) {
        N::le_transitive(c, a, b);
    }
}

proof fn lemma_cycle_slot<N: Number>(s: Seq<SelView<N>>, c: N)
    requires
        cycles_increase(s),
    ensures
        0 <= cycle_slot(s, c) <= s.len(),
        forall|i: int| 0 <= i < cycle_slot(s, c) ==> ranks_before((#[trigger] s[i]).cycles, c),
        forall|i: int| cycle_slot(s, c) <= i < s.len() ==> c.s_le((#[trigger] s[i]).cycles),
    decreases s.len(),
{
    if s.len() > 0 {
        let last = s[s.len() - 1];
        if ranks_before(last.cycles, c) {
            assert forall|i: int| 0 <= i < s.len() implies ranks_before(
                (#[trigger] s[i]).cycles,
                c,
            ) by {
                if i < s.len() - 1 {
                    assert(ranks_before(s[i].cycles, last.cycles));
                    lemma_before_transitive(s[i].cycles, last.cycles, c);
                }
            }
        } else {
            let t = s.drop_last();
            assert(cycles_increase(t)) by {
                assert forall|i: int, j: int| 0 <= i < j < t.len() implies ranks_before(
                    (#[trigger] t[i]).cycles,
                    (#[trigger] t[j]).cycles,
                ) by {
                    assert(ranks_before(s[i].cycles, s[j].cycles));
                }
            }
            lemma_cycle_slot(t, c);
            N::le_total(last.cycles, c);
            assert forall|i: int| cycle_slot(s, c) <= i < s.len() implies c.s_le(
                (#[trigger] s[i]).cycles,
            ) by {
                if i < s.len() - 1 {
                    assert(t[i] == s[i]);
                }
            }
            assert forall|i: int| 0 <= i < cycle_slot(s, c) implies ranks_before(
                (#[trigger] s[i]).cycles,
                c,
            ) by {
                assert(t[i] == s[i]);
            }
        }
    }
}

pub(crate) proof fn lemma_inserted_increasing<N: Number>(s: Seq<SelView<N>>, x: SelView<N>)
    requires
        cycles_increase(s),
    ensures
        cycles_increase(inserted(s, x)),
{
    lemma_cycle_slot(s, x.cycles);
    let p = cycle_slot(s, x.cycles);
    let t = inserted(s, x);
    if t != s {
        assert forall|i: int, j: int| 0 <= i < j < t.len() implies ranks_before(
            (#[trigger] t[i]).cycles,
            (#[trigger] t[j]).cycles,
        ) by {
            if j < p {
                assert(ranks_before(s[i].cycles, s[j].cycles));
            } else if j == p {
                assert(t[i] == s[i]);
            } else if i < p {
                assert(t[i] == s[i] && t[j] == s[j - 1]);
                assert(ranks_before(s[i].cycles, s[j - 1].cycles));
            } else if i > p {
                assert(t[i] == s[i - 1] && t[j] == s[j - 1]);
                assert(ranks_before(s[i - 1].cycles, s[j - 1].cycles));
            } else {
                assert(t[j] == s[j - 1]);
                let c = s[p].cycles;
                assert(x.cycles.s_le(c));
                if j - 1 > p {
                    assert(ranks_before(c, s[j - 1].cycles));
                    lemma_before_transitive(x.cycles, c, s[j - 1].cycles);
                }
            }
        }
    }
}

proof fn lemma_crossed_row_increasing<N: Number>(
    acc: Seq<SelView<N>>,
    a: SelView<N>,
    others: Seq<SelView<N>>,
    m: nat,
    lps: usize,
)
    requires
        cycles_increase(acc),
    ensures
        cycles_increase(crossed_row(acc, a, others, m, lps)),
    decreases m,
{
    if m > 0 {
        lemma_crossed_row_increasing(acc, a, others, (m - 1) as nat, lps);
        lemma_inserted_increasing(
            crossed_row(acc, a, others, (m - 1) as nat, lps),
            combined(a, others[m - 1], lps),
        );
    }
}

/// In the product of two sets the cycles grow from each selection to the
/// next, so no two have the same cycles.
pub proof fn law_product_is_ascending<N: Number>(
    s: Seq<SelView<N>>,
    n: nat,
    others: Seq<SelView<N>>,
    lps: usize,
)
    ensures
        cycles_increase(crossed(s, n, others, lps)),
    decreases n,
{
    if n > 0 {
        law_product_is_ascending(s, (n - 1) as nat, others, lps);
        lemma_crossed_row_increasing(
            crossed(s, (n - 1) as nat, others, lps),
            s[n - 1],
            others,
            others.len(),
            lps,
        );
    }
}

/// The first selection that none of the first `n` comes before.
proof fn lemma_least<N: Number>(s: Seq<SelView<N>>, n: nat) -> (k: int)
    requires
        0 < n <= s.len(),
    ensures
        0 <= k < n,
        forall|i: int| 0 <= i < n ==> sel_le(s[k], #[trigger] s[i], false),
    decreases n,
{
    law_selections_are_ordered::<N>(false);
    let le = sel_order::<N>(false);
    if n == 1 {
        assert(le(s[0], s[0]));
        0
    } else {
        let j = lemma_least(s, (n - 1) as nat);
        if le(s[j], s[n - 1]) {
            j
        } else {
            assert(le(s[n - 1], s[j]));
            assert(le(s[n - 1], s[n - 1]));
            assert forall|i: int| 0 <= i < n implies sel_le(s[n - 1], #[trigger] s[i], false) by {
                if i < n - 1 {
                    assert(le(s[j], s[i]));
                }
            }
            n - 1
        }
    }
}

/// Pruning keeps no more than the beam holds. The frontier, where it fits,
/// stays whole and in front; and where anything can stay, a selection with
/// the fewest cycles stays.
pub proof fn law_pruning_keeps_the_best<N: Number>(s: Seq<SelView<N>>, beam_size: usize)
    ensures
        pruned(s, beam_size).len() <= beam_size,
        frontier(s).len() <= beam_size ==> frontier(s).is_prefix_of(pruned(s, beam_size)),
        beam_size > 0 && s.len() > 0 ==> exists|k: int|
            0 <= k < pruned(s, beam_size).len() && forall|i: int|
                0 <= i < s.len() ==> (#[trigger] pruned(s, beam_size)[k]).cycles.s_le(
                    (#[trigger] s[i]).cycles,
                ),
{
    let r = pruned(s, beam_size);
    let f = frontier(s);
    let best = |c: SelView<N>| !dominated(s, c);
    let le = sel_order::<N>(false);
    law_selections_are_ordered::<N>(false);
    if beam_size > 0 {
        lemma_sorted(f, le);
        if f.len() <= beam_size {
            assert(f =~= r.subrange(0, f.len() as int));
        }
    }
    if beam_size == 0 {
        lemma_filter_len(s, best);
        assert(f.len() <= 0 ==> f =~= r.subrange(0, f.len() as int));
    }
    if beam_size > 0 && s.len() > 0 {
        let m = lemma_undominated(s);
        lemma_filter_members(s, best);
        assert(s.contains(s[m]));
        assert(f.contains(s[m]));
        let q = choose|q: int| 0 <= q < f.len() && f[q] == s[m];
        let k = if f.len() > beam_size {
            let o = sorted(f, le);
            lemma_sorted_members(f, le);
            assert(o.contains(s[m]));
            let w = choose|w: int| 0 <= w < o.len() && o[w] == s[m];
            assert(r[0] == o[0]);
            assert(w > 0 ==> le(o[0], o[w]));
            0
        } else {
            assert(r[q] == f[q]);
            q
        };
        assert forall|i: int| 0 <= i < s.len() implies (#[trigger] r[k]).cycles.s_le(
            (#[trigger] s[i]).cycles,
        ) by {
            assert(sel_le(s[m], s[i], false));
            if r[k] != s[m] {
                N::le_transitive(r[k].cycles, s[m].cycles, s[i].cycles);
            }
        }
    }
}

/// Puts `x` at its place, unless there is a selection with the same cycles.
fn insert_sel<N: Number>(set: &mut Vec<LibSel<N>>, x: LibSel<N>)
    ensures
        sel_views(final(set)@) == inserted(sel_views(old(set)@), x@),
{
    let ghost s = sel_views(set@);
    let mut p: usize = set.len();
    assert(s.take(p as int) =~= s);
    while p > 0 && !strictly_before(set[p - 1].cycles, x.cycles)
        invariant
            p <= set@.len(),
            s == sel_views(set@),
            cycle_slot(s, x.cycles) == cycle_slot(s.take(p as int), x.cycles),
        decreases p,
    {
        assert(s.take(p as int).last() == set@[p - 1]@);
        assert(s.take(p as int).drop_last() =~= s.take(p - 1));
        p = p - 1;
    }
    assert(p > 0 ==> s.take(p as int).last() == set@[p - 1]@);
    assert(cycle_slot(s, x.cycles) == p);
    if p < set.len() && equal_rank(set[p].cycles, x.cycles) {
        assert(s[p as int] == set@[p as int]@);
        return;
    }
    let ghost v = x@;
    assert(p < s.len() ==> s[p as int] == set@[p as int]@);
    set.insert(p, x);
    assert(sel_views(set@) =~= s.insert(p as int, v));
}

impl<N: Number> CostSet<N> {
    /// Whether every selection is well formed.
    pub open spec fn wf(&self) -> bool {
        all_wf(self@)
    }

    /// The set for an operation without arguments: one selection, without
    /// library functions.
    pub fn new() -> (r: CostSet<N>)
        ensures
            r.wf(),
            r@ == seq![SelView::<N> { cycles: N::s_zero(), area: 0, libs: Seq::empty() }],
    {
        let mut set: Vec<LibSel<N>> = Vec::new();
        set.push(LibSel::new());
        let r: CostSet<N> = CostSet { set };
        assert(r@ =~= seq![SelView::<N> { cycles: N::s_zero(), area: 0, libs: Seq::empty() }]);
        r
    }

    /// A second set with the same contents.
    pub fn duplicate(&self) -> (r: CostSet<N>)
        ensures
            r@ == self@,
    {
        let mut set: Vec<LibSel<N>> = Vec::new();
        let n: usize = self.set.len();
        for i in 0..n
            invariant
                n == self.set@.len(),
                sel_views(set@) == self@.take(i as int),
        {
            let ghost before = set@;
            set.push(self.set[i].duplicate());
            assert(sel_views(set@) =~= sel_views(before).push(self@[i as int]));
            assert(self@.take(i as int).push(self@[i as int]) =~= self@.take(i + 1));
        }
        assert(self@.take(n as int) =~= self@);
        CostSet { set }
    }

    /// Adds cycles to every selection.
    pub fn inc_cycles(&mut self, amount: N)
        ensures
            final(self)@ == more_cycles(old(self)@, amount),
            old(self).wf() ==> final(self).wf(),
    {
        let ghost s = self@;
        let n: usize = self.set.len();
        for i in 0..n
            invariant
                n == self.set@.len() == s.len(),
                forall|j: int|
                    0 <= j < i ==> (#[trigger] self@[j]) == (SelView {
                        cycles: s[j].cycles.s_plus(amount),
                        ..s[j]
                    }),
                forall|j: int| i <= j < n ==> (#[trigger] self@[j]) == s[j],
        {
            let ghost before = self@;
            assert(before[i as int] == s[i as int]);
            let sel = &mut self.set[i];
            sel.inc_cycles(amount);
            assert(forall|j: int| 0 <= j < n && j != i ==> (#[trigger] self@[j]) == before[j]);
        }
        assert(self@ =~= more_cycles(s, amount));
        assert(forall|i: int| 0 <= i < s.len() && s[i].wf() ==> (#[trigger] self@[i]).wf());
    }

    /// Divides the cycles of every selection among the lanes of a vector.
    pub fn split_cycles(&mut self, vec_len: usize)
        ensures
            final(self)@ == split_cycles(old(self)@, vec_len),
            old(self).wf() ==> final(self).wf(),
    {
        let ghost s = self@;
        let n: usize = self.set.len();
        for i in 0..n
            invariant
                n == self.set@.len() == s.len(),
                forall|j: int|
                    0 <= j < i ==> (#[trigger] self@[j]) == (SelView {
                        cycles: s[j].cycles.s_over(N::s_count(vec_len)),
                        ..s[j]
                    }),
                forall|j: int| i <= j < n ==> (#[trigger] self@[j]) == s[j],
        {
            let ghost before = self@;
            assert(before[i as int] == s[i as int]);
            let sel = &mut self.set[i];
            sel.split_cycles(vec_len);
            assert(forall|j: int| 0 <= j < n && j != i ==> (#[trigger] self@[j]) == before[j]);
        }
        assert(self@ =~= self::split_cycles(s, vec_len));
        assert(forall|i: int| 0 <= i < s.len() && s[i].wf() ==> (#[trigger] self@[i]).wf());
    }

    /// The product of two sets, such as those of two arguments of a node:
    /// every selection of one combined with every selection of the other. Of
    /// combinations with the same cycles the first stays; the result is in
    /// ascending order of cycles.
    pub fn cross(&self, other: &CostSet<N>, lps: usize) -> (r: CostSet<N>)
        requires
            self.wf(),
            other.wf(),
            forall|i: int, j: int|
                0 <= i < self@.len() && 0 <= j < other@.len() ==> (#[trigger] self@[i]).area + (
                #[trigger] other@[j]).area <= usize::MAX,
        ensures
            r@ == crossed(self@, self@.len(), other@, lps),
            r.wf(),
    {
        let mut set: Vec<LibSel<N>> = Vec::new();
        let n: usize = self.set.len();
        let m: usize = other.set.len();
        assert(sel_views(set@) =~= Seq::<SelView<N>>::empty());
        for i in 0..n
            invariant
                n == self.set@.len(),
                m == other.set@.len(),
                self.wf(),
                other.wf(),
                forall|i: int, j: int|
                    0 <= i < self@.len() && 0 <= j < other@.len() ==> (#[trigger] self@[i]).area + (
                    #[trigger] other@[j]).area <= usize::MAX,
                sel_views(set@) == crossed(self@, i as nat, other@, lps),
                all_wf(sel_views(set@)),
        {
            let ghost row = sel_views(set@);
            for j in 0..m
                invariant
                    i < n,
                    n == self.set@.len(),
                    m == other.set@.len(),
                    self.wf(),
                    other.wf(),
                    forall|i: int, j: int|
                        0 <= i < self@.len() && 0 <= j < other@.len() ==> (
                        #[trigger] self@[i]).area + (#[trigger] other@[j]).area <= usize::MAX,
                    sel_views(set@) == crossed_row(row, self@[i as int], other@, j as nat, lps),
                    all_wf(sel_views(set@)),
            {
                assert(self@[i as int] == self.set@[i as int]@);
                assert(other@[j as int] == other.set@[j as int]@);
                assert(self@[i as int].wf() && other@[j as int].wf());
                match self.set[i].combine(&other.set[j], lps) {
                    None => {},
                    Some(ls) => {
                        proof {
                            lemma_inserted_wf(sel_views(set@), ls@);
                        }
                        insert_sel(&mut set, ls);
                    },
                }
            }
        }
        CostSet { set }
    }

    /// Adds the selections of `other`, drops those that are equal to an
    /// earlier one, and puts them in order.
    pub fn combine(&mut self, other: CostSet<N>)
        ensures
            final(self)@ == united(old(self)@, other@),
            old(self).wf() && other.wf() ==> final(self).wf(),
    {
        let ghost a = self@;
        let ghost both = a + other@;
        let mut kept: Vec<LibSel<N>> = Vec::new();
        let n: usize = self.set.len();
        let m: usize = other.set.len();
        assert(sel_views(kept@) =~= distinct(both, 0));
        for i in 0..n
            invariant
                n == self.set@.len(),
                a == self@,
                both == a + other@,
                sel_views(kept@) == distinct(both, i as nat),
        {
            assert(both[i as int] == self.set@[i as int]@);
            keep_distinct(&mut kept, &self.set[i]);
        }
        for i in 0..m
            invariant
                n == self.set@.len(),
                m == other.set@.len(),
                a == self@,
                both == a + other@,
                sel_views(kept@) == distinct(both, (n + i) as nat),
        {
            assert(both[n + i] == other.set@[i as int]@);
            keep_distinct(&mut kept, &other.set[i]);
        }
        self.set = sort_sels(&kept, true);
        proof {
            if all_wf(a) && all_wf(other@) {
                lemma_distinct_members(both, both.len());
                lemma_sorted_members(distinct(both, both.len()), sel_order(true));
                assert forall|x: SelView<N>| united(a, other@).contains(x) implies both.contains(
                    x,
                ) by {
                    assert(distinct(both, both.len()).contains(x));
                }
                assert forall|i: int| 0 <= i < both.len() implies (#[trigger] both[i]).wf() by {
                    if i < a.len() {
                        assert(both[i] == a[i]);
                    } else {
                        assert(both[i] == other@[i - a.len()]);
                    }
                }
                lemma_members_wf(united(a, other@), both);
            }
        }
    }

    /// Keeps the selections that no other one beats in cycles and area, of
    /// those with the same library functions only one, and puts them in order.
    pub fn unify(&mut self)
        ensures
            final(self)@ == unified(old(self)@),
            forall|i: int| 0 <= i < final(self)@.len() ==> !dominated(
                old(self)@,
                #[trigger] final(self)@[i],
            ),
            in_order(final(self)@, sel_order(true)),
            old(self).wf() ==> final(self).wf(),
    {
        let ghost s = self@;
        let front: Vec<LibSel<N>> = undominated(&self.set);
        let order: Vec<LibSel<N>> = sort_sels(&front, true);
        let ghost t = sel_views(order@);
        let mut groups: Vec<LibSel<N>> = Vec::new();
        let n: usize = order.len();
        assert(sel_views(groups@) =~= grouped(t, 0));
        for i in 0..n
            invariant
                n == order@.len(),
                t == sel_views(order@),
                sel_views(groups@) == grouped(t, i as nat),
        {
            let ghost acc = sel_views(groups@);
            let ghost ids = keys(t[i as int].libs);
            let mut g: usize = 0;
            while g < groups.len() && !equal_ids(&groups[g], &order[i])
                invariant
                    i < order@.len(),
                    t == sel_views(order@),
                    ids == keys(t[i as int].libs),
                    acc == sel_views(groups@),
                    g <= groups@.len(),
                    forall|j: int| 0 <= j < g ==> keys((#[trigger] acc[j]).libs) != ids,
                decreases groups@.len() - g,
            {
                assert(keys(acc[g as int].libs) != ids);
                g = g + 1;
            }
            proof {
                lemma_group_of_is(acc, ids, g as int);
            }
            if g < groups.len() {
                assert(acc[g as int] == groups@[g as int]@);
                if strictly_before(order[i].cycles, groups[g].cycles) || groups[g].area
                    > order[i].area {
                    let x: LibSel<N> = order[i].duplicate();
                    groups.set(g, x);
                    assert(sel_views(groups@) =~= acc.update(g as int, t[i as int]));
                }
            } else {
                groups.push(order[i].duplicate());
                assert(sel_views(groups@) =~= acc.push(t[i as int]));
            }
        }
        self.set = sort_sels(&groups, true);
        proof {
            law_unified(s);
            law_sets_are_ordered(s, s);
            assert forall|i: int| 0 <= i < self@.len() implies !dominated(
                s,
                #[trigger] self@[i],
            ) by {
                assert(self@.contains(self@[i]));
            }
            if all_wf(s) {
                lemma_members_wf(unified(s), s);
            }
        }
    }

    /// Adds a site of a library function to every selection.
    pub fn add_lib(
        &self,
        lib: LibId,
        latency_acc: N,
        latency_cpu: N,
        area: usize,
        search_result: usize,
        exe_count: N,
        id: usize,
        lps: usize,
    ) -> (r: CostSet<N>)
        requires
            self.wf(),
            forall|i: int|
                0 <= i < self@.len() ==> (#[trigger] self@[i]).area + area <= usize::MAX,
        ensures
            r@ == all_with_lib(
                self@,
                self@.len(),
                lib.0,
                latency_acc,
                latency_cpu,
                area,
                exe_count,
                id,
                lps,
            ),
            r.wf(),
    {
        let mut set: Vec<LibSel<N>> = Vec::new();
        let n: usize = self.set.len();
        assert(sel_views(set@) =~= Seq::<SelView<N>>::empty());
        for i in 0..n
            invariant
                n == self.set@.len(),
                self.wf(),
                forall|i: int|
                    0 <= i < self@.len() ==> (#[trigger] self@[i]).area + area <= usize::MAX,
                sel_views(set@) == all_with_lib(
                    self@,
                    i as nat,
                    lib.0,
                    latency_acc,
                    latency_cpu,
                    area,
                    exe_count,
                    id,
                    lps,
                ),
                all_wf(sel_views(set@)),
        {
            assert(self@[i as int] == self.set@[i as int]@);
            assert(self@[i as int].wf());
            match self.set[i].add_lib(
                lib,
                latency_acc,
                latency_cpu,
                area,
                search_result,
                exe_count,
                id,
                lps,
            ) {
                None => {},
                Some(ls) => {
                    proof {
                        lemma_inserted_wf(sel_views(set@), ls@);
                    }
                    insert_sel(&mut set, ls);
                },
            }
        }
        CostSet { set }
    }

    /// Keeps at most `beam_size` selections: those that no other one beats in
    /// cycles and area, then the best of the others.
    pub fn prune(&mut self, beam_size: usize)
        ensures
            final(self)@ == pruned(old(self)@, beam_size),
            old(self).wf() ==> final(self).wf(),
    {
        let ghost s = self@;
        proof {
            law_pruning_adds_nothing(s, beam_size);
            if all_wf(s) {
                lemma_members_wf(pruned(s, beam_size), s);
            }
        }
        if beam_size == 0 {
            self.set = Vec::new();
            assert(self@ =~= Seq::<SelView<N>>::empty());
            return;
        }
        let mut pareto: Vec<LibSel<N>> = undominated(&self.set);
        let n: usize = self.set.len();
        assert(s.take(n as int) =~= s);
        let ghost f = sel_views(pareto@);
        if pareto.len() > beam_size {
            let mut order: Vec<LibSel<N>> = sort_sels(&pareto, false);
            proof {
                lemma_sorted(f, sel_order(false));
            }
            let ghost o = sel_views(order@);
            order.truncate(beam_size);
            assert(sel_views(order@) =~= o.take(beam_size as int));
            self.set = order;
            return;
        }
        let mut rest: Vec<LibSel<N>> = Vec::new();
        let ghost other = |c: SelView<N>| !has_libs(f, c);
        assert(sel_views(rest@) =~= s.take(0).filter(other)) by {
            reveal(Seq::filter);
        }
        for i in 0..n
            invariant
                n == self.set@.len(),
                s == self@,
                f == sel_views(pareto@),
                other == (|c: SelView<N>| !has_libs(f, c)),
                sel_views(rest@) == s.take(i as int).filter(other),
        {
            let ghost before = sel_views(rest@);
            let known: bool = libs_among(&pareto, &self.set[i]);
            assert(s[i as int] == self.set@[i as int]@);
            proof {
                reveal(Seq::filter);
                assert(s.take(i + 1).drop_last() =~= s.take(i as int));
            }
            if !known {
                rest.push(self.set[i].duplicate());
                assert(sel_views(rest@) =~= before.push(s[i as int]));
            }
        }
        let mut order: Vec<LibSel<N>> = sort_sels(&rest, false);
        let ghost o = sel_views(order@);
        let ghost front = pareto@;
        let ghost back = order@;
        pareto.append(&mut order);
        assert(pareto@ =~= front + back);
        assert(sel_views(pareto@) =~= f + o);
        let ghost all = sel_views(pareto@);
        if pareto.len() > beam_size {
            pareto.truncate(beam_size);
            assert(sel_views(pareto@) =~= all.take(beam_size as int));
        }
        self.set = pareto;
    }

    /// Drops every selection that uses only library functions of an earlier
    /// one.
    pub fn unify2(&mut self)
        requires
            old(self).wf(),
        ensures
            final(self)@ == thinned(old(self)@, 0),
            final(self).wf(),
    {
        let ghost start = self@;
        let mut i: usize = 0;
        while i < self.set.len()
            invariant
                self.wf(),
                i <= self@.len(),
                thinned(start, 0) == thinned(self@, i as int),
            decreases self.set@.len() - i,
        {
            let ghost s = self@;
            let ghost keep = |x: SelView<N>| !uses_subset(x, s[i as int]);
            let mut j: usize = i + 1;
            let ghost mut done: int = i + 1;
            assert(s.subrange(i + 1, done).filter(keep) =~= Seq::<SelView<N>>::empty()) by {
                reveal(Seq::filter);
            }
            assert(self@ =~= s.take(i + 1) + Seq::<SelView<N>>::empty() + s.skip(done));
            while j < self.set.len()
                invariant
                    self.wf(),
                    i < s.len(),
                    i < j <= self.set@.len(),
                    i < done <= s.len(),
                    keep == (|x: SelView<N>| !uses_subset(x, s[i as int])),
                    j == i + 1 + s.subrange(i + 1, done).filter(keep).len(),
                    self@ == s.take(i + 1) + s.subrange(i + 1, done).filter(keep) + s.skip(done),
                decreases s.len() - done,
            {
                let ghost cur = self@;
                let ghost kept = s.subrange(i + 1, done).filter(keep);
                assert(cur[i as int] == s[i as int]);
                assert(cur.len() == i + 1 + kept.len() + (s.len() - done));
                assert(cur[j as int] == s.skip(done)[0]);
                assert(cur[i as int].wf() && cur[j as int].wf());
                let drop: bool = self.set[j].is_subset(&self.set[i]);
                proof {
                    reveal(Seq::filter);
                    assert(s.subrange(i + 1, done + 1).drop_last() =~= s.subrange(i + 1, done));
                    assert(s.subrange(i + 1, done + 1).last() == s[done]);
                }
                if drop {
                    let _gone: LibSel<N> = self.set.remove(j);
                    assert(self@ =~= cur.remove(j as int));
                    assert(cur.remove(j as int) =~= s.take(i + 1) + kept + s.skip(done + 1));
                    assert forall|k: int| 0 <= k < self@.len() implies (#[trigger] self@[k]).wf() by {
                        let k0 = if k < j {
                            k
                        } else {
                            k + 1
                        };
                        assert(self@[k] == cur[k0]);
                        assert(cur[k0].wf());
                    }
                } else {
                    j = j + 1;
                    assert(cur =~= s.take(i + 1) + kept.push(s[done]) + s.skip(done + 1));
                }
                proof {
                    done = done + 1;
                }
            }
            proof {
                assert(s.skip(done).len() == 0);
                assert(done == s.len());
                assert(s.subrange(i + 1, s.len() as int) =~= s.skip(i + 1));
                assert(self@ =~= s.take(i + 1) + s.skip(i + 1).filter(keep));
                lemma_filter_len(s.skip(i + 1), keep);
            }
            i = i + 1;
        }
    }
}

/// The selections of the first `n` with a site of a library function added.
pub open spec fn all_with_lib<N: Number>(
    s: Seq<SelView<N>>,
    n: nat,
    lib: usize,
    latency_acc: N,
    latency_cpu: N,
    area: usize,
    exe_count: N,
    id: usize,
    lps: usize,
) -> Seq<SelView<N>>
    decreases n,
{
    if n == 0 {
        Seq::empty()
    } else {
        inserted(
            all_with_lib(
                s,
                (n - 1) as nat,
                lib,
                latency_acc,
                latency_cpu,
                area,
                exe_count,
                id,
                lps,
            ),
            with_lib(s[n - 1], lib, latency_acc, latency_cpu, area, exe_count, id, lps),
        )
    }
}

/// Keeps a copy of `x` unless an equal selection is kept already.
fn keep_distinct<N: Number>(kept: &mut Vec<LibSel<N>>, x: &LibSel<N>)
    ensures
        sel_views(final(kept)@) == if has_same(sel_views(old(kept)@), x@) {
            sel_views(old(kept)@)
        } else {
            sel_views(old(kept)@).push(x@)
        },
{
    let ghost s = sel_views(kept@);
    let n: usize = kept.len();
    for i in 0..n
        invariant
            n == kept@.len(),
            s == sel_views(kept@),
            *kept == *old(kept),
            forall|j: int| 0 <= j < i ==> !same_sel(#[trigger] s[j], x@),
    {
        assert(s[i as int] == kept@[i as int]@);
        if equal_sel(&kept[i], x) {
            return;
        }
    }
    kept.push(x.duplicate());
    assert(sel_views(kept@) =~= s.push(x@));
}

fn is_dominated<N: Number>(set: &Vec<LibSel<N>>, cand: &LibSel<N>) -> (r: bool)
    ensures
        r == dominated(sel_views(set@), cand@),
{
    let ghost s = sel_views(set@);
    let n: usize = set.len();
    for i in 0..n
        invariant
            n == set@.len(),
            s == sel_views(set@),
            forall|j: int| 0 <= j < i ==> !dominates(#[trigger] s[j], cand@),
    {
        assert(s[i as int] == set@[i as int]@);
        if dominating(&set[i], cand) {
            return true;
        }
    }
    false
}

/// The selections that no other one dominates.
fn undominated<N: Number>(set: &Vec<LibSel<N>>) -> (r: Vec<LibSel<N>>)
    ensures
        sel_views(r@) == frontier(sel_views(set@)),
{
    let ghost s = sel_views(set@);
    let mut r: Vec<LibSel<N>> = Vec::new();
    let n: usize = set.len();
    let ghost best = |c: SelView<N>| !dominated(s, c);
    assert(sel_views(r@) =~= s.take(0).filter(best)) by {
        reveal(Seq::filter);
    }
    for i in 0..n
        invariant
            n == set@.len(),
            s == sel_views(set@),
            best == (|c: SelView<N>| !dominated(s, c)),
            sel_views(r@) == s.take(i as int).filter(best),
    {
        let ghost before = sel_views(r@);
        let beaten: bool = is_dominated(set, &set[i]);
        assert(s[i as int] == set@[i as int]@);
        proof {
            reveal(Seq::filter);
            assert(s.take(i + 1).drop_last() =~= s.take(i as int));
        }
        if !beaten {
            r.push(set[i].duplicate());
            assert(sel_views(r@) =~= before.push(s[i as int]));
        }
    }
    assert(s.take(n as int) =~= s);
    r
}

fn libs_among<N: Number>(set: &Vec<LibSel<N>>, cand: &LibSel<N>) -> (r: bool)
    ensures
        r == has_libs(sel_views(set@), cand@),
{
    let ghost s = sel_views(set@);
    let n: usize = set.len();
    for i in 0..n
        invariant
            n == set@.len(),
            s == sel_views(set@),
            forall|j: int| 0 <= j < i ==> !same_libs((#[trigger] s[j]).libs, cand@.libs),
    {
        assert(s[i as int] == set@[i as int]@);
        if equal_libs(&set[i], cand) {
            return true;
        }
    }
    false
}

} // verus!
