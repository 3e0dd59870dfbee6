//! A map from numeric identifiers to values, kept in ascending order of the
//! identifiers so that every walk over it is in the same order.
use crate::ast_node::Duplicate;
use vstd::prelude::*;

verus! {

/// The identifiers of a sequence of entries.
pub open spec fn keys<V>(s: Seq<(usize, V)>) -> Seq<usize> {
    Seq::new(s.len(), |i: int| s[i].0)
}

/// Whether the numbers increase strictly.
pub open spec fn increasing(s: Seq<usize>) -> bool {
    forall|i: int, j: int| 0 <= i < j < s.len() ==> s[i] < s[j]
}

/// The place of `k` among increasing numbers: how many come before it.
pub open spec fn slot(s: Seq<usize>, k: usize) -> int
    decreases s.len(),
{
    if s.len() == 0 {
        0
    } else if s.last() < k {
        s.len() as int
    } else {
        slot(s.drop_last(), k)
    }
}

/// Whether the entries hold a value for `k`.
pub open spec fn holds<V>(s: Seq<(usize, V)>, k: usize) -> bool {
    exists|i: int| 0 <= i < s.len() && (#[trigger] s[i]).0 == k
}

/// The value for `k`.
pub open spec fn value_of<V>(s: Seq<(usize, V)>, k: usize) -> V {
    s[slot(keys(s), k)].1
}

/// The value for `k`, if there is one.
pub open spec fn lookup<V>(s: Seq<(usize, V)>, k: usize) -> Option<V> {
    if holds(s, k) {
        Some(value_of(s, k))
    } else {
        None
    }
}

/// The entries with the value for `k` set to `v`.
pub open spec fn put<V>(s: Seq<(usize, V)>, k: usize, v: V) -> Seq<(usize, V)> {
    let i = slot(keys(s), k);
    if i < s.len() && s[i].0 == k {
        s.update(i, (k, v))
    } else {
        s.insert(i, (k, v))
    }
}

pub(crate) proof fn lemma_slot(s: Seq<usize>, k: usize)
    requires
        increasing(s),
    ensures
        0 <= slot(s, k) <= s.len(),
        forall|i: int| 0 <= i < slot(s, k) ==> s[i] < k,
        forall|i: int| slot(s, k) <= i < s.len() ==> s[i] >= k,
    decreases s.len(),
{
    if s.len() > 0 && s.last() >= k {
        lemma_slot(s.drop_last(), k);
        assert forall|i: int| slot(s, k) <= i < s.len() implies s[i] >= k by {
            if i < s.len() - 1 {
                assert(s.drop_last()[i] == s[i]);
            }
        }
        assert forall|i: int| 0 <= i < slot(s, k) implies s[i] < k by {
            assert(s.drop_last()[i] == s[i]);
        }
    }
}

pub(crate) proof fn lemma_slot_is(s: Seq<usize>, k: usize, p: int)
    requires
        increasing(s),
        0 <= p <= s.len(),
        forall|i: int| 0 <= i < p ==> s[i] < k,
        forall|i: int| p <= i < s.len() ==> s[i] >= k,
    ensures
        slot(s, k) == p,
{
    lemma_slot(s, k);
    let q = slot(s, k);
    if q < p {
        assert(s[q] < k);
    }
    if p < q {
        assert(s[p] < k);
    }
}

/// Looking up where the value for `k` would stand decides whether there is
/// one.
pub(crate) proof fn lemma_holds<V>(s: Seq<(usize, V)>, k: usize)
    requires
        increasing(keys(s)),
    ensures
        0 <= slot(keys(s), k) <= s.len(),
        holds(s, k) <==> slot(keys(s), k) < s.len() && s[slot(keys(s), k)].0 == k,
{
    let ks = keys(s);
    lemma_slot(ks, k);
    let p = slot(ks, k);
    if holds(s, k) {
        let i = choose|i: int| 0 <= i < s.len() && (#[trigger] s[i]).0 == k;
        assert(ks[i] == k);
        assert(p <= i);
        if p < i {
            assert(ks[p] < ks[i]);
            assert(ks[p] >= k);
        }
    }
    if p < s.len() && s[p].0 == k {
        assert(holds(s, k));
    }
}

pub(crate) proof fn lemma_put<V>(s: Seq<(usize, V)>, k: usize, v: V)
    requires
        increasing(keys(s)),
    ensures
        increasing(keys(put(s, k, v))),
        holds(put(s, k, v), k),
        value_of(put(s, k, v), k) == v,
        forall|j: usize| j != k ==> (holds(put(s, k, v), j) <==> holds(s, j)),
        forall|j: usize| j != k && holds(s, j) ==> value_of(put(s, k, v), j) == value_of(s, j),
{
    let ks = keys(s);
    let p = slot(ks, k);
    let t = put(s, k, v);
    let kt = keys(t);
    lemma_slot(ks, k);
    assert forall|i: int, j: int| 0 <= i < j < kt.len() implies kt[i] < kt[j] by {
        if p < s.len() && s[p].0 == k {
            assert(ks[i] == kt[i] && ks[j] == kt[j]);
        } else {
            let i0 = if i < p {
                i
            } else {
                i - 1
            };
            let j0 = if j < p {
                j
            } else {
                j - 1
            };
            if i != p {
                assert(kt[i] == ks[i0]);
            }
            if j != p {
                assert(kt[j] == ks[j0]);
            }
            if i == p {
                assert(kt[i] == k);
                assert(ks[j0] >= k);
                assert(s[j0].0 == ks[j0]);
                if ks[j0] == k {
                    if p < j0 {
                        assert(ks[p] < ks[j0]);
                    }
                }
            } else if j == p {
                assert(ks[i0] < k);
            }
        }
    }
    assert(t[p] == (k, v));
    lemma_holds(t, k);
    assert(holds(t, k));
    assert forall|i: int| 0 <= i < p implies kt[i] < k by {
        assert(kt[i] == ks[i]);
    }
    assert forall|i: int| p <= i < kt.len() implies kt[i] >= k by {
        if i > p {
            assert(kt[p] < kt[i]);
        }
    }
    lemma_slot_is(kt, k, p);
    let replaced = p < s.len() && s[p].0 == k;
    assert forall|j: usize| j != k implies (holds(t, j) <==> holds(s, j)) by {
        if holds(t, j) {
            let i = choose|i: int| 0 <= i < t.len() && (#[trigger] t[i]).0 == j;
            if replaced || i < p {
                assert(s[i].0 == j);
            } else {
                assert(s[i - 1].0 == j);
            }
        }
        if holds(s, j) {
            let i = choose|i: int| 0 <= i < s.len() && (#[trigger] s[i]).0 == j;
            if replaced || i < p {
                assert(t[i].0 == j);
            } else {
                assert(t[i + 1].0 == j);
            }
        }
    }
    assert forall|j: usize| j != k && holds(s, j) implies value_of(t, j) == value_of(s, j) by {
        lemma_holds(s, j);
        lemma_holds(t, j);
        let a = slot(ks, j);
        let b = slot(kt, j);
        assert(kt[b] == j);
        let c = if replaced || a < p {
            a
        } else {
            a + 1
        };
        assert(t[c] == s[a]);
        assert(kt[c] == j);
        if b < c {
            assert(kt[b] < kt[c]);
        }
        if c < b {
            assert(kt[c] < kt[b]);
        }
    }
}

/// Removing an entry keeps the order.
pub(crate) proof fn lemma_remove<V>(s: Seq<(usize, V)>, p: int)
    requires
        increasing(keys(s)),
        0 <= p < s.len(),
    ensures
        increasing(keys(s.remove(p))),
        forall|j: usize| holds(s.remove(p), j) <==> holds(s, j) && j != s[p].0,
{
    let t = s.remove(p);
    let ks = keys(s);
    let kt = keys(t);
    assert forall|i: int, j: int| 0 <= i < j < kt.len() implies kt[i] < kt[j] by {
        let i0 = if i < p {
            i
        } else {
            i + 1
        };
        let j0 = if j < p {
            j
        } else {
            j + 1
        };
        assert(kt[i] == ks[i0] && kt[j] == ks[j0]);
    }
    assert forall|j: usize| holds(t, j) <==> holds(s, j) && j != s[p].0 by {
        if holds(t, j) {
            let i = choose|i: int| 0 <= i < t.len() && (#[trigger] t[i]).0 == j;
            let i0 = if i < p {
                i
            } else {
                i + 1
            };
            assert(s[i0].0 == j);
            assert(ks[i0] == j && ks[p] == s[p].0);
            if i0 < p {
                assert(ks[i0] < ks[p]);
            } else {
                assert(ks[p] < ks[i0]);
            }
        }
        if holds(s, j) && j != s[p].0 {
            let i = choose|i: int| 0 <= i < s.len() && (#[trigger] s[i]).0 == j;
            if i < p {
                assert(t[i].0 == j);
            } else {
                assert(t[i - 1].0 == j);
            }
        }
    }
}

/// A map from identifiers to values.
#[derive(Debug)]
pub struct IdMap<V> {
    /// The entries, in ascending order of their identifiers.
    pub entries: Vec<(usize, V)>,
}

impl<V> IdMap<V> {
    /// Whether the entries are in order.
    pub open spec fn wf(&self) -> bool {
        increasing(keys(self.entries@))
    }

    /// The map without entries.
    pub fn new() -> (r: Self)
        ensures
            r.wf(),
            r.entries@ == Seq::<(usize, V)>::empty(),
    {
        IdMap { entries: Vec::new() }
    }

    /// The number of entries.
    pub fn len(&self) -> (r: usize)
        ensures
            r == self.entries@.len(),
    {
        self.entries.len()
    }

    /// Where the value for `k` stands or would stand.
    pub fn find(&self, k: usize) -> (r: usize)
        requires
            self.wf(),
        ensures
            r == slot(keys(self.entries@), k),
            r <= self.entries@.len(),
    {
        let ghost ks = keys(self.entries@);
        let mut lo: usize = 0;
        let mut hi: usize = self.entries.len();
        while lo < hi
            invariant
                lo <= hi <= self.entries@.len(),
                ks == keys(self.entries@),
                increasing(ks),
                forall|i: int| 0 <= i < lo ==> ks[i] < k,
                forall|i: int| hi <= i < ks.len() ==> ks[i] >= k,
            decreases hi - lo,
        {
            let mid: usize = lo + (hi - lo) / 2;
            assert(ks[mid as int] == self.entries@[mid as int].0);
            if self.entries[mid].0 < k {
                assert forall|i: int| 0 <= i < mid + 1 implies ks[i] < k by {
                    if i < mid {
                        assert(ks[i] < ks[mid as int]);
                    }
                }
                lo = mid + 1;
            } else {
                assert forall|i: int| mid <= i < ks.len() implies ks[i] >= k by {
                    if mid < i {
                        assert(ks[mid as int] < ks[i]);
                    }
                }
                hi = mid;
            }
        }
        proof {
            lemma_slot_is(ks, k, lo as int);
        }
        lo
    }

    /// Whether there is a value for `k`.
    pub fn has(&self, k: usize) -> (r: bool)
        requires
            self.wf(),
        ensures
            r == holds(self.entries@, k),
    {
        let i: usize = self.find(k);
        proof {
            lemma_holds(self.entries@, k);
        }
        i < self.entries.len() && self.entries[i].0 == k
    }

    /// The value for `k`, if there is one.
    pub fn get(&self, k: usize) -> (r: Option<&V>)
        requires
            self.wf(),
        ensures
            match r {
                Some(v) => holds(self.entries@, k) && *v == value_of(self.entries@, k),
                None => !holds(self.entries@, k),
            },
    {
        let i: usize = self.find(k);
        proof {
            lemma_holds(self.entries@, k);
        }
        if i < self.entries.len() && self.entries[i].0 == k {
            Some(&self.entries[i].1)
        } else {
            None
        }
    }

    /// Sets the value for `k`.
    pub fn insert(&mut self, k: usize, v: V)
        requires
            old(self).wf(),
        ensures
            final(self).wf(),
            final(self).entries@ == put(old(self).entries@, k, v),
    {
        let i: usize = self.find(k);
        proof {
            lemma_put(self.entries@, k, v);
            lemma_holds(self.entries@, k);
        }
        if i < self.entries.len() && self.entries[i].0 == k {
            self.entries.set(i, (k, v));
        } else {
            self.entries.insert(i, (k, v));
        }
    }
}

impl<V: Copy> IdMap<V> {
    /// A second map with the same entries.
    pub fn duplicate(&self) -> (r: Self)
        ensures
            r.entries@ == self.entries@,
    {
        let mut entries: Vec<(usize, V)> = Vec::new();
        let n: usize = self.entries.len();
        for i in 0..n
            invariant
                n == self.entries@.len(),
                entries@ == self.entries@.take(i as int),
        {
            entries.push(self.entries[i]);
            assert(self.entries@.take(i as int).push(self.entries@[i as int])
                =~= self.entries@.take(i + 1));
        }
        assert(self.entries@.take(n as int) =~= self.entries@);
        IdMap { entries }
    }
}

/// The first `n` entries whose identifiers are in `ids`.
pub open spec fn retained<V>(s: Seq<(usize, V)>, ids: Seq<usize>, n: nat) -> Seq<(usize, V)>
    decreases n,
{
    if n == 0 {
        Seq::empty()
    } else {
        let rest = retained(s, ids, (n - 1) as nat);
        if ids.contains(s[n - 1].0) {
            rest.push(s[n - 1])
        } else {
            rest
        }
    }
}

proof fn lemma_retained<V>(s: Seq<(usize, V)>, ids: Seq<usize>, n: nat)
    requires
        increasing(keys(s)),
        n <= s.len(),
    ensures
        ({
            let t = retained(s, ids, n);
            &&& increasing(keys(t))
            &&& forall|i: int|
                0 <= i < t.len() ==> {
                    &&& ids.contains((#[trigger] t[i]).0)
                    &&& exists|j: int| 0 <= j < n && s[j] == t[i]
                }
            &&& forall|j: int|
                0 <= j < n && ids.contains((#[trigger] s[j]).0) ==> exists|i: int|
                    0 <= i < t.len() && t[i] == s[j]
        }),
    decreases n,
{
    if n > 0 {
        let m = (n - 1) as nat;
        lemma_retained(s, ids, m);
        let u = retained(s, ids, m);
        let t = retained(s, ids, n);
        let last = s[n - 1];
        if ids.contains(last.0) {
            assert(t == u.push(last));
            assert forall|i: int, j: int| 0 <= i < j < keys(t).len() implies keys(t)[i]
                < keys(t)[j] by {
                if j < u.len() {
                    assert(keys(u)[i] < keys(u)[j]);
                } else {
                    assert(ids.contains(u[i].0));
                    let q = choose|q: int| 0 <= q < m && s[q] == u[i];
                    assert(keys(s)[q] < keys(s)[n - 1]);
                }
            }
            assert forall|i: int| 0 <= i < t.len() implies {
                &&& ids.contains((#[trigger] t[i]).0)
                &&& exists|j: int| 0 <= j < n && s[j] == t[i]
            } by {
                if i < u.len() {
                    assert(t[i] == u[i]);
                    let q = choose|q: int| 0 <= q < m && s[q] == u[i];
                    assert(s[q] == t[i]);
                } else {
                    assert(s[n - 1] == t[i]);
                }
            }
            assert forall|j: int| 0 <= j < n && ids.contains((#[trigger] s[j]).0) implies exists|
                i: int,
            | 0 <= i < t.len() && t[i] == s[j] by {
                if j < m {
                    let i = choose|i: int| 0 <= i < u.len() && u[i] == s[j];
                    assert(t[i] == s[j]);
                } else {
                    assert(t[u.len() as int] == s[j]);
                }
            }
        } else {
            assert forall|i: int| 0 <= i < t.len() implies {
                &&& ids.contains((#[trigger] t[i]).0)
                &&& exists|j: int| 0 <= j < n && s[j] == t[i]
            } by {
                assert(u[i] == t[i]);
                let q = choose|q: int| 0 <= q < m && s[q] == u[i];
                assert(s[q] == t[i]);
            }
        }
    }
}

/// What is retained is what was there for the identifiers.
pub proof fn law_retained<V>(s: Seq<(usize, V)>, ids: Seq<usize>, k: usize)
    requires
        increasing(keys(s)),
    ensures
        increasing(keys(retained(s, ids, s.len()))),
        lookup(retained(s, ids, s.len()), k) == if ids.contains(k) {
            lookup(s, k)
        } else {
            None
        },
{
    let t = retained(s, ids, s.len());
    lemma_retained(s, ids, s.len());
    lemma_holds(s, k);
    lemma_holds(t, k);
    if holds(t, k) {
        let p = slot(keys(t), k);
        assert(t[p].0 == k);
        let q = choose|q: int| 0 <= q < s.len() && s[q] == t[p];
        assert(s[q].0 == k);
        lemma_slot_of_entry(s, q);
    } else if holds(s, k) && ids.contains(k) {
        let p = slot(keys(s), k);
        assert(s[p].0 == k);
        let i = choose|i: int| 0 <= i < t.len() && t[i] == s[p];
        assert(t[i].0 == k);
    }
}

proof fn lemma_slot_of_entry<V>(s: Seq<(usize, V)>, q: int)
    requires
        increasing(keys(s)),
        0 <= q < s.len(),
    ensures
        slot(keys(s), s[q].0) == q,
{
    let ks = keys(s);
    assert forall|i: int| 0 <= i < q implies ks[i] < s[q].0 by {
        assert(ks[i] < ks[q]);
    }
    assert forall|i: int| q <= i < ks.len() implies ks[i] >= s[q].0 by {
        if i > q {
            assert(ks[q] < ks[i]);
        }
    }
    lemma_slot_is(ks, s[q].0, q);
}

/// Whether a number is among others.
pub fn id_among(ids: &Vec<usize>, id: usize) -> (r: bool)
    ensures
        r == ids@.contains(id),
{
    let n: usize = ids.len();
    for i in 0..n
        invariant
            n == ids@.len(),
            forall|j: int| 0 <= j < i ==> ids@[j] != id,
    {
        if ids[i] == id {
            return true;
        }
    }
    false
}

impl<V: Duplicate> IdMap<V> {
    /// Keeps only the entries whose identifiers are in `ids`.
    pub fn retain(&mut self, ids: &Vec<usize>)
        requires
            old(self).wf(),
        ensures
            final(self).wf(),
            final(self).entries@ == retained(old(self).entries@, ids@, old(self).entries@.len()),
    {
        let ghost s = self.entries@;
        let mut kept: Vec<(usize, V)> = Vec::new();
        let n: usize = self.entries.len();
        for i in 0..n
            invariant
                s == self.entries@,
                n == s.len(),
                kept@ == retained(s, ids@, i as nat),
        {
            let k: usize = self.entries[i].0;
            if id_among(ids, k) {
                kept.push((k, self.entries[i].1.duplicate()));
            }
        }
        proof {
            lemma_retained(s, ids@, s.len());
        }
        self.entries = kept;
    }
}

impl<V> IdMap<V> {
    /// The identifiers, in ascending order.
    pub fn ids(&self) -> (r: Vec<usize>)
        ensures
            r@ == keys(self.entries@),
    {
        let mut r: Vec<usize> = Vec::new();
        let n: usize = self.entries.len();
        let ghost all = keys(self.entries@);
        for i in 0..n
            invariant
                n == self.entries@.len() == all.len(),
                all == keys(self.entries@),
                r@ == all.take(i as int),
        {
            r.push(self.entries[i].0);
            assert(r@ =~= all.take(i + 1));
        }
        assert(r@ =~= all);
        r
    }
}

/// The identifiers are those that have a value.
pub(crate) proof fn lemma_keys<V>(s: Seq<(usize, V)>, k: usize)
    ensures
        keys(s).contains(k) <==> holds(s, k),
{
    if keys(s).contains(k) {
        let i = choose|i: int| 0 <= i < s.len() && keys(s)[i] == k;
        assert(s[i].0 == k);
    }
    if holds(s, k) {
        let i = choose|i: int| 0 <= i < s.len() && (#[trigger] s[i]).0 == k;
        assert(keys(s)[i] == k);
    }
}

pub(crate) proof fn lemma_same_entries<V>(s: Seq<(usize, V)>, t: Seq<(usize, V)>)
    requires
        increasing(keys(s)),
        increasing(keys(t)),
        forall|k: usize| #[trigger] lookup(s, k) == lookup(t, k),
    ensures
        s == t,
    decreases s.len(),
{
    assert forall|k: usize| holds(s, k) == holds(t, k) by {
        assert(lookup(s, k) == lookup(t, k));
    }
    if s.len() > 0 && t.len() > 0 {
        let (a, b) = (s.last(), t.last());
        assert(holds(s, a.0) && holds(t, b.0));
        assert(holds(t, a.0) && holds(s, b.0));
        lemma_at_most_last(s, b.0);
        lemma_at_most_last(t, a.0);
        lemma_slot_of_entry(s, s.len() - 1);
        lemma_slot_of_entry(t, t.len() - 1);
        assert(lookup(s, a.0) == lookup(t, a.0));
        assert(a == b);
        lemma_remove(s, s.len() - 1);
        lemma_remove(t, t.len() - 1);
        let (u, v) = (s.drop_last(), t.drop_last());
        assert(s.remove(s.len() - 1) =~= u);
        assert(t.remove(t.len() - 1) =~= v);
        assert forall|k: usize| #[trigger] lookup(u, k) == lookup(v, k) by {
            assert(lookup(s, k) == lookup(t, k));
            lemma_without_last(s, k);
            lemma_without_last(t, k);
        }
        lemma_same_entries(u, v);
        assert(s =~= u.push(a));
        assert(t =~= v.push(b));
    } else if s.len() > 0 {
        assert(s[0].0 == s[0].0);
        assert(holds(s, s[0].0));
        assert(holds(t, s[0].0));
    } else if t.len() > 0 {
        assert(holds(t, t[0].0));
        assert(holds(s, t[0].0));
    } else {
        assert(s =~= t);
    }
}

proof fn lemma_at_most_last<V>(s: Seq<(usize, V)>, k: usize)
    requires
        increasing(keys(s)),
        holds(s, k),
    ensures
        k <= s.last().0,
{
    let i = choose|i: int| 0 <= i < s.len() && (#[trigger] s[i]).0 == k;
    if i < s.len() - 1 {
        assert(keys(s)[i] < keys(s)[s.len() - 1]);
    }
}

proof fn lemma_without_last<V>(s: Seq<(usize, V)>, k: usize)
    requires
        increasing(keys(s)),
        s.len() > 0,
    ensures
        lookup(s.drop_last(), k) == if k == s.last().0 {
            None
        } else {
            lookup(s, k)
        },
{
    let u = s.drop_last();
    lemma_remove(s, s.len() - 1);
    assert(s.remove(s.len() - 1) =~= u);
    if k != s.last().0 && holds(s, k) {
        let i = choose|i: int| 0 <= i < u.len() && (#[trigger] u[i]).0 == k;
        assert(s[i] == u[i]);
        lemma_slot_of_entry(s, i);
        lemma_slot_of_entry(u, i);
    }
}

} // verus!
