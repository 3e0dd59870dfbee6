//! Association lists: values under texts, and under a number and texts.
use crate::text::{same_texts, texts};
use vstd::prelude::*;

verus! {

/// Whether no two entries have the same key.
pub open spec fn keys_differ<K, V>(s: Seq<(K, V)>) -> bool {
    forall|i: int, j: int| 0 <= i < j < s.len() ==> (#[trigger] s[i]).0 != (#[trigger] s[j]).0
}

/// The entries as a map.
pub open spec fn as_map<K, V>(s: Seq<(K, V)>) -> Map<K, V> {
    Map::new(
        |k: K| exists|i: int| 0 <= i < s.len() && (#[trigger] s[i]).0 == k,
        |k: K| s[choose|i: int| 0 <= i < s.len() && (#[trigger] s[i]).0 == k].1,
    )
}

pub(crate) proof fn lemma_entry<K, V>(s: Seq<(K, V)>, i: int)
    requires
        keys_differ(s),
        0 <= i < s.len(),
    ensures
        as_map(s).dom().contains(s[i].0),
        as_map(s)[s[i].0] == s[i].1,
{
    let k = s[i].0;
    let j = choose|j: int| 0 <= j < s.len() && (#[trigger] s[j]).0 == k;
    if j < i {
        assert(s[j].0 != s[i].0);
    }
    if i < j {
        assert(s[i].0 != s[j].0);
    }
}

pub(crate) proof fn lemma_put_entry<K, V>(s: Seq<(K, V)>, e: (K, V), t: Seq<(K, V)>, p: int)
    requires
        keys_differ(s),
        0 <= p <= s.len(),
        p < s.len() ==> s[p].0 == e.0 && t == s.update(p, e),
        p == s.len() ==> t == s.push(e) && forall|i: int|
            0 <= i < s.len() ==> (#[trigger] s[i]).0 != e.0,
    ensures
        keys_differ(t),
        as_map(t) == as_map(s).insert(e.0, e.1),
{
    assert forall|i: int, j: int| 0 <= i < j < t.len() implies (#[trigger] t[i]).0 != (
    #[trigger] t[j]).0 by {
        if j < s.len() {
            assert(s[i].0 != s[j].0);
        } else {
            assert(s[i].0 != e.0);
        }
    }
    let a = as_map(t);
    let b = as_map(s).insert(e.0, e.1);
    lemma_entry(t, p);
    assert forall|k: K| a.dom().contains(k) <==> b.dom().contains(k) by {
        if a.dom().contains(k) {
            let i = choose|i: int| 0 <= i < t.len() && (#[trigger] t[i]).0 == k;
            if i != p {
                assert(s[i].0 == k);
            }
        }
        if b.dom().contains(k) && k != e.0 {
            let i = choose|i: int| 0 <= i < s.len() && (#[trigger] s[i]).0 == k;
            assert(t[i].0 == k);
        }
    }
    assert forall|k: K| a.dom().contains(k) implies a[k] == b[k] by {
        if k != e.0 {
            let i = choose|i: int| 0 <= i < t.len() && (#[trigger] t[i]).0 == k;
            assert(t[i] == s[i]);
            lemma_entry(t, i);
            lemma_entry(s, i);
        }
    }
    assert(a =~= b);
}

/// Values under texts.
#[derive(Debug)]
pub struct TextMap<V> {
    pub entries: Vec<(String, V)>,
}

/// The entries with their keys as sequences of characters.
pub open spec fn text_entries<V>(s: Seq<(String, V)>) -> Seq<(Seq<char>, V)> {
    Seq::new(s.len(), |i: int| (s[i].0@, s[i].1))
}

impl<V> View for TextMap<V> {
    type V = Map<Seq<char>, V>;

    open spec fn view(&self) -> Map<Seq<char>, V> {
        as_map(text_entries(self.entries@))
    }
}

impl<V> TextMap<V> {
    /// Whether no two entries have the same text.
    pub open spec fn wf(&self) -> bool {
        keys_differ(text_entries(self.entries@))
    }

    /// No entries.
    pub fn new() -> (r: Self)
        ensures
            r.wf(),
            r@ == Map::<Seq<char>, V>::empty(),
    {
        let r: TextMap<V> = TextMap { entries: Vec::new() };
        assert(r@ =~= Map::<Seq<char>, V>::empty());
        r
    }

    /// Where the entry of a text stands, or the number of entries.
    fn find(&self, k: &String) -> (p: usize)
        requires
            self.wf(),
        ensures
            p <= self.entries@.len(),
            p < self.entries@.len() ==> self.entries@[p as int].0@ == k@ && self@.dom().contains(k@)
                && self@[k@] == self.entries@[p as int].1,
            p == self.entries@.len() ==> !self@.dom().contains(k@) && forall|i: int|
                0 <= i < self.entries@.len() ==> (#[trigger] self.entries@[i]).0@ != k@,
    {
        let ghost s = text_entries(self.entries@);
        let n: usize = self.entries.len();
        for i in 0..n
            invariant
                n == self.entries@.len(),
                s == text_entries(self.entries@),
                self.wf(),
                forall|j: int| 0 <= j < i ==> (#[trigger] s[j]).0 != k@,
        {
            assert(s[i as int] == (self.entries@[i as int].0@, self.entries@[i as int].1));
            if self.entries[i].0 == *k {
                proof {
                    lemma_entry(s, i as int);
                }
                return i;
            }
        }
        assert forall|i: int| 0 <= i < self.entries@.len() implies (
        #[trigger] self.entries@[i]).0@ != k@ by {
            assert(s[i].0 != k@);
        }
        n
    }

    /// The value under a text.
    pub fn get(&self, k: &String) -> (r: Option<&V>)
        requires
            self.wf(),
        ensures
            match r {
                Some(v) => self@.dom().contains(k@) && *v == self@[k@],
                None => !self@.dom().contains(k@),
            },
    {
        let p: usize = self.find(k);
        if p < self.entries.len() {
            Some(&self.entries[p].1)
        } else {
            None
        }
    }

    /// Puts a value under a text, in place of the one that is there.
    pub fn insert(&mut self, k: String, v: V)
        requires
            old(self).wf(),
        ensures
            final(self).wf(),
            final(self)@ == old(self)@.insert(k@, v),
    {
        let ghost s = text_entries(self.entries@);
        let ghost e = (k@, v);
        let p: usize = self.find(&k);
        proof {
            assert forall|i: int| p == s.len() && 0 <= i < s.len() implies (#[trigger] s[i]).0
                != e.0 by {
                assert(self.entries@[i].0@ != k@);
            }
        }
        if p < self.entries.len() {
            self.entries.set(p, (k, v));
            assert(text_entries(self.entries@) =~= s.update(p as int, e));
        } else {
            self.entries.push((k, v));
            assert(text_entries(self.entries@) =~= s.push(e));
        }
        proof {
            lemma_put_entry(s, e, text_entries(self.entries@), p as int);
        }
    }
}

/// Values under a number and texts, such as the latency of a library function
/// at each of its sites.
#[derive(Debug)]
pub struct SiteMap<V> {
    pub entries: Vec<((usize, Vec<String>), V)>,
}

/// The entries with their texts as sequences of characters.
pub open spec fn site_entries<V>(s: Seq<((usize, Vec<String>), V)>) -> Seq<
    ((usize, Seq<Seq<char>>), V),
> {
    Seq::new(s.len(), |i: int| ((s[i].0.0, texts(s[i].0.1@)), s[i].1))
}

impl<V> View for SiteMap<V> {
    type V = Map<(usize, Seq<Seq<char>>), V>;

    open spec fn view(&self) -> Map<(usize, Seq<Seq<char>>), V> {
        as_map(site_entries(self.entries@))
    }
}

impl<V> SiteMap<V> {
    /// Whether no two entries have the same key.
    pub open spec fn wf(&self) -> bool {
        keys_differ(site_entries(self.entries@))
    }

    /// No entries.
    pub fn new() -> (r: Self)
        ensures
            r.wf(),
            r@ == Map::<(usize, Seq<Seq<char>>), V>::empty(),
    {
        let r: SiteMap<V> = SiteMap { entries: Vec::new() };
        assert(r@ =~= Map::<(usize, Seq<Seq<char>>), V>::empty());
        r
    }

    /// Where the entry of a key stands, or the number of entries.
    fn find(&self, id: usize, at: &Vec<String>) -> (p: usize)
        requires
            self.wf(),
        ensures
            p <= self.entries@.len(),
            p < self.entries@.len() ==> site_entries(self.entries@)[p as int].0 == (id, texts(at@))
                && self@.dom().contains((id, texts(at@))) && self@[(id, texts(at@))]
                == self.entries@[p as int].1,
            p == self.entries@.len() ==> !self@.dom().contains((id, texts(at@))) && forall|i: int|
                0 <= i < self.entries@.len() ==> (#[trigger] site_entries(self.entries@)[i]).0 != (
                id,
                texts(at@),
            ),
    {
        let ghost s = site_entries(self.entries@);
        let n: usize = self.entries.len();
        for i in 0..n
            invariant
                n == self.entries@.len(),
                s == site_entries(self.entries@),
                self.wf(),
                forall|j: int| 0 <= j < i ==> (#[trigger] s[j]).0 != (id, texts(at@)),
        {
            let key: &(usize, Vec<String>) = &self.entries[i].0;
            assert(s[i as int].0 == (key.0, texts(key.1@)));
            if key.0 == id && same_texts(&key.1, at) {
                proof {
                    lemma_entry(s, i as int);
                }
                return i;
            }
        }
        n
    }

    /// The value under a key.
    pub fn get(&self, id: usize, at: &Vec<String>) -> (r: Option<&V>)
        requires
            self.wf(),
        ensures
            match r {
                Some(v) => self@.dom().contains((id, texts(at@))) && *v == self@[(id, texts(at@))],
                None => !self@.dom().contains((id, texts(at@))),
            },
    {
        let p: usize = self.find(id, at);
        if p < self.entries.len() {
            Some(&self.entries[p].1)
        } else {
            None
        }
    }

    /// Puts a value under a key, in place of the one that is there.
    pub fn insert(&mut self, id: usize, at: Vec<String>, v: V)
        requires
            old(self).wf(),
        ensures
            final(self).wf(),
            final(self)@ == old(self)@.insert((id, texts(at@)), v),
    {
        let ghost s = site_entries(self.entries@);
        let ghost e = ((id, texts(at@)), v);
        let p: usize = self.find(id, &at);
        if p < self.entries.len() {
            self.entries.set(p, ((id, at), v));
            assert(site_entries(self.entries@) =~= s.update(p as int, e));
        } else {
            self.entries.push(((id, at), v));
            assert(site_entries(self.entries@) =~= s.push(e));
        }
        proof {
            lemma_put_entry(s, e, site_entries(self.entries@), p as int);
        }
    }
}

} // verus!
