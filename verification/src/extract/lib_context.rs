//! The library functions whose definitions are being extracted.
use crate::id_map::{increasing, lemma_slot, slot};
use std::hash::{DefaultHasher, Hasher};
use vstd::bytes::{spec_u64_to_le_bytes, u64_to_le_bytes};
use vstd::prelude::*;
use vstd::std_specs::hash::DefaultHasherAdditionalSpecFns;

verus! {

/// The library functions inside whose definitions an expression stands, in
/// ascending order, with a hash of them.
#[derive(Debug)]
pub struct LibContext {
    pub set: Vec<usize>,
    pub hash: u32,
}

/// What is hashed: the number of identifiers, then each of them.
pub open spec fn hashed_bytes(ids: Seq<usize>) -> Seq<Seq<u8>> {
    seq![spec_u64_to_le_bytes(ids.len() as u64)] + Seq::new(
        ids.len(),
        |i: int| spec_u64_to_le_bytes(ids[i] as u64),
    )
}

/// The two halves of a hash folded into one.
pub open spec fn folded(full: u64) -> u32 {
    (full ^ (full >> 32)) as u32
}

/// The hash of identifiers.
pub open spec fn context_hash(ids: Seq<usize>) -> u32 {
    folded(DefaultHasher::spec_finish(hashed_bytes(ids)))
}

/// The identifiers with one more at its place.
pub open spec fn with_id(ids: Seq<usize>, id: usize) -> Seq<usize> {
    if ids.contains(id) {
        ids
    } else {
        ids.insert(slot(ids, id), id)
    }
}

/// Folds the two halves of a hash into one.
#[verifier::truncate]
fn fold_hash(full: u64) -> (r: u32)
    ensures
        r == folded(full),
{
    (full ^ (full >> 32)) as u32
}

fn hash_ids(ids: &Vec<usize>) -> (r: u32)
    ensures
        r == context_hash(ids@),
{
    let mut hasher: DefaultHasher = DefaultHasher::new();
    let n: usize = ids.len();
    hasher.write(u64_to_le_bytes(n as u64).as_slice());
    let ghost all = hashed_bytes(ids@);
    assert(hasher@ =~= all.take(1));
    for i in 0..n
        invariant
            n == ids@.len(),
            all == hashed_bytes(ids@),
            hasher@ == all.take(i + 1),
    {
        hasher.write(u64_to_le_bytes(ids[i] as u64).as_slice());
        assert(hasher@ =~= all.take(i + 2));
    }
    assert(all.take(n + 1) =~= all);
    fold_hash(hasher.finish())
}

impl LibContext {
    /// Whether the identifiers are in order and the hash is theirs.
    pub open spec fn wf(&self) -> bool {
        increasing(self.set@) && self.hash == context_hash(self.set@)
    }

    /// No library functions.
    pub fn new() -> (r: Self)
        ensures
            r.wf(),
            r.set@.len() == 0,
    {
        let set: Vec<usize> = Vec::new();
        let hash: u32 = hash_ids(&set);
        LibContext { set, hash }
    }

    /// Adds a library function, if it is not there yet.
    pub fn add_id(&mut self, id: usize)
        requires
            old(self).wf(),
        ensures
            final(self).wf(),
            final(self).set@ == with_id(old(self).set@, id),
    {
        let ghost s = self.set@;
        let mut p: usize = self.set.len();
        proof {
            lemma_slot(s, id);
        }
        while p > 0 && self.set[p - 1] >= id
            invariant
                p <= self.set@.len(),
                s == self.set@,
                increasing(s),
                self.hash == context_hash(s),
                forall|j: int| p <= j < s.len() ==> (#[trigger] s[j]) >= id,
            decreases p,
        {
            p = p - 1;
        }
        proof {
            crate::id_map::lemma_slot_is(s, id, p as int);
        }
        if p < self.set.len() && self.set[p] == id {
            assert(s.contains(id));
            return;
        }
        assert(!s.contains(id)) by {
            if s.contains(id) {
                let j = choose|j: int| 0 <= j < s.len() && s[j] == id;
                assert(j >= p);
                if j > p {
                    assert(s[p as int] < s[j]);
                }
            }
        }
        self.set.insert(p, id);
        self.hash = hash_ids(&self.set);
        assert(increasing(self.set@));
    }

    /// Whether a library function is there.
    pub fn contains(&self, id: usize) -> (r: bool)
        ensures
            r == self.set@.contains(id),
    {
        let n: usize = self.set.len();
        for i in 0..n
            invariant
                n == self.set@.len(),
                forall|j: int| 0 <= j < i ==> self.set@[j] != id,
        {
            if self.set[i] == id {
                return true;
            }
        }
        false
    }

    /// Whether the library functions are the same. The hashes tell most
    /// contexts apart.
    pub fn same(&self, other: &LibContext) -> (r: bool)
        requires
            self.wf(),
            other.wf(),
        ensures
            r == (self.set@ == other.set@),
    {
        let n: usize = self.set.len();
        if self.hash != other.hash || n != other.set.len() {
            return false;
        }
        for i in 0..n
            invariant
                n == self.set@.len() == other.set@.len(),
                forall|j: int| 0 <= j < i ==> self.set@[j] == other.set@[j],
        {
            if self.set[i] != other.set[i] {
                return false;
            }
        }
        assert(self.set@ =~= other.set@);
        true
    }

    /// A second context with the same library functions.
    pub fn duplicate(&self) -> (r: Self)
        ensures
            r.set@ == self.set@,
            r.hash == self.hash,
    {
        let mut set: Vec<usize> = Vec::new();
        let n: usize = self.set.len();
        for i in 0..n
            invariant
                n == self.set@.len(),
                set@ == self.set@.take(i as int),
        {
            set.push(self.set[i]);
            assert(set@ =~= self.set@.take(i + 1));
        }
        assert(set@ =~= self.set@);
        LibContext { set, hash: self.hash }
    }
}

} // verus!
