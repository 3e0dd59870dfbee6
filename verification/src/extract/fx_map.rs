//! Hash maps with the hasher of `rustc_hash`.
use rustc_hash::{FxBuildHasher, FxHashMap};
use std::collections::HashMap;
use vstd::prelude::*;

verus! {

/// The hasher builder of `rustc_hash`.
#[verifier::external_type_specification]
#[verifier::external_body]
pub struct ExFxBuildHasher(FxBuildHasher);

/// `FxHashMap::default`: a map without entries.
#[verifier::external_body]
pub(crate) fn fx_new<V>() -> (r: HashMap<u64, V, FxBuildHasher>)
    ensures
        forall|k: u64| !r@.dom().contains(k),
{
    FxHashMap::default()
}

/// `HashMap::get` on an `FxHashMap`: the value under a key.
#[verifier::external_body]
pub(crate) fn fx_get<V: Copy>(m: &HashMap<u64, V, FxBuildHasher>, k: u64) -> (r: Option<V>)
    ensures
        r == if m@.dom().contains(k) {
            Some(m@[k])
        } else {
            None
        },
{
    m.get(&k).copied()
}

/// `HashMap::insert` on an `FxHashMap`: puts a value under a key, in place of
/// the one that is there.
#[verifier::external_body]
pub(crate) fn fx_insert<V>(m: &mut HashMap<u64, V, FxBuildHasher>, k: u64, v: V)
    ensures
        final(m)@ == old(m)@.insert(k, v),
{
    m.insert(k, v);
}

} // verus!
