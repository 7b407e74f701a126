//! A map from a 64-bit key to a bucket of ids, shared by the word lookup of
//! the store and the tables of the hashing index.

use std::collections::HashMap;
use vstd::prelude::*;

verus! {

broadcast use vstd::std_specs::hash::group_hash_axioms;

/// The ids filed under `key`; a key that was never used has an empty bucket.
pub open spec fn bucket_of(m: Map<u64, Vec<usize>>, key: u64) -> Seq<usize> {
    if m.contains_key(key) {
        m[key]@
    } else {
        Seq::empty()
    }
}

/// Appends `id` to the bucket of `key`, leaving every other bucket as it was.
pub fn push_to_bucket(m: &mut HashMap<u64, Vec<usize>>, key: u64, id: usize)
    ensures
        forall|k: u64|
            #![trigger bucket_of(final(m)@, k)]
            bucket_of(final(m)@, k) == if k == key {
                bucket_of(old(m)@, k).push(id)
            } else {
                bucket_of(old(m)@, k)
            },
{
    let mut b: Vec<usize> = match m.remove(&key) {
        Some(v) => v,
        None => Vec::new(),
    };
    b.push(id);
    m.insert(key, b);
}

/// A copy of the bucket of `key`.
pub fn bucket(m: &HashMap<u64, Vec<usize>>, key: u64) -> (r: Vec<usize>)
    ensures
        r@ == bucket_of(m@, key),
{
    match m.get(&key) {
        Some(v) => v.clone(),
        None => Vec::new(),
    }
}

} // verus!
