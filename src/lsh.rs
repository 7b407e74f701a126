//! The approximate nearest-neighbour index: `L` hash tables, each filing
//! embedding ids under a `P`-bit signature, the pattern of signs of the
//! vector's dot products with the table's `P` random hyperplanes.
//!
//! The index holds ids only. The caller draws the hyperplanes and computes
//! the signs; the index turns them into signatures and buckets.

use std::collections::HashMap;
use std::collections::HashSet;
use vstd::arithmetic::power2::{lemma2_to64, lemma_pow2_strictly_increases, lemma_pow2_unfold, pow2};
use vstd::prelude::*;

use crate::buckets::{bucket, bucket_of, push_to_bucket};

verus! {

broadcast use vstd::std_specs::hash::group_hash_axioms;

/// Why an id could not be added to the index.
#[derive(Clone, Copy, Debug, PartialEq, Eq, Structural)]
pub enum IndexBuildError {
    /// The id is in the index already.
    DuplicateId,
    /// The signs given are not one per hyperplane of each table.
    DimensionMismatch,
    /// More hyperplanes per table than a signature key has bits.
    TooManyPlanes,
}

/// The most hyperplanes a table can have: a signature is a 64-bit key.
pub const MAX_PLANES: usize = 64;

/// The signature of a pattern of signs: bit `j` is set when `signs[j]` is
/// (the dot product with hyperplane `j` is non-negative).
pub open spec fn signature_of(signs: Seq<bool>) -> nat
    decreases signs.len(),
{
    if signs.len() == 0 {
        0
    } else {
        (if signs[0] { 1nat } else { 0nat }) + 2 * signature_of(signs.drop_first())
    }
}

proof fn lemma_signature_bound(signs: Seq<bool>)
    ensures
        signature_of(signs) < pow2(signs.len()),
    decreases signs.len(),
{
    if signs.len() > 0 {
        lemma_signature_bound(signs.drop_first());
        lemma_pow2_unfold(signs.len());
    } else {
        lemma2_to64();
    }
}

proof fn lemma_push_contains(s: Seq<usize>, v: usize, y: usize)
    ensures
        s.push(v).contains(y) <==> (s.contains(y) || y == v),
{
    if s.push(v).contains(y) && y != v {
        let k = choose|k: int| 0 <= k < s.push(v).len() && s.push(v)[k] == y;
        assert(s[k] == y);
    }
    if s.contains(y) {
        let k = choose|k: int| 0 <= k < s.len() && s[k] == y;
        assert(s.push(v)[k] == y);
    }
    if y == v {
        assert(s.push(v)[s.len() as int] == y);
    }
}

/// The signature of `signs`, as a 64-bit key.
pub fn signature(signs: &Vec<bool>) -> (r: u64)
    requires
        signs@.len() <= 64,
    ensures
        r as nat == signature_of(signs@),
{
    let n = signs.len();
    let mut r: u64 = 0;
    let mut j: usize = n;
    while j > 0
        invariant
            j <= n == signs@.len() <= 64,
            r as nat == signature_of(signs@.subrange(j as int, n as int)),
        decreases j,
    {
        let ghost tail = signs@.subrange(j as int, n as int);
        j -= 1;
        let ghost s = signs@.subrange(j as int, n as int);
        assert(s.drop_first() =~= tail);
        proof {
            lemma_signature_bound(s);
            lemma2_to64();
            if s.len() < 64 {
                lemma_pow2_strictly_increases(s.len(), 64);
            }
        }
        r = (if signs[j] { 1u64 } else { 0u64 }) + 2 * r;
    }
    assert(signs@.subrange(0, n as int) =~= signs@);
    r
}

/// The hashing index: one map from signature to bucket of ids per table,
/// and the set of ids that were added.
pub struct HyperplaneIndex {
    planes: usize,
    tables: Vec<HashMap<u64, Vec<usize>>>,
    members: HashSet<usize>,
}

impl HyperplaneIndex {
    /// The number of tables.
    pub closed spec fn table_count(&self) -> nat {
        self.tables@.len()
    }

    /// The number of hyperplanes of each table.
    pub closed spec fn plane_count(&self) -> nat {
        self.planes as nat
    }

    /// The ids that were added.
    pub closed spec fn ids(&self) -> Set<usize> {
        self.members@
    }

    /// The ids that table `t` files under signature `sig`, in the order
    /// they were added.
    pub closed spec fn bucket_at(&self, t: int, sig: nat) -> Seq<usize> {
        if sig < pow2(64) {
            bucket_of(self.tables@[t]@, sig as u64)
        } else {
            Seq::empty()
        }
    }

    /// Signs for every hyperplane of every table.
    pub open spec fn fits(&self, signs: Seq<Vec<bool>>) -> bool {
        &&& signs.len() == self.table_count()
        &&& forall|t: int| 0 <= t < signs.len() ==> (#[trigger] signs[t])@.len() == self.plane_count()
    }

    /// What the index holds is consistent: signatures fit in 64 bits, and
    /// each bucket holds distinct ids, all of them added.
    pub closed spec fn wf(&self) -> bool {
        &&& self.planes <= 64
        &&& forall|t: int, sig: u64|
            0 <= t < self.tables@.len() ==> (#[trigger] bucket_of(self.tables@[t]@, sig)).no_duplicates()
        &&& forall|t: int, sig: u64, i: int|
            0 <= t < self.tables@.len() && 0 <= i < bucket_of(self.tables@[t]@, sig).len()
                ==> self.members@.contains(#[trigger] bucket_of(self.tables@[t]@, sig)[i])
    }

    /// An empty index of `tables` tables with `planes` hyperplanes each;
    /// `TooManyPlanes` when `planes` exceeds `MAX_PLANES`.
    pub fn new(tables: usize, planes: usize) -> (r: Result<Self, IndexBuildError>)
        ensures
            r is Err <==> planes > MAX_PLANES,
            r is Err ==> r == Err::<Self, _>(IndexBuildError::TooManyPlanes),
            r matches Ok(idx) ==> {
                &&& idx.wf()
                &&& idx.table_count() == tables
                &&& idx.plane_count() == planes
                &&& idx.ids() == Set::<usize>::empty()
                &&& forall|t: int, sig: nat| 0 <= t < tables ==> #[trigger] idx.bucket_at(t, sig) == Seq::<usize>::empty()
            },
    {
        if planes > MAX_PLANES {
            return Err(IndexBuildError::TooManyPlanes);
        }
        let mut v: Vec<HashMap<u64, Vec<usize>>> = Vec::new();
        let mut i: usize = 0;
        while i < tables
            invariant
                i <= tables,
                v@.len() == i,
                forall|t: int| 0 <= t < i ==> (#[trigger] v@[t])@ == Map::<u64, Vec<usize>>::empty(),
            decreases tables - i,
        {
            v.push(HashMap::new());
            i += 1;
        }
        Ok(HyperplaneIndex { planes, tables: v, members: HashSet::new() })
    }

    /// Each bucket holds ids that were added, each at most once.
    pub proof fn lemma_buckets_hold_added_ids(&self)
        requires
            self.wf(),
        ensures
            forall|t: int, sig: nat| 0 <= t < self.table_count() ==> (#[trigger] self.bucket_at(t, sig)).no_duplicates(),
            forall|t: int, sig: nat, i: int|
                0 <= t < self.table_count() && 0 <= i < self.bucket_at(t, sig).len() ==> self.ids().contains(
                    #[trigger] self.bucket_at(t, sig)[i],
                ),
    {
        assert forall|t: int, sig: nat| 0 <= t < self.table_count() implies (#[trigger] self.bucket_at(t, sig)).no_duplicates() by {
            if sig < pow2(64) {
                assert(bucket_of(self.tables@[t]@, sig as u64).no_duplicates());
            }
        }
        assert forall|t: int, sig: nat, i: int|
            0 <= t < self.table_count() && 0 <= i < self.bucket_at(t, sig).len() implies self.ids().contains(
                #[trigger] self.bucket_at(t, sig)[i],
            ) by {
            if sig < pow2(64) {
                assert(self.members@.contains(bucket_of(self.tables@[t]@, sig as u64)[i]));
            }
        }
    }

    /// An id that is filed, in some table, under the signature that `signs`
    /// give for that table is a candidate of a query with those signs.
    pub proof fn lemma_filed_is_candidate(&self, signs: Seq<Vec<bool>>, t: int, id: usize)
        requires
            0 <= t < self.table_count(),
            self.bucket_at(t, signature_of(signs[t]@)).contains(id),
        ensures
            self.matched_by(signs, self.table_count() as int, id),
    {
    }

    /// The number of tables.
    pub fn tables_len(&self) -> (r: usize)
        ensures
            r == self.table_count(),
    {
        self.tables.len()
    }

    /// The number of hyperplanes of each table.
    pub fn planes_len(&self) -> (r: usize)
        ensures
            r == self.plane_count(),
    {
        self.planes
    }

    /// Checks that `signs` holds one sign per hyperplane of each table.
    pub fn check_fits(&self, signs: &Vec<Vec<bool>>) -> (r: bool)
        ensures
            r == self.fits(signs@),
    {
        if signs.len() != self.tables.len() {
            return false;
        }
        let mut t: usize = 0;
        while t < signs.len()
            invariant
                t <= signs@.len() == self.table_count(),
                forall|u: int| 0 <= u < t ==> (#[trigger] signs@[u])@.len() == self.plane_count(),
            decreases signs@.len() - t,
        {
            if signs[t].len() != self.planes {
                return false;
            }
            t += 1;
        }
        true
    }

    /// Files `id` in every table under the signature of its signs for that
    /// table (`signs[t]` for table `t`).
    pub fn insert(&mut self, id: usize, signs: &Vec<Vec<bool>>) -> (r: Result<(), IndexBuildError>)
        requires
            old(self).wf(),
        ensures
            final(self).wf(),
            final(self).table_count() == old(self).table_count(),
            final(self).plane_count() == old(self).plane_count(),
            r == Err::<(), _>(IndexBuildError::DimensionMismatch) <==> !old(self).fits(signs@),
            r == Err::<(), _>(IndexBuildError::DuplicateId) <==> old(self).fits(signs@) && old(self).ids().contains(id),
            r is Ok <==> old(self).fits(signs@) && !old(self).ids().contains(id),
            r is Err ==> *final(self) == *old(self),
            r is Ok ==> {
                &&& final(self).ids() == old(self).ids().insert(id)
                &&& forall|t: int, sig: nat|
                    0 <= t < old(self).table_count() ==> #[trigger] final(self).bucket_at(t, sig) == if sig
                        == signature_of(signs@[t]@) {
                        old(self).bucket_at(t, sig).push(id)
                    } else {
                        old(self).bucket_at(t, sig)
                    }
            },
    {
        if !self.check_fits(signs) {
            return Err(IndexBuildError::DimensionMismatch);
        }
        if self.members.contains(&id) {
            return Err(IndexBuildError::DuplicateId);
        }
        let ghost old_tables = self.tables@;
        self.members.insert(id);
        let n = self.tables.len();
        let mut t: usize = 0;
        while t < n
            invariant
                n == self.tables@.len() == old_tables.len() == signs@.len(),
                t <= n,
                self.planes <= 64,
                self.members@ == old(self).members@.insert(id),
                !old(self).members@.contains(id),
                self.planes == old(self).planes,
                forall|u: int| 0 <= u < n ==> (#[trigger] signs@[u])@.len() == self.planes,
                forall|u: int, sig: u64|
                    0 <= u < n ==> (#[trigger] bucket_of(old_tables[u]@, sig)).no_duplicates(),
                forall|u: int, sig: u64, i: int|
                    0 <= u < n && 0 <= i < bucket_of(old_tables[u]@, sig).len()
                        ==> old(self).members@.contains(#[trigger] bucket_of(old_tables[u]@, sig)[i]),
                forall|u: int, sig: u64|
                    #![trigger bucket_of(self.tables@[u]@, sig)]
                    0 <= u < n ==> bucket_of(self.tables@[u]@, sig) == if u < t && sig as nat
                        == signature_of(signs@[u]@) {
                        bucket_of(old_tables[u]@, sig).push(id)
                    } else {
                        bucket_of(old_tables[u]@, sig)
                    },
            decreases n - t,
        {
            let sig = signature(&signs[t]);
            push_to_bucket(&mut self.tables[t], sig, id);
            t += 1;
        }
        proof {
            assert forall|u: int, sig: u64|
                0 <= u < n implies (#[trigger] bucket_of(self.tables@[u]@, sig)).no_duplicates() by {
                let b = bucket_of(old_tables[u]@, sig);
                if sig as nat == signature_of(signs@[u]@) {
                    assert(!b.contains(id));
                    assert(b.push(id).no_duplicates()) by {
                        assert forall|i: int, j: int|
                            0 <= i < b.push(id).len() && 0 <= j < b.push(id).len() && i != j
                                implies b.push(id)[i] != b.push(id)[j] by {
                            if i < b.len() && j < b.len() {
                            } else if i < b.len() {
                                assert(old(self).members@.contains(b[i]));
                            } else if j < b.len() {
                                assert(old(self).members@.contains(b[j]));
                            }
                        }
                    }
                }
            }
            assert forall|u: int, sig: u64, i: int|
                0 <= u < n && 0 <= i < bucket_of(self.tables@[u]@, sig).len()
                    implies self.members@.contains(#[trigger] bucket_of(self.tables@[u]@, sig)[i]) by {
                let b = bucket_of(old_tables[u]@, sig);
                if i < b.len() {
                    assert(old(self).members@.contains(b[i]));
                }
            }
            lemma2_to64();
            assert forall|u: int, sig: nat|
                0 <= u < n implies #[trigger] self.bucket_at(u, sig) == if sig == signature_of(signs@[u]@) {
                    old(self).bucket_at(u, sig).push(id)
                } else {
                    old(self).bucket_at(u, sig)
                } by {
                if sig == signature_of(signs@[u]@) {
                    lemma_signature_bound(signs@[u]@);
                    if signs@[u]@.len() < 64 {
                        lemma_pow2_strictly_increases(signs@[u]@.len(), 64);
                    }
                }
            }
        }
        Ok(())
    }

    /// `x` is in the bucket that one of the first `upto` tables gives for
    /// `signs`.
    pub open spec fn matched_by(&self, signs: Seq<Vec<bool>>, upto: int, x: usize) -> bool {
        exists|t: int| 0 <= t < upto && #[trigger] self.bucket_at(t, signature_of(signs[t]@)).contains(x)
    }

    /// The candidates for a query with the given signs: the ids filed, in
    /// some table, under the signature that the query has in that table,
    /// each once. `None` when the signs do not fit the index.
    pub fn candidates(&self, signs: &Vec<Vec<bool>>) -> (r: Option<Vec<usize>>)
        requires
            self.wf(),
        ensures
            r is None <==> !self.fits(signs@),
            r matches Some(c) ==> {
                &&& c@.no_duplicates()
                &&& forall|x: usize| c@.contains(x) <==> self.matched_by(signs@, self.table_count() as int, x)
                &&& forall|x: usize| c@.contains(x) ==> self.ids().contains(x)
            },
    {
        if !self.check_fits(signs) {
            return None;
        }
        let mut seen: HashSet<usize> = HashSet::new();
        let mut c: Vec<usize> = Vec::new();
        let n = self.tables.len();
        let mut t: usize = 0;
        while t < n
            invariant
                n == self.tables@.len() == signs@.len(),
                t <= n,
                self.wf(),
                self.fits(signs@),
                c@.no_duplicates(),
                forall|x: usize| seen@.contains(x) <==> c@.contains(x),
                forall|x: usize| c@.contains(x) <==> self.matched_by(signs@, t as int, x),
            decreases n - t,
        {
            let sig = signature(&signs[t]);
            proof {
                lemma2_to64();
                lemma_signature_bound(signs@[t as int]@);
                if signs@[t as int]@.len() < 64 {
                    lemma_pow2_strictly_increases(signs@[t as int]@.len(), 64);
                }
            }
            let b = bucket(&self.tables[t], sig);
            assert(b@ == self.bucket_at(t as int, signature_of(signs@[t as int]@)));
            let mut i: usize = 0;
            while i < b.len()
                invariant
                    n == self.tables@.len() == signs@.len(),
                    t < n,
                    i <= b@.len(),
                    b@ == self.bucket_at(t as int, signature_of(signs@[t as int]@)),
                    c@.no_duplicates(),
                    forall|x: usize| seen@.contains(x) <==> c@.contains(x),
                    forall|x: usize|
                        c@.contains(x) <==> (self.matched_by(signs@, t as int, x) || b@.subrange(
                            0,
                            i as int,
                        ).contains(x)),
                decreases b@.len() - i,
            {
                let x = b[i];
                let ghost old_c = c@;
                if !seen.contains(&x) {
                    seen.insert(x);
                    c.push(x);
                }
                assert forall|y: usize| c@.contains(y) <==> (old_c.contains(y) || y == x) by {
                    lemma_push_contains(old_c, x, y);
                }
                assert(b@.subrange(0, i + 1) =~= b@.subrange(0, i as int).push(x));
                assert forall|y: usize|
                    c@.contains(y) <==> (self.matched_by(signs@, t as int, y) || b@.subrange(
                        0,
                        i + 1,
                    ).contains(y)) by {
                    lemma_push_contains(b@.subrange(0, i as int), x, y);
                    lemma_push_contains(old_c, x, y);
                }
                i += 1;
            }
            assert(b@.subrange(0, b@.len() as int) =~= b@);
            assert forall|x: usize|
                c@.contains(x) <==> self.matched_by(signs@, t + 1, x) by {
                if self.matched_by(signs@, t + 1, x) {
                    let u = choose|u: int| 0 <= u < t + 1 && #[trigger] self.bucket_at(u, signature_of(signs@[u]@)).contains(x);
                    if u < t {
                        assert(self.matched_by(signs@, t as int, x));
                    }
                }
                if b@.contains(x) {
                    assert(self.bucket_at(t as int, signature_of(signs@[t as int]@)).contains(x));
                }
            }
            t += 1;
        }
        assert forall|x: usize| c@.contains(x) implies self.ids().contains(x) by {
            let u = choose|u: int| 0 <= u < n && #[trigger] self.bucket_at(u, signature_of(signs@[u]@)).contains(x);
            let sig = signature_of(signs@[u]@);
            if sig < pow2(64) {
                let b = bucket_of(self.tables@[u]@, sig as u64);
                let k = choose|k: int| 0 <= k < b.len() && b[k] == x;
                assert(self.members@.contains(b[k]));
            }
        }
        Some(c)
    }
}

} // verus!
