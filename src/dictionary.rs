//! The embedding store together with its hashing index: vectors under dense
//! ids in the order they were added, exact lookup by word, and the index
//! over the same ids.

use std::collections::hash_map::DefaultHasher;
use std::collections::HashMap;
use std::hash::Hasher;
use vstd::prelude::*;
use vstd::string::StringExecFns;
use vstd::std_specs::hash::DefaultHasherAdditionalSpecFns;
use vstd::utf8::encode_utf8;

use crate::buckets::{bucket_of, push_to_bucket};
use crate::lsh::{HyperplaneIndex, IndexBuildError, MAX_PLANES};
use crate::rank::{distinct_ids, holds_id, is_top, lemma_top_unique, top_candidates, Neighbor};

verus! {

broadcast use vstd::std_specs::hash::group_hash_axioms;

/// Why an embedding could not be added.
#[derive(Clone, Copy, Debug, PartialEq, Eq, Structural)]
pub enum BuildError {
    /// The vector does not have the store's dimension.
    DimensionMismatch,
    /// The index refused the embedding's signs.
    Index(IndexBuildError),
}

/// The key under which a word is filed in the word lookup: the default
/// hasher's digest of the word's UTF-8 bytes.
pub open spec fn word_key_of(w: Seq<char>) -> u64 {
    DefaultHasher::spec_finish(seq![encode_utf8(w)])
}

fn word_key(word: &str) -> (r: u64)
    ensures
        r == word_key_of(word@),
{
    let mut h = DefaultHasher::new();
    h.write(word.as_bytes());
    h.finish()
}

/// `i` is the id of the last occurrence of `w` in `words`.
pub open spec fn is_last_index_of(words: Seq<Seq<char>>, w: Seq<char>, i: int) -> bool {
    &&& 0 <= i < words.len()
    &&& words[i] == w
    &&& forall|j: int| i < j < words.len() ==> words[j] != w
}

/// The id that a lookup of `w` resolves to: that of its last occurrence,
/// as a later occurrence of a word takes the word over.
pub open spec fn id_of(words: Seq<Seq<char>>, w: Seq<char>) -> Option<int> {
    if exists|i: int| is_last_index_of(words, w, i) {
        Some(choose|i: int| is_last_index_of(words, w, i))
    } else {
        None
    }
}

proof fn lemma_last_index_unique(words: Seq<Seq<char>>, w: Seq<char>, i: int)
    requires
        is_last_index_of(words, w, i),
    ensures
        id_of(words, w) == Some(i),
{
    let k = choose|k: int| is_last_index_of(words, w, k);
    if k < i {
        assert(words[i] == w);
    } else if i < k {
        assert(words[k] == w);
    }
}

/// Adding a word makes lookups of it resolve to the new id, and leaves
/// lookups of every other word as they were.
pub proof fn lemma_id_of_push(words: Seq<Seq<char>>, v: Seq<char>, w: Seq<char>)
    ensures
        id_of(words.push(v), w) == if w == v {
            Some(words.len() as int)
        } else {
            id_of(words, w)
        },
{
    let nw = words.push(v);
    if w == v {
        lemma_last_index_unique(nw, w, words.len() as int);
    } else {
        if exists|i: int| is_last_index_of(words, w, i) {
            let i = choose|i: int| is_last_index_of(words, w, i);
            assert(is_last_index_of(nw, w, i));
            lemma_last_index_unique(nw, w, i);
            lemma_last_index_unique(words, w, i);
        } else {
            if exists|i: int| is_last_index_of(nw, w, i) {
                let i = choose|i: int| is_last_index_of(nw, w, i);
                assert(nw[i] == w);
                assert(i < words.len());
                assert forall|j: int| i < j < words.len() implies words[j] != w by {
                    assert(nw[j] == words[j]);
                }
                assert(is_last_index_of(words, w, i));
            }
        }
    }
}

proof fn lemma_absent(words: Seq<Seq<char>>, w: Seq<char>)
    requires
        forall|i: int| 0 <= i < words.len() ==> words[i] != w,
    ensures
        id_of(words, w) is None,
{
}

/// Embeddings under dense ids, a lookup from word to id, and the hashing
/// index over the same ids.
pub struct WordVectorDictionary<T> {
    word_to_id: HashMap<u64, Vec<usize>>,
    words: Vec<String>,
    vectors: Vec<Vec<T>>,
    index: HyperplaneIndex,
    dim: usize,
}

impl<T> WordVectorDictionary<T> {
    /// The words, by id.
    pub closed spec fn words_view(&self) -> Seq<Seq<char>> {
        self.words@.map_values(|w: String| w@)
    }

    /// The vectors, by id.
    pub closed spec fn vectors_view(&self) -> Seq<Seq<T>> {
        self.vectors@.map_values(|v: Vec<T>| v@)
    }

    /// The dimension of every vector.
    pub closed spec fn dimension(&self) -> nat {
        self.dim as nat
    }

    /// The hashing index.
    pub closed spec fn index_view(&self) -> HyperplaneIndex {
        self.index
    }

    /// The stored vector of id `i`.
    pub closed spec fn stored_vector(&self, i: int) -> Vec<T> {
        self.vectors@[i]
    }

    /// The number of embeddings.
    pub open spec fn len(&self) -> nat {
        self.words_view().len()
    }

    /// The invariant of the dictionary.
    pub closed spec fn wf(&self) -> bool {
        &&& self.words@.len() == self.vectors@.len()
        &&& forall|i: int| 0 <= i < self.vectors@.len() ==> (#[trigger] self.vectors@[i])@.len() == self.dim
        &&& self.index.wf()
        &&& self.index.ids() == Set::new(|i: usize| i < self.words@.len())
        &&& forall|h: u64, k: int|
            0 <= k < bucket_of(self.word_to_id@, h).len() ==> {
                let id = #[trigger] bucket_of(self.word_to_id@, h)[k];
                &&& id < self.words@.len()
                &&& word_key_of(self.words@[id as int]@) == h
            }
        &&& forall|h: u64, k1: int, k2: int|
            0 <= k1 < k2 < bucket_of(self.word_to_id@, h).len() ==> #[trigger] bucket_of(
                self.word_to_id@,
                h,
            )[k1] < #[trigger] bucket_of(self.word_to_id@, h)[k2]
        &&& forall|i: int|
            0 <= i < self.words@.len() ==> bucket_of(
                self.word_to_id@,
                word_key_of((#[trigger] self.words@[i])@),
            ).contains(i as usize)
    }

    /// An empty dictionary of vectors of dimension `dim`, indexed by
    /// `tables` tables of `planes` hyperplanes each; refused when `planes`
    /// exceeds `MAX_PLANES`.
    pub fn new(dim: usize, tables: usize, planes: usize) -> (r: Result<Self, BuildError>)
        ensures
            r is Err <==> planes > MAX_PLANES,
            r is Err ==> r == Err::<Self, _>(BuildError::Index(IndexBuildError::TooManyPlanes)),
            r matches Ok(d) ==> {
                &&& d.wf()
                &&& d.len() == 0
                &&& d.words_view() == Seq::<Seq<char>>::empty()
                &&& d.vectors_view() == Seq::<Seq<T>>::empty()
                &&& d.dimension() == dim
                &&& d.index_view().table_count() == tables
                &&& d.index_view().plane_count() == planes
                &&& d.index_view().ids() == Set::<usize>::empty()
                &&& forall|t: int, sig: nat|
                    0 <= t < tables ==> #[trigger] d.index_view().bucket_at(t, sig) == Seq::<usize>::empty()
            },
    {
        let index = match HyperplaneIndex::new(tables, planes) {
            Ok(i) => i,
            Err(e) => {
                return Err(BuildError::Index(e));
            },
        };
        let r = WordVectorDictionary {
            word_to_id: HashMap::new(),
            words: Vec::new(),
            vectors: Vec::new(),
            index,
            dim,
        };
        assert(r.index.ids() =~= Set::new(|i: usize| i < r.words@.len()));
        assert(r.words_view() =~= Seq::<Seq<char>>::empty());
        assert(r.vectors_view() =~= Seq::<Seq<T>>::empty());
        Ok(r)
    }

    /// What the invariant tells a caller: as many vectors as words, each of
    /// the dictionary's dimension; the index holds exactly the stored ids;
    /// and each bucket holds stored ids, each at most once.
    pub proof fn lemma_wf_facts(&self)
        requires
            self.wf(),
        ensures
            self.vectors_view().len() == self.len(),
            forall|i: int| 0 <= i < self.len() ==> (#[trigger] self.vectors_view()[i]).len() == self.dimension(),
            self.index_view().ids() == Set::new(|i: usize| i < self.len()),
            forall|t: int, sig: nat|
                0 <= t < self.index_view().table_count() ==> (#[trigger] self.index_view().bucket_at(
                    t,
                    sig,
                )).no_duplicates(),
            forall|t: int, sig: nat, i: int|
                0 <= t < self.index_view().table_count() && 0 <= i < self.index_view().bucket_at(t, sig).len()
                    ==> #[trigger] self.index_view().bucket_at(t, sig)[i] < self.len(),
    {
        self.index.lemma_buckets_hold_added_ids();
        assert forall|i: int| 0 <= i < self.len() implies (#[trigger] self.vectors_view()[i]).len() == self.dimension() by {
            assert(self.vectors_view()[i] == self.vectors@[i]@);
        }
        assert forall|t: int, sig: nat, i: int|
            0 <= t < self.index_view().table_count() && 0 <= i < self.index_view().bucket_at(t, sig).len()
                implies #[trigger] self.index_view().bucket_at(t, sig)[i] < self.len() by {
            assert(self.index.ids().contains(self.index.bucket_at(t, sig)[i]));
        }
    }

    /// The dimension of the vectors.
    pub fn word_dimension(&self) -> (r: usize)
        ensures
            r == self.dimension(),
    {
        self.dim
    }

    /// The number of embeddings.
    pub fn word_count(&self) -> (r: usize)
        requires
            self.wf(),
        ensures
            r == self.len(),
    {
        self.words.len()
    }

    /// Adds an embedding under the next id, filing it in the index under
    /// `signs` (one sign per hyperplane of each table). A word added before
    /// keeps its earlier embedding under its earlier id, but lookups of the
    /// word now resolve to the new one.
    pub fn add(&mut self, word: String, vector: Vec<T>, signs: &Vec<Vec<bool>>) -> (r: Result<usize, BuildError>)
        requires
            old(self).wf(),
        ensures
            final(self).wf(),
            final(self).dimension() == old(self).dimension(),
            final(self).index_view().table_count() == old(self).index_view().table_count(),
            final(self).index_view().plane_count() == old(self).index_view().plane_count(),
            r == Err::<usize, _>(BuildError::DimensionMismatch) <==> vector@.len() != old(self).dimension(),
            r == Err::<usize, _>(BuildError::Index(IndexBuildError::DimensionMismatch)) <==> vector@.len()
                == old(self).dimension() && !old(self).index_view().fits(signs@),
            r is Ok <==> vector@.len() == old(self).dimension() && old(self).index_view().fits(signs@),
            r is Err ==> *final(self) == *old(self),
            r matches Ok(id) ==> {
                &&& id == old(self).len()
                &&& final(self).len() == old(self).len() + 1
                &&& final(self).vector_of(word@) == Some(vector@)
                &&& old(self).index_view().table_count() > 0 ==> final(self).index_view().matched_by(
                    signs@,
                    old(self).index_view().table_count() as int,
                    id,
                )
                &&& forall|w: Seq<char>| w != word@ ==> #[trigger] final(self).vector_of(w) == old(self).vector_of(w)
                &&& final(self).words_view() == old(self).words_view().push(word@)
                &&& final(self).vectors_view() == old(self).vectors_view().push(vector@)
                &&& final(self).index_view().ids() == old(self).index_view().ids().insert(id)
                &&& forall|t: int, sig: nat|
                    0 <= t < old(self).index_view().table_count() ==> #[trigger] final(self).index_view().bucket_at(t, sig) == if sig == crate::lsh::signature_of(signs@[t]@) {
                        old(self).index_view().bucket_at(t, sig).push(id)
                    } else {
                        old(self).index_view().bucket_at(t, sig)
                    }
            },
    {
        if vector.len() != self.dim {
            return Err(BuildError::DimensionMismatch);
        }
        let id = self.words.len();
        assert(!self.index.ids().contains(id));
        match self.index.insert(id, signs) {
            Ok(()) => {},
            Err(e) => {
                return Err(BuildError::Index(e));
            },
        }
        let key = word_key(word.as_str());
        let ghost old_map = self.word_to_id@;
        push_to_bucket(&mut self.word_to_id, key, id);
        self.words.push(word);
        self.vectors.push(vector);
        proof {
            let n = id as int;
            assert(self.index.ids() =~= Set::new(|i: usize| i < self.words@.len()));
            assert forall|h: u64, k: int|
                0 <= k < bucket_of(self.word_to_id@, h).len() implies {
                    let e = #[trigger] bucket_of(self.word_to_id@, h)[k];
                    &&& e < self.words@.len()
                    &&& word_key_of(self.words@[e as int]@) == h
                } by {
                if k < bucket_of(old_map, h).len() {
                    assert(bucket_of(self.word_to_id@, h)[k] == bucket_of(old_map, h)[k]);
                }
            }
            assert forall|h: u64, k1: int, k2: int|
                0 <= k1 < k2 < bucket_of(self.word_to_id@, h).len() implies #[trigger] bucket_of(
                    self.word_to_id@,
                    h,
                )[k1] < #[trigger] bucket_of(self.word_to_id@, h)[k2] by {
                assert(bucket_of(self.word_to_id@, h)[k1] == bucket_of(old_map, h)[k1]);
                if k2 < bucket_of(old_map, h).len() {
                    assert(bucket_of(self.word_to_id@, h)[k2] == bucket_of(old_map, h)[k2]);
                }
            }
            assert forall|i: int|
                0 <= i < self.words@.len() implies bucket_of(
                    self.word_to_id@,
                    word_key_of((#[trigger] self.words@[i])@),
                ).contains(i as usize) by {
                let h = word_key_of(self.words@[i]@);
                if i < n {
                    assert(self.words@[i] == old(self).words@[i]);
                    let k = choose|k: int| 0 <= k < bucket_of(old_map, h).len() && bucket_of(old_map, h)[k] == i as usize;
                    assert(bucket_of(self.word_to_id@, h)[k] == i as usize);
                } else {
                    assert(bucket_of(self.word_to_id@, h).last() == id);
                }
            }
            assert forall|i: int| 0 <= i < self.vectors@.len() implies (#[trigger] self.vectors@[i])@.len() == self.dim by {
                if i < n {
                    assert(self.vectors@[i] == old(self).vectors@[i]);
                }
            }
            assert(self.words_view() =~= old(self).words_view().push(word@));
            assert(self.vectors_view() =~= old(self).vectors_view().push(vector@));
            lemma_id_of_push(old(self).words_view(), word@, word@);
            if old(self).index_view().table_count() > 0 {
                let b = old(self).index_view().bucket_at(0, crate::lsh::signature_of(signs@[0]@));
                assert(self.index_view().bucket_at(0, crate::lsh::signature_of(signs@[0]@)) == b.push(id));
                assert(b.push(id)[b.len() as int] == id);
                self.index.lemma_filed_is_candidate(signs@, 0, id);
            }
            assert forall|w: Seq<char>| w != word@ implies #[trigger] self.vector_of(w) == old(self).vector_of(w) by {
                lemma_id_of_push(old(self).words_view(), word@, w);
                if let Some(i) = id_of(old(self).words_view(), w) {
                    let k = choose|k: int| is_last_index_of(old(self).words_view(), w, k);
                    lemma_last_index_unique(old(self).words_view(), w, k);
                }
            }
        }
        Ok(id)
    }

    /// The id that `word` resolves to: that of its last occurrence.
    pub fn get_id(&self, word: &str) -> (r: Option<usize>)
        requires
            self.wf(),
        ensures
            match id_of(self.words_view(), word@) {
                Some(i) => r matches Some(x) && x as int == i,
                None => r is None,
            },
    {
        let key = word_key(word);
        let w = String::from_str(word);
        let n = self.words.len();
        let ghost words = self.words_view();
        match self.word_to_id.get(&key) {
            None => {
                proof {
                    assert forall|i: int| 0 <= i < words.len() implies words[i] != w@ by {
                        if words[i] == w@ {
                            assert(bucket_of(self.word_to_id@, word_key_of(self.words@[i]@)).contains(i as usize));
                        }
                    }
                    lemma_absent(words, w@);
                }
                None
            },
            Some(b) => {
                assert(b@ == bucket_of(self.word_to_id@, key));
                let mut k: usize = b.len();
                while k > 0
                    invariant
                        self.wf(),
                        words == self.words_view(),
                        n == words.len(),
                        b@ == bucket_of(self.word_to_id@, key),
                        key == word_key_of(w@),
                        w@ == word@,
                        k <= b@.len(),
                        forall|q: int| k <= q < b@.len() ==> words[#[trigger] b@[q] as int] != w@,
                    decreases k,
                {
                    k -= 1;
                    let id = b[k];
                    assert(id < self.words@.len());
                    if self.words[id] == w {
                        proof {
                            assert forall|j: int| id < j < words.len() implies words[j] != w@ by {
                                if words[j] == w@ {
                                    assert(self.words@[j]@ == w@);
                                    assert(bucket_of(self.word_to_id@, word_key_of(self.words@[j]@)).contains(j as usize));
                                    assert(b@.contains(j as usize));
                                    let q = choose|q: int| 0 <= q < b@.len() && b@[q] == j as usize;
                                    if q < k {
                                        assert(b@[q] < b@[k as int]);
                                    }
                                }
                            }
                            assert(words[id as int] == self.words@[id as int]@);
                            lemma_last_index_unique(words, w@, id as int);
                        }
                        return Some(id);
                    }
                }
                proof {
                    assert forall|i: int| 0 <= i < words.len() implies words[i] != w@ by {
                        if words[i] == w@ {
                            assert(self.words@[i]@ == w@);
                            let q = choose|q: int| 0 <= q < b@.len() && b@[q] == i as usize;
                            assert(words[b@[q] as int] != w@);
                        }
                    }
                    lemma_absent(words, w@);
                }
                None
            },
        }
    }

    /// The vector that a lookup of `w` gives.
    pub open spec fn vector_of(&self, w: Seq<char>) -> Option<Seq<T>> {
        match id_of(self.words_view(), w) {
            Some(i) => Some(self.vectors_view()[i]),
            None => None,
        }
    }

    /// The vector of the embedding that `word` resolves to.
    pub fn get_vector(&self, word: &str) -> (r: Option<&Vec<T>>)
        requires
            self.wf(),
        ensures
            match r {
                Some(v) => self.vector_of(word@) == Some(v@) && v@.len() == self.dimension(),
                None => self.vector_of(word@) is None,
            },
    {
        match self.get_id(word) {
            Some(id) => {
                assert(self.vectors_view()[id as int] == self.vectors@[id as int]@);
                Some(&self.vectors[id])
            },
            None => None,
        }
    }

    /// The word of id `id`.
    pub fn word(&self, id: usize) -> (r: &String)
        requires
            self.wf(),
            id < self.len(),
        ensures
            r@ == self.words_view()[id as int],
    {
        &self.words[id]
    }

    /// The vector of id `id`.
    pub fn vector(&self, id: usize) -> (r: &Vec<T>)
        requires
            self.wf(),
            id < self.len(),
        ensures
            *r == self.stored_vector(id as int),
            r@ == self.vectors_view()[id as int],
            r@.len() == self.dimension(),
    {
        &self.vectors[id]
    }

    /// `s` scores the candidates of `query`, whose signs are `signs`: each
    /// candidate once, with the key that `distance_key` gives for the query
    /// and the candidate's vector.
    pub open spec fn scores<F: Fn(&Vec<T>, &Vec<T>) -> u32>(
        &self,
        signs: Seq<Vec<bool>>,
        query: &Vec<T>,
        distance_key: F,
        s: Seq<Neighbor>,
    ) -> bool {
        let index = self.index_view();
        &&& distinct_ids(s)
        &&& forall|i: int|
            0 <= i < s.len() ==> {
                &&& index.matched_by(signs, index.table_count() as int, #[trigger] s[i].id)
                &&& s[i].id < self.len()
                &&& distance_key.ensures((query, &self.stored_vector(s[i].id as int)), s[i].key)
            }
        &&& forall|x: usize| #[trigger] index.matched_by(signs, index.table_count() as int, x) ==> holds_id(s, x)
    }

    /// The `count` nearest embeddings to `query`, by the index: the
    /// candidates that the query's signs `signs` select, scored by
    /// `distance_key` (the order key of the distance between the query and a
    /// stored vector), best first. `None` when the signs do not fit the
    /// index.
    pub fn get_nearest<F: Fn(&Vec<T>, &Vec<T>) -> u32>(
        &self,
        query: &Vec<T>,
        signs: &Vec<Vec<bool>>,
        count: usize,
        distance_key: F,
    ) -> (r: Option<Vec<Neighbor>>)
        requires
            self.wf(),
            forall|a: &Vec<T>, b: &Vec<T>| distance_key.requires((a, b)),
        ensures
            r is None <==> (query@.len() != self.dimension() || !self.index_view().fits(signs@)),
            r matches Some(res) ==> exists|s: Seq<Neighbor>|
                #[trigger] self.scores(signs@, query, distance_key, s) && is_top(s, count as nat, res@),
    {
        if query.len() != self.dim {
            return None;
        }
        let cands = match self.index.candidates(signs) {
            None => {
                return None;
            },
            Some(c) => c,
        };
        let mut scored: Vec<Neighbor> = Vec::new();
        let mut i: usize = 0;
        while i < cands.len()
            invariant
                self.wf(),
                i <= cands@.len(),
                scored@.len() == i,
                forall|x: usize| cands@.contains(x) ==> self.index.ids().contains(x),
                forall|k: int|
                    0 <= k < i ==> {
                        &&& (#[trigger] scored@[k]).id == cands@[k]
                        &&& distance_key.ensures((query, &self.vectors@[cands@[k] as int]), scored@[k].key)
                    },
                forall|a: &Vec<T>, b: &Vec<T>| distance_key.requires((a, b)),
            decreases cands@.len() - i,
        {
            let id = cands[i];
            assert(cands@.contains(id));
            assert(self.index.ids().contains(id));
            let key = distance_key(query, &self.vectors[id]);
            scored.push(Neighbor { key, id });
            i += 1;
        }
        proof {
            let s = scored@;
            assert forall|a: int, b: int| 0 <= a < s.len() && 0 <= b < s.len() && a != b implies s[a].id != s[b].id by {
                assert(s[a].id == cands@[a] && s[b].id == cands@[b]);
            }
            assert forall|a: int| 0 <= a < s.len() implies {
                &&& self.index.matched_by(signs@, self.index.table_count() as int, #[trigger] s[a].id)
                &&& s[a].id < self.len()
                &&& distance_key.ensures((query, &self.stored_vector(s[a].id as int)), s[a].key)
            } by {
                assert(s[a].id == cands@[a]);
                assert(cands@.contains(cands@[a]));
                assert(self.index.ids().contains(cands@[a]));
            }
            assert forall|x: usize| #[trigger] self.index.matched_by(signs@, self.index.table_count() as int, x) implies holds_id(s, x) by {
                assert(cands@.contains(x));
                let a = choose|a: int| 0 <= a < cands@.len() && cands@[a] == x;
                assert(s[a].id == x);
            }
            assert(self.scores(signs@, query, distance_key, s));
        }
        let r = top_candidates(&scored, count);
        assert(self.scores(signs@, query, distance_key, scored@) && is_top(scored@, count as nat, r@));
        let res = Some(r);
        assert(res matches Some(x) && x@ == r@);
        res
    }

    /// Looking a word up in a dictionary gives the same vector every time:
    /// what a lookup gives depends on the dictionary and the word alone.
    pub proof fn lemma_lookup_deterministic(&self, w: Seq<char>, a: Option<Seq<T>>, b: Option<Seq<T>>)
        requires
            a == self.vector_of(w),
            b == self.vector_of(w),
        ensures
            a == b,
            a matches Some(v) ==> exists|i: int| 0 <= i < self.len() && v == self.vectors_view()[i],
    {
        if a is Some {
            let i = choose|i: int| is_last_index_of(self.words_view(), w, i);
            lemma_last_index_unique(self.words_view(), w, i);
        }
    }

    /// The distance key reported for each neighbour of a query result is
    /// one that `distance_key` gives when recomputed on the query and the
    /// neighbour's stored vector.
    pub proof fn lemma_reported_keys_recomputed<F: Fn(&Vec<T>, &Vec<T>) -> u32>(
        &self,
        signs: Seq<Vec<bool>>,
        query: &Vec<T>,
        distance_key: F,
        s: Seq<Neighbor>,
        count: nat,
        r: Seq<Neighbor>,
    )
        requires
            self.scores(signs, query, distance_key, s),
            is_top(s, count, r),
        ensures
            forall|i: int|
                0 <= i < r.len() ==> (#[trigger] r[i]).id < self.len() && distance_key.ensures(
                    (query, &self.stored_vector(r[i].id as int)),
                    r[i].key,
                ),
    {
        assert forall|i: int| 0 <= i < r.len() implies (#[trigger] r[i]).id < self.len()
            && distance_key.ensures((query, &self.stored_vector(r[i].id as int)), r[i].key) by {
            assert(s.contains(r[i]));
            let j = choose|j: int| 0 <= j < s.len() && s[j] == r[i];
            assert(s[j].id == r[i].id);
        }
    }

    /// When every stored embedding is a candidate of the query, the result
    /// is the exhaustive one: it equals the best `count` of any scoring of
    /// every stored embedding by the same distance key, as long as that key
    /// is a function of the two vectors.
    pub proof fn lemma_full_recall<F: Fn(&Vec<T>, &Vec<T>) -> u32>(
        &self,
        signs: Seq<Vec<bool>>,
        query: &Vec<T>,
        distance_key: F,
        s: Seq<Neighbor>,
        count: nat,
        r: Seq<Neighbor>,
        exhaustive: Seq<Neighbor>,
        expected: Seq<Neighbor>,
    )
        requires
            self.scores(signs, query, distance_key, s),
            is_top(s, count, r),
            forall|id: usize|
                id < self.len() ==> #[trigger] self.index_view().matched_by(
                    signs,
                    self.index_view().table_count() as int,
                    id,
                ),
            self.scores_all(query, distance_key, exhaustive),
            is_top(exhaustive, count, expected),
            forall|a: &Vec<T>, b: &Vec<T>, k1: u32, k2: u32|
                distance_key.ensures((a, b), k1) && distance_key.ensures((a, b), k2) ==> k1 == k2,
        ensures
            r == expected,
    {
        assert forall|x: Neighbor| s.contains(x) <==> exhaustive.contains(x) by {
            if s.contains(x) {
                let i = choose|i: int| 0 <= i < s.len() && s[i] == x;
                assert(s[i].id < self.len());
                assert(holds_id(exhaustive, x.id));
                let j = choose|j: int| 0 <= j < exhaustive.len() && exhaustive[j].id == x.id;
                assert(exhaustive[j].id < self.len());
                assert(exhaustive[j] == x);
            }
            if exhaustive.contains(x) {
                let j = choose|j: int| 0 <= j < exhaustive.len() && exhaustive[j] == x;
                assert(exhaustive[j].id < self.len());
                assert(self.index_view().matched_by(signs, self.index_view().table_count() as int, x.id));
                assert(holds_id(s, x.id));
                let i = choose|i: int| 0 <= i < s.len() && s[i].id == x.id;
                assert(s[i].id < self.len());
                assert(s[i] == x);
            }
        }
        assert(is_top(s, count, expected));
        lemma_top_unique(s, count, r, expected);
    }

    /// `s` scores every stored embedding against `query`, each once, with
    /// the key that `distance_key` gives: the input of an exhaustive search.
    pub open spec fn scores_all<F: Fn(&Vec<T>, &Vec<T>) -> u32>(&self, query: &Vec<T>, distance_key: F, s: Seq<Neighbor>) -> bool {
        &&& distinct_ids(s)
        &&& forall|i: int|
            0 <= i < s.len() ==> {
                &&& (#[trigger] s[i]).id < self.len()
                &&& distance_key.ensures((query, &self.stored_vector(s[i].id as int)), s[i].key)
            }
        &&& forall|id: usize| id < self.len() ==> #[trigger] holds_id(s, id)
    }
}

} // verus!
