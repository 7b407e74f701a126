//! The query engine: lookups by word and by vector against the dictionary,
//! and the policy that turns a requested result count into the count used.

use vstd::prelude::*;

use crate::dictionary::{id_of, WordVectorDictionary};
use crate::rank::{is_top, Neighbor};

verus! {

/// The most results a query returns.
pub const MAX_COUNT: usize = 512;

/// The number of results of a query that does not say how many it wants.
pub const DEFAULT_COUNT: usize = 128;

/// Why a query could not be answered.
#[derive(Clone, Copy, Debug, PartialEq, Eq, Structural)]
pub enum QueryError {
    /// The word is not in the dictionary.
    NotFound,
    /// The query vector, or the signs computed for it, do not have the
    /// dictionary's dimensions.
    DimensionMismatch,
}

/// The count used for a request: the default when none was given, else
/// the requested count brought into `1..=MAX_COUNT`.
pub open spec fn count_for(requested: Option<nat>) -> nat {
    match requested {
        None => DEFAULT_COUNT as nat,
        Some(n) => if n < 1 {
            1
        } else if n > MAX_COUNT {
            MAX_COUNT as nat
        } else {
            n
        },
    }
}

/// The value of a nonempty string of decimal digits.
pub open spec fn digits_value(s: Seq<char>) -> nat
    decreases s.len(),
{
    if s.len() == 0 {
        0
    } else {
        (digits_value(s.drop_last()) * 10 + (s.last() as int - '0' as int)) as nat
    }
}

/// `s` is a nonempty string of ASCII decimal digits.
pub open spec fn is_digits(s: Seq<char>) -> bool {
    &&& s.len() > 0
    &&& forall|i: int| 0 <= i < s.len() ==> '0' <= #[trigger] s[i] <= '9'
}

/// What reading `s` as an unsigned integer gives: an optional `+` and
/// decimal digits, whose value fits in `usize`.
pub open spec fn parsed_usize(s: Seq<char>) -> Option<nat> {
    let d = if s.len() > 0 && s[0] == '+' {
        s.drop_first()
    } else {
        s
    };
    if is_digits(d) && digits_value(d) <= usize::MAX {
        Some(digits_value(d))
    } else {
        None
    }
}

/// Relies on `<usize as FromStr>::from_str`, which accepts an optional `+`
/// followed by decimal digits whose value fits, and nothing else.
#[verifier::external_body]
fn parse_usize(s: &str) -> (r: Option<usize>)
    ensures
        match parsed_usize(s@) {
            Some(n) => r == Some(n as usize),
            None => r is None,
        },
{
    s.parse::<usize>().ok()
}

/// The count used for a request of `requested` results.
pub fn clamp_count(requested: Option<usize>) -> (r: usize)
    ensures
        r == count_for(
            match requested {
                Some(n) => Some(n as nat),
                None => None,
            },
        ),
{
    match requested {
        None => DEFAULT_COUNT,
        Some(n) => if n < 1 {
            1
        } else if n > MAX_COUNT {
            MAX_COUNT
        } else {
            n
        },
    }
}

/// The count used for a request whose count is given as text: text that
/// is not an unsigned integer counts as no count at all.
pub fn resolve_count(requested: Option<&str>) -> (r: usize)
    ensures
        r == count_for(
            match requested {
                Some(s) => parsed_usize(s@),
                None => None,
            },
        ),
{
    match requested {
        None => clamp_count(None),
        Some(s) => clamp_count(parse_usize(s)),
    }
}


/// The count used is between 1 and `MAX_COUNT`; a count above the maximum
/// is clamped to it, and no count at all gives `DEFAULT_COUNT`.
pub proof fn lemma_count_bounds(requested: Option<nat>)
    ensures
        1 <= count_for(requested) <= MAX_COUNT,
        requested is None ==> count_for(requested) == DEFAULT_COUNT,
        forall|n: nat| requested == Some(n) && n > MAX_COUNT ==> count_for(requested) == MAX_COUNT,
        forall|n: nat| requested == Some(n) && 1 <= n <= MAX_COUNT ==> count_for(requested) == n,
{
}

impl<T> WordVectorDictionary<T> {
    /// `r` answers a query for the `count_for(count)` nearest embeddings to
    /// `query`: with the signs that `signs_of` gives the query, the best
    /// candidates as `distance_key` scores them, or `DimensionMismatch` when
    /// those signs do not fit the index.
    pub open spec fn answers<G: Fn(&Vec<T>) -> Vec<Vec<bool>>, F: Fn(&Vec<T>, &Vec<T>) -> u32>(
        &self,
        query: &Vec<T>,
        count: Option<usize>,
        signs_of: G,
        distance_key: F,
        r: Result<Vec<Neighbor>, QueryError>,
    ) -> bool {
        let n = count_for(
            match count {
                Some(c) => Some(c as nat),
                None => None,
            },
        );
        exists|signs: Vec<Vec<bool>>|
            #[trigger] signs_of.ensures((query,), signs) && if self.index_view().fits(signs@) {
                r matches Ok(res) && exists|s: Seq<Neighbor>|
                    #[trigger] self.scores(signs@, query, distance_key, s) && is_top(s, n, res@)
            } else {
                r == Err::<Vec<Neighbor>, _>(QueryError::DimensionMismatch)
            }
    }

    /// The nearest embeddings to `vector`, as many as `count` asks for.
    /// `signs_of` gives a vector's signs against the hyperplanes of the
    /// index, `distance_key` the order key of the distance between two
    /// vectors.
    pub fn query_by_vector<G: Fn(&Vec<T>) -> Vec<Vec<bool>>, F: Fn(&Vec<T>, &Vec<T>) -> u32>(
        &self,
        vector: &Vec<T>,
        count: Option<usize>,
        signs_of: G,
        distance_key: F,
    ) -> (r: Result<Vec<Neighbor>, QueryError>)
        requires
            self.wf(),
            forall|v: &Vec<T>| signs_of.requires((v,)),
            forall|a: &Vec<T>, b: &Vec<T>| distance_key.requires((a, b)),
        ensures
            vector@.len() != self.dimension() ==> r == Err::<Vec<Neighbor>, _>(QueryError::DimensionMismatch),
            vector@.len() == self.dimension() ==> self.answers(vector, count, signs_of, distance_key, r),
    {
        if vector.len() != self.word_dimension() {
            return Err(QueryError::DimensionMismatch);
        }
        let signs = signs_of(vector);
        let n = clamp_count(count);
        let r = match self.get_nearest(vector, &signs, n, distance_key) {
            Some(res) => Ok(res),
            None => Err(QueryError::DimensionMismatch),
        };
        assert(signs_of.ensures((vector,), signs));
        r
    }

    /// The nearest embeddings to the vector that `word` resolves to, as
    /// many as `count` asks for; `NotFound` when the word is not in the
    /// dictionary.
    pub fn query_by_word<G: Fn(&Vec<T>) -> Vec<Vec<bool>>, F: Fn(&Vec<T>, &Vec<T>) -> u32>(
        &self,
        word: &str,
        count: Option<usize>,
        signs_of: G,
        distance_key: F,
    ) -> (r: Result<Vec<Neighbor>, QueryError>)
        requires
            self.wf(),
            forall|v: &Vec<T>| signs_of.requires((v,)),
            forall|a: &Vec<T>, b: &Vec<T>| distance_key.requires((a, b)),
        ensures
            id_of(self.words_view(), word@) is None ==> r == Err::<Vec<Neighbor>, _>(QueryError::NotFound),
            id_of(self.words_view(), word@) matches Some(i) ==> self.answers(
                &self.stored_vector(i),
                count,
                signs_of,
                distance_key,
                r,
            ),
    {
        match self.get_id(word) {
            None => Err(QueryError::NotFound),
            Some(id) => self.query_by_vector(self.vector(id), count, signs_of, distance_key),
        }
    }
}

} // verus!
