//! Exact reranking of approximate candidates: the `count` best candidates,
//! ordered by distance with ties broken by id.

use vstd::prelude::*;

verus! {

/// A candidate of a query: the id of a stored embedding, and `key`, an
/// integer that orders candidates as their distances to the query do.
#[derive(Clone, Copy, Debug, PartialEq, Eq, Structural)]
pub struct Neighbor {
    pub key: u32,
    pub id: usize,
}

/// `a` ranks strictly before `b`: a smaller distance key, or an equal key
/// and a smaller id.
pub open spec fn ranks_before(a: Neighbor, b: Neighbor) -> bool {
    a.key < b.key || (a.key == b.key && a.id < b.id)
}

/// No two candidates carry the same id.
pub open spec fn distinct_ids(s: Seq<Neighbor>) -> bool {
    forall|i: int, j: int|
        0 <= i < s.len() && 0 <= j < s.len() && i != j ==> s[i].id != s[j].id
}

/// Some candidate of `s` has id `id`.
pub open spec fn holds_id(s: Seq<Neighbor>, id: usize) -> bool {
    exists|i: int| 0 <= i < s.len() && s[i].id == id
}

/// Each entry ranks strictly before the next.
pub open spec fn strictly_ranked(r: Seq<Neighbor>) -> bool {
    forall|i: int, j: int| 0 <= i < j < r.len() ==> ranks_before(r[i], r[j])
}

/// `r` is the list of the `count` best of `s`, best first: strictly ranked,
/// drawn from `s`, at most `count` long, all of `s` when shorter than
/// `count`, and every candidate left out ranks after every one kept.
pub open spec fn is_top(s: Seq<Neighbor>, count: nat, r: Seq<Neighbor>) -> bool {
    &&& strictly_ranked(r)
    &&& r.len() <= count
    &&& forall|i: int| 0 <= i < r.len() ==> s.contains(#[trigger] r[i])
    &&& r.len() < count ==> forall|x: Neighbor| s.contains(x) ==> r.contains(x)
    &&& forall|x: Neighbor, i: int|
        s.contains(x) && !r.contains(x) && 0 <= i < r.len() ==> #[trigger] ranks_before(r[i], x)
}

/// The best candidate of `s` that ranks after `last` (after nothing when
/// `last` is `None`), if there is one.
fn best_after(s: &Vec<Neighbor>, last: Option<Neighbor>) -> (r: Option<Neighbor>)
    ensures
        match r {
            Some(b) => {
                &&& s@.contains(b)
                &&& last matches Some(l) ==> ranks_before(l, b)
                &&& forall|x: Neighbor|
                    #![trigger s@.contains(x)]
                    s@.contains(x) && (last matches Some(l) ==> ranks_before(l, x)) ==> x == b
                        || ranks_before(b, x)
            },
            None => forall|x: Neighbor|
                #![trigger s@.contains(x)]
                s@.contains(x) ==> (last matches Some(l) && !ranks_before(l, x)),
        },
{
    let mut best: Option<Neighbor> = None;
    let mut j: usize = 0;
    while j < s.len()
        invariant
            j <= s.len(),
            match best {
                Some(b) => {
                    &&& s@.contains(b)
                    &&& last matches Some(l) ==> ranks_before(l, b)
                    &&& forall|t: int|
                        0 <= t < j && (last matches Some(l) ==> ranks_before(l, s@[t]))
                            ==> s@[t] == b || ranks_before(b, #[trigger] s@[t])
                },
                None => forall|t: int|
                    0 <= t < j ==> (last matches Some(l) && !ranks_before(l, #[trigger] s@[t])),
            },
        decreases s.len() - j,
    {
        let x = s[j];
        let above = match last {
            Some(l) => l.key < x.key || (l.key == x.key && l.id < x.id),
            None => true,
        };
        if above {
            match best {
                Some(b) => {
                    if x.key < b.key || (x.key == b.key && x.id < b.id) {
                        best = Some(x);
                    }
                },
                None => {
                    best = Some(x);
                },
            }
        }
        j += 1;
    }
    best
}

/// The `count` best of `candidates`, best first. Fewer are returned only
/// when there are fewer candidates.
pub fn top_candidates(candidates: &Vec<Neighbor>, count: usize) -> (r: Vec<Neighbor>)
    requires
        distinct_ids(candidates@),
    ensures
        is_top(candidates@, count as nat, r@),
{
    let mut r: Vec<Neighbor> = Vec::new();
    let mut last: Option<Neighbor> = None;
    let mut exhausted = false;
    while !exhausted && r.len() < count
        invariant
            r@.len() <= count,
            strictly_ranked(r@),
            forall|i: int| 0 <= i < r@.len() ==> candidates@.contains(#[trigger] r@[i]),
            last == (if r@.len() == 0 { None } else { Some(r@.last()) }),
            forall|x: Neighbor|
                #![trigger candidates@.contains(x)]
                candidates@.contains(x) ==> (r@.contains(x) <==> (last matches Some(l)
                    && !ranks_before(l, x))),
            exhausted ==> forall|x: Neighbor| candidates@.contains(x) ==> r@.contains(x),
        decreases count - r@.len(), if exhausted { 0int } else { 1int },
    {
        match best_after(candidates, last) {
            Some(b) => {
                let ghost old_r = r@;
                r.push(b);
                last = Some(b);
                assert forall|x: Neighbor| candidates@.contains(x) implies (r@.contains(x) <==> (
                last matches Some(l) && !ranks_before(l, x))) by {
                    assert(r@.contains(x) <==> (old_r.contains(x) || x == b)) by {
                        if x == b {
                            assert(r@[old_r.len() as int] == b);
                        }
                        if old_r.contains(x) {
                            let i = choose|i: int| 0 <= i < old_r.len() && old_r[i] == x;
                            assert(r@[i] == x);
                        }
                        if r@.contains(x) {
                            let i = choose|i: int| 0 <= i < r@.len() && r@[i] == x;
                            if i < old_r.len() {
                                assert(old_r[i] == x);
                            }
                        }
                    }
                    if old_r.contains(x) {
                        let i = choose|i: int| 0 <= i < old_r.len() && old_r[i] == x;
                        if i < old_r.len() - 1 {
                            assert(ranks_before(old_r[i], old_r.last()));
                        }
                    }
                }
            },
            None => {
                exhausted = true;
            },
        }
    }
    assert forall|x: Neighbor, i: int|
        candidates@.contains(x) && !r@.contains(x) && 0 <= i < r@.len() implies #[trigger] ranks_before(r@[i], x) by {
        if i < r@.len() - 1 {
            assert(ranks_before(r@[i], r@.last()));
        }
    }
    r
}


/// In a ranked result the distance keys never decrease from one entry to
/// the next, and there are at most `count` entries.
pub proof fn lemma_top_ordered(s: Seq<Neighbor>, count: nat, r: Seq<Neighbor>)
    requires
        is_top(s, count, r),
    ensures
        r.len() <= count,
        forall|i: int, j: int| 0 <= i < j < r.len() ==> r[i].key <= r[j].key,
{
    assert forall|i: int, j: int| 0 <= i < j < r.len() implies r[i].key <= r[j].key by {
        assert(ranks_before(r[i], r[j]));
    }
}


/// The best `count` of a set of candidates are unique: two ranked results
/// of the same candidates agree.
pub proof fn lemma_top_unique(s: Seq<Neighbor>, count: nat, r1: Seq<Neighbor>, r2: Seq<Neighbor>)
    requires
        is_top(s, count, r1),
        is_top(s, count, r2),
    ensures
        r1 == r2,
{
    let m = if r1.len() < r2.len() { r1.len() } else { r2.len() };
    assert forall|k: int| 0 <= k < m implies r1[k] == r2[k] by {
        lemma_top_agree_upto(s, count, r1, r2, k);
    }
    if r1.len() < r2.len() {
        lemma_top_longer(s, count, r1, r2);
    } else if r2.len() < r1.len() {
        lemma_top_longer(s, count, r2, r1);
    }
    assert(r1 =~= r2);
}

proof fn lemma_top_agree_upto(s: Seq<Neighbor>, count: nat, r1: Seq<Neighbor>, r2: Seq<Neighbor>, k: int)
    requires
        is_top(s, count, r1),
        is_top(s, count, r2),
        0 <= k < r1.len(),
        k < r2.len(),
    ensures
        r1[k] == r2[k],
    decreases k,
{
    assert forall|j: int| 0 <= j < k implies r1[j] == r2[j] by {
        lemma_top_agree_upto(s, count, r1, r2, j);
    }
    let x = r1[k];
    let y = r2[k];
    if x != y {
        if ranks_before(x, y) {
            lemma_first_differs(s, count, r1, r2, k);
        } else {
            lemma_first_differs(s, count, r2, r1, k);
        }
    }
}

/// Where two ranked results agree before `k`, entry `k` of the first does
/// not rank before entry `k` of the second.
proof fn lemma_first_differs(s: Seq<Neighbor>, count: nat, r1: Seq<Neighbor>, r2: Seq<Neighbor>, k: int)
    requires
        is_top(s, count, r1),
        is_top(s, count, r2),
        0 <= k < r1.len(),
        k < r2.len(),
        forall|j: int| 0 <= j < k ==> r1[j] == r2[j],
    ensures
        !ranks_before(r1[k], r2[k]),
{
    let x = r1[k];
    if ranks_before(r1[k], r2[k]) {
        assert(s.contains(x));
        if r2.contains(x) {
            let m = choose|m: int| 0 <= m < r2.len() && r2[m] == x;
            if m < k {
                assert(r1[m] == x);
                assert(ranks_before(r1[m], r1[k]));
            } else {
                assert(ranks_before(r2[k], r2[m]));
            }
        } else {
            assert(ranks_before(r2[k], x));
        }
    }
}

/// Of two ranked results of the same candidates that agree wherever both
/// have entries, the first is not the shorter.
proof fn lemma_top_longer(s: Seq<Neighbor>, count: nat, r1: Seq<Neighbor>, r2: Seq<Neighbor>)
    requires
        is_top(s, count, r1),
        is_top(s, count, r2),
        forall|j: int| 0 <= j < r1.len() && j < r2.len() ==> r1[j] == r2[j],
    ensures
        r1.len() >= r2.len(),
{
    if r1.len() < r2.len() {
        let y = r2[r1.len() as int];
        assert(s.contains(y));
        assert(r1.contains(y));
        let j = choose|j: int| 0 <= j < r1.len() && r1[j] == y;
        assert(r2[j] == y);
        assert(ranks_before(r2[j], r2[r1.len() as int]));
    }
}

} // verus!
