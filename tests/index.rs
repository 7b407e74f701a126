use w2v_server::lsh::{signature, HyperplaneIndex, IndexBuildError};
use w2v_server::rank::{top_candidates, Neighbor};

fn n(key: u32, id: usize) -> Neighbor {
    Neighbor { key, id }
}

#[test]
fn signature_sets_bit_j_for_sign_j() {
    assert_eq!(signature(&vec![]), 0);
    assert_eq!(signature(&vec![true]), 1);
    assert_eq!(signature(&vec![false, true]), 2);
    assert_eq!(signature(&vec![true, false, true]), 5);
    assert_eq!(signature(&vec![true; 64]), u64::MAX);
}

#[test]
fn candidates_are_the_union_of_matching_buckets() {
    let mut idx = HyperplaneIndex::new(2, 2).unwrap();
    assert_eq!(idx.insert(0, &vec![vec![true, true], vec![false, false]]), Ok(()));
    assert_eq!(idx.insert(1, &vec![vec![true, true], vec![true, false]]), Ok(()));
    assert_eq!(idx.insert(2, &vec![vec![false, true], vec![false, false]]), Ok(()));
    assert_eq!(idx.insert(3, &vec![vec![false, false], vec![true, true]]), Ok(()));
    let mut c = idx.candidates(&vec![vec![true, true], vec![false, false]]).unwrap();
    c.sort();
    assert_eq!(c, vec![0, 1, 2]);
    let c = idx.candidates(&vec![vec![false, false], vec![false, true]]).unwrap();
    assert_eq!(c, vec![3]);
    let c = idx.candidates(&vec![vec![true, false], vec![false, true]]).unwrap();
    assert!(c.is_empty());
}

#[test]
fn candidates_reject_signs_of_the_wrong_shape() {
    let idx = HyperplaneIndex::new(2, 3).unwrap();
    assert!(idx.candidates(&vec![vec![true, true, true]]).is_none());
    assert!(idx.candidates(&vec![vec![true, true], vec![true, true, true]]).is_none());
    assert!(idx.candidates(&vec![vec![true, true, true], vec![false, true, true]]).is_some());
}

#[test]
fn inserting_an_id_twice_is_refused() {
    let mut idx = HyperplaneIndex::new(1, 1).unwrap();
    assert_eq!(idx.insert(7, &vec![vec![true]]), Ok(()));
    assert_eq!(idx.insert(7, &vec![vec![false]]), Err(IndexBuildError::DuplicateId));
    assert_eq!(idx.candidates(&vec![vec![false]]).unwrap(), Vec::<usize>::new());
    assert_eq!(idx.candidates(&vec![vec![true]]).unwrap(), vec![7]);
}

#[test]
fn inserting_signs_of_the_wrong_shape_is_refused() {
    let mut idx = HyperplaneIndex::new(2, 1).unwrap();
    assert_eq!(idx.insert(0, &vec![vec![true]]), Err(IndexBuildError::DimensionMismatch));
    assert_eq!(idx.insert(0, &vec![vec![true], vec![true, false]]), Err(IndexBuildError::DimensionMismatch));
    assert_eq!(idx.tables_len(), 2);
    assert_eq!(idx.planes_len(), 1);
}

#[test]
fn top_candidates_orders_by_key_then_id() {
    let c = vec![n(5, 0), n(1, 3), n(5, 2), n(0, 9), n(3, 1)];
    let r = top_candidates(&c, 10);
    assert_eq!(r, vec![n(0, 9), n(1, 3), n(3, 1), n(5, 0), n(5, 2)]);
    for w in r.windows(2) {
        assert!(w[0].key <= w[1].key);
    }
}

#[test]
fn top_candidates_keeps_at_most_count() {
    let c = vec![n(5, 0), n(1, 3), n(5, 2), n(0, 9), n(3, 1)];
    assert_eq!(top_candidates(&c, 2), vec![n(0, 9), n(1, 3)]);
    assert_eq!(top_candidates(&c, 4), vec![n(0, 9), n(1, 3), n(3, 1), n(5, 0)]);
    assert_eq!(top_candidates(&c, 0), vec![]);
    assert_eq!(top_candidates(&vec![], 3), vec![]);
}

#[test]
fn more_planes_than_signature_bits_are_refused() {
    assert_eq!(HyperplaneIndex::new(1, 65).err(), Some(IndexBuildError::TooManyPlanes));
    assert!(HyperplaneIndex::new(1, 64).is_ok());
}
