use w2v_server::dictionary::{BuildError, WordVectorDictionary};
use w2v_server::lsh::IndexBuildError;
use w2v_server::query::QueryError;
use w2v_server::rank::Neighbor;

fn dot(a: &[f32], b: &[f32]) -> f32 {
    a.iter().zip(b.iter()).map(|(x, y)| x * y).sum()
}

fn normalized(v: &[f32]) -> Vec<f32> {
    let norm = dot(v, v).sqrt();
    v.iter().map(|x| x / norm).collect()
}

fn distance(a: &[f32], b: &[f32]) -> f32 {
    (1.0 - dot(a, b)).clamp(0.0, 2.0)
}

fn distance_key(a: &Vec<f32>, b: &Vec<f32>) -> u32 {
    distance(a, b).to_bits()
}

fn signs(planes: &Vec<Vec<Vec<f32>>>, v: &Vec<f32>) -> Vec<Vec<bool>> {
    planes.iter().map(|t| t.iter().map(|p| dot(p, v) >= 0.0).collect()).collect()
}

fn build(planes: &Vec<Vec<Vec<f32>>>, dim: usize, words: &[(&str, Vec<f32>)]) -> WordVectorDictionary<f32> {
    let mut d = WordVectorDictionary::new(dim, planes.len(), planes[0].len()).unwrap();
    for (w, v) in words {
        let v = normalized(v);
        let s = signs(planes, &v);
        d.add(w.to_string(), v, &s).unwrap();
    }
    d
}

fn fruit() -> (Vec<Vec<Vec<f32>>>, WordVectorDictionary<f32>) {
    // One table whose single hyperplane puts every fruit on the same side,
    // and one that splits them.
    let planes = vec![vec![vec![0.0, 1.0]], vec![vec![1.0, 0.0]]];
    let d = build(
        &planes,
        2,
        &[("apple", vec![1.0, 0.0]), ("orange", vec![0.9, 0.1]), ("banana", vec![-1.0, 0.0])],
    );
    (planes, d)
}

fn words_of(d: &WordVectorDictionary<f32>, r: &[Neighbor]) -> Vec<String> {
    r.iter().map(|n| d.word(n.id).clone()).collect()
}

#[test]
fn apple_orange_banana() {
    let (planes, d) = fruit();
    let r = d
        .query_by_word("apple", Some(2), |v: &Vec<f32>| signs(&planes, v), distance_key)
        .unwrap();
    assert_eq!(words_of(&d, &r), vec!["apple", "orange"]);
    assert_eq!(f32::from_bits(r[0].key), 0.0);
    let orange = f32::from_bits(r[1].key);
    assert!(orange > 0.0 && orange < 0.01);
    let all = d
        .query_by_word("apple", Some(3), |v: &Vec<f32>| signs(&planes, v), distance_key)
        .unwrap();
    assert_eq!(words_of(&d, &all), vec!["apple", "orange", "banana"]);
    assert!((f32::from_bits(all[2].key) - 2.0).abs() < 1e-6);
}

#[test]
fn lookup_by_word() {
    let (_, d) = fruit();
    assert_eq!(d.word_count(), 3);
    assert_eq!(d.word_dimension(), 2);
    assert_eq!(d.get_vector("apple"), Some(&vec![1.0, 0.0]));
    assert_eq!(d.get_vector("banana"), Some(&vec![-1.0, 0.0]));
    assert_eq!(d.get_vector("cherry"), None);
    assert_eq!(d.get_id("orange"), Some(1));
    assert_eq!(d.vector(2), &vec![-1.0, 0.0]);
}

#[test]
fn lookup_is_repeatable() {
    let (_, d) = fruit();
    let a = d.get_vector("orange").unwrap().clone();
    for _ in 0..10 {
        let b = d.get_vector("orange").unwrap();
        assert_eq!(a.iter().map(|x| x.to_bits()).collect::<Vec<_>>(), b.iter().map(|x| x.to_bits()).collect::<Vec<_>>());
    }
}

#[test]
fn stored_vectors_have_unit_norm() {
    let (_, d) = fruit();
    for id in 0..d.word_count() {
        let v = d.vector(id);
        assert!((dot(v, v).sqrt() - 1.0).abs() < 1e-6);
    }
}

#[test]
fn repeated_word_resolves_to_its_last_occurrence() {
    let planes = vec![vec![vec![1.0, 0.0]]];
    let d = build(&planes, 2, &[("a", vec![1.0, 0.0]), ("b", vec![0.0, 1.0]), ("a", vec![0.0, -1.0])]);
    assert_eq!(d.word_count(), 3);
    assert_eq!(d.get_id("a"), Some(2));
    assert_eq!(d.get_vector("a"), Some(&vec![0.0, -1.0]));
    assert_eq!(d.vector(0), &vec![1.0, 0.0]);
    assert_eq!(d.word(0), "a");
}

#[test]
fn add_refuses_a_vector_of_the_wrong_dimension() {
    let mut d: WordVectorDictionary<f32> = WordVectorDictionary::new(3, 1, 2).unwrap();
    assert_eq!(d.add("x".to_string(), vec![1.0, 0.0], &vec![vec![true, true]]), Err(BuildError::DimensionMismatch));
    assert_eq!(
        d.add("x".to_string(), vec![1.0, 0.0, 0.0], &vec![vec![true]]),
        Err(BuildError::Index(IndexBuildError::DimensionMismatch))
    );
    assert_eq!(d.word_count(), 0);
    assert_eq!(d.add("x".to_string(), vec![1.0, 0.0, 0.0], &vec![vec![true, false]]), Ok(0));
    assert_eq!(d.add("y".to_string(), vec![0.0, 1.0, 0.0], &vec![vec![false, false]]), Ok(1));
}

#[test]
fn unknown_word_is_not_found() {
    let (planes, d) = fruit();
    let r = d.query_by_word("cherry", None, |v: &Vec<f32>| signs(&planes, v), distance_key);
    assert_eq!(r, Err(QueryError::NotFound));
}

#[test]
fn query_vector_of_the_wrong_dimension() {
    let (planes, d) = fruit();
    let r = d.query_by_vector(&vec![1.0, 0.0, 0.0], None, |v: &Vec<f32>| signs(&planes, v), distance_key);
    assert_eq!(r, Err(QueryError::DimensionMismatch));
    let r = d.query_by_vector(&vec![1.0, 0.0], None, |_: &Vec<f32>| vec![vec![true]], distance_key);
    assert_eq!(r, Err(QueryError::DimensionMismatch));
}

#[test]
fn query_by_vector_finds_the_nearest() {
    let (planes, d) = fruit();
    let q = normalized(&[0.85, 0.12]);
    let r = d.query_by_vector(&q, Some(1), |v: &Vec<f32>| signs(&planes, v), distance_key).unwrap();
    assert_eq!(words_of(&d, &r), vec!["orange"]);
}

#[test]
fn only_matching_buckets_are_candidates() {
    // A single table with one hyperplane: banana sits on the other side.
    let planes = vec![vec![vec![1.0, 0.0]]];
    let d = build(&planes, 2, &[("apple", vec![1.0, 0.0]), ("orange", vec![0.9, 0.1]), ("banana", vec![-1.0, 0.0])]);
    let r = d.query_by_word("apple", None, |v: &Vec<f32>| signs(&planes, v), distance_key).unwrap();
    assert_eq!(words_of(&d, &r), vec!["apple", "orange"]);
}

#[test]
fn distances_do_not_decrease_and_count_is_bounded() {
    let planes = vec![vec![vec![0.3, 0.7, -0.2]], vec![vec![-0.5, 0.1, 0.9]]];
    let mut words = Vec::new();
    for i in 0..40 {
        let x = (i as f32 * 0.37).sin();
        let y = (i as f32 * 0.91).cos();
        let z = 0.5 - (i as f32) / 40.0;
        words.push((format!("w{}", i), vec![x, y, z]));
    }
    let refs: Vec<(&str, Vec<f32>)> = words.iter().map(|(w, v)| (w.as_str(), v.clone())).collect();
    let d = build(&planes, 3, &refs);
    for k in [1usize, 5, 20, 600] {
        let r = d.query_by_word("w3", Some(k), |v: &Vec<f32>| signs(&planes, v), distance_key).unwrap();
        assert!(r.len() <= k);
        for w in r.windows(2) {
            assert!(f32::from_bits(w[0].key) <= f32::from_bits(w[1].key));
        }
    }
    let r = d.query_by_word("w3", None, |v: &Vec<f32>| signs(&planes, v), distance_key).unwrap();
    assert!(r.len() <= 40);
}

#[test]
fn self_distance_is_zero_and_keys_are_recomputable() {
    let (planes, d) = fruit();
    for w in ["apple", "orange", "banana"] {
        let v = d.get_vector(w).unwrap().clone();
        assert!(distance(&v, &v).abs() < 1e-6);
        let r = d.query_by_vector(&v, Some(3), |x: &Vec<f32>| signs(&planes, x), distance_key).unwrap();
        for n in &r {
            assert_eq!(n.key, distance_key(&v, d.vector(n.id)));
        }
    }
}

#[test]
fn one_bucket_matches_exhaustive_search() {
    // No hyperplanes: every embedding shares the one bucket, so the index
    // sees every candidate.
    let planes: Vec<Vec<Vec<f32>>> = vec![vec![]];
    let mut d = WordVectorDictionary::new(3, 1, 0).unwrap();
    let mut all = Vec::new();
    for i in 0..30 {
        let v = normalized(&[(i as f32).sin(), (i as f32 * 1.3).cos(), 0.2]);
        all.push(v.clone());
        d.add(format!("w{}", i), v, &vec![vec![]]).unwrap();
    }
    let q = normalized(&[0.4, -0.3, 0.8]);
    let r = d.query_by_vector(&q, Some(7), |x: &Vec<f32>| signs(&planes, x), distance_key).unwrap();
    let mut brute: Vec<(u32, usize)> = all.iter().enumerate().map(|(i, v)| (distance_key(&q, v), i)).collect();
    brute.sort();
    brute.truncate(7);
    assert_eq!(r.iter().map(|n| (n.key, n.id)).collect::<Vec<_>>(), brute);
}

#[test]
fn too_many_planes_are_refused() {
    assert!(WordVectorDictionary::<f32>::new(2, 1, 65).is_err());
    assert_eq!(
        WordVectorDictionary::<f32>::new(2, 1, 65).err(),
        Some(BuildError::Index(IndexBuildError::TooManyPlanes))
    );
    assert!(WordVectorDictionary::<f32>::new(2, 1, 64).is_ok());
}

#[test]
fn nearest_refuses_a_query_of_the_wrong_dimension() {
    let (planes, d) = fruit();
    let q = vec![1.0, 0.0, 0.0];
    let s = signs(&planes, &q);
    assert!(d.get_nearest(&q, &s, 3, distance_key).is_none());
    let q = vec![1.0, 0.0];
    let s = signs(&planes, &q);
    assert_eq!(d.get_nearest(&q, &s, 3, distance_key).unwrap().len(), 3);
}
