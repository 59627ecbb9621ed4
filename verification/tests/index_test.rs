use similar_files::index::FingerprintIndex;
use similar_files::metric::distance;

/// A small deterministic pseudo-random generator for test data.
struct Lcg(u64);

impl Lcg {
    fn next(&mut self) -> u64 {
        self.0 = self.0.wrapping_mul(6364136223846793005).wrapping_add(1442695040888963407);
        self.0 >> 33
    }
}

fn random_key(rng: &mut Lcg, len: usize) -> Vec<u8> {
    let mut k = Vec::new();
    for _ in 0..len {
        k.push((rng.next() % 4) as u8);
    }
    k
}

fn sorted(mut v: Vec<usize>) -> Vec<usize> {
    v.sort();
    v.dedup();
    v
}

/// Owners whose key lies within the radius, by a plain scan over every
/// inserted pair.
fn brute_force(pairs: &[(Vec<u8>, usize)], q: &Vec<u8>, radius: u64) -> Vec<usize> {
    let mut out = Vec::new();
    for (k, o) in pairs {
        if distance(k, q) <= radius {
            out.push(*o);
        }
    }
    sorted(out)
}

#[test]
fn radius_queries_agree_with_a_brute_force_scan() {
    let mut rng = Lcg(42);
    let mut index = FingerprintIndex::new();
    let mut pairs: Vec<(Vec<u8>, usize)> = Vec::new();
    for owner in 0..60 {
        // Mixed key lengths exercise the incompatible-length arm as well.
        let len = if owner % 7 == 0 { 6 } else { 8 };
        let key = random_key(&mut rng, len);
        index.insert(key.clone(), owner);
        pairs.push((key, owner));
    }
    for _ in 0..40 {
        let q = random_key(&mut rng, 8);
        for radius in 0..6 {
            let got = sorted(index.query_within(&q, radius));
            let want = brute_force(&pairs, &q, radius);
            assert_eq!(got, want);
        }
    }
}

#[test]
fn query_results_do_not_depend_on_insertion_order() {
    let mut rng = Lcg(7);
    let mut keys: Vec<Vec<u8>> = Vec::new();
    for _ in 0..40 {
        keys.push(random_key(&mut rng, 8));
    }
    let mut forward = FingerprintIndex::new();
    for (owner, key) in keys.iter().enumerate() {
        forward.insert(key.clone(), owner);
    }
    let mut backward = FingerprintIndex::new();
    for (owner, key) in keys.iter().enumerate().rev() {
        backward.insert(key.clone(), owner);
    }
    for _ in 0..30 {
        let q = random_key(&mut rng, 8);
        for radius in 0..5 {
            assert_eq!(
                sorted(forward.query_within(&q, radius)),
                sorted(backward.query_within(&q, radius)),
            );
        }
    }
}

#[test]
fn identical_keys_share_one_node_and_all_owners_are_found() {
    let mut index = FingerprintIndex::new();
    index.insert(vec![5, 5], 0);
    index.insert(vec![5, 5], 1);
    index.insert(vec![5, 6], 2);
    assert_eq!(sorted(index.query_within(&vec![5, 5], 0)), vec![0, 1]);
    assert_eq!(sorted(index.query_within(&vec![5, 5], 1)), vec![0, 1, 2]);
}

#[test]
fn grouping_marks_matches_so_they_do_not_reseed() {
    let mut index = FingerprintIndex::new();
    index.insert(vec![0, 0], 0);
    index.insert(vec![0, 1], 1);
    index.insert(vec![9, 9], 2);
    let groups = index.build_groups(1);
    // The two close keys form one group; the far one is a singleton and
    // is dropped.
    assert_eq!(groups.len(), 1);
    assert_eq!(sorted(groups[0].owners.clone()), vec![0, 1]);
    assert_eq!(groups[0].representative, vec![0, 0]);
}

#[test]
fn radius_zero_means_exact_match_only() {
    let mut index = FingerprintIndex::new();
    index.insert(vec![1, 2, 3], 0);
    index.insert(vec![1, 2, 4], 1);
    assert_eq!(index.query_within(&vec![1, 2, 3], 0), vec![0]);
    assert_eq!(sorted(index.query_within(&vec![1, 2, 3], 1)), vec![0, 1]);
}

#[test]
fn distance_is_hamming_or_length_penalty() {
    assert_eq!(distance(&vec![0, 0, 0], &vec![0, 1, 2]), 2);
    assert_eq!(distance(&vec![], &vec![]), 0);
    assert_eq!(distance(&vec![1], &vec![1]), 0);
    // Incompatible lengths are maximally far apart.
    assert_eq!(distance(&vec![1, 2], &vec![1, 2, 3]), 5);
}
