use pull_umis::distance::{hamming, pairwise_distances};
use pull_umis::UmiError;

#[test]
fn hamming_counts_differing_positions() {
    let a = b"AAAA".to_vec();
    let b = b"AAAT".to_vec();
    assert_eq!(hamming(&a, &b), Ok(1));
    let c = b"AATT".to_vec();
    assert_eq!(hamming(&a, &c), Ok(2));
    assert_eq!(hamming(&b, &c), Ok(1));
}

#[test]
fn hamming_is_symmetric() {
    let a = b"GATTACA".to_vec();
    let b = b"GTTTACA".to_vec();
    assert_eq!(hamming(&a, &b), hamming(&b, &a));
}

#[test]
fn hamming_zero_iff_identical() {
    let a = b"ACGT".to_vec();
    assert_eq!(hamming(&a, &a), Ok(0));
    let b = b"ACGA".to_vec();
    assert_ne!(hamming(&a, &b), Ok(0));
}

#[test]
fn hamming_rejects_unequal_lengths() {
    let a = b"ACGT".to_vec();
    let b = b"ACG".to_vec();
    assert_eq!(hamming(&a, &b), Err(UmiError::LengthMismatch));
}

#[test]
fn pairwise_distances_of_scenario_group() {
    let group = vec![b"AAAA".to_vec(), b"AAAT".to_vec(), b"AATT".to_vec()];
    assert_eq!(pairwise_distances(&group), Ok(vec![1, 2, 1]));
}

#[test]
fn pairwise_distances_count_is_k_choose_2() {
    let group = vec![
        b"AAAA".to_vec(),
        b"AAAT".to_vec(),
        b"AATT".to_vec(),
        b"ATTT".to_vec(),
    ];
    let dists = pairwise_distances(&group).unwrap();
    assert_eq!(dists.len(), 4 * 3 / 2);
}

#[test]
fn pairwise_distances_empty_and_singleton_groups() {
    let empty: Vec<Vec<u8>> = Vec::new();
    assert_eq!(pairwise_distances(&empty), Ok(Vec::new()));
    let single = vec![b"ACGT".to_vec()];
    assert_eq!(pairwise_distances(&single), Ok(Vec::new()));
}

#[test]
fn pairwise_distances_rejects_unequal_lengths() {
    let group = vec![b"AAAA".to_vec(), b"AAA".to_vec()];
    assert_eq!(pairwise_distances(&group), Err(UmiError::LengthMismatch));
}
