use pull_umis::sample::subsample;

fn group_of(n: usize) -> Vec<Vec<u8>> {
    (0..n).map(|i| format!("BC{:04}", i).into_bytes()).collect()
}

#[test]
fn subsample_disabled_returns_input_unchanged() {
    let umis = group_of(10);
    assert_eq!(subsample(umis.clone(), 0, 5), umis);
}

#[test]
fn subsample_small_group_returned_whole() {
    let umis = group_of(3);
    assert_eq!(subsample(umis.clone(), 10, 5), umis);
    assert_eq!(subsample(umis.clone(), 3, 5), umis);
}

#[test]
fn subsample_draws_exactly_the_requested_size() {
    let umis = group_of(100);
    let sample = subsample(umis.clone(), 7, 5);
    assert_eq!(sample.len(), 7);
    for bc in &sample {
        assert!(umis.contains(bc));
    }
}

#[test]
fn subsample_never_exceeds_request_or_input() {
    for n in [0usize, 1, 5, 50, 200] {
        let umis = group_of(50);
        let sample = subsample(umis.clone(), n, 5);
        assert!(sample.len() <= umis.len());
        if n > 0 {
            assert!(sample.len() <= n);
        }
    }
}

#[test]
fn subsample_draws_distinct_elements() {
    let umis = group_of(40);
    let mut sample = subsample(umis, 20, 5);
    let before = sample.len();
    sample.sort();
    sample.dedup();
    assert_eq!(sample.len(), before);
}

#[test]
fn subsample_is_reproducible_under_one_seed() {
    let umis = group_of(100);
    let first = subsample(umis.clone(), 10, 5);
    let second = subsample(umis, 10, 5);
    assert_eq!(first, second);
}
