use slowrm_lib::SlowRm;

fn chunk(rate: usize, rounds: usize) -> usize {
    SlowRm::new(rate, rounds).unwrap().max_size_per_chunk_removal()
}

#[test]
fn max_size_per_chunk_removal() {
    assert_eq!(10, chunk(10, 1000));

    assert_eq!(128 * 1024 * 1024 * 1024 / 1000, chunk(128 * 1024 * 1024 * 1024, 1000));
}

#[test]
fn rate_below_rounds_is_kept_whole() {
    assert_eq!(chunk(0, 1000), 0);
    assert_eq!(chunk(999, 1000), 999);
    assert_eq!(chunk(1, 2), 1);
}

#[test]
fn rate_at_or_above_rounds_is_divided() {
    assert_eq!(chunk(1000, 1000), 1);
    assert_eq!(chunk(2500, 1000), 2);
    assert_eq!(chunk(137_438_953_472, 1000), 137_438_953);
    assert_eq!(chunk(usize::MAX, 1), usize::MAX);
}

#[test]
fn zero_rounds_is_rejected() {
    assert!(SlowRm::new(10, 0).is_none());
    let s = SlowRm::new(10, 3).unwrap();
    assert_eq!(s.rate, 10);
    assert_eq!(s.chunk_removal_per_second, 3);
}
