use contour::picking::dedup;

#[test]
fn dedup_keeps_first_occurrences_in_order() {
    assert_eq!(dedup(vec![3u32, 1, 3, 2, 1, 3]), vec![3, 1, 2]);
    assert_eq!(dedup(Vec::<u32>::new()), Vec::<u32>::new());
    assert_eq!(dedup(vec![5u32, 5, 5]), vec![5]);
}

#[test]
fn dedup_is_idempotent() {
    let once = dedup(vec![4u32, 2, 4, 9, 2]);
    assert_eq!(dedup(once.clone()), once);
}

#[test]
fn dedup_works_on_pairs() {
    assert_eq!(dedup(vec![(1u32, 0u8), (1, 1), (1, 0)]), vec![(1, 0), (1, 1)]);
}
