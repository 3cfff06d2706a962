use contour::regions::region_key_from_edges;

#[test]
fn empty_cycle_has_key_zero() {
    assert_eq!(region_key_from_edges(&[]), 0);
}

#[test]
fn region_key_exact_values() {
    assert_eq!(region_key_from_edges(&[1, 2, 3]), 2034659765);
    assert_eq!(region_key_from_edges(&[7]), 1527855074);
    assert_eq!(region_key_from_edges(&[5, 9]), 2592656729);
    assert_eq!(region_key_from_edges(&[1, 2, 3, 4]), 1041505217);
    assert_eq!(region_key_from_edges(&[0]), 1268118805);
}

#[test]
fn region_key_ignores_rotation_and_direction() {
    let k = region_key_from_edges(&[1, 2, 3]);
    assert_eq!(region_key_from_edges(&[3, 1, 2]), k);
    assert_eq!(region_key_from_edges(&[2, 3, 1]), k);
    assert_eq!(region_key_from_edges(&[3, 2, 1]), k);
    assert_eq!(region_key_from_edges(&[2, 1, 3]), k);
    assert_eq!(region_key_from_edges(&[4, 3, 2, 1]), region_key_from_edges(&[1, 2, 3, 4]));
}

#[test]
fn region_key_distinguishes_different_cycles() {
    assert_ne!(region_key_from_edges(&[1, 2, 3]), region_key_from_edges(&[1, 2, 4]));
}
