use cube_tracer::noise::noise_hash;

#[test]
fn noise_hash_known_values() {
    assert_eq!(noise_hash(0, 0, 0), 0);
    assert_eq!(noise_hash(1, 2, 4), 328943676);
    assert_eq!(noise_hash(-5, 123456, 0), 769556149);
}

#[test]
fn noise_hash_wraps_instead_of_overflowing() {
    assert_eq!(noise_hash(i32::MAX, i32::MIN, 12345), 356706181);
}

#[test]
fn noise_hash_is_symmetric_in_its_coordinates() {
    assert_eq!(noise_hash(3, 9, 27), noise_hash(27, 3, 9));
}
