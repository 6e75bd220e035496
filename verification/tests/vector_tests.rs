use helix_db::vector::HVector;

#[test]
fn record_gives_back_what_it_was_built_from() {
    let v = HVector::new(42, 3, vec![1.5f64, 2.5]);
    assert_eq!(v.get_id(), 42);
    assert_eq!(v.get_level(), 3);
    assert_eq!(v.get_data(), &vec![1.5f64, 2.5]);
}

#[test]
fn records_are_equal_by_id_alone() {
    let a = HVector::new(7, 0, 1u8);
    let b = HVector::new(7, 5, 2u8);
    let c = HVector::new(8, 0, 1u8);
    assert!(a == b);
    assert!(a != c);
    assert!(b != c);
}

#[test]
fn record_ids_use_all_128_bits() {
    let v = HVector::new(u128::MAX, usize::MAX, ());
    assert_eq!(v.get_id(), u128::MAX);
    assert_eq!(v.get_level(), usize::MAX);
    let w = HVector::new(u128::MAX - 1, usize::MAX, ());
    assert!(v != w);
}
