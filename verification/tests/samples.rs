use qdplot::samples::{extremes, present_values, sorted_values};

#[test]
fn missing_samples_are_passed_over() {
    assert_eq!(present_values(&[Some(3), None, Some(-1), None]), vec![3, -1]);
    assert_eq!(present_values(&[None, None]), Vec::<i32>::new());
    assert_eq!(present_values(&[]), Vec::<i32>::new());
}

#[test]
fn values_are_put_in_ascending_order() {
    assert_eq!(sorted_values(vec![1, 3, 4, 0, 2]), vec![0, 1, 2, 3, 4]);
    assert_eq!(sorted_values(vec![2, 2, 1, 2, 1]), vec![1, 1, 2, 2, 2]);
    assert_eq!(sorted_values(vec![i32::MAX, 0, i32::MIN]), vec![i32::MIN, 0, i32::MAX]);
    assert_eq!(sorted_values(vec![5]), vec![5]);
    assert_eq!(sorted_values(Vec::new()), Vec::<i32>::new());
}

#[test]
fn many_values_are_put_in_ascending_order() {
    let mut values = Vec::new();
    let mut seed: u32 = 12345;
    for _ in 0..10_000 {
        seed = seed.wrapping_mul(1664525).wrapping_add(1013904223);
        values.push((seed >> 8) as i32 % 1000 - 500);
    }
    let mut expected = values.clone();
    expected.sort();
    assert_eq!(sorted_values(values), expected);
}

#[test]
fn the_least_and_the_largest() {
    assert_eq!(extremes(&[3, -1, 7, 7, 0]), (-1, 7));
    assert_eq!(extremes(&[4]), (4, 4));
}
