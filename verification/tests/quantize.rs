use helr_planner::quantize::{quantize, quantize_vector};

/// An integer that orders as the floating-point number does (no NaN, no negative zero).
fn key(x: f64) -> i64 {
    let bits = x.to_bits() as i64;
    if bits < 0 {
        bits ^ i64::MAX
    } else {
        bits
    }
}

#[test]
fn quantization_boundary() {
    let bins = [key(1.0), key(2.0), key(3.0)];
    assert_eq!(quantize(key(1.0), &bins), 0);
    assert_eq!(quantize(key(3.5), &bins), 3);
    assert_eq!(quantize(key(2.0), &bins), 1);
}

#[test]
fn quantization_between_bounds() {
    let bins = [key(1.0), key(2.0), key(3.0)];
    assert_eq!(quantize(key(-4.0), &bins), 0);
    assert_eq!(quantize(key(0.99), &bins), 0);
    assert_eq!(quantize(key(1.01), &bins), 1);
    assert_eq!(quantize(key(2.5), &bins), 2);
    assert_eq!(quantize(key(3.0), &bins), 2);
    assert_eq!(quantize(key(3.0000001), &bins), 3);
}

#[test]
fn quantization_of_fixed_point_readings() {
    let bins = [10i64, 20, 30];
    assert_eq!(quantize(10, &bins), 0);
    assert_eq!(quantize(35, &bins), 3);
    assert_eq!(quantize(20, &bins), 1);
    assert_eq!(quantize(i64::MIN, &bins), 0);
    assert_eq!(quantize(i64::MAX, &bins), 3);
}

#[test]
fn quantization_without_bins() {
    assert_eq!(quantize(5, &[]), 0);
}

#[test]
fn quantization_takes_the_first_bound_that_is_reached() {
    assert_eq!(quantize(5, &[7, 3, 9]), 0);
    assert_eq!(quantize(8, &[7, 3, 9]), 2);
    assert_eq!(quantize(5, &[5, 5, 5]), 0);
}

#[test]
fn every_feature_is_quantized_by_itself() {
    let bins = [-5i64, 0, 5, 10];
    let features = [11i64, -5, 3, 0, -6, 10, 6];
    assert_eq!(quantize_vector(&features, &bins), vec![4, 0, 2, 1, 0, 3, 3]);
    assert_eq!(quantize_vector(&[], &bins), Vec::<u64>::new());
}

#[test]
fn a_vector_is_quantized_as_its_entries_are() {
    let bins = [key(-0.5), key(0.25), key(0.75), key(2.0)];
    let features = [0.3f64, -1.0, 5.0, 0.75, 0.2500001];
    let keys: Vec<i64> = features.iter().map(|x| key(*x)).collect();
    let indices = quantize_vector(&keys, &bins);
    assert_eq!(indices, vec![2, 0, 4, 2, 2]);
    for (feature, index) in features.iter().zip(indices.iter()) {
        let expected = [-0.5f64, 0.25, 0.75, 2.0]
            .iter()
            .position(|bound| *feature <= *bound)
            .unwrap_or(4) as u64;
        assert_eq!(*index, expected);
    }
}
