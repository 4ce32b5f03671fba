use market_data_cache::spread::{
    greater, lesser, spread_bits, spread_is_finite, spread_key, EMPTY_MAX_SPREAD,
    EMPTY_MIN_SPREAD,
};
use market_data_cache::utils::find_bucket_index;

#[test]
fn test_find_bucket_index() {
    let first_bucket_start_ns = 10;
    let bucket_duration_ns = 10;
    let inputs = vec![0_u64, 5, 10, 15, 20, 25, 30];
    let expected_outputs = vec![None, None, Some(0), Some(0), Some(1), Some(1), Some(2)];
    for (input, expected) in inputs.into_iter().zip(expected_outputs.into_iter()) {
        let output = find_bucket_index(first_bucket_start_ns, input, bucket_duration_ns);
        assert_eq!(output, expected);
    }
}

#[test]
fn find_bucket_index_is_not_bounded_by_a_ring() {
    assert_eq!(find_bucket_index(0, 1000, 10), Some(100));
    assert_eq!(find_bucket_index(1000, 1000, 1), Some(0));
    assert_eq!(find_bucket_index(1000, 999, 1), None);
    assert_eq!(find_bucket_index(7, 106, 100), Some(0));
    assert_eq!(find_bucket_index(7, 107, 100), Some(1));
}

#[test]
fn spread_keys_round_trip() {
    for x in [0.0f64, -0.0, 1.0, -1.0, 1.5e-300, -2.5e300, f64::MAX, -f64::MAX, f64::MIN_POSITIVE] {
        let key = spread_key(x.to_bits());
        assert_eq!(spread_bits(key), x.to_bits());
        assert_eq!(spread_key(spread_bits(key)), key);
    }
}

#[test]
fn spread_keys_are_ordered_like_the_numbers() {
    let numbers = [-f64::MAX, -3.5, -1.0, -1e-9, 0.0, 1e-9, 0.5, 1.0, 30.0, 70.0, f64::MAX];
    for pair in numbers.windows(2) {
        assert!(pair[0] < pair[1]);
        assert!(spread_key(pair[0].to_bits()) < spread_key(pair[1].to_bits()));
    }
    assert_eq!(spread_key(1.0f64.to_bits()), 0xBFF0_0000_0000_0000);
    assert_eq!(spread_key((-1.0f64).to_bits()), 0x400F_FFFF_FFFF_FFFF);
    assert_eq!(spread_key(0.0f64.to_bits()), 0x8000_0000_0000_0000);
}

#[test]
fn the_empty_keys_are_the_infinities() {
    assert_eq!(spread_key(f64::INFINITY.to_bits()), EMPTY_MIN_SPREAD);
    assert_eq!(spread_key(f64::NEG_INFINITY.to_bits()), EMPTY_MAX_SPREAD);
    assert_eq!(f64::from_bits(spread_bits(EMPTY_MIN_SPREAD)), f64::INFINITY);
    assert_eq!(f64::from_bits(spread_bits(EMPTY_MAX_SPREAD)), f64::NEG_INFINITY);
}

#[test]
fn finite_keys_are_those_of_finite_numbers() {
    for x in [0.0f64, -0.0, 1.0, -1.0, f64::MAX, -f64::MAX, f64::MIN_POSITIVE] {
        assert!(spread_is_finite(spread_key(x.to_bits())));
    }
    for x in [f64::INFINITY, f64::NEG_INFINITY, f64::NAN, -f64::NAN] {
        assert!(!spread_is_finite(spread_key(x.to_bits())));
    }
}

#[test]
fn lesser_and_greater_pick_by_key() {
    let a = spread_key(2.0f64.to_bits());
    let b = spread_key((-2.0f64).to_bits());
    assert_eq!(lesser(a, b), b);
    assert_eq!(lesser(b, a), b);
    assert_eq!(greater(a, b), a);
    assert_eq!(greater(b, a), a);
    assert_eq!(lesser(a, a), a);
    assert_eq!(greater(b, b), b);
}
