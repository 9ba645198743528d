use introsort::float::{
    compare_values, find_first_zero, is_below_zero, is_nan, is_sign_negative, is_zero,
    nans_to_end, order_zeros, partial_compare, INFINITY, NEG_ZERO, SIGN_BIT, ZERO,
};
use introsort::{sort_by, sort_floats};
use std::cmp::Ordering;

fn bits_of(values: &[f64]) -> Vec<u64> {
    values.iter().map(|x| x.to_bits()).collect()
}

fn sorted_bits(values: &[f64]) -> Vec<u64> {
    let mut bits = bits_of(values);
    sort_floats(&mut bits);
    bits
}

fn sorted_values(values: &[f64]) -> Vec<f64> {
    sorted_bits(values).into_iter().map(f64::from_bits).collect()
}

#[test]
fn float_total_order() {
    let input = [
        1.0,
        -1.0,
        f64::NAN,
        0.0,
        -0.0,
        f64::INFINITY,
        f64::NEG_INFINITY,
        f64::NAN,
        2.0,
    ];
    let out = sorted_values(&input);
    assert_eq!(out.len(), 9);
    let expected = [f64::NEG_INFINITY, -1.0, -0.0, 0.0, 1.0, 2.0, f64::INFINITY];
    assert_eq!(bits_of(&out[..7]), bits_of(&expected));
    assert!(out[7].is_nan());
    assert!(out[8].is_nan());
}

#[test]
fn signed_zero_isolation() {
    let out = sorted_bits(&[0.0, -0.0, 0.0, -0.0]);
    assert_eq!(out, bits_of(&[-0.0, -0.0, 0.0, 0.0]));
    assert_eq!(out, vec![NEG_ZERO, NEG_ZERO, ZERO, ZERO]);
}

#[test]
fn no_zero_input_equals_plain_comparator_sort() {
    let input = [3.5, -2.25, 1e300, -1e-300, 7.0, -7.0, 5e-324, -5e-324, 1.0, -1.0];
    let mut plain = bits_of(&input);
    sort_by(&mut plain[..], &compare_values);
    let repaired = sorted_bits(&input);
    assert_eq!(repaired, plain);
    assert_eq!(
        repaired,
        bits_of(&[-7.0, -2.25, -1.0, -1e-300, -5e-324, 5e-324, 1.0, 3.5, 7.0, 1e300])
    );
}

#[test]
fn no_zero_input_leaves_zero_ordering_a_no_op() {
    let sorted = bits_of(&[-3.0, -1.0, 2.0, 4.0]);
    let left = find_first_zero(&sorted);
    assert_eq!(left, 2);
    let mut v = sorted.clone();
    order_zeros(&mut v, left);
    assert_eq!(v, sorted);
}

#[test]
fn floats_empty_and_single() {
    let mut empty: [u64; 0] = [];
    sort_floats(&mut empty);
    assert_eq!(empty, []);
    assert_eq!(sorted_bits(&[-0.0]), vec![NEG_ZERO]);
    let nan = f64::NAN.to_bits();
    let mut one = [nan];
    sort_floats(&mut one);
    assert_eq!(one, [nan]);
}

#[test]
fn floats_all_nan() {
    let quiet = f64::NAN.to_bits();
    let negative = quiet | SIGN_BIT;
    let payload = INFINITY + 1;
    let mut v = vec![quiet, negative, payload];
    sort_floats(&mut v);
    let mut got = v.clone();
    got.sort();
    let mut want = vec![quiet, negative, payload];
    want.sort();
    assert_eq!(got, want);
}

#[test]
fn floats_nan_first_then_number() {
    let out = sorted_values(&[f64::NAN, 1.0]);
    assert_eq!(out[0].to_bits(), 1.0f64.to_bits());
    assert!(out[1].is_nan());
}

#[test]
fn floats_zeros_between_numbers_and_nans() {
    let out = sorted_values(&[0.0, f64::NAN, -0.0, -5.0, 0.0, f64::NAN, 5.0, -0.0, -0.0]);
    let expected = [-5.0, -0.0, -0.0, -0.0, 0.0, 0.0, 5.0];
    assert_eq!(bits_of(&out[..7]), bits_of(&expected));
    assert!(out[7].is_nan() && out[8].is_nan());
}

#[test]
fn floats_only_zeros_and_nans() {
    let out = sorted_values(&[f64::NAN, 0.0, -0.0]);
    assert_eq!(bits_of(&out[..2]), bits_of(&[-0.0, 0.0]));
    assert!(out[2].is_nan());
}

#[test]
fn floats_subnormals_and_infinities() {
    let tiny = f64::from_bits(1);
    let input = [f64::INFINITY, tiny, -tiny, f64::MAX, f64::MIN, f64::NEG_INFINITY, f64::MIN_POSITIVE];
    let out = sorted_bits(&input);
    let expected = [f64::NEG_INFINITY, f64::MIN, -tiny, tiny, f64::MIN_POSITIVE, f64::MAX, f64::INFINITY];
    assert_eq!(out, bits_of(&expected));
}

#[test]
fn floats_agree_with_total_cmp_on_many_values() {
    let mut state: u64 = 0x9E37_79B9_7F4A_7C15;
    let mut values: Vec<f64> = Vec::new();
    for i in 0..2000u32 {
        state ^= state << 13;
        state ^= state >> 7;
        state ^= state << 17;
        let x = match i % 7 {
            0 => 0.0,
            1 => -0.0,
            2 => f64::from_bits(state),
            3 => f64::from((state % 1000) as u32) - 500.0,
            4 => -f64::from((state % 10) as u32),
            5 => f64::INFINITY,
            _ => f64::from_bits(state >> 2),
        };
        values.push(x);
    }
    let out = sorted_values(&values);
    let mut numbers: Vec<f64> = values.iter().copied().filter(|x| !x.is_nan()).collect();
    numbers.sort_by(|a, b| a.total_cmp(b));
    assert_eq!(bits_of(&out[..numbers.len()]), bits_of(&numbers));
    assert!(out[numbers.len()..].iter().all(|x| x.is_nan()));
    let mut all_in = bits_of(&values);
    let mut all_out = bits_of(&out);
    all_in.sort();
    all_out.sort();
    assert_eq!(all_in, all_out);
}

#[test]
fn single_precision_values_sort_after_widening() {
    let input: [f32; 8] = [1.5, -0.0, f32::NAN, 0.0, f32::NEG_INFINITY, -1.5, f32::MAX, 0.0];
    let wide: Vec<f64> = input.iter().map(|x| f64::from(*x)).collect();
    let out = sorted_values(&wide);
    let expected: [f32; 7] = [f32::NEG_INFINITY, -1.5, -0.0, 0.0, 0.0, 1.5, f32::MAX];
    for (got, want) in out.iter().zip(expected.iter()) {
        assert_eq!(got.to_bits(), f64::from(*want).to_bits());
        assert_eq!((*got as f32).to_bits(), want.to_bits());
    }
    assert!(out[7].is_nan());
}

#[test]
fn floats_sorting_twice_changes_nothing() {
    let other_nan = f64::from_bits(f64::NAN.to_bits() | SIGN_BIT | 7);
    let once = sorted_bits(&[2.0, other_nan, -0.0, 0.0, -1.0, f64::NAN, 0.0, -0.0, 9.0]);
    let mut twice = once.clone();
    sort_floats(&mut twice);
    assert_eq!(once, twice);
}

#[test]
fn bit_predicates_agree_with_the_numbers() {
    let samples = [
        0.0,
        -0.0,
        1.0,
        -1.0,
        f64::INFINITY,
        f64::NEG_INFINITY,
        f64::NAN,
        -f64::NAN,
        f64::MIN_POSITIVE,
        -f64::from_bits(1),
        f64::MAX,
    ];
    for x in samples {
        let b = x.to_bits();
        assert_eq!(is_nan(b), x.is_nan());
        assert_eq!(is_sign_negative(b), x.is_sign_negative());
        assert_eq!(is_zero(b), x == 0.0);
        assert_eq!(is_below_zero(b), x < 0.0);
    }
    assert!(is_nan(INFINITY + 1));
    assert!(!is_nan(INFINITY));
    assert!(is_nan(u64::MAX));
    assert!(!is_nan(SIGN_BIT + INFINITY));
    assert_eq!(NEG_ZERO, (-0.0f64).to_bits());
    assert_eq!(ZERO, 0.0f64.to_bits());
    assert_eq!(INFINITY, f64::INFINITY.to_bits());
}

#[test]
fn compare_values_agrees_with_partial_cmp() {
    let samples = [
        0.0,
        -0.0,
        1.0,
        -1.0,
        2.5,
        -2.5,
        f64::INFINITY,
        f64::NEG_INFINITY,
        f64::MIN_POSITIVE,
        f64::from_bits(1),
        -f64::from_bits(1),
        f64::MAX,
        f64::MIN,
    ];
    for x in samples {
        for y in samples {
            assert_eq!(Some(compare_values(&x.to_bits(), &y.to_bits())), x.partial_cmp(&y));
        }
    }
    assert_eq!(compare_values(&NEG_ZERO, &ZERO), Ordering::Equal);
    assert_eq!(compare_values(&(-1.0f64).to_bits(), &(-2.0f64).to_bits()), Ordering::Greater);
    assert_eq!(compare_values(&(-2.0f64).to_bits(), &NEG_ZERO), Ordering::Less);
}

#[test]
fn partial_compare_agrees_with_partial_cmp() {
    let samples = [
        0.0,
        -0.0,
        1.0,
        -1.0,
        f64::NAN,
        -f64::NAN,
        f64::INFINITY,
        f64::NEG_INFINITY,
        f64::from_bits(1),
        -f64::from_bits(1),
        f64::MAX,
        f64::MIN,
    ];
    for x in samples {
        for y in samples {
            assert_eq!(partial_compare(&x.to_bits(), &y.to_bits()), x.partial_cmp(&y));
        }
    }
    let nan = f64::NAN.to_bits();
    assert_eq!(partial_compare(&nan, &nan), None);
    assert_eq!(partial_compare(&nan, &ZERO), None);
    assert_eq!(partial_compare(&ZERO, &nan), None);
    assert_eq!(partial_compare(&ZERO, &NEG_ZERO), Some(Ordering::Equal));
    assert_eq!(partial_compare(&INFINITY, &(INFINITY - 1)), Some(Ordering::Greater));
}

#[test]
fn nans_to_end_counts_the_numbers() {
    let nan = f64::NAN.to_bits();
    let one = 1.0f64.to_bits();
    let two = 2.0f64.to_bits();
    let mut v = vec![nan, one, nan, two, nan];
    assert_eq!(nans_to_end(&mut v), 2);
    assert!(!is_nan(v[0]) && !is_nan(v[1]));
    assert!(v[2..].iter().all(|b| is_nan(*b)));
    let mut head = v[..2].to_vec();
    head.sort();
    assert_eq!(head, vec![one, two]);

    let mut none = vec![one, two];
    assert_eq!(nans_to_end(&mut none), 2);
    assert_eq!(none, vec![one, two]);

    let mut all = vec![nan, nan];
    assert_eq!(nans_to_end(&mut all), 0);
    assert_eq!(all, vec![nan, nan]);

    let other = nan + 1;
    let mut in_place = vec![two, one, nan, other];
    assert_eq!(nans_to_end(&mut in_place), 2);
    assert_eq!(in_place, vec![two, one, nan, other]);

    let mut empty: Vec<u64> = Vec::new();
    assert_eq!(nans_to_end(&mut empty), 0);
}

#[test]
fn find_first_zero_finds_the_end_of_the_negatives() {
    assert_eq!(find_first_zero(&[]), 0);
    assert_eq!(find_first_zero(&bits_of(&[-2.0, -1.0, 0.0, 3.0])), 2);
    assert_eq!(find_first_zero(&bits_of(&[-2.0, -1.0, -0.0, 0.0, 3.0])), 2);
    assert_eq!(find_first_zero(&bits_of(&[-2.0, -1.0])), 2);
    assert_eq!(find_first_zero(&bits_of(&[-2.0])), 1);
    assert_eq!(find_first_zero(&bits_of(&[1.0, 2.0, 3.0])), 0);
    assert_eq!(find_first_zero(&bits_of(&[0.0])), 0);
    assert_eq!(find_first_zero(&bits_of(&[-3.0, -2.0, -1.0, 4.0, 5.0, 6.0, 7.0])), 3);
}

#[test]
fn order_zeros_writes_negative_zeros_first() {
    let mut v = bits_of(&[-1.0, 0.0, -0.0, 0.0, -0.0, -0.0, 2.0, 0.0]);
    order_zeros(&mut v, 1);
    assert_eq!(v, bits_of(&[-1.0, -0.0, -0.0, -0.0, 0.0, 0.0, 2.0, 0.0]));

    let mut at_end = bits_of(&[0.0, -0.0]);
    order_zeros(&mut at_end, 2);
    assert_eq!(at_end, bits_of(&[0.0, -0.0]));

    let mut whole = bits_of(&[0.0, -0.0]);
    order_zeros(&mut whole, 0);
    assert_eq!(whole, bits_of(&[-0.0, 0.0]));

    let mut before_nan = vec![ZERO, NEG_ZERO, f64::NAN.to_bits()];
    order_zeros(&mut before_nan, 0);
    assert_eq!(before_nan, vec![NEG_ZERO, ZERO, f64::NAN.to_bits()]);
}
