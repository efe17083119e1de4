use mercy::dyadic::implementations::{candidates, default_candidate, Layout};
use mercy::BigDyadic;
use num_bigint::BigUint;

fn digits(value: u32) -> Vec<u32> {
    vec![value]
}

#[test]
fn canonicalizes_powers_of_two() {
    let half = BigDyadic::from_scaled(digits(128), 8);
    assert_eq!(half.fractional_bits(), 1);
    assert_eq!(BigUint::from_slice(&half.numerator()), BigUint::from(1u8));
}

#[test]
fn multiplication_is_exact() {
    let half = BigDyadic::from_scaled(digits(1), 1);
    let quarter = half.multiplied(&half);
    assert_eq!(BigUint::from_slice(&quarter.numerator()), BigUint::from(1u8));
    assert_eq!(quarter.fractional_bits(), 2);
}

#[test]
fn complement_is_exact() {
    let quarter = BigDyadic::from_scaled(digits(1), 2);
    let three_quarters = quarter.complement();
    assert_eq!(BigUint::from_slice(&three_quarters.numerator()), BigUint::from(3u8));
    assert_eq!(three_quarters.fractional_bits(), 2);
}

#[test]
fn zero_and_one_are_canonical() {
    assert_eq!(BigDyadic::zero().fractional_bits(), 0);
    assert_eq!(BigUint::from_slice(&BigDyadic::zero().numerator()), BigUint::from(0u8));
    assert_eq!(BigDyadic::one().fractional_bits(), 0);
    assert_eq!(BigUint::from_slice(&BigDyadic::one().numerator()), BigUint::from(1u8));
    assert_eq!(BigDyadic::from_scaled(digits(4), 2), BigDyadic::one());
}

#[test]
fn bits_read_most_significant_first() {
    // 3/8 = 0.011 in binary, behind the integer bit.
    let value = BigDyadic::from_scaled(digits(3), 3);
    assert_eq!(value.as_bits(), vec![false, false, true, true]);
}

#[test]
fn floor_scaling_rounds_down() {
    let three_eighths = BigDyadic::from_scaled(digits(3), 3);
    assert_eq!(three_eighths.scale_floor_u64(100), 37);
    assert_eq!(BigDyadic::one().scale_floor_u64(u64::MAX), u64::MAX);
}

#[test]
fn ordering_is_by_value() {
    let quarter = BigDyadic::from_scaled(digits(1), 2);
    let half = BigDyadic::from_scaled(digits(1), 1);
    assert!(quarter.less_than(&half));
    assert!(!half.less_than(&quarter));
    assert!(!half.less_than(&half));
}

#[test]
fn layouts_are_named_in_benchmark_order() {
    let names: Vec<&str> = candidates().iter().map(|candidate| candidate.name).collect();
    assert_eq!(
        names,
        vec!["bitbox-msb", "bitbox-lsb", "big-endian-bytes", "little-endian-bytes", "native-biguint"]
    );
    assert_eq!(default_candidate().layout, Layout::NativeBigUint);
}

#[test]
fn every_layout_round_trips_multiplies_and_scales_exactly() {
    let three_quarters = BigDyadic::from_scaled(digits(3), 2);
    let five_eighths = BigDyadic::from_scaled(digits(5), 3);
    // 255^20 / 2^160 spans several digits.
    let mut wide = BigUint::from(1u8);
    for _ in 0..20 {
        wide *= 255u32;
    }
    let deep = BigDyadic::from_scaled(wide.to_u32_digits(), 160);
    let product = three_quarters.multiplied(&five_eighths);
    let deep_product = deep.multiplied(&three_quarters);
    for candidate in candidates() {
        let a = candidate.prepare(&three_quarters);
        let b = candidate.prepare(&five_eighths);
        let c = candidate.prepare(&deep);
        assert_eq!(a.to_big_dyadic(), three_quarters, "{}", candidate.name);
        assert_eq!(c.to_big_dyadic(), deep, "{}", candidate.name);
        let ab = candidate.multiply(&a, &b);
        assert_eq!(ab.to_big_dyadic(), product, "{}", candidate.name);
        // 15/32 * 1000 = 468.75.
        assert_eq!(candidate.scale_floor_u64(&ab, 1000), 468, "{}", candidate.name);
        assert_eq!(candidate.multiply(&c, &a).to_big_dyadic(), deep_product, "{}", candidate.name);
        assert_eq!(
            candidate.scale_floor_u64(&c, u64::MAX),
            deep.scale_floor_u64(u64::MAX),
            "{}",
            candidate.name
        );
        let zero = candidate.prepare(&BigDyadic::zero());
        let zero_product = candidate.multiply(&zero, &a);
        assert_eq!(zero_product.to_big_dyadic(), BigDyadic::zero(), "{}", candidate.name);
        assert_eq!(candidate.scale_floor_u64(&zero_product, 77), 0, "{}", candidate.name);
        let one = candidate.prepare(&BigDyadic::one());
        assert_eq!(candidate.scale_floor_u64(&one, 77), 77, "{}", candidate.name);
        assert_eq!(candidate.multiply(&one, &one).to_big_dyadic(), BigDyadic::one(), "{}", candidate.name);
    }
}

#[test]
fn representation_is_two_words() {
    assert_eq!(std::mem::size_of::<BigDyadic>(), 2 * std::mem::size_of::<usize>());
}
