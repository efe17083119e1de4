use mercy::prefix::implementations::scalar;
use mercy::{BigDyadic, RankedPrefix};
use num_bigint::BigUint;

#[test]
fn empty_prefix_has_certain_tail() {
    assert_eq!(RankedPrefix::new(&[]).tail_probability(), BigDyadic::one());
}

#[test]
fn zero_probability_is_a_multiplicative_identity() {
    let a = RankedPrefix::new(&[0]).tail_probability();
    let b = RankedPrefix::new(&[0, 0, 0, 0]).tail_probability();
    assert_eq!(a, BigDyadic::one());
    assert_eq!(b, BigDyadic::one());
}

#[test]
fn max_probability_leaves_one_over_256() {
    let tail = RankedPrefix::new(&[255]).tail_probability();
    assert_eq!(BigUint::from_slice(&tail.numerator()), BigUint::from(1u8));
    assert_eq!(tail.fractional_bits(), 8);
}

#[test]
fn balanced_matches_scalar() {
    let long = [255u8; 32];
    let cases: &[&[u8]] = &[
        &[],
        &[0],
        &[255],
        &[128, 128],
        &[1, 2, 3, 4, 5, 6, 7, 8],
        &long,
        &[0, 255, 64, 128, 192, 1, 254, 17, 99, 201, 33],
    ];

    for &case in cases {
        let prefix = RankedPrefix::new(case);
        assert_eq!(prefix.tail_probability(), scalar::compute(&prefix));
    }
}

#[test]
fn splitting_a_prefix_keeps_both_halves() {
    let prefix = RankedPrefix::new(&[1, 2, 3]);
    let (head, tail) = prefix.split_at(1);
    assert_eq!(head.as_slice(), &[1]);
    assert_eq!(tail.as_slice(), &[2, 3]);
    let (first, rest) = prefix.split_first().unwrap();
    assert_eq!(first, 1);
    assert_eq!(rest.len(), 2);
    assert!(RankedPrefix::new(&[]).split_first().is_none());
    assert!(RankedPrefix::new(&[]).is_empty());
}

#[test]
fn reduced_factors_drop_powers_of_two() {
    // 1 - 128/256 = 1/2 = 1 / 2^1.
    assert_eq!(mercy::prefix::reduce_factor(128), (1, 1));
    // 1 - 0/256 = 1.
    assert_eq!(mercy::prefix::reduce_factor(0), (1, 0));
    // 1 - 1/256 = 255/256.
    assert_eq!(mercy::prefix::reduce_factor(1), (255, 8));
}

#[test]
fn tail_of_a_concatenation_is_the_product_of_tails() {
    let a: &[u8] = &[0, 255, 64, 128];
    let b: &[u8] = &[192, 1, 254, 17, 99];
    let ab: Vec<u8> = a.iter().chain(b).copied().collect();
    let whole = RankedPrefix::new(&ab).tail_probability();
    let product = RankedPrefix::new(a)
        .tail_probability()
        .multiplied(&RankedPrefix::new(b).tail_probability());
    assert_eq!(whole, product);
}

#[test]
fn tail_ignores_the_order_of_probabilities() {
    let forward: &[u8] = &[0, 255, 64, 128, 192, 1, 254, 17, 99, 201, 33];
    let mut reversed = forward.to_vec();
    reversed.reverse();
    let mut sorted = forward.to_vec();
    sorted.sort();
    let tail = RankedPrefix::new(forward).tail_probability();
    assert_eq!(RankedPrefix::new(&reversed).tail_probability(), tail);
    assert_eq!(RankedPrefix::new(&sorted).tail_probability(), tail);
}
