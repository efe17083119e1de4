use mercy::prefix::implementations::histogram::{factorizations, odd_primes, pow, product_tree, reduced_histogram};
use mercy::prefix::implementations::owned::{borrowed_baseline, candidates, reused_buffer};
use mercy::prefix::implementations::{
    batch_balanced, histogram_powers, histogram_primes, online_balanced, scalar, size_adaptive, widening_u128,
};
use mercy::bignum::digits_from_u64;
use mercy::RankedPrefix;
use num_bigint::BigUint;

fn value(digits: &[u32]) -> BigUint {
    BigUint::from_slice(digits)
}

fn patterned(size: usize) -> Vec<u8> {
    (0..size).map(|index| ((index * 73 + 19) & 0xff) as u8).collect()
}

#[test]
fn factorization_table_reconstructs_every_odd_factor() {
    let table = factorizations();
    let primes = odd_primes();
    for odd in (1u16..=255).step_by(2) {
        let reconstructed = table[usize::from(odd)]
            .into_iter()
            .take_while(|factor| factor.exponent != 0)
            .fold(1u16, |value, factor| {
                value * primes[usize::from(factor.prime_index)].pow(u32::from(factor.exponent))
            });
        assert_eq!(reconstructed, odd);
    }
}

#[test]
fn product_tree_handles_empty_even_and_odd_term_counts() {
    assert_eq!(value(&product_tree(Vec::new())), BigUint::from(1u8));
    assert_eq!(
        value(&product_tree([3u64, 5, 7, 11].into_iter().map(digits_from_u64).collect())),
        BigUint::from(1_155u16)
    );
    assert_eq!(
        value(&product_tree([3u64, 5, 7, 11, 13].into_iter().map(digits_from_u64).collect())),
        BigUint::from(15_015u16)
    );
}

#[test]
fn transition_boundaries_remain_exact() {
    for size in [0, 8, 9, 64, 65, 256, 257, 65_535, 65_536, 131_071, 131_072] {
        let bytes = patterned(size);
        let prefix = RankedPrefix::from_slice(&bytes);
        assert_eq!(size_adaptive::compute(&prefix), scalar::compute(&prefix), "size {size}");
    }
}

#[test]
fn odd_primes_below_256_are_listed_in_order() {
    let primes = odd_primes();
    assert_eq!(primes[0], 3);
    assert_eq!(primes[52], 251);
    assert!(primes.windows(2).all(|pair| pair[0] < pair[1]));
    for &prime in primes.iter() {
        assert!((2..prime).all(|divisor| prime % divisor != 0));
    }
}

#[test]
fn even_entries_of_the_factor_table_are_empty() {
    let table = factorizations();
    assert_eq!(table.len(), 256);
    for even in (0..256).step_by(2) {
        assert!(table[even].iter().all(|factor| factor.exponent == 0));
    }
    // 225 = 3^2 * 5^2.
    assert_eq!((table[225][0].prime_index, table[225][0].exponent), (0, 2));
    assert_eq!((table[225][1].prime_index, table[225][1].exponent), (1, 2));
}

#[test]
fn binary_exponentiation_is_exact() {
    assert_eq!(value(&pow(digits_from_u64(3), 5)), BigUint::from(243u16));
    assert_eq!(value(&pow(digits_from_u64(7), 0)), BigUint::from(1u8));
    assert_eq!(value(&pow(digits_from_u64(255), 9)), BigUint::from(255u8).pow(9));
    assert_eq!(value(&pow(digits_from_u64(2), 100)), BigUint::from(1u8) << 100);
}

#[test]
fn histogram_counts_reduced_odd_factors() {
    // 256 - 253 = 3, 256 - 250 = 6 = 3 * 2, 256 - 128 = 128 = 2^7, 256 - 0 = 256.
    let bytes = [253u8, 250, 128, 0, 253];
    let prefix = RankedPrefix::new(&bytes);
    let mut counts = [0usize; 256];
    let bits = reduced_histogram(&prefix, &mut counts);
    assert_eq!(counts[3], 3);
    assert_eq!(counts[1], 2);
    assert_eq!(counts.iter().sum::<usize>(), 5);
    // 8 + 7 + 1 + 0 + 8 fractional bits.
    assert_eq!(bits, 24);
}

#[test]
fn every_tail_candidate_agrees_with_the_scalar_reference() {
    let long = [255u8; 300];
    let cases: Vec<Vec<u8>> = vec![
        Vec::new(),
        vec![0],
        vec![255],
        vec![128, 128],
        vec![1, 2, 3, 4, 5, 6, 7, 8],
        long.to_vec(),
        vec![0, 255, 64, 128, 192, 1, 254, 17, 99, 201, 33],
        patterned(17),
        patterned(1_000),
    ];
    for case in &cases {
        let prefix = RankedPrefix::new(case);
        let expected = scalar::compute(&prefix);
        assert_eq!(online_balanced::compute(&prefix), expected);
        assert_eq!(batch_balanced::compute(&prefix), expected);
        assert_eq!(widening_u128::compute(&prefix), expected);
        assert_eq!(size_adaptive::compute(&prefix), expected);
        assert_eq!(histogram_powers::compute(&prefix), expected);
        assert_eq!(histogram_primes::compute(&prefix), expected);
        assert_eq!(borrowed_baseline(Box::new(prefix)), expected);
        assert_eq!(reused_buffer(Box::new(prefix)), expected);
    }
}

#[test]
fn histogram_tail_of_repeated_factors_is_exact() {
    // (3/256)^2 * (5/256)^3 * (1/2) = 1125 / 2^41.
    let bytes = [253u8, 251, 253, 251, 251, 128];
    let prefix = RankedPrefix::new(&bytes);
    for tail in [histogram_powers::compute(&prefix), histogram_primes::compute(&prefix)] {
        assert_eq!(value(&tail.numerator()), BigUint::from(1_125u16));
        assert_eq!(tail.fractional_bits(), 41);
    }
}

#[test]
fn owned_candidates_are_named() {
    let names: Vec<&str> = candidates().iter().map(|candidate| candidate.name).collect();
    assert_eq!(names, vec!["borrowed-baseline", "reused-buffer"]);
    let bytes = patterned(40);
    for candidate in candidates() {
        let prefix = RankedPrefix::new(&bytes);
        assert_eq!(candidate.compute(Box::new(prefix)), scalar::compute(&prefix));
    }
}
