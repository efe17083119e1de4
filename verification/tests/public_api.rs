use mercy::prefix::implementations::{
    all_implementations, batch_balanced, default_candidate, online_balanced,
    performance_candidates, scalar,
};
use mercy::prefix::implementations;
use mercy::{BigDyadic, RankedPrefix};
use num_bigint::BigUint;

#[test]
fn prefix_tail_is_exact() {
    // (1 - 1/2) * (1 - 1/4) = 3/8
    let tail = RankedPrefix::from_slice(&[128, 64]).tail_probability();
    assert_eq!(BigUint::from_slice(&tail.numerator()), 3u8.into());
    assert_eq!(tail.fractional_bits(), 3);
}

#[test]
fn truncation_is_the_only_explicit_certainty() {
    assert_eq!(
        RankedPrefix::from_slice(&[]).tail_probability(),
        BigDyadic::one()
    );
    assert!(RankedPrefix::from_slice(&[255])
        .tail_probability()
        .less_than(&BigDyadic::one()));
}

#[test]
fn tail_candidates_are_public_and_default_to_the_measured_winner() {
    let prefix = RankedPrefix::from_slice(&[1, 64, 127, 128, 191, 254, 255]);
    let expected = scalar::compute(&prefix);

    assert_eq!(online_balanced::compute(&prefix), expected);
    assert_eq!(batch_balanced::compute(&prefix), expected);
    assert_eq!(implementations::compute(&prefix), expected);
    assert_eq!(default_candidate().name, "online-balanced");
    assert_eq!(performance_candidates().len(), 2);
    assert_eq!(all_implementations().len(), 3);
}

#[test]
fn every_candidate_agrees_with_the_scalar_reference() {
    let prefix = RankedPrefix::from_slice(&[0, 255, 64, 128, 192, 1, 254, 17, 99, 201, 33]);
    let expected = scalar::compute(&prefix);
    for candidate in all_implementations() {
        assert_eq!(candidate.compute(&prefix), expected, "{}", candidate.name);
    }
}
