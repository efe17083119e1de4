use mercy::partition::{BoundaryMerge, BuildError, SYMBOLS};

#[test]
fn uniform_257_symbols_has_exact_event_counts() {
    let weights = [1u64; SYMBOLS];
    let p = BoundaryMerge::from_weights(&weights).unwrap();
    assert_eq!(p.count_symbol_events(), 256);
    assert_eq!(p.rank_bytes(512), 256);
    assert_eq!(core::mem::size_of::<BoundaryMerge>(), 64);
}

#[test]
fn rank_select_roundtrip() {
    let mut weights = [1u64; SYMBOLS];
    weights[0] = 1000;
    weights[1] = 0;
    weights[256] = 17;
    let p = BoundaryMerge::from_weights(&weights).unwrap();

    for k in 0..256 {
        let ps = p.select_symbol(k);
        assert!(p.is_symbol_event(ps));
        assert_eq!(p.rank_symbols(ps), k as u32);

        let pb = p.select_byte(k);
        assert!(!p.is_symbol_event(pb));
        assert_eq!(p.rank_bytes(pb), k as u32);
    }
}

#[test]
fn zero_total_rejected() {
    let weights = [0u64; SYMBOLS];
    assert_eq!(
        BoundaryMerge::from_weights(&weights),
        Err(BuildError::ZeroTotalWeight)
    );
}

#[test]
fn a_bucket_can_contain_all_256_symbol_boundaries() {
    let mut weights = [0u64; SYMBOLS];
    weights[256] = 1;
    let p = BoundaryMerge::from_weights(&weights).unwrap();
    assert_eq!(p.symbol_boundaries_in_bucket(0), 256);
}

#[test]
fn uniform_weights_alternate_at_the_start() {
    // Symbol boundary k sits at (k + 1) / 257, just below the byte cut
    // (k + 1) / 256, so each boundary precedes its matching cut.
    let p = BoundaryMerge::from_weights(&[1u64; SYMBOLS]).unwrap();
    let events = p.event_string();
    assert_eq!(events.len(), 512);
    assert!(events.starts_with("SBSBSB"));
    assert!(events.ends_with("B"));
}

#[test]
fn ties_put_the_byte_cut_first() {
    // All mass on symbol 0 except the end: boundary 0 at 1/2 ties with cut 127.
    let mut weights = [0u64; SYMBOLS];
    weights[0] = 1;
    weights[256] = 1;
    let p = BoundaryMerge::from_weights(&weights).unwrap();
    let events = p.event_string();
    // 128 cuts (the 128th at exactly 1/2), then the boundary.
    assert_eq!(&events[..129], format!("{}S", "B".repeat(128)));
    assert_eq!(BuildError::ZeroTotalWeight.message(), "all 257 symbol weights are zero");
}

#[test]
fn words_expose_the_event_bits() {
    let mut weights = [0u64; SYMBOLS];
    weights[256] = 1;
    let p = BoundaryMerge::from_weights(&weights).unwrap();
    // All 256 boundaries come before every cut.
    assert_eq!(p.words()[0], u64::MAX);
    assert_eq!(p.words()[3], u64::MAX);
    assert_eq!(p.words()[4], 0);
    assert_eq!(p.select_byte(0), 256);
    assert_eq!(p.select_symbol(255), 255);
}
