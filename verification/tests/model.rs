use mercy::model::{
    BalancedTree, BinaryDistribution, BuildError, Chain, DecodeNode, Decisions, Decoder,
    DenseU32Symbols, Distribution, Frac32, IidModel, IndexedSymbols, LinearSymbols, Model,
    Symbols, Topology,
};

fn decode_path<D: Distribution>(distribution: &D, symbol: D::Symbol) -> D::Symbol
where
    D::Symbol: std::fmt::Debug,
{
    let mut encoder = distribution.encode(symbol).expect("symbol must be encodable");
    let mut path = Vec::new();
    while let Some(decision) = encoder.next() {
        path.push(decision);
    }
    let mut decoder = distribution.decoder();
    for decision in path {
        assert_eq!(decoder.node(), DecodeNode::Branch(decision.left_probability));
        decoder.choose_branch(decision.branch);
    }
    match decoder.node() {
        DecodeNode::Symbol(decoded) => decoded,
        DecodeNode::Branch(_) => panic!("path ended before a leaf"),
    }
}

fn path_len<D: Distribution>(distribution: &D, symbol: D::Symbol) -> usize {
    let mut encoder = distribution.encode(symbol).expect("symbol must be encodable");
    let mut count = 0;
    while encoder.next().is_some() {
        count += 1;
    }
    count
}

fn probability<D: Distribution>(distribution: &D, symbol: D::Symbol) -> f64 {
    let mut encoder = distribution.encode(symbol).expect("symbol must be encodable");
    let mut probability = 1.0;
    while let Some(decision) = encoder.next() {
        let left = decision.left_probability.raw() as f64 / (1u64 << 32) as f64;
        probability *= match decision.branch {
            mercy::model::Branch::Left => left,
            mercy::model::Branch::Right => 1.0 - left,
        };
    }
    probability
}

#[test]
fn frac32_uses_the_entire_u32_draw_space() {
    assert!(!Frac32::zero().choose_left(0));
    assert!(Frac32::max_value().choose_left(u32::MAX - 1));
    assert!(!Frac32::max_value().choose_left(u32::MAX));
}

#[test]
fn explicit_symbol_tables_are_bidirectional() {
    let linear = LinearSymbols::new(vec![7u16, 2, 9]).unwrap();
    let indexed = IndexedSymbols::new(vec![7u16, 2, 9]).unwrap();
    for index in 0..3 {
        let symbol = linear.symbol(index).unwrap();
        assert_eq!(linear.index_of(symbol), Some(index));
        let symbol = indexed.symbol(index).unwrap();
        assert_eq!(indexed.index_of(symbol), Some(index));
    }
    assert!(LinearSymbols::new(vec![1, 2, 1]).is_err());
    assert!(IndexedSymbols::new(vec![1, 2, 1]).is_err());
}

#[test]
fn dense_symbols_need_no_lookup_structure() {
    let symbols = DenseU32Symbols::new(100_000);
    assert_eq!(symbols.symbol(99_999), Some(99_999));
    assert_eq!(symbols.index_of(99_999), Some(99_999));
    assert_eq!(symbols.index_of(100_000), None);
}

#[test]
fn chain_encode_decode_roundtrip() {
    let topology = Chain::from_weights(&[8, 4, 2, 1]).unwrap();
    let distribution = BinaryDistribution::new(DenseU32Symbols::new(4), topology).unwrap();

    for symbol in 0..4 {
        assert_eq!(decode_path(&distribution, symbol), symbol);
    }
    assert_eq!(path_len(&distribution, 0), 1);
    assert_eq!(path_len(&distribution, 1), 2);
    assert_eq!(path_len(&distribution, 2), 3);
    assert_eq!(path_len(&distribution, 3), 3);
}

#[test]
fn balanced_tree_roundtrips_non_power_of_two_vocabularies() {
    let weights: Vec<u64> = (1..=13).collect();
    let topology = BalancedTree::from_weights(&weights).unwrap();
    assert_eq!(topology.left_probabilities().len(), 12);
    let distribution = BinaryDistribution::new(DenseU32Symbols::new(13), topology).unwrap();

    for symbol in 0..13 {
        assert_eq!(decode_path(&distribution, symbol), symbol);
        let depth = path_len(&distribution, symbol);
        assert!((3..=4).contains(&depth));
    }
}

#[test]
fn represented_leaf_probabilities_sum_to_one() {
    for weights in [&[1, 1, 1, 1, 1][..], &[1000, 3, 2, 1][..]] {
        let chain = BinaryDistribution::new(
            DenseU32Symbols::new(weights.len() as u32),
            Chain::from_weights(weights).unwrap(),
        )
        .unwrap();
        let balanced = BinaryDistribution::new(
            DenseU32Symbols::new(weights.len() as u32),
            BalancedTree::from_weights(weights).unwrap(),
        )
        .unwrap();

        let chain_sum: f64 = (0..weights.len() as u32).map(|s| probability(&chain, s)).sum();
        let balanced_sum: f64 = (0..weights.len() as u32).map(|s| probability(&balanced, s)).sum();
        assert!((chain_sum - 1.0).abs() < 1e-12);
        assert!((balanced_sum - 1.0).abs() < 1e-12);
    }
}

#[test]
fn iid_model_can_borrow_its_prediction() {
    let distribution = BinaryDistribution::new(
        DenseU32Symbols::new(3),
        BalancedTree::from_weights(&[5, 3, 2]).unwrap(),
    )
    .unwrap();
    let mut model = IidModel::new(distribution);
    {
        let prediction = model.predict();
        assert_eq!(prediction.len(), 3);
    }
    model.observe(1);
}

#[test]
fn invalid_weights_are_rejected() {
    assert_eq!(Chain::from_weights(&[]).unwrap_err(), BuildError::Empty);
    assert_eq!(
        BalancedTree::from_weights(&[3, 0, 1, 0]).unwrap_err(),
        BuildError::ZeroWeight { index: 1 }
    );
    assert_eq!(
        BinaryDistribution::new(DenseU32Symbols::new(2), Chain::from_weights(&[1, 1, 1]).unwrap())
            .unwrap_err(),
        BuildError::LengthMismatch { symbols: 2, probabilities: 3 }
    );
}

#[test]
fn chain_probabilities_are_exact_ratios() {
    // 8 / 15 of 2^32, then 4 / 7, then 2 / 3, each rounded down.
    let chain = Chain::from_weights(&[8, 4, 2, 1]).unwrap();
    let raw: Vec<u32> = chain.left_probabilities().iter().map(|p| p.raw()).collect();
    assert_eq!(
        raw,
        vec![
            ((8u128 << 32) / 15) as u32,
            ((4u128 << 32) / 7) as u32,
            ((2u128 << 32) / 3) as u32
        ]
    );
    assert_eq!(Frac32::from_positive_ratio(1, 2).raw(), 1 << 31);
    assert_eq!(Frac32::from_positive_ratio(1, u128::MAX).raw(), 1);
    assert_eq!(Frac32::from_positive_ratio((1 << 96) - 1, 1 << 96).raw(), u32::MAX);
    // The 128-bit scaling drops bits above the top, as the shift does.
    assert_eq!(Frac32::from_positive_ratio(u128::MAX - 1, u128::MAX).raw(), 1);
}

#[test]
fn sampling_follows_the_draws() {
    let distribution = BinaryDistribution::new(
        DenseU32Symbols::new(4),
        Chain::from_weights(&[8, 4, 2, 1]).unwrap(),
    )
    .unwrap();
    // A zero draw always takes the left branch: the first leaf.
    assert_eq!(distribution.sample_with(|| 0), 0);
    // A maximal draw always skips: the last leaf.
    assert_eq!(distribution.sample_with(|| u32::MAX), 3);
}

#[test]
fn linear_symbols_report_the_first_duplicate() {
    let error = LinearSymbols::new(vec![4u8, 5, 6, 5, 4]).unwrap_err();
    assert_eq!(error.symbol, 5);
    let error = IndexedSymbols::new(vec![4u8, 5, 6, 6, 4]).unwrap_err();
    assert_eq!(error.symbol, 6);
}
