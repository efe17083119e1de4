use mercy::frontier_reference::{frontier_compress, frontier_decompress, ReferenceFrontierModel, Transducer};
use mercy::partition::SYMBOLS;
use mercy::reference::ByteSymbol;

fn skewed_weights() -> [u64; SYMBOLS] {
    let mut weights = [1u64; SYMBOLS];
    weights[b' ' as usize] = 40;
    weights[b'e' as usize] = 30;
    weights[b't' as usize] = 20;
    weights[b'a' as usize] = 16;
    weights[256] = 3;
    weights
}

fn ideal_bits(weights: &[u64; SYMBOLS], input: &[u8]) -> f64 {
    let total: f64 = weights.iter().map(|&weight| weight as f64).sum();
    input
        .iter()
        .map(|&byte| -(weights[byte as usize] as f64 / total).log2())
        .sum::<f64>()
        - (weights[256] as f64 / total).log2()
}

fn assert_roundtrip(weights: [u64; SYMBOLS], input: &[u8]) {
    let encoded = frontier_compress(weights, input);
    let decoded = frontier_decompress(weights, &encoded).expect("canonical finalization must force EOS");
    assert_eq!(decoded, input);

    let ideal = ideal_bits(&weights, input);
    let physical = (encoded.len() * 8) as f64;
    assert!(physical + 1e-9 >= ideal);
    assert!(
        physical - ideal < 9.0,
        "radix-256 interval code exceeded the <9-bit termination bound: physical={physical}, ideal={ideal}"
    );
}

#[test]
fn purified_api_roundtrips_real_probability_model() {
    let weights = skewed_weights();
    for input in [
        b"".as_slice(),
        b"a".as_slice(),
        b"hello mercy".as_slice(),
        b"aaaaaaaaaaaaaaaa".as_slice(),
        b"the byte stream and symbol stream constrain each other".as_slice(),
    ] {
        assert_roundtrip(weights, input);
    }
}

#[test]
fn exact_boundary_heavy_uniform_model_roundtrips() {
    let weights = [1u64; SYMBOLS];
    assert_roundtrip(weights, &[0; 32]);
    assert_roundtrip(weights, &[255; 32]);
    assert_roundtrip(weights, b"mercy");
}

#[test]
fn randomized_positive_models_roundtrip_and_stay_within_nine_bits() {
    let mut rng = 0x9e37_79b9_7f4a_7c15u64;
    for _case in 0..64 {
        let mut weights = [0u64; SYMBOLS];
        for weight in &mut weights {
            rng ^= rng << 13;
            rng ^= rng >> 7;
            rng ^= rng << 17;
            *weight = 1 + (rng & 31);
        }
        weights[256] = 1 + (weights[256] & 7);

        rng ^= rng << 13;
        rng ^= rng >> 7;
        rng ^= rng << 17;
        let len = (rng as usize) & 15;
        let mut input = Vec::with_capacity(len);
        for _ in 0..len {
            rng ^= rng << 13;
            rng ^= rng >> 7;
            rng ^= rng << 17;
            input.push(rng as u8);
        }

        assert_roundtrip(weights, &input);
    }
}

#[test]
fn byte_quantization_prevents_a_universal_plus_one_bit_bound() {
    // Any whole-byte stream has length in multiples of eight bits. The
    // entropy bound tested above is therefore the appropriate physical-file
    // claim for this radix-256 API. A literal +1-bit guarantee requires a
    // bit-level/partial-byte finalization surface.
    let weights = skewed_weights();
    let encoded = frontier_compress(weights, b"");
    let ideal = ideal_bits(&weights, b"");
    assert!((encoded.len() * 8) as f64 - ideal > 1.0);
}

#[test]
fn uniform_model_has_unit_weights_and_a_walkable_frontier() {
    let mut model = ReferenceFrontierModel::uniform();
    assert!(model.weights().iter().all(|&weight| weight == 1));
    let frontier = model.frontier().decode(model.binomials());
    assert_eq!(frontier.forced_byte_strict(), None);
    assert_eq!(frontier.forced_symbol_strict(), None);
    // Symbol 0 covers [0, 1/257), strictly inside byte child 0.
    model.push_symbol(ByteSymbol::Byte(0));
    let frontier = model.frontier().decode(model.binomials());
    assert_eq!(frontier.forced_byte_strict(), Some(0));
    model.push_byte(0);
    let frontier = model.frontier().decode(model.binomials());
    assert_eq!(frontier.forced_byte_strict(), None);
}

#[test]
fn uniform_encoding_of_a_word_is_exact() {
    let weights = [1u64; SYMBOLS];
    let encoded = frontier_compress(weights, b"mercy");
    assert_eq!(encoded, vec![108, 248, 20, 207, 113, 152, 0]);
    assert_eq!(frontier_decompress(weights, &encoded), Some(b"mercy".to_vec()));
}

#[test]
fn truncated_input_decodes_to_nothing() {
    let weights = [1u64; SYMBOLS];
    assert_eq!(frontier_decompress(weights, &[]), None);
    assert_eq!(frontier_decompress(weights, &[108]), None);
}
