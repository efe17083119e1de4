use mercy::partition::SYMBOLS;
use mercy::reference::{compress, decompress, ByteSymbol, ReferenceError, ReferenceModel};

#[test]
fn uniform_roundtrip() {
    let weights = [1u64; SYMBOLS];
    let input = b"hello mercy beaucoup";
    let encoded = compress(weights, input).unwrap();
    let decoded = decompress(weights, &encoded).unwrap();
    assert_eq!(decoded, input);
}

#[test]
fn skewed_roundtrip() {
    let mut weights = [1u64; SYMBOLS];
    weights[b' ' as usize] = 40;
    weights[b'e' as usize] = 30;
    weights[b't' as usize] = 20;
    weights[b'a' as usize] = 16;
    weights[256] = 3;

    let input = b"the byte stream and symbol stream constrain each other";
    let encoded = compress(weights, input).unwrap();
    let decoded = decompress(weights, &encoded).unwrap();
    assert_eq!(decoded, input);
}

#[test]
fn empty_stream_roundtrip() {
    let weights = [1u64; SYMBOLS];
    let encoded = compress(weights, b"").unwrap();
    let decoded = decompress(weights, &encoded).unwrap();
    assert!(decoded.is_empty());
}

#[test]
fn pushes_have_variable_rate() {
    let mut weights = [1u64; SYMBOLS];
    weights[b'a' as usize] = 10_000;
    weights[256] = 10;

    let mut encoder = ReferenceModel::new(weights).unwrap();
    assert!(encoder.try_push_symbol(ByteSymbol::Byte(b'a')).unwrap().is_empty());

    let encoded = compress(weights, b"aaaaaaaaaaaaaaaaaaaaaaaa").unwrap();
    let mut decoder = ReferenceModel::new(weights).unwrap();
    let mut emitted_multiple = false;
    for byte in encoded {
        if decoder.try_push_byte(byte).unwrap().len() > 1 {
            emitted_multiple = true;
            break;
        }
    }
    assert!(emitted_multiple);
}

#[test]
fn errors_name_their_cause() {
    assert_eq!(compress([0; SYMBOLS], b"x").unwrap_err(), ReferenceError::ZeroTotalWeight);
    let mut weights = [1u64; SYMBOLS];
    weights[b'q' as usize] = 0;
    assert_eq!(
        compress(weights, b"aqq").unwrap_err(),
        ReferenceError::ZeroWeightSymbol(ByteSymbol::Byte(b'q'))
    );
    weights[256] = 0;
    assert_eq!(
        compress(weights, b"ab").unwrap_err(),
        ReferenceError::ZeroWeightSymbol(ByteSymbol::Eos)
    );
    assert_eq!(decompress([1; SYMBOLS], &[]).unwrap_err(), ReferenceError::MissingEos);
}

#[test]
fn model_state_machine_guards_its_order() {
    let mut model = ReferenceModel::uniform();
    assert_eq!(model.try_finish().unwrap_err(), ReferenceError::EosNotConstrained);
    model.try_push_symbol(ByteSymbol::Eos).unwrap();
    assert_eq!(
        model.try_push_symbol(ByteSymbol::Byte(0)).unwrap_err(),
        ReferenceError::EosAlreadyConstrained
    );
    let finished = model.try_finish().unwrap().to_vec();
    assert!(!finished.is_empty());
    assert_eq!(model.partition_view().count_symbol_events(), 256);
}

#[test]
fn message_with_all_mass_on_the_end_marker_encodes_to_nothing() {
    let mut weights = [0u64; SYMBOLS];
    weights[256] = 1;
    let encoded = compress(weights, &[]).unwrap();
    assert!(encoded.is_empty());
    assert_eq!(decompress(weights, &encoded).unwrap_err(), ReferenceError::MissingEos);
}
