use mercy::frontier::binomial::Binomials;
use mercy::frontier::{Frontier512, FRONTIER_EVENTS, SYMBOL_EDGES};

fn bit_length(digits: &[u32]) -> u64 {
    let mut len = digits.len();
    while len > 0 && digits[len - 1] == 0 {
        len -= 1;
    }
    if len == 0 {
        return 0;
    }
    (len as u64 - 1) * 32 + (32 - digits[len - 1].leading_zeros() as u64)
}

#[test]
fn complete_frontier_still_fits_512_bits() {
    let binomials = Binomials::new();
    let possibilities = binomials.get(FRONTIER_EVENTS, SYMBOL_EDGES);
    assert_eq!(bit_length(possibilities), 511);
    assert_eq!(core::mem::size_of::<Frontier512>(), 64);
}

#[test]
fn combinadic_roundtrip() {
    let binomials = Binomials::new();
    let mut events = [false; FRONTIER_EVENTS];
    // A deliberately uneven but valid fixed-weight event pattern.
    let mut remaining_symbols = SYMBOL_EDGES;
    for (pos, event) in events.iter_mut().enumerate() {
        let remaining = FRONTIER_EVENTS - pos;
        if remaining_symbols != 0 && (pos % 3 == 0 || remaining == remaining_symbols) {
            *event = true;
            remaining_symbols -= 1;
        }
    }
    assert_eq!(remaining_symbols, 0);

    let expected: String = events
        .iter()
        .map(|&is_symbol| if is_symbol { 'S' } else { 'B' })
        .collect();
    let packed = Frontier512::from_events(&events, &binomials);
    assert_eq!(packed.decode(&binomials).event_string(), expected);
}

#[test]
fn rank_survives_the_byte_encoding() {
    let binomials = Binomials::new();
    let mut events = [false; FRONTIER_EVENTS];
    for event in events.iter_mut().take(SYMBOL_EDGES) {
        *event = true;
    }
    // All symbol edges first: the smallest pattern has rank zero.
    let packed = Frontier512::from_events(&events, &binomials);
    assert!(packed.bytes().iter().all(|&byte| byte == 0));
    let decoded = packed.decode(&binomials);
    let string = decoded.event_string();
    assert!(string.starts_with(&"S".repeat(SYMBOL_EDGES)));
    assert!(string.ends_with(&"B".repeat(FRONTIER_EVENTS - SYMBOL_EDGES)));
}
