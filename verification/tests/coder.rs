use mercy::coder::implementations::q16::{Probability, Q16};
use mercy::coder::implementations::q17::Q17;
use mercy::coder::implementations::{branchless, range_shift, BaselineDecoder, BaselineEncoder};
use mercy::coder::{legacy_inline, range_shift_inline, FractionalU16};

struct Workload {
    source: Vec<u8>,
    q16: Vec<u16>,
    q17: Vec<u16>,
    lowers: Vec<bool>,
}

fn workload(events: usize) -> Workload {
    let mut seed = 0x9e37_79b9_7f4a_7c15_u64;
    let mut random = || {
        seed ^= seed << 13;
        seed ^= seed >> 7;
        seed ^= seed << 17;
        seed
    };
    let q16: Vec<u16> = (0..events).map(|_| 0x8000 | (random() as u16 & 0x7fff)).collect();
    let q17: Vec<u16> = q16.iter().map(|&raw| (raw - 0x8000) << 1).collect();
    let source: Vec<u8> = (0..events * 3 + 3).map(|_| random() as u8).collect();
    let lowers: Vec<bool> = (0..events).map(|_| random() % 3 != 0).collect();
    Workload { source, q16, q17, lowers }
}

fn encode_q16(q16: &[u16], lowers: &[bool]) -> Vec<u8> {
    let mut encoder = BaselineEncoder::<Q16>::new();
    let mut out = Vec::new();
    for (&raw, &lower) in q16.iter().zip(lowers) {
        out.extend(encoder.put(Probability::from_raw(raw), lower).to_vec());
    }
    out.extend(encoder.finish().to_vec());
    out
}

fn decode_q16(bytes: &[u8], q16: &[u16]) -> Vec<bool> {
    let mut decoder = BaselineDecoder::<Q16>::new(bytes);
    q16.iter().map(|&raw| decoder.test(Probability::from_raw(raw))).collect()
}

fn encode_q17(q17: &[u16], lowers: &[bool]) -> Vec<u8> {
    let mut encoder = BaselineEncoder::<Q17>::new();
    let mut out = Vec::new();
    for (&raw, &lower) in q17.iter().zip(lowers) {
        out.extend(encoder.put(FractionalU16::from_raw(raw), lower).to_vec());
    }
    out.extend(encoder.finish().to_vec());
    out
}

fn decode_q17(bytes: &[u8], q17: &[u16]) -> Vec<bool> {
    let mut decoder = BaselineDecoder::<Q17>::new(bytes);
    q17.iter().map(|&raw| decoder.test(FractionalU16::from_raw(raw))).collect()
}

fn encode_legacy(q17: &[u16], lowers: &[bool]) -> Vec<u8> {
    let mut encoder = legacy_inline::RangeEncoder::new();
    let mut out = Vec::new();
    for (&raw, &lower) in q17.iter().zip(lowers) {
        out.extend(encoder.put(FractionalU16::from_raw(raw), lower).to_vec());
    }
    out.extend(encoder.finish().to_vec());
    out
}

fn decode_legacy(bytes: &[u8], q17: &[u16]) -> Vec<bool> {
    let mut decoder = legacy_inline::RangeDecoder::new(bytes);
    q17.iter().map(|&raw| decoder.test(FractionalU16::from_raw(raw))).collect()
}

fn encode_range_shift(q17: &[u16], lowers: &[bool]) -> Vec<u8> {
    let mut encoder = range_shift::RangeEncoder::new();
    let mut out = Vec::new();
    for (&raw, &lower) in q17.iter().zip(lowers) {
        out.extend(encoder.put(FractionalU16::from_raw(raw), lower).to_vec());
    }
    out.extend(encoder.finish().to_vec());
    out
}

fn decode_range_shift(bytes: &[u8], q17: &[u16]) -> Vec<bool> {
    let mut decoder = range_shift::RangeDecoder::new(bytes);
    q17.iter().map(|&raw| decoder.test(FractionalU16::from_raw(raw))).collect()
}

fn encode_branchless(q17: &[u16], lowers: &[bool]) -> Vec<u8> {
    let mut encoder = branchless::RangeEncoder::new();
    let mut out = Vec::new();
    for (&raw, &lower) in q17.iter().zip(lowers) {
        out.extend(encoder.put(FractionalU16::from_raw(raw), lower).to_vec());
    }
    out.extend(encoder.finish().to_vec());
    out
}

fn decode_branchless(bytes: &[u8], q17: &[u16]) -> Vec<bool> {
    let mut decoder = branchless::RangeDecoder::new(bytes);
    q17.iter().map(|&raw| decoder.test(FractionalU16::from_raw(raw))).collect()
}

fn encode_range_shift_inline(q17: &[u16], lowers: &[bool]) -> Vec<u8> {
    let mut encoder = range_shift_inline::RangeEncoder::new();
    let mut out = Vec::new();
    for (&raw, &lower) in q17.iter().zip(lowers) {
        out.extend(encoder.put(FractionalU16::from_raw(raw), lower).to_vec());
    }
    out.extend(encoder.finish().to_vec());
    out
}

fn decode_range_shift_inline(bytes: &[u8], q17: &[u16]) -> Vec<bool> {
    let mut decoder = range_shift_inline::RangeDecoder::new(bytes);
    q17.iter().map(|&raw| decoder.test(FractionalU16::from_raw(raw))).collect()
}

#[test]
fn every_coder_decodes_what_it_encoded() {
    let w = workload(4096);
    assert_eq!(decode_q16(&encode_q16(&w.q16, &w.lowers), &w.q16), w.lowers);
    assert_eq!(decode_q17(&encode_q17(&w.q17, &w.lowers), &w.q17), w.lowers);
    assert_eq!(decode_legacy(&encode_legacy(&w.q17, &w.lowers), &w.q17), w.lowers);
    assert_eq!(decode_range_shift(&encode_range_shift(&w.q17, &w.lowers), &w.q17), w.lowers);
    assert_eq!(decode_branchless(&encode_branchless(&w.q17, &w.lowers), &w.q17), w.lowers);
    assert_eq!(
        decode_range_shift_inline(&encode_range_shift_inline(&w.q17, &w.lowers), &w.q17),
        w.lowers
    );
}

#[test]
fn empty_decision_sequences_round_trip() {
    let bytes = encode_q17(&[], &[]);
    assert_eq!(decode_q17(&bytes, &[]), Vec::<bool>::new());
    assert_eq!(encode_range_shift(&[], &[]), bytes);
}

#[test]
fn every_encoder_writes_the_same_bytes() {
    let w = workload(4096);
    let q17 = encode_q17(&w.q17, &w.lowers);
    assert_eq!(encode_q16(&w.q16, &w.lowers), q17);
    assert_eq!(encode_legacy(&w.q17, &w.lowers), q17);
    assert_eq!(encode_range_shift(&w.q17, &w.lowers), q17);
    assert_eq!(encode_branchless(&w.q17, &w.lowers), q17);
    assert_eq!(encode_range_shift_inline(&w.q17, &w.lowers), q17);
}

#[test]
fn every_decoder_reads_the_same_decisions() {
    let w = workload(4096);
    let q17 = decode_q17(&w.source, &w.q17);
    assert_eq!(decode_q16(&w.source, &w.q16), q17);
    assert_eq!(decode_legacy(&w.source, &w.q17), q17);
    assert_eq!(decode_range_shift(&w.source, &w.q17), q17);
    assert_eq!(decode_branchless(&w.source, &w.q17), q17);
    assert_eq!(decode_range_shift_inline(&w.source, &w.q17), q17);
}

#[test]
fn transcoding_random_bytes_matches_across_grids() {
    let w = workload(2048);
    let q16_choices = decode_q16(&w.source, &w.q16);
    let q17_choices = decode_q17(&w.source, &w.q17);
    assert_eq!(q16_choices, q17_choices);
    assert_eq!(encode_q16(&w.q16, &q16_choices), encode_range_shift(&w.q17, &q17_choices));
}

#[test]
fn decoder_reads_zeros_past_the_end() {
    let w = workload(1024);
    let bytes = encode_q17(&w.q17, &w.lowers);
    let mut padded = bytes.clone();
    padded.extend([0u8; 16]);
    assert_eq!(decode_q17(&padded, &w.q17), decode_q17(&bytes, &w.q17));
    let short = &w.source[..20];
    let mut short_padded = short.to_vec();
    short_padded.extend([0u8; 9]);
    assert_eq!(decode_range_shift(&short_padded, &w.q17), decode_range_shift(short, &w.q17));
}

#[test]
fn certain_lower_branches_cost_few_bytes() {
    let q17 = vec![0xffffu16; 64];
    let lowers = vec![true; 64];
    let bytes = encode_range_shift(&q17, &lowers);
    assert!(bytes.len() <= 4);
    assert_eq!(decode_range_shift(&bytes, &q17), lowers);
}
