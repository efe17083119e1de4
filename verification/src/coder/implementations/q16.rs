//! The `Q16` grid: raw `r` denotes `r / 2^16`, restricted to `[1/2, 1)`.
use vstd::prelude::*;

use crate::coder::implementations::{BaselineDecoder, BaselineEncoder, Grid};

verus! {

/// A `Q16` probability of the lower branch.
#[derive(Clone, Copy, Debug)]
pub struct Probability(u16);

impl Probability {
    /// The raw numerator over `2^16`.
    pub closed spec fn raw_spec(self) -> u16 {
        self.0
    }

    pub fn from_raw(raw: u16) -> (r: Self)
        ensures
            r.raw_spec() == raw,
    {
        Probability(raw)
    }
}

/// `floor(range * raw / 2^16)`.
pub open spec fn split_q16(range: u32, raw: u16) -> u32 {
    ((range * raw) / 0x1_0000) as u32
}

pub struct Q16;

impl Grid for Q16 {
    type Probability = Probability;

    open spec fn split_spec(range: u32, p: Probability) -> u32 {
        split_q16(range, p.raw_spec())
    }

    open spec fn admits(p: Probability) -> bool {
        p.raw_spec() >= 0x8000
    }

    fn split(range: u32, p: Probability) -> (r: u32) {
        let raw = p.0;
        proof {
            assert((range as u64) * (raw as u64) <= 0xffff_ffff * 0xffff) by (nonlinear_arith)
                requires
                    raw <= 0xffff,
            ;
        }
        let product = (range as u64) * (raw as u64);
        proof {
            assert(product >> 16 == product / 0x1_0000) by (bit_vector);
            assert(range * raw >= range * 0x8000) by (nonlinear_arith)
                requires
                    raw >= 0x8000,
            ;
            assert(range * raw <= range * 0x1_0000 - range) by (nonlinear_arith)
                requires
                    raw <= 0xffff,
            ;
            assert((range * raw) / 0x1_0000 >= 1) by (nonlinear_arith)
                requires
                    range * raw >= range * 0x8000,
                    range >= 2,
            ;
            assert((range * raw) / 0x1_0000 < range) by (nonlinear_arith)
                requires
                    range * raw <= range * 0x1_0000 - range,
                    range >= 2,
            ;
        }
        (product >> 16) as u32
    }

    proof fn lemma_split_bounds(range: u32, p: Probability) {
        let raw = p.0;
        assert(range * raw >= range * 0x8000) by (nonlinear_arith)
            requires
                raw >= 0x8000,
        ;
        assert(range * raw <= range * 0x1_0000 - range) by (nonlinear_arith)
            requires
                raw <= 0xffff,
        ;
        assert((range * raw) / 0x1_0000 >= 1) by (nonlinear_arith)
            requires
                range * raw >= range * 0x8000,
                range >= 2,
        ;
        assert((range * raw) / 0x1_0000 < range) by (nonlinear_arith)
            requires
                range * raw <= range * 0x1_0000 - range,
                range >= 2,
        ;
    }
}

pub type RangeEncoder = BaselineEncoder<Q16>;

pub type RangeDecoder<'a> = BaselineDecoder<'a, Q16>;

} // verus!
