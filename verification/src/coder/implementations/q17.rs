//! The `Q17` grid: raw `r` denotes `(2^16 + r) / 2^17`.
use vstd::prelude::*;

use crate::coder::implementations::{BaselineDecoder, BaselineEncoder, Grid};
use crate::coder::{lemma_split_q17_bounds, split, split_q17, FractionalU16};

verus! {

pub struct Q17;

impl Grid for Q17 {
    type Probability = FractionalU16;

    open spec fn split_spec(range: u32, p: FractionalU16) -> u32 {
        split_q17(range as nat, p.0) as u32
    }

    open spec fn admits(p: FractionalU16) -> bool {
        true
    }

    fn split(range: u32, p: FractionalU16) -> (r: u32) {
        split(range, p)
    }

    proof fn lemma_split_bounds(range: u32, p: FractionalU16) {
        lemma_split_q17_bounds(range as nat, p.0);
    }
}

pub type RangeEncoder = BaselineEncoder<Q17>;

pub type RangeDecoder<'a> = BaselineDecoder<'a, Q17>;

} // verus!
