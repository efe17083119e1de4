//! Range-form coder with the state kept in plain fields.
use vstd::prelude::*;

use crate::coder::{
    decoder_ok, decoder_renormalize, decoder_renormalize_exec, decoder_step, decoder_step_exec,
    encoder_finish, encoder_finish_exec, encoder_step, encoder_step_exec,
    lemma_decoder_renormalize, lemma_decoder_renormalize_width, split, split_q17, width_ok,
    FractionalU16, OutputBytes, FULL_RANGE,
};

verus! {

/// Range encoder that tracks the working range itself.
pub struct RangeEncoder {
    low: u32,
    range: u32,
    pending: usize,
}

impl RangeEncoder {
    /// `(low, range, pending)`.
    pub closed spec fn state(&self) -> (u32, u32, nat) {
        (self.low, self.range, self.pending as nat)
    }

    #[verifier::type_invariant]
    closed spec fn inv(&self) -> bool {
        width_ok(self.range, true)
    }

    pub fn new() -> (r: Self)
        ensures
            r.state() == (0u32, FULL_RANGE, 0nat),
    {
        RangeEncoder { low: 0, range: FULL_RANGE, pending: 0 }
    }

    /// Encode one binary decision with lower-branch probability `p`.
    pub fn put(&mut self, p: FractionalU16, lower: bool) -> (output: OutputBytes)
        requires
            old(self).state().2 + 3 <= usize::MAX,
        ensures
            ({
                let s = old(self).state();
                let r = encoder_step(s.0, s.1, s.2, split_q17(s.1 as nat, p.0) as u32, lower, true);
                &&& final(self).state() == (r.0, r.1, r.2)
                &&& output@ == r.3
            }),
    {
        proof {
            use_type_invariant(&*self);
        }
        let split = split(self.range, p);
        let mut low = self.low;
        let mut range = self.range;
        let mut pending = self.pending;
        let output = encoder_step_exec(&mut low, &mut range, &mut pending, split, lower, true);
        *self = RangeEncoder { low, range, pending };
        output
    }

    /// Flush the final interval.
    pub fn finish(self) -> (output: OutputBytes)
        requires
            self.state().2 + 3 <= usize::MAX,
        ensures
            output@ == encoder_finish(self.state().0, self.state().2, true),
    {
        encoder_finish_exec(self.low, self.pending, true)
    }
}

impl Default for RangeEncoder {
    fn default() -> (r: Self)
        ensures
            r.state() == (0u32, FULL_RANGE, 0nat),
    {
        Self::new()
    }
}

/// Range decoder that tracks the working range itself.
#[derive(Clone, Copy)]
pub struct RangeDecoder<'a> {
    numerator: u32,
    range: u32,
    input: &'a [u8],
}

impl<'a> RangeDecoder<'a> {
    /// `(numerator, range, remaining input)`.
    pub closed spec fn state(&self) -> (u32, u32, Seq<u8>) {
        (self.numerator, self.range, self.input@)
    }

    #[verifier::type_invariant]
    closed spec fn inv(&self) -> bool {
        decoder_ok(self.numerator, self.range, true)
    }

    pub fn new(input: &'a [u8]) -> (r: Self)
        ensures
            r.state() == decoder_renormalize(0, 1, input@, 3, true),
    {
        let mut numerator: u32 = 0;
        let mut range: u32 = 1;
        let mut rest = input;
        proof {
            lemma_decoder_renormalize(0, 1, input@, 3, true);
            lemma_decoder_renormalize_width(0, 1, input@, true);
        }
        decoder_renormalize_exec(&mut numerator, &mut range, &mut rest, true);
        RangeDecoder { numerator, range, input: rest }
    }

    /// Decode one binary decision with lower-branch probability `p`.
    pub fn test(&mut self, p: FractionalU16) -> (lower: bool)
        ensures
            ({
                let s = old(self).state();
                let r = decoder_step(s.0, s.1, s.2, split_q17(s.1 as nat, p.0) as u32, true);
                &&& lower == r.0
                &&& final(self).state() == (r.1, r.2, r.3)
            }),
    {
        proof {
            use_type_invariant(&*self);
        }
        let split = split(self.range, p);
        let mut numerator = self.numerator;
        let mut range = self.range;
        let mut input = self.input;
        let lower = decoder_step_exec(&mut numerator, &mut range, &mut input, split, true);
        *self = RangeDecoder { numerator, range, input };
        lower
    }
}

} // verus!
