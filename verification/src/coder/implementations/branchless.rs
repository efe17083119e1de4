//! Range-form coder whose branch choice is computed without branching.
use vstd::prelude::*;

use crate::coder::{
    decoder_ok, decoder_renormalize, decoder_renormalize_exec, decoder_step, encoder_choose,
    encoder_finish, encoder_finish_exec, encoder_renormalize_exec, encoder_step,
    lemma_decoder_renormalize, lemma_decoder_renormalize_width, lemma_encoder_renormalize, split,
    split_q17, width_ok, FractionalU16, OutputBytes, FULL_RANGE,
};

verus! {

/// `std::hint::select_unpredictable`: `a` when `condition` holds, else `b`.
#[verifier::external_body]
fn select_unpredictable_u32(condition: bool, a: u32, b: u32) -> (r: u32)
    ensures
        r == if condition {
            a
        } else {
            b
        },
{
    std::hint::select_unpredictable(condition, a, b)
}

/// Range encoder that tracks the working range itself.
pub struct RangeEncoder {
    low: u32,
    range: u32,
    pending: usize,
}

impl RangeEncoder {
    /// `(low, range, pending)`.
    pub closed spec fn state(&self) -> (u32, u32, nat) {
        (self.low, self.range, self.pending as nat)
    }

    #[verifier::type_invariant]
    closed spec fn inv(&self) -> bool {
        width_ok(self.range, true)
    }

    pub fn new() -> (r: Self)
        ensures
            r.state() == (0u32, FULL_RANGE, 0nat),
    {
        RangeEncoder { low: 0, range: FULL_RANGE, pending: 0 }
    }

    /// Encode one binary decision with lower-branch probability `p`.
    pub fn put(&mut self, p: FractionalU16, lower: bool) -> (output: OutputBytes)
        requires
            old(self).state().2 + 3 <= usize::MAX,
        ensures
            ({
                let s = old(self).state();
                let r = encoder_step(s.0, s.1, s.2, split_q17(s.1 as nat, p.0) as u32, lower, true);
                &&& final(self).state() == (r.0, r.1, r.2)
                &&& output@ == r.3
            }),
    {
        proof {
            use_type_invariant(&*self);
        }
        let split = split(self.range, p);
        let mut output = OutputBytes::new();
        let mut low = self.low;
        let mut range = self.range;
        let mut pending = self.pending;
        let old_head = low >> 24u32;
        let offset = select_unpredictable_u32(lower, 0, split);
        let before = low;
        let after = low.wrapping_add(offset);
        low = after;
        range = select_unpredictable_u32(lower, split, range - split);
        let new_head = after >> 24u32;
        proof {
            assert((old_head != new_head) == (((before >> 24u32) as u8) != ((after >> 24u32) as u8)))
                by (bit_vector)
                requires
                    old_head == before >> 24u32,
                    new_head == after >> 24u32,
            ;
        }
        if new_head != old_head {
            if pending == 0 {
                pending = 1;
            } else {
                output.push(new_head as u8, 0x00, pending - 1);
                low = low & 0x00ff_ffffu32;
                pending = 0;
            }
        }
        proof {
            let c = encoder_choose(before, self.range, self.pending as nat, split, lower, true);
            assert(output@ =~= c.3);
            assert(low == c.0 && range == c.1 && pending == c.2);
            lemma_encoder_renormalize(c.0, c.1, c.2, true);
        }
        encoder_renormalize_exec(&mut low, &mut range, &mut pending, &mut output, true);
        *self = RangeEncoder { low, range, pending };
        output
    }

    /// Flush the final interval.
    pub fn finish(self) -> (output: OutputBytes)
        requires
            self.state().2 + 3 <= usize::MAX,
        ensures
            output@ == encoder_finish(self.state().0, self.state().2, true),
    {
        encoder_finish_exec(self.low, self.pending, true)
    }
}

impl Default for RangeEncoder {
    fn default() -> (r: Self)
        ensures
            r.state() == (0u32, FULL_RANGE, 0nat),
    {
        Self::new()
    }
}

/// Range decoder that tracks the working range itself.
#[derive(Clone, Copy)]
pub struct RangeDecoder<'a> {
    numerator: u32,
    range: u32,
    input: &'a [u8],
}

impl<'a> RangeDecoder<'a> {
    /// `(numerator, range, remaining input)`.
    pub closed spec fn state(&self) -> (u32, u32, Seq<u8>) {
        (self.numerator, self.range, self.input@)
    }

    #[verifier::type_invariant]
    closed spec fn inv(&self) -> bool {
        decoder_ok(self.numerator, self.range, true)
    }

    pub fn new(input: &'a [u8]) -> (r: Self)
        ensures
            r.state() == decoder_renormalize(0, 1, input@, 3, true),
    {
        let mut numerator: u32 = 0;
        let mut range: u32 = 1;
        let mut rest = input;
        proof {
            lemma_decoder_renormalize(0, 1, input@, 3, true);
            lemma_decoder_renormalize_width(0, 1, input@, true);
        }
        decoder_renormalize_exec(&mut numerator, &mut range, &mut rest, true);
        RangeDecoder { numerator, range, input: rest }
    }

    /// Decode one binary decision with lower-branch probability `p`.
    pub fn test(&mut self, p: FractionalU16) -> (lower: bool)
        ensures
            ({
                let s = old(self).state();
                let r = decoder_step(s.0, s.1, s.2, split_q17(s.1 as nat, p.0) as u32, true);
                &&& lower == r.0
                &&& final(self).state() == (r.1, r.2, r.3)
            }),
    {
        proof {
            use_type_invariant(&*self);
        }
        let split = split(self.range, p);
        let mut numerator = self.numerator;
        let mut range = self.range;
        let mut input = self.input;
        let lower = numerator < split;
        let offset = select_unpredictable_u32(lower, 0, split);
        numerator = numerator.wrapping_sub(offset);
        range = select_unpredictable_u32(lower, split, range - split);
        proof {
            lemma_decoder_renormalize(numerator, range, input@, 3, true);
            lemma_decoder_renormalize_width(numerator, range, input@, true);
        }
        decoder_renormalize_exec(&mut numerator, &mut range, &mut input, true);
        *self = RangeDecoder { numerator, range, input };
        lower
    }
}

} // verus!
