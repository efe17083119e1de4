//! Sequential exact correctness reference.
use vstd::arithmetic::mul::lemma_mul_is_associative;
use vstd::prelude::*;

use crate::bignum::{big_mul, digits_from_u64, nat_of};
use crate::dyadic::BigDyadic;
use crate::prefix::implementations::{chunk_bound, lemma_chunk_bound_step, lemma_tail_bits_prefix};
use crate::prefix::{
    lemma_tail_push, reduce_factor, tail_bits, tail_fits, tail_from_reduced, tail_numerator,
    tail_spec, RankedPrefix,
};

verus! {

/// Exact tail computed left to right: the running numerator takes the
/// reduced odd factors in prefix order. Up to eight of them are gathered in a
/// machine word first, so the wide multiplication runs once per word.
pub fn compute(prefix: &RankedPrefix) -> (r: BigDyadic)
    requires
        tail_fits(prefix@),
    ensures
        r@ == tail_spec(prefix@),
{
    let s = prefix.as_slice();
    let mut numerator = digits_from_u64(1);
    let mut fractional_bits: usize = 0;
    let mut word: u64 = 1;
    let mut in_word: usize = 0;
    let mut i: usize = 0;
    proof {
        assert(s@.subrange(0, 0) =~= Seq::<u8>::empty());
        reveal_with_fuel(chunk_bound, 1);
    }
    while i < s.len()
        invariant
            i <= s@.len(),
            s@ == prefix@,
            tail_fits(s@),
            in_word < 8,
            word <= chunk_bound(in_word as nat),
            fractional_bits == tail_bits(s@.subrange(0, i as int)),
            nat_of(numerator@) * word == tail_numerator(s@.subrange(0, i as int)),
        decreases s.len() - i,
    {
        let (odd, bits) = reduce_factor(s[i]);
        proof {
            assert(s@.subrange(0, i + 1) =~= s@.subrange(0, i as int).push(s@[i as int]));
            lemma_tail_push(s@.subrange(0, i as int), s@[i as int]);
            lemma_tail_bits_prefix(s@, i + 1);
            lemma_chunk_bound_step(word as nat, odd as nat, in_word as nat);
            lemma_mul_is_associative(nat_of(numerator@) as int, word as int, odd as int);
        }
        word = word * odd;
        in_word = in_word + 1;
        fractional_bits = fractional_bits + bits;
        if in_word == 8 {
            numerator = big_mul(&numerator, &digits_from_u64(word));
            proof {
                assert(nat_of(numerator@) * 1 == nat_of(numerator@));
            }
            word = 1;
            in_word = 0;
            proof {
                reveal_with_fuel(chunk_bound, 1);
            }
        }
        i = i + 1;
    }
    proof {
        assert(s@.subrange(0, s@.len() as int) =~= s@);
    }
    let numerator = big_mul(&numerator, &digits_from_u64(word));
    tail_from_reduced(numerator, fractional_bits, Ghost(prefix@))
}

} // verus!
