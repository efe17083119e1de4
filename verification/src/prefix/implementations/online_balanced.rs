//! Online binary-counter multiplication tree.
use vstd::prelude::*;

use crate::bignum::digits_from_u64;
use crate::dyadic::BigDyadic;
use crate::prefix::implementations::{chunk_bound, lemma_chunk_bound_step, lemma_tail_bits_prefix};
use crate::prefix::{
    levels_fold, levels_product, lemma_tail_push, push_balanced, reduce_factor, tail_bits,
    tail_fits, tail_from_reduced, tail_numerator, tail_spec, RankedPrefix,
};

verus! {

/// Exact tail with chunk products of eight factors merged through an online
/// balanced multiplication tree.
pub fn compute(prefix: &RankedPrefix) -> (r: BigDyadic)
    requires
        tail_fits(prefix@),
    ensures
        r@ == tail_spec(prefix@),
{
    if prefix.is_empty() {
        proof {
            assert(tail_numerator(prefix@) == 1);
            assert(tail_bits(prefix@) == 0);
        }
        return BigDyadic::one();
    }
    let s = prefix.as_slice();
    let n = s.len();
    let mut fractional_bits: usize = 0;
    let mut levels: Vec<Option<Vec<u32>>> = Vec::new();
    let mut start: usize = 0;
    proof {
        assert(s@.subrange(0, 0) =~= Seq::<u8>::empty());
    }
    while start < n
        invariant
            start <= n,
            n == s@.len(),
            s@ == prefix@,
            tail_fits(s@),
            fractional_bits == tail_bits(s@.subrange(0, start as int)),
            levels_product(levels@) == tail_numerator(s@.subrange(0, start as int)),
        decreases n - start,
    {
        let end = if n - start < 8 {
            n
        } else {
            start + 8
        };
        let mut product: u64 = 1;
        let mut i = start;
        proof {
            reveal_with_fuel(chunk_bound, 2);
        }
        while i < end
            invariant
                start <= i <= end <= n,
                end - start <= 8,
                n == s@.len(),
                tail_fits(s@),
                fractional_bits == tail_bits(s@.subrange(0, i as int)),
                levels_product(levels@) * product == tail_numerator(s@.subrange(0, i as int)),
                product <= chunk_bound((i - start) as nat),
            decreases end - i,
        {
            let (odd, bits) = reduce_factor(s[i]);
            proof {
                assert(s@.subrange(0, i + 1) =~= s@.subrange(0, i as int).push(s@[i as int]));
                lemma_tail_push(s@.subrange(0, i as int), s@[i as int]);
                lemma_tail_bits_prefix(s@, i + 1);
                lemma_chunk_bound_step(product as nat, odd as nat, (i - start) as nat);
                vstd::arithmetic::mul::lemma_mul_is_associative(
                    levels_product(levels@) as int,
                    product as int,
                    odd as int,
                );
            }
            fractional_bits = fractional_bits + bits;
            product = product * odd;
            i = i + 1;
        }
        if product != 1 {
            push_balanced(&mut levels, digits_from_u64(product));
        }
        start = end;
    }
    proof {
        assert(s@.subrange(0, n as int) =~= s@);
    }
    let numerator = levels_fold(levels);
    tail_from_reduced(numerator, fractional_bits, Ghost(prefix@))
}

} // verus!
