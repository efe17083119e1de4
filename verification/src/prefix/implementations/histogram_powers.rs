//! Repeated odd factors reduced with histogram powers.
use vstd::arithmetic::power;
use vstd::prelude::*;

use crate::bignum::digits_from_u64;
use crate::dyadic::BigDyadic;
use crate::prefix::implementations::batch_balanced::{digits_product, lemma_digits_product_push};
use crate::prefix::implementations::histogram::{
    histogram_product, lemma_histogram_is_tail, lemma_odd_count_support, odd_count, pow,
    product_tree, reduced_histogram,
};
use crate::prefix::{tail_fits, tail_from_reduced, tail_numerator, tail_spec, RankedPrefix};

verus! {

/// Exact tail from one power per distinct reduced odd factor.
pub fn compute(prefix: &RankedPrefix) -> (r: BigDyadic)
    requires
        tail_fits(prefix@),
    ensures
        r@ == tail_spec(prefix@),
{
    let ghost s = prefix@;
    let mut odd_counts = [0usize; 256];
    let fractional_bits = reduced_histogram(prefix, &mut odd_counts);
    let mut powers: Vec<Vec<u32>> = Vec::new();
    let mut odd: usize = 3;
    proof {
        lemma_odd_count_support(s, 0);
        lemma_odd_count_support(s, 2);
        power::lemma_pow0(0);
        power::lemma_pow0(2);
        power::lemma1_pow(odd_count(s, 1));
        reveal_with_fuel(histogram_product, 4);
    }
    while odd < 256
        invariant
            3 <= odd <= 257,
            odd % 2 == 1,
            s == prefix@,
            forall|o: int| 0 <= o < 256 ==> odd_counts@[o] == odd_count(s, o),
            digits_product(powers@) == histogram_product(s, odd as int),
        decreases 257 - odd,
    {
        let count = odd_counts[odd];
        let ghost before = histogram_product(s, odd as int);
        if count != 0 {
            let term = pow(digits_from_u64(odd as u64), count);
            proof {
                lemma_digits_product_push(powers@, term);
            }
            powers.push(term);
        } else {
            proof {
                power::lemma_pow0(odd as int);
            }
        }
        proof {
            lemma_odd_count_support(s, odd + 1);
            power::lemma_pow0(odd + 1);
            assert(count == odd_count(s, odd as int));
            assert(histogram_product(s, odd + 1) == before * power::pow(odd as int, count as nat));
            assert(histogram_product(s, odd + 2) == histogram_product(s, odd + 1) * power::pow(
                odd + 1,
                0,
            ));
        }
        odd = odd + 2;
    }
    proof {
        lemma_odd_count_support(s, 256);
        power::lemma_pow0(256);
        assert(histogram_product(s, 257) == histogram_product(s, 256) * 1);
        lemma_histogram_is_tail(s);
    }
    let numerator = product_tree(powers);
    proof {
        assert(digits_product(powers@) == tail_numerator(s));
    }
    tail_from_reduced(numerator, fractional_bits, Ghost(prefix@))
}

} // verus!
