//! Round-based pairwise multiplication tree.
use vstd::arithmetic::mul::*;
use vstd::prelude::*;

use crate::bignum::{big_mul, digits_from_u64, nat_of};
use crate::dyadic::BigDyadic;
use crate::prefix::implementations::{chunk_bound, lemma_chunk_bound_step, lemma_tail_bits_prefix};
use crate::prefix::{
    lemma_tail_push, reduce_factor, tail_bits, tail_fits, tail_from_reduced, tail_numerator,
    tail_spec, RankedPrefix,
};

verus! {

/// Product of the values of a list of digit vectors.
pub open spec fn digits_product(values: Seq<Vec<u32>>) -> nat
    decreases values.len(),
{
    if values.len() == 0 {
        1
    } else {
        digits_product(values.drop_last()) * nat_of(values.last()@)
    }
}

pub(crate) proof fn lemma_digits_product_push(values: Seq<Vec<u32>>, v: Vec<u32>)
    ensures
        digits_product(values.push(v)) == digits_product(values) * nat_of(v@),
{
    assert(values.push(v).drop_last() =~= values);
}

/// Multiply neighbouring pairs until one product remains.
pub fn product_rounds(terms: Vec<Vec<u32>>) -> (r: Vec<u32>)
    ensures
        nat_of(r@) == digits_product(terms@),
{
    let ghost total = digits_product(terms@);
    let mut products = terms;
    while products.len() > 1
        invariant
            digits_product(products@) == total,
            total == digits_product(terms@),
        decreases products.len(),
    {
        let mut next: Vec<Vec<u32>> = Vec::new();
        let mut i: usize = 0;
        proof {
            assert(products@.subrange(0, 0) =~= Seq::<Vec<u32>>::empty());
        }
        while i < products.len()
            invariant
                i <= products.len(),
                products.len() > 1,
                digits_product(next@) == digits_product(products@.subrange(0, i as int)),
                next.len() == (i + 1) / 2,
                i % 2 == 0 || i == products.len(),
            decreases products.len() - i,
        {
            if i + 1 < products.len() {
                let product = big_mul(&products[i], &products[i + 1]);
                proof {
                    let a = products@.subrange(0, i as int);
                    assert(products@.subrange(0, i + 1) =~= a.push(products@[i as int]));
                    assert(products@.subrange(0, i + 2) =~= a.push(products@[i as int]).push(
                        products@[i + 1],
                    ));
                    lemma_digits_product_push(a, products@[i as int]);
                    lemma_digits_product_push(a.push(products@[i as int]), products@[i + 1]);
                    lemma_digits_product_push(next@, product);
                    lemma_mul_is_associative(
                        digits_product(a) as int,
                        nat_of(products@[i as int]@) as int,
                        nat_of(products@[i + 1]@) as int,
                    );
                }
                next.push(product);
                i = i + 2;
            } else {
                let last = products[i].clone();
                proof {
                    let a = products@.subrange(0, i as int);
                    assert(products@.subrange(0, i + 1) =~= a.push(products@[i as int]));
                    lemma_digits_product_push(a, products@[i as int]);
                    lemma_digits_product_push(next@, last);
                }
                next.push(last);
                i = i + 1;
            }
        }
        proof {
            assert(products@.subrange(0, products.len() as int) =~= products@);
        }
        products = next;
    }
    if products.len() == 1 {
        proof {
            assert(products@.drop_last() =~= Seq::<Vec<u32>>::empty());
            assert(digits_product(products@.drop_last()) == 1);
            assert(products@.last() == products@[0]);
            assert(digits_product(products@) == 1 * nat_of(products@[0]@));
        }
        products[0].clone()
    } else {
        digits_from_u64(1)
    }
}

/// Exact tail with chunk products of eight factors multiplied in balanced
/// rounds.
pub fn compute(prefix: &RankedPrefix) -> (r: BigDyadic)
    requires
        tail_fits(prefix@),
    ensures
        r@ == tail_spec(prefix@),
{
    if prefix.is_empty() {
        return BigDyadic::one();
    }
    let s = prefix.as_slice();
    let n = s.len();
    let mut fractional_bits: usize = 0;
    let mut products: Vec<Vec<u32>> = Vec::new();
    let mut start: usize = 0;
    proof {
        assert(s@.subrange(0, 0) =~= Seq::<u8>::empty());
    }
    while start < n
        invariant
            start <= n,
            n == s@.len(),
            s@ == prefix@,
            tail_fits(s@),
            fractional_bits == tail_bits(s@.subrange(0, start as int)),
            digits_product(products@) == tail_numerator(s@.subrange(0, start as int)),
        decreases n - start,
    {
        let end = if n - start < 8 {
            n
        } else {
            start + 8
        };
        let mut product: u64 = 1;
        let mut i = start;
        proof {
            reveal_with_fuel(chunk_bound, 2);
        }
        while i < end
            invariant
                start <= i <= end <= n,
                end - start <= 8,
                n == s@.len(),
                tail_fits(s@),
                fractional_bits == tail_bits(s@.subrange(0, i as int)),
                digits_product(products@) * product == tail_numerator(s@.subrange(0, i as int)),
                product <= chunk_bound((i - start) as nat),
            decreases end - i,
        {
            let (odd, bits) = reduce_factor(s[i]);
            proof {
                assert(s@.subrange(0, i + 1) =~= s@.subrange(0, i as int).push(s@[i as int]));
                lemma_tail_push(s@.subrange(0, i as int), s@[i as int]);
                lemma_tail_bits_prefix(s@, i + 1);
                lemma_chunk_bound_step(product as nat, odd as nat, (i - start) as nat);
                lemma_mul_is_associative(
                    digits_product(products@) as int,
                    product as int,
                    odd as int,
                );
            }
            fractional_bits = fractional_bits + bits;
            product = product * odd;
            i = i + 1;
        }
        if product != 1 {
            let value = digits_from_u64(product);
            proof {
                lemma_digits_product_push(products@, value);
            }
            products.push(value);
        }
        start = end;
    }
    proof {
        assert(s@.subrange(0, n as int) =~= s@);
    }
    let numerator = product_rounds(products);
    tail_from_reduced(numerator, fractional_bits, Ghost(prefix@))
}

} // verus!
