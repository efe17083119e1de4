//! Consuming implementations for owned ranked-prefix storage.
use vstd::prelude::*;

use crate::bignum::digits_from_u128;
use crate::dyadic::BigDyadic;
use crate::prefix::implementations::lemma_tail_bits_prefix;
use crate::prefix::implementations::widening_u128::{
    lemma_odd_parts_product, lemma_tail_concat, multiply_sixteen, nats_u16, odd_parts, reduce_chunk,
};
use crate::prefix::{
    levels_fold, levels_product, lemma_reduced_factor_facts, lemma_tail_push, push_balanced, reduce_factor,
    reduced_factor, tail_bits, tail_fits, tail_from_reduced, tail_numerator, tail_spec, RankedPrefix,
};

verus! {

/// Which consuming implementation a [`Candidate`] runs.
#[derive(Clone, Copy, Debug, PartialEq, Eq)]
pub enum OwnedAlgorithm {
    BorrowedBaseline,
    ReusedBuffer,
}

/// One consuming implementation selectable by benchmark logic.
#[derive(Clone, Copy, Debug)]
pub struct Candidate {
    pub name: &'static str,
    pub algorithm: OwnedAlgorithm,
}

impl Candidate {
    pub fn compute(self, prefix: Box<RankedPrefix>) -> (r: BigDyadic)
        requires
            tail_fits(prefix@),
        ensures
            r@ == tail_spec(prefix@),
    {
        match self.algorithm {
            OwnedAlgorithm::BorrowedBaseline => borrowed_baseline(prefix),
            OwnedAlgorithm::ReusedBuffer => reused_buffer(prefix),
        }
    }
}

pub fn borrowed_baseline_candidate() -> (r: Candidate)
    ensures
        r.name@ == "borrowed-baseline"@,
        r.algorithm == OwnedAlgorithm::BorrowedBaseline,
{
    Candidate { name: "borrowed-baseline", algorithm: OwnedAlgorithm::BorrowedBaseline }
}

pub fn reused_buffer_candidate() -> (r: Candidate)
    ensures
        r.name@ == "reused-buffer"@,
        r.algorithm == OwnedAlgorithm::ReusedBuffer,
{
    Candidate { name: "reused-buffer", algorithm: OwnedAlgorithm::ReusedBuffer }
}

/// Every consuming implementation.
pub fn candidates() -> (r: Vec<Candidate>)
    ensures
        r@.len() == 2,
        r@[0].algorithm == OwnedAlgorithm::BorrowedBaseline,
        r@[1].algorithm == OwnedAlgorithm::ReusedBuffer,
{
    let mut v = Vec::new();
    v.push(borrowed_baseline_candidate());
    v.push(reused_buffer_candidate());
    v
}

/// The selected consuming implementation.
pub fn compute(prefix: Box<RankedPrefix>) -> (r: BigDyadic)
    requires
        tail_fits(prefix@),
    ensures
        r@ == tail_spec(prefix@),
{
    borrowed_baseline(prefix)
}

pub fn borrowed_baseline(prefix: Box<RankedPrefix>) -> (r: BigDyadic)
    requires
        tail_fits(prefix@),
    ensures
        r@ == tail_spec(prefix@),
{
    super::compute(&*prefix)
}

/// The little-endian bytes of a `u128`.
pub open spec fn le_bytes_u128(value: u128) -> Seq<u8> {
    Seq::new(16, |k: int| ((value as nat / crate::serde_model::pow256(k)) % 256) as u8)
}

/// Reduce the owned bytes sixteen at a time in place, merging block
/// products through an online balanced multiplication tree.
pub fn reused_buffer(prefix: Box<RankedPrefix>) -> (r: BigDyadic)
    requires
        tail_fits(prefix@),
    ensures
        r@ == tail_spec(prefix@),
{
    let ghost input = prefix@;
    let s = prefix.as_slice();
    let mut bytes: Vec<u8> = vstd::slice::slice_to_vec(s);
    let n = bytes.len();
    let mut fractional_bits: usize = 0;
    let mut levels: Vec<Option<Vec<u32>>> = Vec::new();
    let mut start: usize = 0;
    proof {
        assert(input.subrange(0, 0) =~= Seq::<u8>::empty());
    }
    while n - start >= 16
        invariant
            start <= n == input.len(),
            bytes@.len() == n,
            forall|k: int| start <= k < n ==> bytes@[k] == input[k],
            tail_fits(input),
            fractional_bits == tail_bits(input.subrange(0, start as int)),
            levels_product(levels@) == tail_numerator(input.subrange(0, start as int)),
        decreases n - start,
    {
        let mut block = [0u8; 16];
        let mut k: usize = 0;
        while k < 16
            invariant
                k <= 16,
                start + 16 <= n == bytes@.len(),
                block@.len() == 16,
                forall|j: int| 0 <= j < k ==> block@[j] == bytes@[start + j],
            decreases 16 - k,
        {
            block[k] = bytes[start + k];
            k = k + 1;
        }
        let ghost chunk = input.subrange(start as int, start + 16);
        proof {
            assert(block@ =~= chunk);
            lemma_tail_concat(input.subrange(0, start as int), chunk);
            assert(input.subrange(0, start as int) + chunk =~= input.subrange(0, start + 16));
            lemma_tail_bits_prefix(input, start + 16);
        }
        let ghost before_levels = levels_product(levels@);
        let product = reduce_block_in_place(&mut block, &mut fractional_bits);
        proof {
            assert(product == tail_numerator(chunk));
            assert(before_levels * product == tail_numerator(input.subrange(0, start + 16)));
        }
        let mut k: usize = 0;
        while k < 16
            invariant
                k <= 16,
                start + 16 <= n == bytes@.len(),
                forall|j: int| start + 16 <= j < n ==> bytes@[j] == input[j],
            decreases 16 - k,
        {
            bytes.set(start + k, block[k]);
            k = k + 1;
        }
        if product != 1 {
            push_balanced(&mut levels, digits_from_u128(product));
        } else {
            proof {
                assert(before_levels * 1 == before_levels);
            }
        }
        start = start + 16;
    }
    if start < n {
        let remainder = vstd::slice::slice_subrange(bytes.as_slice(), start, n);
        proof {
            assert(remainder@ =~= input.subrange(start as int, n as int));
            lemma_tail_concat(input.subrange(0, start as int), remainder@);
            assert(input.subrange(0, start as int) + remainder@ =~= input.subrange(0, n as int));
            assert(input.subrange(0, n as int) =~= input);
        }
        let ghost before_levels = levels_product(levels@);
        let product = reduce_chunk(remainder, &mut fractional_bits);
        if product != 1 {
            push_balanced(&mut levels, digits_from_u128(product));
        } else {
            proof {
                assert(before_levels * 1 == before_levels);
            }
        }
    }
    proof {
        assert(input.subrange(0, n as int) =~= input);
    }
    let numerator = levels_fold(levels);
    tail_from_reduced(numerator, fractional_bits, Ghost(input))
}

/// Reduce sixteen factors in place: each byte is replaced by its odd part,
/// then the block is overwritten by the little-endian bytes of their
/// product, which is also returned.
fn reduce_block_in_place(block: &mut [u8; 16], fractional_bits: &mut usize) -> (r: u128)
    requires
        *old(fractional_bits) + tail_bits(old(block)@) <= usize::MAX,
    ensures
        r == tail_numerator(old(block)@),
        *final(fractional_bits) == *old(fractional_bits) + tail_bits(old(block)@),
        final(block)@ == le_bytes_u128(r),
{
    let ghost input = block@;
    let ghost start_bits = *fractional_bits;
    let mut odds = [1u16; 16];
    let mut i: usize = 0;
    proof {
        assert(input.subrange(0, 0) =~= Seq::<u8>::empty());
    }
    while i < 16
        invariant
            i <= 16,
            input.len() == 16,
            start_bits + tail_bits(input) <= usize::MAX,
            *fractional_bits == start_bits + tail_bits(input.subrange(0, i as int)),
            block@.len() == 16,
            forall|k: int| i <= k < 16 ==> block@[k] == input[k],
            forall|k: int| 0 <= k < i ==> block@[k] == reduced_factor(input[k]).0,
            forall|k: int| 0 <= k < i ==> odds@[k] == reduced_factor(input[k]).0,
            forall|k: int| i <= k < 16 ==> odds@[k] == 1,
        decreases 16 - i,
    {
        let (odd, bits) = reduce_factor(block[i]);
        proof {
            assert(input.subrange(0, i + 1) =~= input.subrange(0, i as int).push(input[i as int]));
            lemma_tail_push(input.subrange(0, i as int), input[i as int]);
            lemma_tail_bits_prefix(input, i + 1);
        }
        *fractional_bits = *fractional_bits + bits;
        block[i] = odd as u8;
        odds[i] = odd as u16;
        i = i + 1;
    }
    proof {
        assert(input.subrange(0, 16) =~= input);
        assert forall|k: int| 0 <= k < 16 implies 1 <= #[trigger] odds@[k] <= 255 by {
            lemma_reduced_factor_facts(input[k]);
        }
        assert(nats_u16(odds@) =~= odd_parts(input));
        lemma_odd_parts_product(input);
    }
    let product = multiply_sixteen(&odds);
    let mut rest = product;
    let mut k: usize = 0;
    proof {
        assert(crate::serde_model::pow256(0) == 1);
    }
    while k < 16
        invariant
            k <= 16,
            block@.len() == 16,
            rest as nat == product as nat / crate::serde_model::pow256(k as int),
            forall|j: int| 0 <= j < k ==> block@[j] == le_bytes_u128(product)[j],
        decreases 16 - k,
    {
        block[k] = (rest % 256) as u8;
        proof {
            lemma_pow256_step(k as int);
            vstd::arithmetic::div_mod::lemma_div_denominator(
                product as int,
                crate::serde_model::pow256(k as int) as int,
                256,
            );
        }
        rest = rest / 256;
        k = k + 1;
    }
    proof {
        assert(block@ =~= le_bytes_u128(product));
    }
    product
}

/// `256^(k + 1) = 256^k * 256`, and powers of 256 are positive.
proof fn lemma_pow256_step(k: int)
    requires
        k >= 0,
    ensures
        crate::serde_model::pow256(k) > 0,
        crate::serde_model::pow256(k + 1) == crate::serde_model::pow256(k) * 256,
    decreases k,
{
    if k > 0 {
        lemma_pow256_step(k - 1);
    }
}

} // verus!
