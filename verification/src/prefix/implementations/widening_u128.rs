//! Pairwise 16-factor widening tree ending in `u128`.
use vstd::prelude::*;

use crate::bignum::digits_from_u128;
use crate::dyadic::BigDyadic;
use crate::prefix::implementations::lemma_tail_bits_prefix;
use crate::prefix::{
    levels_fold, levels_product, lemma_reduced_factor_facts, lemma_tail_push, push_balanced, reduce_factor,
    reduced_factor, tail_bits, tail_fits, tail_from_reduced, tail_numerator, tail_spec, RankedPrefix,
};

verus! {

/// The product of a sequence of naturals.
pub open spec fn product(s: Seq<nat>) -> nat
    decreases s.len(),
{
    if s.len() == 0 {
        1
    } else {
        product(s.drop_last()) * s.last()
    }
}

/// Neighbours multiplied in pairs: entry `i` is `s[2i] * s[2i + 1]`.
pub open spec fn pair_products(s: Seq<nat>) -> Seq<nat> {
    Seq::new(s.len() / 2, |i: int| s[2 * i] * s[2 * i + 1])
}

/// The reduced odd parts of a chunk's factors.
pub open spec fn odd_parts(chunk: Seq<u8>) -> Seq<nat> {
    Seq::new(chunk.len(), |i: int| reduced_factor(chunk[i]).0)
}

/// Multiplying neighbours in pairs keeps the product of an even-length
/// sequence.
pub proof fn lemma_pair_products(s: Seq<nat>)
    requires
        s.len() % 2 == 0,
    ensures
        product(pair_products(s)) == product(s),
    decreases s.len(),
{
    if s.len() > 0 {
        let t = s.subrange(0, s.len() - 2);
        lemma_pair_products(t);
        let a = s[s.len() - 2];
        let b = s[s.len() - 1];
        assert(pair_products(s).drop_last() =~= pair_products(t));
        assert(pair_products(s).last() == a * b);
        assert(s.drop_last().drop_last() =~= t);
        assert(s.drop_last().last() == a);
        assert(product(s) == product(s.drop_last()) * b);
        assert(product(s.drop_last()) == product(t) * a);
        assert(product(pair_products(s)) == product(pair_products(t)) * (a * b));
        vstd::arithmetic::mul::lemma_mul_is_associative(product(t) as int, a as int, b as int);
    }
}

/// The chunk's tail numerator is the product of its odd parts.
pub proof fn lemma_odd_parts_product(chunk: Seq<u8>)
    ensures
        product(odd_parts(chunk)) == tail_numerator(chunk),
    decreases chunk.len(),
{
    if chunk.len() > 0 {
        lemma_odd_parts_product(chunk.drop_last());
        assert(odd_parts(chunk).drop_last() =~= odd_parts(chunk.drop_last()));
    }
}

/// Padding with ones keeps a product.
pub proof fn lemma_product_padded(s: Seq<nat>, n: nat)
    ensures
        product(s + Seq::new(n, |i: int| 1nat)) == product(s),
    decreases n,
{
    if n > 0 {
        lemma_product_padded(s, (n - 1) as nat);
        let padded = s + Seq::new(n, |i: int| 1nat);
        assert(padded.drop_last() =~= s + Seq::new((n - 1) as nat, |i: int| 1nat));
        assert(padded.last() == 1);
        assert(product(padded) == product(padded.drop_last()) * 1);
    } else {
        assert(s + Seq::new(0, |i: int| 1nat) =~= s);
    }
}

/// The widened values of a `u16` array.
pub open spec fn nats_u16(s: Seq<u16>) -> Seq<nat> {
    Seq::new(s.len(), |i: int| s[i] as nat)
}

pub open spec fn nats_u32(s: Seq<u32>) -> Seq<nat> {
    Seq::new(s.len(), |i: int| s[i] as nat)
}

pub open spec fn nats_u64(s: Seq<u64>) -> Seq<nat> {
    Seq::new(s.len(), |i: int| s[i] as nat)
}

pub open spec fn nats_u128(s: Seq<u128>) -> Seq<nat> {
    Seq::new(s.len(), |i: int| s[i] as nat)
}

/// The product of two naturals.
pub proof fn lemma_product_two(s: Seq<nat>)
    requires
        s.len() == 2,
    ensures
        product(s) == s[0] * s[1],
{
    let first = s.drop_last();
    assert(first.drop_last() =~= Seq::<nat>::empty());
    assert(product(first.drop_last()) == 1);
    assert(first.last() == s[0]);
    assert(product(first) == 1 * s[0]);
    assert(product(first) == s[0]);
    assert(product(s) == product(first) * s[1]);
}

/// Reduce at most sixteen factors to the product of their odd parts, adding
/// their fractional bits to `fractional_bits`.
pub fn reduce_chunk(chunk: &[u8], fractional_bits: &mut usize) -> (r: u128)
    requires
        chunk@.len() <= 16,
        *old(fractional_bits) + tail_bits(chunk@) <= usize::MAX,
    ensures
        r == tail_numerator(chunk@),
        *final(fractional_bits) == *old(fractional_bits) + tail_bits(chunk@),
{
    let mut u8ish = [1u16; 16];
    let mut i: usize = 0;
    let ghost start_bits = *fractional_bits;
    proof {
        assert(chunk@.subrange(0, 0) =~= Seq::<u8>::empty());
    }
    while i < chunk.len()
        invariant
            i <= chunk@.len() <= 16,
            start_bits + tail_bits(chunk@) <= usize::MAX,
            *fractional_bits == start_bits + tail_bits(chunk@.subrange(0, i as int)),
            u8ish@.len() == 16,
            forall|k: int| 0 <= k < i ==> u8ish@[k] == reduced_factor(chunk@[k]).0,
            forall|k: int| i <= k < 16 ==> u8ish@[k] == 1,
        decreases chunk@.len() - i,
    {
        let (odd, bits) = reduce_factor(chunk[i]);
        proof {
            assert(chunk@.subrange(0, i + 1) =~= chunk@.subrange(0, i as int).push(chunk@[i as int]));
            lemma_tail_push(chunk@.subrange(0, i as int), chunk@[i as int]);
            lemma_tail_bits_prefix(chunk@, i + 1);
        }
        *fractional_bits = *fractional_bits + bits;
        u8ish[i] = odd as u16;
        i = i + 1;
    }
    proof {
        assert(chunk@.subrange(0, chunk@.len() as int) =~= chunk@);
        assert forall|k: int| 0 <= k < 16 implies 1 <= #[trigger] u8ish@[k] <= 255 by {
            if k < chunk@.len() {
                lemma_reduced_factor_facts(chunk@[k]);
            }
        }
        let padded = odd_parts(chunk@) + Seq::new((16 - chunk@.len()) as nat, |k: int| 1nat);
        assert(nats_u16(u8ish@) =~= padded);
        lemma_product_padded(odd_parts(chunk@), (16 - chunk@.len()) as nat);
        lemma_odd_parts_product(chunk@);
    }
    multiply_sixteen(&u8ish)
}


/// The product of sixteen odd parts, multiplied pairwise through `u32`,
/// `u64` and `u128`.
pub fn multiply_sixteen(u8ish: &[u16; 16]) -> (r: u128)
    requires
        forall|k: int| 0 <= k < 16 ==> 1 <= #[trigger] u8ish@[k] <= 255,
    ensures
        r == product(nats_u16(u8ish@)),
{
    let mut u16s = [1u32; 8];
    let mut j: usize = 0;
    while j < 8
        invariant
            j <= 8,
            u8ish@.len() == 16,
            u16s@.len() == 8,
            forall|k: int| 0 <= k < 16 ==> 1 <= #[trigger] u8ish@[k] <= 255,
            forall|k: int| 0 <= k < j ==> #[trigger] u16s@[k] == u8ish@[2 * k] as nat * u8ish@[2 * k + 1] as nat,
            forall|k: int| 0 <= k < j ==> 1 <= #[trigger] u16s@[k] <= 65025,
        decreases 8 - j,
    {
        let left = u8ish[2 * j] as u32;
        let right = u8ish[2 * j + 1] as u32;
        proof {
            vstd::arithmetic::mul::lemma_mul_upper_bound(left as int, 255, right as int, 255);
            vstd::arithmetic::mul::lemma_mul_increases(left as int, right as int);
        }
        u16s[j] = left * right;
        j = j + 1;
    }
    proof {
        assert(nats_u32(u16s@) =~= pair_products(nats_u16(u8ish@)));
        lemma_pair_products(nats_u16(u8ish@));
    }
    let mut u32s = [1u64; 4];
    let mut j: usize = 0;
    while j < 4
        invariant
            j <= 4,
            u16s@.len() == 8,
            u32s@.len() == 4,
            forall|k: int| 0 <= k < 8 ==> 1 <= #[trigger] u16s@[k] <= 65025,
            forall|k: int| 0 <= k < j ==> #[trigger] u32s@[k] == u16s@[2 * k] as nat * u16s@[2 * k + 1] as nat,
            forall|k: int| 0 <= k < j ==> 1 <= #[trigger] u32s@[k] <= 4228250625,
        decreases 4 - j,
    {
        let left = u16s[2 * j] as u64;
        let right = u16s[2 * j + 1] as u64;
        proof {
            vstd::arithmetic::mul::lemma_mul_upper_bound(left as int, 65025, right as int, 65025);
            vstd::arithmetic::mul::lemma_mul_increases(left as int, right as int);
        }
        u32s[j] = left * right;
        j = j + 1;
    }
    proof {
        assert(nats_u64(u32s@) =~= pair_products(nats_u32(u16s@)));
        lemma_pair_products(nats_u32(u16s@));
    }
    let mut u64s = [1u128; 2];
    let mut j: usize = 0;
    while j < 2
        invariant
            j <= 2,
            u32s@.len() == 4,
            u64s@.len() == 2,
            forall|k: int| 0 <= k < 4 ==> 1 <= #[trigger] u32s@[k] <= 4228250625,
            forall|k: int| 0 <= k < j ==> #[trigger] u64s@[k] == u32s@[2 * k] as nat * u32s@[2 * k + 1] as nat,
            forall|k: int| 0 <= k < j ==> 1 <= #[trigger] u64s@[k] <= 17878103347812890625,
        decreases 2 - j,
    {
        let left = u32s[2 * j] as u128;
        let right = u32s[2 * j + 1] as u128;
        proof {
            vstd::arithmetic::mul::lemma_mul_upper_bound(left as int, 4228250625, right as int, 4228250625);
            vstd::arithmetic::mul::lemma_mul_increases(left as int, right as int);
        }
        u64s[j] = left * right;
        j = j + 1;
    }
    proof {
        assert(nats_u128(u64s@) =~= pair_products(nats_u64(u32s@)));
        lemma_pair_products(nats_u64(u32s@));
        vstd::arithmetic::mul::lemma_mul_upper_bound(
            u64s@[0] as int,
            17878103347812890625,
            u64s@[1] as int,
            17878103347812890625,
        );
        let s = nats_u128(u64s@);
        lemma_product_two(s);
        assert(product(nats_u16(u8ish@)) == product(nats_u32(u16s@)));
        assert(product(nats_u32(u16s@)) == product(nats_u64(u32s@)));
        assert(product(nats_u64(u32s@)) == product(nats_u128(u64s@)));
        assert(product(s) == s[0] * s[1]);
        assert(s[0] == u64s@[0] && s[1] == u64s@[1]);
    }
    let r = u64s[0] * u64s[1];
    assert(r == product(nats_u16(u8ish@)));
    r
}

/// Exact tail with sixteen-factor chunk products merged through an online
/// balanced multiplication tree.
pub fn compute(prefix: &RankedPrefix) -> (r: BigDyadic)
    requires
        tail_fits(prefix@),
    ensures
        r@ == tail_spec(prefix@),
{
    let s = prefix.as_slice();
    let n = s.len();
    let mut fractional_bits: usize = 0;
    let mut levels: Vec<Option<Vec<u32>>> = Vec::new();
    let mut start: usize = 0;
    proof {
        assert(s@.subrange(0, 0) =~= Seq::<u8>::empty());
    }
    while start < n
        invariant
            start <= n,
            n == s@.len(),
            s@ == prefix@,
            tail_fits(s@),
            fractional_bits == tail_bits(s@.subrange(0, start as int)),
            levels_product(levels@) == tail_numerator(s@.subrange(0, start as int)),
        decreases n - start,
    {
        let end = if n - start < 16 {
            n
        } else {
            start + 16
        };
        let chunk = slice_range(s, start, end);
        proof {
            lemma_tail_concat(s@.subrange(0, start as int), chunk@);
            assert(s@.subrange(0, start as int) + chunk@ =~= s@.subrange(0, end as int));
            lemma_tail_bits_prefix(s@, end as int);
        }
        let product = reduce_chunk(chunk, &mut fractional_bits);
        if product != 1 {
            push_balanced(&mut levels, digits_from_u128(product));
        }
        proof {
            vstd::arithmetic::mul::lemma_mul_is_commutative(
                levels_product(levels@) as int,
                1,
            );
        }
        start = end;
    }
    proof {
        assert(s@.subrange(0, n as int) =~= s@);
    }
    let numerator = levels_fold(levels);
    tail_from_reduced(numerator, fractional_bits, Ghost(prefix@))
}

/// The entries `start..end` of a slice.
fn slice_range(s: &[u8], start: usize, end: usize) -> (r: &[u8])
    requires
        start <= end <= s@.len(),
    ensures
        r@ == s@.subrange(start as int, end as int),
{
    vstd::slice::slice_subrange(s, start, end)
}

/// Tails of concatenated prefixes multiply.
pub proof fn lemma_tail_concat(a: Seq<u8>, b: Seq<u8>)
    ensures
        tail_numerator(a + b) == tail_numerator(a) * tail_numerator(b),
        tail_bits(a + b) == tail_bits(a) + tail_bits(b),
    decreases b.len(),
{
    if b.len() == 0 {
        assert(a + b =~= a);
        assert(tail_numerator(b) == 1);
        assert(tail_bits(b) == 0);
        assert(tail_numerator(a) * 1 == tail_numerator(a));
    } else {
        lemma_tail_concat(a, b.drop_last());
        assert((a + b).drop_last() =~= a + b.drop_last());
        assert((a + b).last() == b.last());
        assert(tail_numerator(a + b) == tail_numerator(a + b.drop_last()) * reduced_factor(b.last()).0);
        assert(tail_numerator(b) == tail_numerator(b.drop_last()) * reduced_factor(b.last()).0);
        assert(tail_bits(a + b) == tail_bits(a + b.drop_last()) + reduced_factor(b.last()).1);
        vstd::arithmetic::mul::lemma_mul_is_associative(
            tail_numerator(a) as int,
            tail_numerator(b.drop_last()) as int,
            reduced_factor(b.last()).0 as int,
        );
    }
}

} // verus!
