//! Arbitrary-precision naturals held as little-endian `u32` digit vectors.
//!
//! The arithmetic itself is `num_bigint`'s; each operation below converts the
//! digits to a `BigUint`, performs one operation and converts back. Verified
//! code reasons about the mathematical value `nat_of(digits)`.
use num_bigint::BigUint;
use vstd::prelude::*;

verus! {

/// `2^k`.
pub open spec fn exp2(k: nat) -> nat
    decreases k,
{
    if k == 0 {
        1
    } else {
        2 * exp2((k - 1) as nat)
    }
}

/// The value of little-endian base-`2^32` digits.
pub open spec fn nat_of(digits: Seq<u32>) -> nat
    decreases digits.len(),
{
    if digits.len() == 0 {
        0
    } else {
        digits[0] as nat + 0x1_0000_0000 * nat_of(digits.drop_first())
    }
}

/// The value of little-endian base-256 digits.
pub open spec fn nat_of_bytes(bytes: Seq<u8>) -> nat
    decreases bytes.len(),
{
    if bytes.len() == 0 {
        0
    } else {
        bytes[0] as nat + 256 * nat_of_bytes(bytes.drop_first())
    }
}

/// The value of little-endian binary digits.
pub open spec fn binary_value(digits: Seq<u8>) -> nat
    decreases digits.len(),
{
    if digits.len() == 0 {
        0
    } else {
        digits[0] as nat + 2 * binary_value(digits.drop_first())
    }
}

/// A new most significant binary digit adds its weight.
pub proof fn lemma_binary_value_push(digits: Seq<u8>, d: u8)
    ensures
        binary_value(digits.push(d)) == binary_value(digits) + d * exp2(digits.len()),
    decreases digits.len(),
{
    if digits.len() == 0 {
        assert(digits.push(d).drop_first() =~= Seq::<u8>::empty());
        assert(binary_value(digits.push(d)) == d as nat + 2 * binary_value(Seq::<u8>::empty()));
        assert(exp2(0) == 1);
        assert(d * exp2(0) == d);
    } else {
        let tail = digits.drop_first();
        assert(digits.push(d).drop_first() =~= tail.push(d));
        assert(digits.push(d)[0] == digits[0]);
        lemma_binary_value_push(tail, d);
        assert(exp2(digits.len()) == 2 * exp2(tail.len()));
        assert(2 * (binary_value(tail) + d * exp2(tail.len())) == 2 * binary_value(tail) + d * (2
            * exp2(tail.len()))) by (nonlinear_arith);
    }
}

/// Bit `i` of `n`.
pub open spec fn bit_of(n: nat, i: nat) -> bool {
    (n / exp2(i)) % 2 == 1
}

pub proof fn lemma_exp2_positive(k: nat)
    ensures
        exp2(k) >= 1,
    decreases k,
{
    if k > 0 {
        lemma_exp2_positive((k - 1) as nat);
    }
}

pub proof fn lemma_exp2_adds(a: nat, b: nat)
    ensures
        exp2(a + b) == exp2(a) * exp2(b),
    decreases a,
{
    if a > 0 {
        let a1 = (a - 1) as nat;
        lemma_exp2_adds(a1, b);
        assert(a1 + b + 1 == a + b);
        assert(exp2(a + b) == 2 * exp2(a1 + b));
        assert(exp2(a) == 2 * exp2(a1));
        assert(exp2(a) * exp2(b) == 2 * (exp2(a1) * exp2(b))) by (nonlinear_arith)
            requires
                exp2(a) == 2 * exp2(a1),
        ;
    } else {
        assert(exp2(0) == 1);
        assert(a + b == b);
    }
}

pub proof fn lemma_exp2_monotone(a: nat, b: nat)
    requires
        a <= b,
    ensures
        exp2(a) <= exp2(b),
    decreases b,
{
    if a < b {
        lemma_exp2_monotone(a, (b - 1) as nat);
        lemma_exp2_positive((b - 1) as nat);
    }
}

pub proof fn lemma_exp2_strict(a: nat, b: nat)
    requires
        a < b,
    ensures
        exp2(a) < exp2(b),
    decreases b,
{
    lemma_exp2_monotone(a, (b - 1) as nat);
    lemma_exp2_positive((b - 1) as nat);
}

pub proof fn lemma_exp2_small()
    ensures
        exp2(0) == 1,
        exp2(1) == 2,
        exp2(2) == 4,
        exp2(3) == 8,
        exp2(4) == 16,
        exp2(5) == 32,
        exp2(6) == 64,
        exp2(7) == 128,
        exp2(8) == 256,
        exp2(16) == 0x1_0000,
        exp2(32) == 0x1_0000_0000,
{
    reveal_with_fuel(exp2, 9);
    assert(exp2(16) == 0x1_0000) by {
        reveal_with_fuel(exp2, 9);
        lemma_exp2_adds(8, 8);
    }
    assert(exp2(32) == 0x1_0000_0000) by {
        lemma_exp2_adds(16, 16);
    }
}

/// Digits of a `u64`.
pub fn digits_from_u64(value: u64) -> (digits: Vec<u32>)
    ensures
        nat_of(digits@) == value,
{
    let low = (value % 0x1_0000_0000) as u32;
    let high = (value / 0x1_0000_0000) as u32;
    let mut digits = Vec::new();
    digits.push(low);
    digits.push(high);
    proof {
        reveal_with_fuel(nat_of, 3);
        assert(digits@.drop_first().drop_first() =~= Seq::<u32>::empty());
        assert(nat_of(digits@.drop_first()) == high);
    }
    digits
}

/// Digits of a `u128`.
pub fn digits_from_u128(value: u128) -> (digits: Vec<u32>)
    ensures
        nat_of(digits@) == value,
{
    let d0 = (value % 0x1_0000_0000) as u32;
    let r0 = value / 0x1_0000_0000;
    let d1 = (r0 % 0x1_0000_0000) as u32;
    let r1 = r0 / 0x1_0000_0000;
    let d2 = (r1 % 0x1_0000_0000) as u32;
    let d3 = (r1 / 0x1_0000_0000) as u32;
    let mut digits = Vec::new();
    digits.push(d0);
    digits.push(d1);
    digits.push(d2);
    digits.push(d3);
    proof {
        let s = digits@;
        reveal_with_fuel(nat_of, 5);
        assert(s.drop_first().drop_first().drop_first().drop_first() =~= Seq::<u32>::empty());
        assert(nat_of(s.drop_first().drop_first().drop_first()) == d3);
        assert(nat_of(s.drop_first().drop_first()) == d2 + 0x1_0000_0000 * d3);
        assert(nat_of(s.drop_first()) == d1 + 0x1_0000_0000 * (d2 + 0x1_0000_0000 * d3));
    }
    digits
}

/// `BigUint` multiplication: the digits of `a * b`.
#[verifier::external_body]
pub fn big_mul(a: &[u32], b: &[u32]) -> (r: Vec<u32>)
    ensures
        nat_of(r@) == nat_of(a@) * nat_of(b@),
{
    (BigUint::from_slice(a) * BigUint::from_slice(b)).to_u32_digits()
}

/// `BigUint` addition: the digits of `a + b`.
#[verifier::external_body]
pub fn big_add(a: &[u32], b: &[u32]) -> (r: Vec<u32>)
    ensures
        nat_of(r@) == nat_of(a@) + nat_of(b@),
{
    (BigUint::from_slice(a) + BigUint::from_slice(b)).to_u32_digits()
}

/// `BigUint` subtraction, which panics on underflow: the digits of `a - b`.
#[verifier::external_body]
pub fn big_sub(a: &[u32], b: &[u32]) -> (r: Vec<u32>)
    requires
        nat_of(b@) <= nat_of(a@),
    ensures
        nat_of(r@) == nat_of(a@) - nat_of(b@),
{
    (BigUint::from_slice(a) - BigUint::from_slice(b)).to_u32_digits()
}

/// `BigUint` left shift: the digits of `a * 2^shift`.
#[verifier::external_body]
pub fn big_shl(a: &[u32], shift: usize) -> (r: Vec<u32>)
    ensures
        nat_of(r@) == nat_of(a@) * exp2(shift as nat),
{
    (BigUint::from_slice(a) << shift).to_u32_digits()
}

/// `BigUint` right shift: the digits of `floor(a / 2^shift)`.
#[verifier::external_body]
pub fn big_shr(a: &[u32], shift: usize) -> (r: Vec<u32>)
    ensures
        nat_of(r@) == nat_of(a@) / exp2(shift as nat),
{
    (BigUint::from_slice(a) >> shift).to_u32_digits()
}

/// `BigUint` comparison with `<=`.
#[verifier::external_body]
pub fn big_le(a: &[u32], b: &[u32]) -> (r: bool)
    ensures
        r == (nat_of(a@) <= nat_of(b@)),
{
    BigUint::from_slice(a) <= BigUint::from_slice(b)
}

/// `BigUint` comparison with `<`.
#[verifier::external_body]
pub fn big_lt(a: &[u32], b: &[u32]) -> (r: bool)
    ensures
        r == (nat_of(a@) < nat_of(b@)),
{
    BigUint::from_slice(a) < BigUint::from_slice(b)
}

/// `BigUint::trailing_zeros`: `None` for zero, otherwise the exponent of the
/// largest power of two dividing the value.
#[verifier::external_body]
pub fn big_trailing_zeros(a: &[u32]) -> (r: Option<u64>)
    ensures
        r is None <==> nat_of(a@) == 0,
        r matches Some(t) ==> nat_of(a@) % exp2(t as nat) == 0 && (nat_of(a@) / exp2(t as nat))
            % 2 == 1,
{
    BigUint::from_slice(a).trailing_zeros()
}

/// `BigUint::bits`: the number of bits needed to write the value.
#[verifier::external_body]
pub fn big_bits(a: &[u32]) -> (r: u64)
    ensures
        nat_of(a@) < exp2(r as nat),
        r > 0 ==> exp2((r - 1) as nat) <= nat_of(a@),
{
    BigUint::from_slice(a).bits()
}

/// `BigUint::to_radix_le(2)`: the binary digits of the value, least
/// significant first, enough of them to write the value (zero is the single
/// digit 0).
#[verifier::external_body]
pub fn big_binary_digits(a: &[u32]) -> (r: Vec<u8>)
    ensures
        nat_of(a@) < exp2(r@.len()),
        forall|i: int| 0 <= i < r@.len() ==> #[trigger] r@[i] == (if bit_of(nat_of(a@), i as nat) {
            1u8
        } else {
            0u8
        }),
{
    BigUint::from_slice(a).to_radix_le(2)
}

/// `BigUint::from_radix_le(digits, 2)`: the value of little-endian binary
/// digits, or `None` when a digit is not 0 or 1.
#[verifier::external_body]
pub fn big_from_binary_digits(digits: &[u8]) -> (r: Option<Vec<u32>>)
    ensures
        r is Some <==> forall|i: int| 0 <= i < digits@.len() ==> #[trigger] digits@[i] < 2,
        r matches Some(v) ==> nat_of(v@) == binary_value(digits@),
{
    match BigUint::from_radix_le(digits, 2) {
        Some(value) => Some(value.to_u32_digits()),
        None => None,
    }
}

/// `u64::try_from(&BigUint)`: the value when it fits in a `u64`.
#[verifier::external_body]
pub fn big_to_u64(a: &[u32]) -> (r: Option<u64>)
    ensures
        r is Some <==> nat_of(a@) <= u64::MAX,
        r matches Some(v) ==> v == nat_of(a@),
{
    u64::try_from(&BigUint::from_slice(a)).ok()
}

/// `BigUint::from_bytes_le`: the digits of a little-endian byte string.
#[verifier::external_body]
pub fn big_from_bytes_le(bytes: &[u8]) -> (r: Vec<u32>)
    ensures
        nat_of(r@) == nat_of_bytes(bytes@),
{
    BigUint::from_bytes_le(bytes).to_u32_digits()
}

/// `BigUint::to_bytes_le`: the shortest little-endian byte string of the
/// value (`[0]` for zero).
#[verifier::external_body]
pub fn big_to_bytes_le(a: &[u32]) -> (r: Vec<u8>)
    ensures
        nat_of_bytes(r@) == nat_of(a@),
        r@.len() >= 1,
        r@.len() == 1 || r@.last() != 0,
{
    BigUint::from_slice(a).to_bytes_le()
}

/// `BigUint::from_bytes_be`: the value of big-endian bytes.
#[verifier::external_body]
pub fn big_from_bytes_be(bytes: &[u8]) -> (r: Vec<u32>)
    ensures
        nat_of(r@) == nat_of_bytes(bytes@.reverse()),
{
    BigUint::from_bytes_be(bytes).to_u32_digits()
}

/// `BigUint::to_bytes_be`: the shortest big-endian byte string of the value
/// (`[0]` for zero).
#[verifier::external_body]
pub fn big_to_bytes_be(a: &[u32]) -> (r: Vec<u8>)
    ensures
        nat_of_bytes(r@.reverse()) == nat_of(a@),
        r@.len() >= 1,
        r@.len() == 1 || r@[0] != 0,
{
    BigUint::from_slice(a).to_bytes_be()
}

} // verus!
