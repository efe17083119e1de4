//! Exact arbitrary-precision dyadic fractions in `[0, 1]`.
use vstd::arithmetic::div_mod::*;
use vstd::arithmetic::mul::*;
use vstd::prelude::*;

use vstd::pervasive::unreached;

use crate::bignum::{
    big_binary_digits, big_bits, big_from_binary_digits, big_lt, big_mul, big_shl, big_shr, big_sub,
    big_to_u64, big_trailing_zeros, binary_value, bit_of, digits_from_u64, exp2, lemma_binary_value_push,
    lemma_exp2_adds, lemma_exp2_monotone, lemma_exp2_positive, lemma_exp2_small, lemma_exp2_strict, nat_of,
};
use crate::bits::{msb_bits, msb_get, msb_len, msb_set, msb_zeros, MsbBits};

pub mod implementations;

verus! {

/// The value of a most-significant-bit-first bit string.
pub open spec fn msb_value(bits: Seq<bool>) -> nat
    decreases bits.len(),
{
    if bits.len() == 0 {
        0
    } else {
        2 * msb_value(bits.drop_last()) + if bits.last() {
            1nat
        } else {
            0nat
        }
    }
}

/// The canonical form of `numerator / 2^fractional_bits`: common powers of
/// two are cancelled, and zero is written with no fractional bits.
pub open spec fn canonical(numerator: nat, fractional_bits: nat) -> (nat, nat)
    decreases fractional_bits,
{
    if numerator == 0 {
        (0, 0)
    } else if fractional_bits > 0 && numerator % 2 == 0 {
        canonical(numerator / 2, (fractional_bits - 1) as nat)
    } else {
        (numerator, fractional_bits)
    }
}

/// Whether `(numerator, fractional_bits)` is already in canonical form.
pub open spec fn is_canonical(numerator: nat, fractional_bits: nat) -> bool {
    canonical(numerator, fractional_bits) == (numerator, fractional_bits)
}

/// `a <= b` for dyadic pairs `(numerator, fractional_bits)`.
pub open spec fn dyadic_le(a: (nat, nat), b: (nat, nat)) -> bool {
    a.0 * exp2(b.1) <= b.0 * exp2(a.1)
}

/// `a == b` as rational values for dyadic pairs.
pub open spec fn dyadic_same(a: (nat, nat), b: (nat, nat)) -> bool {
    a.0 * exp2(b.1) == b.0 * exp2(a.1)
}

/// An exact arbitrary-precision dyadic fraction in `[0, 1]`.
///
/// A value is represented as a fixed-width bit string. The first bit is the
/// integer bit and every remaining bit is fractional:
///
/// ```text
/// bits = b0 b1 ... bk
/// value = integer(bits) / 2^k
/// ```
///
/// The bit-string length therefore *is* the denominator metadata. Values are
/// canonicalized by removing powers of two shared by the numerator and
/// denominator, so zero and one have one-bit representations.
#[derive(PartialEq, Eq, Hash, Debug)]
pub struct BigDyadic {
    bits: MsbBits,
}

impl Clone for BigDyadic {
    fn clone(&self) -> (r: Self)
        ensures
            r@ == self@,
    {
        proof {
            use_type_invariant(self);
        }
        BigDyadic { bits: self.bits.clone() }
    }
}

impl View for BigDyadic {
    type V = (nat, nat);

    /// `(numerator, fractional_bits)`.
    open spec fn view(&self) -> (nat, nat) {
        (self.numerator_value(), self.fractional_bits_value())
    }
}

impl BigDyadic {
    /// The integer numerator.
    pub closed spec fn numerator_value(self) -> nat {
        msb_value(msb_bits(self.bits))
    }

    /// The number of fractional bits.
    pub closed spec fn fractional_bits_value(self) -> nat {
        (msb_bits(self.bits).len() - 1) as nat
    }

    #[verifier::type_invariant]
    closed spec fn inv(self) -> bool {
        &&& msb_bits(self.bits).len() >= 1
        &&& msb_bits(self.bits).len() <= usize::MAX
        &&& is_canonical(self.numerator_value(), self.fractional_bits_value())
        &&& self.numerator_value() <= exp2(self.fractional_bits_value())
    }

    /// Exact zero.
    pub fn zero() -> (r: Self)
        ensures
            r@ == (0nat, 0nat),
    {
        let mut digits: Vec<u32> = Vec::new();
        proof {
            lemma_exp2_small();
        }
        Self::from_scaled(digits, 0)
    }

    /// Exact one.
    pub fn one() -> (r: Self)
        ensures
            r@ == (1nat, 0nat),
    {
        let mut digits: Vec<u32> = Vec::new();
        digits.push(1);
        proof {
            lemma_exp2_small();
            reveal_with_fuel(nat_of, 2);
            assert(digits@.drop_first() =~= Seq::<u32>::empty());
        }
        Self::from_scaled(digits, 0)
    }

    /// Construct `numerator / 2^fractional_bits` exactly.
    ///
    /// The value must be in `[0, 1]`. Any common power of two is cancelled so
    /// numerically equal values have the same bit representation.
    pub fn from_scaled(numerator: Vec<u32>, fractional_bits: usize) -> (r: Self)
        requires
            nat_of(numerator@) <= exp2(fractional_bits as nat),
            fractional_bits < usize::MAX,
        ensures
            r@ == canonical(nat_of(numerator@), fractional_bits as nat),
    {
        let ghost n0 = nat_of(numerator@);
        let mut numerator = numerator;
        let mut fractional_bits = fractional_bits;
        let ghost k0 = fractional_bits as nat;
        if big_bits(&numerator) == 0 {
            proof {
                lemma_exp2_small();
            }
            fractional_bits = 0;
        } else if fractional_bits != 0 {
            let t = match big_trailing_zeros(&numerator) {
                Some(t) => t,
                None => 0,
            };
            let removable: usize = if t < fractional_bits as u64 {
                t as usize
            } else {
                fractional_bits
            };
            proof {
                let q = n0 / exp2(t as nat);
                lemma_exp2_positive(t as nat);
                lemma_fundamental_div_mod(n0 as int, exp2(t as nat) as int);
                lemma_mul_is_commutative(q as int, exp2(t as nat) as int);
                assert(n0 == q * exp2(t as nat));
                lemma_canonical_strip(q, t as nat, k0);
                let r = removable as nat;
                lemma_exp2_adds((t - r) as nat, r);
                lemma_exp2_positive(r);
                lemma_exp2_positive((t - r) as nat);
                assert(n0 == (q * exp2((t - r) as nat)) * exp2(r)) by {
                    lemma_mul_is_associative(
                        q as int,
                        exp2((t - r) as nat) as int,
                        exp2(r) as int,
                    );
                }
                lemma_div_by_multiple((q * exp2((t - r) as nat)) as int, exp2(r) as int);
            }
            numerator = big_shr(&numerator, removable);
            fractional_bits = fractional_bits - removable;
        } else {
            proof {
                assert(canonical(n0, 0) == (n0, 0nat));
            }
        }
        let ghost n = nat_of(numerator@);
        let ghost k = fractional_bits as nat;
        proof {
            lemma_canonical_le(n0, k0);
            assert(canonical(n0, k0) == (n, k));
        }
        let width = fractional_bits + 1;
        let numerator_bits = big_bits(&numerator);
        proof {
            if numerator_bits > 0 && numerator_bits > width {
                lemma_exp2_strict(k, (numerator_bits - 1) as nat);
            }
        }
        let digits = big_binary_digits(&numerator);
        proof {
            if numerator_bits > digits@.len() {
                lemma_exp2_monotone(digits@.len(), (numerator_bits - 1) as nat);
            }
        }
        let mut bits = msb_zeros(width);
        let mut bit: u64 = 0;
        while bit < numerator_bits
            invariant
                bit <= numerator_bits <= width,
                numerator_bits <= digits@.len(),
                forall|i: int| 0 <= i < digits@.len() ==> #[trigger] digits@[i] == (if bit_of(n, i as nat) {
                    1u8
                } else {
                    0u8
                }),
                nat_of(numerator@) == n,
                width == k + 1,
                n < exp2(numerator_bits as nat),
                msb_bits(bits).len() == width,
                forall|i: int|
                    0 <= i < width ==> #[trigger] msb_bits(bits)[i] == (width - 1 - i < bit
                        && bit_of(n, (width - 1 - i) as nat)),
            decreases numerator_bits - bit,
        {
            if digits[bit as usize] == 1 {
                msb_set(&mut bits, width - 1 - (bit as usize), true);
            }
            bit = bit + 1;
        }
        proof {
            let s = msb_bits(bits);
            assert forall|i: int| 0 <= i < width implies #[trigger] s[i] == bit_of(
                n,
                (width - 1 - i) as nat,
            ) by {
                let j = width - 1 - i;
                if j >= numerator_bits {
                    lemma_exp2_monotone(numerator_bits as nat, j as nat);
                    lemma_exp2_positive(j as nat);
                    lemma_basic_div(n as int, exp2(j as nat) as int);
                }
            }
            lemma_exp2_monotone(numerator_bits as nat, width as nat);
            lemma_msb_value_of_bits(s, n);
        }
        BigDyadic { bits }
    }

    /// Number of fractional bits in the exact representation.
    ///
    /// Every value is canonical and lies in `[0, 1]`.
    pub fn fractional_bits(&self) -> (r: usize)
        ensures
            r == self@.1,
            r < usize::MAX,
            is_canonical(self@.0, self@.1),
            self@.0 <= exp2(self@.1),
    {
        proof {
            use_type_invariant(self);
        }
        msb_len(&self.bits) - 1
    }

    /// The canonical fixed-width bit representation, most significant first.
    pub fn as_bits(&self) -> (r: Vec<bool>)
        ensures
            msb_value(r@) == self@.0,
            r@.len() == self@.1 + 1,
    {
        proof {
            use_type_invariant(self);
        }
        let len = msb_len(&self.bits);
        let mut out: Vec<bool> = Vec::new();
        let mut i: usize = 0;
        while i < len
            invariant
                i <= len,
                len == msb_bits(self.bits).len(),
                out@ == msb_bits(self.bits).subrange(0, i as int),
            decreases len - i,
        {
            out.push(msb_get(&self.bits, i));
            i = i + 1;
        }
        proof {
            assert(out@ =~= msb_bits(self.bits));
        }
        out
    }

    /// Return the integer numerator of `self / 2^fractional_bits()`, as
    /// little-endian `u32` digits.
    pub fn numerator(&self) -> (r: Vec<u32>)
        ensures
            nat_of(r@) == self@.0,
    {
        proof {
            use_type_invariant(self);
        }
        let len = msb_len(&self.bits);
        let ghost s = msb_bits(self.bits);
        let mut digits: Vec<u8> = Vec::new();
        let mut bit: usize = 0;
        proof {
            assert(s.subrange(len as int, len as int) =~= Seq::<bool>::empty());
        }
        while bit < len
            invariant
                bit <= len,
                len == s.len(),
                s == msb_bits(self.bits),
                digits@.len() == bit,
                forall|i: int| 0 <= i < digits@.len() ==> #[trigger] digits@[i] < 2,
                binary_value(digits@) == msb_value(s.subrange(len - bit, len as int)),
            decreases len - bit,
        {
            let set = msb_get(&self.bits, len - 1 - bit);
            let digit: u8 = if set {
                1
            } else {
                0
            };
            proof {
                let low = s.subrange(len - bit, len as int);
                let next = s.subrange(len - bit - 1, len as int);
                assert(next =~= seq![s[len - 1 - bit]] + low);
                lemma_msb_value_prepend(s[len - 1 - bit], low);
                lemma_binary_value_push(digits@, digit);
            }
            digits.push(digit);
            bit = bit + 1;
        }
        proof {
            assert(s.subrange(0, len as int) =~= s);
        }
        match big_from_binary_digits(&digits) {
            Some(numerator) => numerator,
            None => unreached(),
        }
    }

    /// Exact multiplication.
    ///
    /// Dyadic multiplication is integer multiplication plus addition of
    /// denominator exponents; [`Self::from_scaled`] then removes any common
    /// powers of two.
    pub fn multiplied(&self, rhs: &Self) -> (r: Self)
        requires
            self@.1 + rhs@.1 < usize::MAX,
        ensures
            r@ == canonical(self@.0 * rhs@.0, self@.1 + rhs@.1),
    {
        proof {
            use_type_invariant(self);
            use_type_invariant(rhs);
        }
        let left = self.numerator();
        let right = rhs.numerator();
        let numerator = big_mul(&left, &right);
        let fractional_bits = self.fractional_bits() + rhs.fractional_bits();
        proof {
            lemma_exp2_adds(self@.1, rhs@.1);
            lemma_mul_upper_bound(
                self@.0 as int,
                exp2(self@.1) as int,
                rhs@.0 as int,
                exp2(rhs@.1) as int,
            );
        }
        Self::from_scaled(numerator, fractional_bits)
    }

    /// Exact complement `1 - self`.
    pub fn complement(&self) -> (r: Self)
        ensures
            r@ == canonical((exp2(self@.1) - self@.0) as nat, self@.1),
    {
        proof {
            use_type_invariant(self);
        }
        let fractional_bits = self.fractional_bits();
        let one_digits = digits_from_u64(1);
        let one = big_shl(&one_digits, fractional_bits);
        let numerator = self.numerator();
        assert(nat_of(one_digits@) == 1);
        assert(nat_of(one@) == 1 * exp2(fractional_bits as nat));
        assert(nat_of(one@) == exp2(self@.1));
        let difference = big_sub(&one, &numerator);
        Self::from_scaled(difference, fractional_bits)
    }

    /// Return `floor(value * self)` exactly.
    ///
    /// This is a useful bridge from arbitrary-precision model boundaries to a
    /// fixed-width arithmetic-coder range.
    pub fn scale_floor_u64(&self, value: u64) -> (r: u64)
        ensures
            r == (self@.0 * (value as nat)) / exp2(self@.1),
    {
        proof {
            use_type_invariant(self);
        }
        let numerator = self.numerator();
        let factor = digits_from_u64(value);
        let product = big_mul(&numerator, &factor);
        let scaled = big_shr(&product, self.fractional_bits());
        proof {
            let n = self@.0;
            let e = exp2(self@.1);
            lemma_exp2_positive(self@.1);
            lemma_mul_inequality(n as int, e as int, value as int);
            lemma_mul_is_commutative(e as int, value as int);
            lemma_div_is_ordered((n * value) as int, (value * e) as int, e as int);
            lemma_div_by_multiple(value as int, e as int);
        }
        match big_to_u64(&scaled) {
            Some(v) => v,
            None => 0,
        }
    }

    /// Whether `self < other` as rational values.
    pub fn less_than(&self, other: &Self) -> (r: bool)
        ensures
            r == !dyadic_le(other@, self@),
    {
        proof {
            use_type_invariant(self);
            use_type_invariant(other);
        }
        let fa = self.fractional_bits();
        let fb = other.fractional_bits();
        let bits = if fa < fb {
            fb
        } else {
            fa
        };
        let lhs = big_shl(&self.numerator(), bits - fa);
        let rhs = big_shl(&other.numerator(), bits - fb);
        proof {
            lemma_cross_scaling(self@.0, fa as nat, other@.0, fb as nat, bits as nat);
        }
        big_lt(&lhs, &rhs)
    }
}

/// Comparing `a / 2^fa` and `b / 2^fb` after scaling both to `m` fractional
/// bits is the same as cross-multiplying.
pub proof fn lemma_cross_scaling(a: nat, fa: nat, b: nat, fb: nat, m: nat)
    requires
        fa <= m,
        fb <= m,
    ensures
        (a * exp2((m - fa) as nat) < b * exp2((m - fb) as nat)) == (a * exp2(fb) < b * exp2(fa)),
{
    let x = a * exp2((m - fa) as nat);
    let y = b * exp2((m - fb) as nat);
    lemma_exp2_adds((m - fa) as nat, fa);
    lemma_exp2_adds((m - fb) as nat, fb);
    lemma_exp2_positive(fa);
    lemma_exp2_positive(fb);
    lemma_exp2_positive(m);
    let ea = exp2(fa);
    let eb = exp2(fb);
    let em = exp2(m);
    let pa = exp2((m - fa) as nat);
    let pb = exp2((m - fb) as nat);
    assert(pa * ea == em);
    assert(pb * eb == em);
    assert((a * eb) * em == x * (ea * eb)) by (nonlinear_arith)
        requires
            x == a * pa,
            pa * ea == em,
    ;
    assert((b * ea) * em == y * (ea * eb)) by (nonlinear_arith)
        requires
            y == b * pb,
            pb * eb == em,
    ;
    assert((x < y) == ((a * eb) < (b * ea))) by (nonlinear_arith)
        requires
            (a * eb) * em == x * (ea * eb),
            (b * ea) * em == y * (ea * eb),
            em > 0,
            ea > 0,
            eb > 0,
    ;
}

/// Stripping `min(t, k)` powers of two from `q * 2^t` (with `q` odd) is the
/// canonical form.
pub proof fn lemma_canonical_strip(q: nat, t: nat, k: nat)
    requires
        q % 2 == 1,
    ensures
        ({
            let r = if t < k {
                t
            } else {
                k
            };
            canonical(q * exp2(t), k) == (q * exp2((t - r) as nat), (k - r) as nat)
        }),
    decreases k,
{
    lemma_exp2_positive(t);
    assert(q * exp2(t) > 0) by (nonlinear_arith)
        requires
            q % 2 == 1,
            exp2(t) >= 1,
    ;
    if k == 0 {
    } else if t == 0 {
        assert(exp2(0) == 1);
        assert(q * exp2(t) == q) by (nonlinear_arith)
            requires
                exp2(t) == 1,
        ;
    } else {
        let t1 = (t - 1) as nat;
        assert(exp2(t) == 2 * exp2(t1));
        assert(q * exp2(t) == 2 * (q * exp2(t1))) by (nonlinear_arith)
            requires
                exp2(t) == 2 * exp2(t1),
        ;
        assert((q * exp2(t)) % 2 == 0);
        assert((q * exp2(t)) / 2 == q * exp2(t1));
        lemma_canonical_strip(q, t1, (k - 1) as nat);
    }
}

/// The canonical form never grows the representation.
pub proof fn lemma_canonical_le(n: nat, k: nat)
    ensures
        canonical(n, k).1 <= k,
        canonical(n, k).0 <= n,
        n <= exp2(k) ==> canonical(n, k).0 <= exp2(canonical(n, k).1),
        is_canonical(canonical(n, k).0, canonical(n, k).1),
    decreases k,
{
    if n == 0 {
        assert(canonical(0, 0) == (0nat, 0nat));
    } else if k > 0 && n % 2 == 0 {
        let k1 = (k - 1) as nat;
        lemma_canonical_le(n / 2, k1);
        assert(exp2(k) == 2 * exp2(k1));
    } else {
        if k > 0 {
            assert(canonical(n, k) == (n, k));
        } else {
            assert(canonical(n, 0) == (n, 0nat));
        }
    }
}

/// `bit_of(n, j + 1) == bit_of(n / 2, j)`.
pub proof fn lemma_bit_of_half(n: nat, j: nat)
    ensures
        bit_of(n, j + 1) == bit_of(n / 2, j),
{
    lemma_exp2_positive(j);
    assert(exp2(j + 1) == 2 * exp2(j));
    lemma_div_denominator(n as int, 2, exp2(j) as int);
}

/// A bit string holding the bits of `n`, most significant first, and wide
/// enough for `n`, has the value `n`.
pub proof fn lemma_msb_value_of_bits(s: Seq<bool>, n: nat)
    requires
        forall|i: int| 0 <= i < s.len() ==> #[trigger] s[i] == bit_of(n, (s.len() - 1 - i) as nat),
        n < exp2(s.len()),
    ensures
        msb_value(s) == n,
    decreases s.len(),
{
    if s.len() == 0 {
        assert(exp2(0) == 1);
    } else {
        let w = s.len();
        let init = s.drop_last();
        assert forall|i: int| 0 <= i < init.len() implies #[trigger] init[i] == bit_of(
            n / 2,
            (init.len() - 1 - i) as nat,
        ) by {
            assert(init[i] == s[i]);
            lemma_bit_of_half(n, (init.len() - 1 - i) as nat);
        }
        assert(exp2(w) == 2 * exp2((w - 1) as nat));
        lemma_msb_value_of_bits(init, n / 2);
        assert(s.last() == s[w - 1]);
        assert(exp2(0) == 1);
        assert(n / exp2(0) == n);
        assert(bit_of(n, 0) == (n % 2 == 1));
    }
}

/// Prepending a most-significant bit adds `2^len` when it is set.
pub proof fn lemma_msb_value_prepend(b: bool, s: Seq<bool>)
    ensures
        msb_value(seq![b] + s) == (if b {
            1nat
        } else {
            0nat
        }) * exp2(s.len()) + msb_value(s),
    decreases s.len(),
{
    let full = seq![b] + s;
    if s.len() == 0 {
        assert(full.drop_last() =~= Seq::<bool>::empty());
        assert(full.last() == b);
        assert(exp2(0) == 1);
        assert(msb_value(Seq::<bool>::empty()) == 0);
        assert(msb_value(full) == 2 * msb_value(full.drop_last()) + (if b {
            1nat
        } else {
            0nat
        }));
        assert((if b {
            1nat
        } else {
            0nat
        }) * exp2(s.len()) == (if b {
            1nat
        } else {
            0nat
        }));
    } else {
        let init = s.drop_last();
        let top: nat = if b {
            1
        } else {
            0
        };
        let low: nat = if s.last() {
            1
        } else {
            0
        };
        assert(full.drop_last() =~= seq![b] + init);
        assert(full.last() == s.last());
        lemma_msb_value_prepend(b, init);
        assert(msb_value(full) == 2 * msb_value(seq![b] + init) + low);
        assert(msb_value(s) == 2 * msb_value(init) + low);
        assert(exp2(s.len()) == 2 * exp2(init.len()));
        assert(msb_value(seq![b] + init) == top * exp2(init.len()) + msb_value(init));
        assert(msb_value(full) == top * exp2(s.len()) + msb_value(s)) by (nonlinear_arith)
            requires
                msb_value(full) == 2 * msb_value(seq![b] + init) + low,
                msb_value(s) == 2 * msb_value(init) + low,
                exp2(s.len()) == 2 * exp2(init.len()),
                msb_value(seq![b] + init) == top * exp2(init.len()) + msb_value(init),
        ;
    }
}

} // verus!
