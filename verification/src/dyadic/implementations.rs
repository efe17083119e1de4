//! Alternate storage layouts for exact dyadic arithmetic.
use vstd::arithmetic::div_mod::*;
use vstd::arithmetic::mul::*;
use vstd::pervasive::unreached;
use vstd::prelude::*;

use crate::bignum::{
    big_binary_digits, big_bits, big_from_binary_digits, big_from_bytes_be, big_from_bytes_le, big_mul, big_shr,
    big_to_bytes_be, big_to_bytes_le, big_to_u64, big_trailing_zeros, binary_value, bit_of, digits_from_u64, exp2,
    lemma_binary_value_push, lemma_exp2_adds, lemma_exp2_monotone, lemma_exp2_positive, lemma_exp2_small, lemma_exp2_strict,
    nat_of, nat_of_bytes,
};
use crate::bits::{lsb_bits, lsb_get, lsb_len, lsb_set, lsb_zeros, LsbBits};
use crate::dyadic::{
    canonical, is_canonical, lemma_canonical_le, lemma_canonical_strip, lemma_msb_value_of_bits,
    lemma_msb_value_prepend, msb_value,
    BigDyadic,
};

verus! {

/// Which storage layout a [`Candidate`] uses.
#[derive(Clone, Copy, Debug, PartialEq, Eq)]
pub enum Layout {
    BitBoxMsb,
    BitBoxLsb,
    BigEndianBytes,
    LittleEndianBytes,
    NativeBigUint,
}

/// One exact arithmetic layout selectable by benchmark logic.
#[derive(Clone, Copy, Debug)]
pub struct Candidate {
    /// Stable name used in benchmark identifiers and reports.
    pub name: &'static str,
    /// The layout that [`Candidate::prepare`] produces.
    pub layout: Layout,
}

/// An exact dyadic value held in one of the layouts.
#[derive(Debug)]
pub struct Value(Representation);

#[derive(Debug)]
enum Representation {
    BitBoxMsb(BigDyadic),
    BitBoxLsb { bits: LsbBits },
    BigEndianBytes { numerator: Vec<u8>, fractional_bits: usize },
    LittleEndianBytes { numerator: Vec<u8>, fractional_bits: usize },
    NativeBigUint { numerator: Vec<u32>, fractional_bits: usize },
}

/// `(numerator, fractional_bits)` held by a representation.
spec fn parts_of(r: Representation) -> (nat, nat) {
    match r {
        Representation::BitBoxMsb(value) => value@,
        Representation::BitBoxLsb { bits } => (
            msb_value(lsb_bits(bits)),
            (lsb_bits(bits).len() - 1) as nat,
        ),
        Representation::BigEndianBytes { numerator, fractional_bits } => (
            nat_of_bytes(numerator@.reverse()),
            fractional_bits as nat,
        ),
        Representation::LittleEndianBytes { numerator, fractional_bits } => (
            nat_of_bytes(numerator@),
            fractional_bits as nat,
        ),
        Representation::NativeBigUint { numerator, fractional_bits } => (
            nat_of(numerator@),
            fractional_bits as nat,
        ),
    }
}

spec fn layout_of(r: Representation) -> Layout {
    match r {
        Representation::BitBoxMsb(_) => Layout::BitBoxMsb,
        Representation::BitBoxLsb { .. } => Layout::BitBoxLsb,
        Representation::BigEndianBytes { .. } => Layout::BigEndianBytes,
        Representation::LittleEndianBytes { .. } => Layout::LittleEndianBytes,
        Representation::NativeBigUint { .. } => Layout::NativeBigUint,
    }
}

/// A representation other than a [`BigDyadic`] (which keeps its own
/// invariant) holds a canonical value in `[0, 1]`; a bit string has at least
/// the integer bit.
spec fn representation_wf(r: Representation) -> bool {
    &&& !(r is BitBoxMsb) ==> is_canonical(parts_of(r).0, parts_of(r).1) && parts_of(r).0 <= exp2(
        parts_of(r).1,
    )
    &&& (r matches Representation::BitBoxLsb { bits } ==> 1 <= lsb_bits(bits).len() <= usize::MAX)
}

/// An owned copy of a representation.
fn clone_representation(representation: &Representation) -> (r: Representation)
    ensures
        parts_of(r) == parts_of(*representation),
        layout_of(r) == layout_of(*representation),
        representation_wf(*representation) ==> representation_wf(r),
{
    match representation {
        Representation::BitBoxMsb(value) => Representation::BitBoxMsb(value.clone()),
        Representation::BitBoxLsb { bits } => Representation::BitBoxLsb { bits: bits.clone() },
        Representation::BigEndianBytes { numerator, fractional_bits } => {
            let copy = numerator.clone();
            proof {
                assert(copy@ =~= numerator@);
            }
            Representation::BigEndianBytes { numerator: copy, fractional_bits: *fractional_bits }
        },
        Representation::LittleEndianBytes { numerator, fractional_bits } => {
            let copy = numerator.clone();
            proof {
                assert(copy@ =~= numerator@);
            }
            Representation::LittleEndianBytes { numerator: copy, fractional_bits: *fractional_bits }
        },
        Representation::NativeBigUint { numerator, fractional_bits } => {
            let copy = numerator.clone();
            proof {
                assert(copy@ =~= numerator@);
            }
            Representation::NativeBigUint { numerator: copy, fractional_bits: *fractional_bits }
        },
    }
}

impl Clone for Value {
    fn clone(&self) -> (r: Self)
        ensures
            r@ == self@,
            r.layout() == self.layout(),
    {
        proof {
            use_type_invariant(self);
        }
        Value(clone_representation(&self.0))
    }
}

impl View for Value {
    type V = (nat, nat);

    /// `(numerator, fractional_bits)`.
    closed spec fn view(&self) -> (nat, nat) {
        parts_of(self.0)
    }
}

impl Value {
    /// The layout holding the value.
    pub closed spec fn layout(&self) -> Layout {
        layout_of(self.0)
    }

    #[verifier::type_invariant]
    closed spec fn inv(self) -> bool {
        representation_wf(self.0)
    }

    /// The value as a [`BigDyadic`].
    pub fn to_big_dyadic(&self) -> (r: BigDyadic)
        requires
            self@.1 < usize::MAX,
        ensures
            r@ == self@,
    {
        proof {
            use_type_invariant(self);
        }
        let (numerator, fractional_bits) = parts(&self.0);
        BigDyadic::from_scaled(numerator, fractional_bits)
    }
}

/// Cancel the common powers of two of `numerator / 2^fractional_bits`.
fn canonicalize(numerator: Vec<u32>, fractional_bits: usize) -> (r: (Vec<u32>, usize))
    ensures
        (nat_of(r.0@), r.1 as nat) == canonical(nat_of(numerator@), fractional_bits as nat),
{
    let ghost n0 = nat_of(numerator@);
    let ghost k0 = fractional_bits as nat;
    if big_bits(&numerator) == 0 {
        proof {
            lemma_exp2_small();
        }
        return (numerator, 0);
    }
    let t = match big_trailing_zeros(&numerator) {
        Some(t) => t,
        None => 0,
    };
    let removable: usize = if t < fractional_bits as u64 {
        t as usize
    } else {
        fractional_bits
    };
    proof {
        let q = n0 / exp2(t as nat);
        lemma_exp2_positive(t as nat);
        lemma_fundamental_div_mod(n0 as int, exp2(t as nat) as int);
        lemma_mul_is_commutative(q as int, exp2(t as nat) as int);
        assert(n0 == q * exp2(t as nat));
        lemma_canonical_strip(q, t as nat, k0);
        let r = removable as nat;
        lemma_exp2_adds((t - r) as nat, r);
        lemma_exp2_positive(r);
        lemma_exp2_positive((t - r) as nat);
        assert(n0 == (q * exp2((t - r) as nat)) * exp2(r)) by {
            lemma_mul_is_associative(q as int, exp2((t - r) as nat) as int, exp2(r) as int);
        }
        lemma_div_by_multiple((q * exp2((t - r) as nat)) as int, exp2(r) as int);
    }
    let numerator = big_shr(&numerator, removable);
    (numerator, fractional_bits - removable)
}

/// The numerator and fractional bits held by a representation.
fn parts(value: &Representation) -> (r: (Vec<u32>, usize))
    requires
        representation_wf(*value),
    ensures
        (nat_of(r.0@), r.1 as nat) == parts_of(*value),
        is_canonical(nat_of(r.0@), r.1 as nat),
        nat_of(r.0@) <= exp2(r.1 as nat),
{
    match value {
        Representation::BitBoxMsb(value) => {
            let fractional_bits = value.fractional_bits();
            (value.numerator(), fractional_bits)
        },
        Representation::BitBoxLsb { bits } => {
            let len = lsb_len(bits);
            let ghost s = lsb_bits(*bits);
            let mut digits: Vec<u8> = Vec::new();
            let mut bit: usize = 0;
            proof {
                assert(s.subrange(len as int, len as int) =~= Seq::<bool>::empty());
            }
            while bit < len
                invariant
                    bit <= len,
                    len == s.len(),
                    s == lsb_bits(*bits),
                    digits@.len() == bit,
                    forall|i: int| 0 <= i < digits@.len() ==> #[trigger] digits@[i] < 2,
                    binary_value(digits@) == msb_value(s.subrange(len - bit, len as int)),
                decreases len - bit,
            {
                let set = lsb_get(bits, len - 1 - bit);
                let digit: u8 = if set {
                    1
                } else {
                    0
                };
                proof {
                    let low = s.subrange(len - bit, len as int);
                    let next = s.subrange(len - bit - 1, len as int);
                    assert(next =~= seq![s[len - 1 - bit]] + low);
                    lemma_msb_value_prepend(s[len - 1 - bit], low);
                    lemma_binary_value_push(digits@, digit);
                }
                digits.push(digit);
                bit = bit + 1;
            }
            proof {
                assert(s.subrange(0, len as int) =~= s);
            }
            match big_from_binary_digits(&digits) {
                Some(numerator) => (numerator, len - 1),
                None => unreached(),
            }
        },
        Representation::BigEndianBytes { numerator, fractional_bits } => {
            (big_from_bytes_be(numerator), *fractional_bits)
        },
        Representation::LittleEndianBytes { numerator, fractional_bits } => {
            (big_from_bytes_le(numerator), *fractional_bits)
        },
        Representation::NativeBigUint { numerator, fractional_bits } => {
            let copy = numerator.clone();
            proof {
                assert(copy@ =~= numerator@);
            }
            (copy, *fractional_bits)
        },
    }
}

/// A bit-string value of `numerator / 2^fractional_bits`.
fn lsb_value(numerator: Vec<u32>, fractional_bits: usize) -> (r: Value)
    requires
        nat_of(numerator@) <= exp2(fractional_bits as nat),
        canonical(nat_of(numerator@), fractional_bits as nat).1 < usize::MAX,
    ensures
        r@ == canonical(nat_of(numerator@), fractional_bits as nat),
        r.layout() == Layout::BitBoxLsb,
{
    let ghost n0 = nat_of(numerator@);
    let ghost k0 = fractional_bits as nat;
    let (numerator, fractional_bits) = canonicalize(numerator, fractional_bits);
    let ghost n = nat_of(numerator@);
    let ghost k = fractional_bits as nat;
    proof {
        lemma_canonical_le(n0, k0);
    }
    let width = fractional_bits + 1;
    let numerator_bits = big_bits(&numerator);
    proof {
        if numerator_bits > 0 && numerator_bits > width {
            lemma_exp2_strict(k, (numerator_bits - 1) as nat);
        }
    }
    let digits = big_binary_digits(&numerator);
    proof {
        if numerator_bits > digits@.len() {
            lemma_exp2_monotone(digits@.len(), (numerator_bits - 1) as nat);
        }
    }
    let mut bits = lsb_zeros(width);
    let mut bit: u64 = 0;
    while bit < numerator_bits
        invariant
            bit <= numerator_bits <= width,
            numerator_bits <= digits@.len(),
            forall|i: int| 0 <= i < digits@.len() ==> #[trigger] digits@[i] == (if bit_of(n, i as nat) {
                1u8
            } else {
                0u8
            }),
            width == k + 1,
            n < exp2(numerator_bits as nat),
            lsb_bits(bits).len() == width,
            forall|i: int|
                0 <= i < width ==> #[trigger] lsb_bits(bits)[i] == (width - 1 - i < bit && bit_of(
                    n,
                    (width - 1 - i) as nat,
                )),
        decreases numerator_bits - bit,
    {
        if digits[bit as usize] == 1 {
            lsb_set(&mut bits, width - 1 - (bit as usize), true);
        }
        bit = bit + 1;
    }
    proof {
        let s = lsb_bits(bits);
        assert forall|i: int| 0 <= i < width implies #[trigger] s[i] == bit_of(
            n,
            (width - 1 - i) as nat,
        ) by {
            let j = width - 1 - i;
            if j >= numerator_bits {
                lemma_exp2_monotone(numerator_bits as nat, j as nat);
                lemma_exp2_positive(j as nat);
                lemma_basic_div(n as int, exp2(j as nat) as int);
            }
        }
        lemma_exp2_monotone(numerator_bits as nat, width as nat);
        lemma_msb_value_of_bits(s, n);
    }
    Value(Representation::BitBoxLsb { bits })
}

/// A big-endian byte value of `numerator / 2^fractional_bits`.
fn big_endian_value(numerator: Vec<u32>, fractional_bits: usize) -> (r: Value)
    requires
        nat_of(numerator@) <= exp2(fractional_bits as nat),
    ensures
        r@ == canonical(nat_of(numerator@), fractional_bits as nat),
        r.layout() == Layout::BigEndianBytes,
{
    proof {
        lemma_canonical_le(nat_of(numerator@), fractional_bits as nat);
    }
    let (numerator, fractional_bits) = canonicalize(numerator, fractional_bits);
    Value(Representation::BigEndianBytes { numerator: big_to_bytes_be(&numerator), fractional_bits })
}

/// A little-endian byte value of `numerator / 2^fractional_bits`.
fn little_endian_value(numerator: Vec<u32>, fractional_bits: usize) -> (r: Value)
    requires
        nat_of(numerator@) <= exp2(fractional_bits as nat),
    ensures
        r@ == canonical(nat_of(numerator@), fractional_bits as nat),
        r.layout() == Layout::LittleEndianBytes,
{
    proof {
        lemma_canonical_le(nat_of(numerator@), fractional_bits as nat);
    }
    let (numerator, fractional_bits) = canonicalize(numerator, fractional_bits);
    Value(Representation::LittleEndianBytes { numerator: big_to_bytes_le(&numerator), fractional_bits })
}

/// A digit-vector value of `numerator / 2^fractional_bits`.
fn native_value(numerator: Vec<u32>, fractional_bits: usize) -> (r: Value)
    requires
        nat_of(numerator@) <= exp2(fractional_bits as nat),
    ensures
        r@ == canonical(nat_of(numerator@), fractional_bits as nat),
        r.layout() == Layout::NativeBigUint,
{
    proof {
        lemma_canonical_le(nat_of(numerator@), fractional_bits as nat);
    }
    let (numerator, fractional_bits) = canonicalize(numerator, fractional_bits);
    Value(Representation::NativeBigUint { numerator, fractional_bits })
}

fn prepare_msb(value: &BigDyadic) -> (r: Value)
    ensures
        r@ == value@,
        r.layout() == Layout::BitBoxMsb,
{
    Value(Representation::BitBoxMsb(value.clone()))
}

fn prepare_lsb(value: &BigDyadic) -> (r: Value)
    ensures
        r@ == value@,
        r.layout() == Layout::BitBoxLsb,
{
    let fractional_bits = value.fractional_bits();
    lsb_value(value.numerator(), fractional_bits)
}

fn prepare_big_endian(value: &BigDyadic) -> (r: Value)
    ensures
        r@ == value@,
        r.layout() == Layout::BigEndianBytes,
{
    let fractional_bits = value.fractional_bits();
    big_endian_value(value.numerator(), fractional_bits)
}

fn prepare_little_endian(value: &BigDyadic) -> (r: Value)
    ensures
        r@ == value@,
        r.layout() == Layout::LittleEndianBytes,
{
    let fractional_bits = value.fractional_bits();
    little_endian_value(value.numerator(), fractional_bits)
}

fn prepare_native(value: &BigDyadic) -> (r: Value)
    ensures
        r@ == value@,
        r.layout() == Layout::NativeBigUint,
{
    let fractional_bits = value.fractional_bits();
    native_value(value.numerator(), fractional_bits)
}

/// A product of two values in `[0, 1]` is in `[0, 1]` at the summed
/// precision.
proof fn lemma_product_in_unit(a: (nat, nat), b: (nat, nat))
    requires
        a.0 <= exp2(a.1),
        b.0 <= exp2(b.1),
    ensures
        a.0 * b.0 <= exp2(a.1 + b.1),
{
    lemma_exp2_adds(a.1, b.1);
    lemma_mul_upper_bound(a.0 as int, exp2(a.1) as int, b.0 as int, exp2(b.1) as int);
}

/// The unreduced product of two representations.
fn multiply_parts(left: &Representation, right: &Representation) -> (r: (Vec<u32>, usize))
    requires
        representation_wf(*left),
        representation_wf(*right),
        parts_of(*left).1 + parts_of(*right).1 <= usize::MAX,
    ensures
        nat_of(r.0@) == parts_of(*left).0 * parts_of(*right).0,
        r.1 == parts_of(*left).1 + parts_of(*right).1,
        nat_of(r.0@) <= exp2(r.1 as nat),
{
    let (left_numerator, left_bits) = parts(left);
    let (right_numerator, right_bits) = parts(right);
    proof {
        lemma_product_in_unit(parts_of(*left), parts_of(*right));
    }
    (big_mul(&left_numerator, &right_numerator), left_bits + right_bits)
}

fn multiply_msb(left: &Value, right: &Value) -> (r: Value)
    requires
        left.layout() == Layout::BitBoxMsb,
        right.layout() == Layout::BitBoxMsb,
        left@.1 + right@.1 < usize::MAX,
    ensures
        r@ == canonical(left@.0 * right@.0, left@.1 + right@.1),
        r.layout() == Layout::BitBoxMsb,
{
    match (&left.0, &right.0) {
        (Representation::BitBoxMsb(left), Representation::BitBoxMsb(right)) => {
            Value(Representation::BitBoxMsb(left.multiplied(right)))
        },
        _ => unreached(),
    }
}

fn multiply_lsb(left: &Value, right: &Value) -> (r: Value)
    requires
        left@.1 + right@.1 <= usize::MAX,
        canonical(left@.0 * right@.0, left@.1 + right@.1).1 < usize::MAX,
    ensures
        r@ == canonical(left@.0 * right@.0, left@.1 + right@.1),
        r.layout() == Layout::BitBoxLsb,
{
    proof {
        use_type_invariant(left);
        use_type_invariant(right);
    }
    let (numerator, bits) = multiply_parts(&left.0, &right.0);
    lsb_value(numerator, bits)
}

fn multiply_big_endian(left: &Value, right: &Value) -> (r: Value)
    requires
        left@.1 + right@.1 <= usize::MAX,
    ensures
        r@ == canonical(left@.0 * right@.0, left@.1 + right@.1),
        r.layout() == Layout::BigEndianBytes,
{
    proof {
        use_type_invariant(left);
        use_type_invariant(right);
    }
    let (numerator, bits) = multiply_parts(&left.0, &right.0);
    big_endian_value(numerator, bits)
}

fn multiply_little_endian(left: &Value, right: &Value) -> (r: Value)
    requires
        left@.1 + right@.1 <= usize::MAX,
    ensures
        r@ == canonical(left@.0 * right@.0, left@.1 + right@.1),
        r.layout() == Layout::LittleEndianBytes,
{
    proof {
        use_type_invariant(left);
        use_type_invariant(right);
    }
    let (numerator, bits) = multiply_parts(&left.0, &right.0);
    little_endian_value(numerator, bits)
}

fn multiply_native(left: &Value, right: &Value) -> (r: Value)
    requires
        left.layout() == Layout::NativeBigUint,
        right.layout() == Layout::NativeBigUint,
        left@.1 + right@.1 <= usize::MAX,
    ensures
        r@ == canonical(left@.0 * right@.0, left@.1 + right@.1),
        r.layout() == Layout::NativeBigUint,
{
    proof {
        use_type_invariant(left);
        use_type_invariant(right);
        lemma_product_in_unit(left@, right@);
    }
    match (&left.0, &right.0) {
        (
            Representation::NativeBigUint { numerator: left, fractional_bits: left_bits },
            Representation::NativeBigUint { numerator: right, fractional_bits: right_bits },
        ) => native_value(big_mul(left, right), *left_bits + *right_bits),
        _ => unreached(),
    }
}

/// `floor(numerator * scale / 2^fractional_bits)` for a value in `[0, 1]`:
/// at most `scale`, so it fits in a `u64`.
fn scale_numerator(numerator: &Vec<u32>, fractional_bits: usize, scale: u64) -> (r: u64)
    requires
        nat_of(numerator@) <= exp2(fractional_bits as nat),
    ensures
        r == nat_of(numerator@) * (scale as nat) / exp2(fractional_bits as nat),
{
    let product = big_mul(numerator, &digits_from_u64(scale));
    let scaled = big_shr(&product, fractional_bits);
    proof {
        let n = nat_of(numerator@);
        let e = exp2(fractional_bits as nat);
        lemma_exp2_positive(fractional_bits as nat);
        lemma_mul_inequality(n as int, e as int, scale as int);
        lemma_mul_is_commutative(e as int, scale as int);
        lemma_div_is_ordered((n * scale) as int, (scale * e) as int, e as int);
        lemma_div_by_multiple(scale as int, e as int);
    }
    match big_to_u64(&scaled) {
        Some(scaled) => scaled,
        None => unreached(),
    }
}

fn scale_parts(value: &Representation, scale: u64) -> (r: u64)
    requires
        representation_wf(*value),
    ensures
        r == parts_of(*value).0 * (scale as nat) / exp2(parts_of(*value).1),
{
    let (numerator, fractional_bits) = parts(value);
    scale_numerator(&numerator, fractional_bits, scale)
}

fn scale_msb(value: &Value, scale: u64) -> (r: u64)
    requires
        value.layout() == Layout::BitBoxMsb,
    ensures
        r == value@.0 * (scale as nat) / exp2(value@.1),
{
    match &value.0 {
        Representation::BitBoxMsb(value) => value.scale_floor_u64(scale),
        _ => unreached(),
    }
}

fn scale_lsb(value: &Value, scale: u64) -> (r: u64)
    ensures
        r == value@.0 * (scale as nat) / exp2(value@.1),
{
    proof {
        use_type_invariant(value);
    }
    scale_parts(&value.0, scale)
}

fn scale_big_endian(value: &Value, scale: u64) -> (r: u64)
    ensures
        r == value@.0 * (scale as nat) / exp2(value@.1),
{
    proof {
        use_type_invariant(value);
    }
    scale_parts(&value.0, scale)
}

fn scale_little_endian(value: &Value, scale: u64) -> (r: u64)
    ensures
        r == value@.0 * (scale as nat) / exp2(value@.1),
{
    proof {
        use_type_invariant(value);
    }
    scale_parts(&value.0, scale)
}

fn scale_native(value: &Value, scale: u64) -> (r: u64)
    requires
        value.layout() == Layout::NativeBigUint,
    ensures
        r == value@.0 * (scale as nat) / exp2(value@.1),
{
    proof {
        use_type_invariant(value);
    }
    match &value.0 {
        Representation::NativeBigUint { numerator, fractional_bits } => {
            scale_numerator(numerator, *fractional_bits, scale)
        },
        _ => unreached(),
    }
}

impl Candidate {
    /// Convert a [`BigDyadic`] into this layout.
    pub fn prepare(self, value: &BigDyadic) -> (r: Value)
        ensures
            r@ == value@,
            r.layout() == self.layout,
    {
        match self.layout {
            Layout::BitBoxMsb => prepare_msb(value),
            Layout::BitBoxLsb => prepare_lsb(value),
            Layout::BigEndianBytes => prepare_big_endian(value),
            Layout::LittleEndianBytes => prepare_little_endian(value),
            Layout::NativeBigUint => prepare_native(value),
        }
    }

    /// Exact product of two values, in this layout. The bit-box and native
    /// layouts multiply only values of their own layout.
    pub fn multiply(self, left: &Value, right: &Value) -> (r: Value)
        requires
            left@.1 + right@.1 <= usize::MAX,
            self.layout == Layout::BitBoxMsb ==> left.layout() == Layout::BitBoxMsb && right.layout()
                == Layout::BitBoxMsb && left@.1 + right@.1 < usize::MAX,
            self.layout == Layout::NativeBigUint ==> left.layout() == Layout::NativeBigUint
                && right.layout() == Layout::NativeBigUint,
            self.layout == Layout::BitBoxLsb ==> canonical(left@.0 * right@.0, left@.1 + right@.1).1
                < usize::MAX,
        ensures
            r@ == canonical(left@.0 * right@.0, left@.1 + right@.1),
            r.layout() == self.layout,
    {
        match self.layout {
            Layout::BitBoxMsb => multiply_msb(left, right),
            Layout::BitBoxLsb => multiply_lsb(left, right),
            Layout::BigEndianBytes => multiply_big_endian(left, right),
            Layout::LittleEndianBytes => multiply_little_endian(left, right),
            Layout::NativeBigUint => multiply_native(left, right),
        }
    }

    /// `floor(value * scale)`. The bit-box and native layouts scale only
    /// values of their own layout.
    pub fn scale_floor_u64(self, value: &Value, scale: u64) -> (r: u64)
        requires
            self.layout == Layout::BitBoxMsb ==> value.layout() == Layout::BitBoxMsb,
            self.layout == Layout::NativeBigUint ==> value.layout() == Layout::NativeBigUint,
        ensures
            r == value@.0 * (scale as nat) / exp2(value@.1),
    {
        match self.layout {
            Layout::BitBoxMsb => scale_msb(value, scale),
            Layout::BitBoxLsb => scale_lsb(value, scale),
            Layout::BigEndianBytes => scale_big_endian(value, scale),
            Layout::LittleEndianBytes => scale_little_endian(value, scale),
            Layout::NativeBigUint => scale_native(value, scale),
        }
    }
}

/// Bits most significant first, in a `BigDyadic`.
pub fn bitbox_msb_candidate() -> (r: Candidate)
    ensures
        r.name@ == "bitbox-msb"@,
        r.layout == Layout::BitBoxMsb,
{
    Candidate { name: "bitbox-msb", layout: Layout::BitBoxMsb }
}

/// Bits in index order, stored least significant first within each byte.
pub fn bitbox_lsb_candidate() -> (r: Candidate)
    ensures
        r.name@ == "bitbox-lsb"@,
        r.layout == Layout::BitBoxLsb,
{
    Candidate { name: "bitbox-lsb", layout: Layout::BitBoxLsb }
}

/// Numerator as big-endian bytes.
pub fn big_endian_bytes_candidate() -> (r: Candidate)
    ensures
        r.name@ == "big-endian-bytes"@,
        r.layout == Layout::BigEndianBytes,
{
    Candidate { name: "big-endian-bytes", layout: Layout::BigEndianBytes }
}

/// Numerator as little-endian bytes.
pub fn little_endian_bytes_candidate() -> (r: Candidate)
    ensures
        r.name@ == "little-endian-bytes"@,
        r.layout == Layout::LittleEndianBytes,
{
    Candidate { name: "little-endian-bytes", layout: Layout::LittleEndianBytes }
}

/// Numerator as big-integer digits.
pub fn native_biguint_candidate() -> (r: Candidate)
    ensures
        r.name@ == "native-biguint"@,
        r.layout == Layout::NativeBigUint,
{
    Candidate { name: "native-biguint", layout: Layout::NativeBigUint }
}

/// Every layout, in benchmark order.
pub fn candidates() -> (r: Vec<Candidate>)
    ensures
        r@.len() == 5,
        r@[0].layout == Layout::BitBoxMsb,
        r@[1].layout == Layout::BitBoxLsb,
        r@[2].layout == Layout::BigEndianBytes,
        r@[3].layout == Layout::LittleEndianBytes,
        r@[4].layout == Layout::NativeBigUint,
{
    let mut v = Vec::new();
    v.push(bitbox_msb_candidate());
    v.push(bitbox_lsb_candidate());
    v.push(big_endian_bytes_candidate());
    v.push(little_endian_bytes_candidate());
    v.push(native_biguint_candidate());
    v
}

/// Fastest arithmetic layout across the durable multiplication and scaling
/// matrix.
pub fn default_candidate() -> (r: Candidate)
    ensures
        r.name@ == "native-biguint"@,
        r.layout == Layout::NativeBigUint,
{
    native_biguint_candidate()
}

} // verus!
