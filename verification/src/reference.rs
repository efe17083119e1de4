//! A deliberately slow, exact correctness oracle for coding a byte stream
//! through a 257-symbol model: exact rational intervals for the symbol stream
//! and for the byte stream, each constraining the other.
use vstd::prelude::*;

use crate::bignum::{big_add, big_le, big_lt, big_mul, big_sub, digits_from_u128, nat_of};
use crate::partition::{prefix_weight, BoundaryMerge, SYMBOLS};

verus! {

#[derive(Clone, Copy, Debug, PartialEq, Eq, Structural)]
pub enum ByteSymbol {
    Byte(u8),
    Eos,
}

/// The position of `symbol` among the 257 ordered symbols.
pub open spec fn symbol_index(symbol: ByteSymbol) -> int {
    match symbol {
        ByteSymbol::Byte(byte) => byte as int,
        ByteSymbol::Eos => 256,
    }
}

impl ByteSymbol {
    pub(crate) fn index(self) -> (r: usize)
        ensures
            r == symbol_index(self),
            r < 257,
    {
        match self {
            ByteSymbol::Byte(byte) => byte as usize,
            ByteSymbol::Eos => 256,
        }
    }

    pub(crate) fn from_index(index: usize) -> (r: Self)
        requires
            index < 257,
        ensures
            symbol_index(r) == index,
    {
        if index == 256 {
            ByteSymbol::Eos
        } else {
            ByteSymbol::Byte(index as u8)
        }
    }
}

#[derive(Clone, Copy, Debug, PartialEq, Eq)]
pub enum ReferenceError {
    ZeroTotalWeight,
    ZeroWeightSymbol(ByteSymbol),
    InconsistentConstraint,
    EosAlreadyConstrained,
    EosNotConstrained,
    MissingEos,
}

/// An interval `[lo / den, hi / den)` as `(lo, hi, den)`.
pub open spec fn span_child(span: (nat, nat, nat), part_lo: nat, part_hi: nat, total: nat) -> (nat, nat, nat) {
    (
        span.0 * total + (span.1 - span.0) as nat * part_lo,
        span.0 * total + (span.1 - span.0) as nat * part_hi,
        span.2 * total,
    )
}

/// `outer` contains `inner`.
pub open spec fn span_contains(outer: (nat, nat, nat), inner: (nat, nat, nat)) -> bool {
    &&& outer.0 * inner.2 <= inner.0 * outer.2
    &&& inner.1 * outer.2 <= outer.1 * inner.2
}

/// The two half-open intervals share a point.
pub open spec fn span_intersects(a: (nat, nat, nat), b: (nat, nat, nat)) -> bool {
    &&& a.0 * b.2 < b.1 * a.2
    &&& b.0 * a.2 < a.1 * b.2
}

/// The point `num / den` lies in the half-open interval.
pub open spec fn span_contains_point(span: (nat, nat, nat), num: nat, den: nat) -> bool {
    &&& span.0 * den <= num * span.2
    &&& num * span.2 < span.1 * den
}

/// The radix-256 child `byte` of a byte interval.
pub open spec fn byte_child_span(span: (nat, nat, nat), byte: nat) -> (nat, nat, nat) {
    span_child(span, byte, byte + 1, 256)
}

/// The child of symbol `index` of a symbol interval under `weights`.
pub open spec fn symbol_child_span(weights: Seq<u64>, span: (nat, nat, nat), index: int) -> (nat, nat, nat) {
    span_child(span, prefix_weight(weights, index), prefix_weight(weights, index + 1), prefix_weight(weights, 257))
}

/// The byte interval reached from `span` by descending through `bytes`.
pub open spec fn byte_walk(span: (nat, nat, nat), bytes: Seq<u8>) -> (nat, nat, nat)
    decreases bytes.len(),
{
    if bytes.len() == 0 {
        span
    } else {
        byte_child_span(byte_walk(span, bytes.drop_last()), bytes.last() as nat)
    }
}

/// The symbol interval reached from `span` by descending through `symbols`.
pub open spec fn symbol_walk(weights: Seq<u64>, span: (nat, nat, nat), symbols: Seq<ByteSymbol>) -> (nat, nat, nat)
    decreases symbols.len(),
{
    if symbols.len() == 0 {
        span
    } else {
        symbol_child_span(weights, symbol_walk(weights, span, symbols.drop_last()), symbol_index(symbols.last()))
    }
}

/// The unit interval `[0, 1)`.
pub open spec fn unit_span() -> (nat, nat, nat) {
    (0, 1, 1)
}

/// The byte whose child is the first to contain `inner`, if any does.
#[verifier::opaque]
pub open spec fn forced_byte(span: (nat, nat, nat), inner: (nat, nat, nat)) -> Option<u8> {
    if exists|b: u8| span_contains(byte_child_span(span, b as nat), inner) {
        Some(
            choose|b: u8|
                span_contains(byte_child_span(span, b as nat), inner) && forall|c: u8|
                    c < b ==> !span_contains(byte_child_span(span, c as nat), inner),
        )
    } else {
        None
    }
}

/// The first positive-weight symbol whose child contains `inner`, if any does.
#[verifier::opaque]
pub open spec fn forced_symbol(weights: Seq<u64>, span: (nat, nat, nat), inner: (nat, nat, nat)) -> Option<int> {
    if exists|i: int|
        0 <= i < 257 && weights[i] > 0 && span_contains(symbol_child_span(weights, span, i), inner) {
        Some(
            choose|i: int|
                0 <= i < 257 && weights[i] > 0 && span_contains(symbol_child_span(weights, span, i), inner)
                    && forall|j: int|
                    0 <= j < i ==> !(weights[j] > 0 && span_contains(symbol_child_span(weights, span, j), inner)),
        )
    } else {
        None
    }
}

pub(crate) struct Interval {
    pub(crate) lo: Vec<u32>,
    pub(crate) hi: Vec<u32>,
    pub(crate) den: Vec<u32>,
}

pub(crate) struct Fraction {
    pub(crate) num: Vec<u32>,
    pub(crate) den: Vec<u32>,
}

impl Fraction {
    pub(crate) open spec fn value(&self) -> (nat, nat) {
        (nat_of(self.num@), nat_of(self.den@))
    }
}

impl Interval {
    pub(crate) open spec fn span(&self) -> (nat, nat, nat) {
        (nat_of(self.lo@), nat_of(self.hi@), nat_of(self.den@))
    }

    pub(crate) open spec fn wf(&self) -> bool {
        self.span().0 <= self.span().1 && self.span().2 > 0
    }

    pub(crate) fn unit() -> (r: Self)
        ensures
            r.span() == unit_span(),
            r.wf(),
    {
        Interval { lo: digits_from_u128(0), hi: digits_from_u128(1), den: digits_from_u128(1) }
    }

    pub(crate) fn child(&self, part_lo: u128, part_hi: u128, total: u128) -> (r: Self)
        requires
            self.wf(),
            part_lo <= part_hi <= total,
            total > 0,
        ensures
            r.span() == span_child(self.span(), part_lo as nat, part_hi as nat, total as nat),
            r.wf(),
    {
        let total_digits = digits_from_u128(total);
        let width = big_sub(&self.hi, &self.lo);
        let base = big_mul(&self.lo, &total_digits);
        let low_offset = big_mul(&width, &digits_from_u128(part_lo));
        let high_offset = big_mul(&width, &digits_from_u128(part_hi));
        let r = Interval {
            lo: big_add(&base, &low_offset),
            hi: big_add(&base, &high_offset),
            den: big_mul(&self.den, &total_digits),
        };
        proof {
            let w = (self.span().1 - self.span().0) as nat;
            assert(w * part_lo <= w * part_hi) by (nonlinear_arith)
                requires
                    part_lo <= part_hi,
            ;
            assert(self.span().2 * total > 0) by (nonlinear_arith)
                requires
                    self.span().2 > 0,
                    total > 0,
            ;
        }
        r
    }

    /// The point `part / total` of the way through the interval.
    pub(crate) fn edge(&self, part: u128, total: u128) -> (r: Fraction)
        requires
            self.wf(),
        ensures
            r.value() == (
                self.span().0 * (total as nat) + (self.span().1 - self.span().0) as nat * (part as nat),
                self.span().2 * (total as nat),
            ),
    {
        let total_digits = digits_from_u128(total);
        let width = big_sub(&self.hi, &self.lo);
        let base = big_mul(&self.lo, &total_digits);
        let offset = big_mul(&width, &digits_from_u128(part));
        Fraction { num: big_add(&base, &offset), den: big_mul(&self.den, &total_digits) }
    }

    pub(crate) fn byte_child(&self, byte: u8) -> (r: Self)
        requires
            self.wf(),
        ensures
            r.span() == byte_child_span(self.span(), byte as nat),
            r.wf(),
    {
        self.child(byte as u128, byte as u128 + 1, 256)
    }

    fn contains(&self, other: &Self) -> (r: bool)
        ensures
            r == span_contains(self.span(), other.span()),
    {
        fraction_le(&self.lo, &self.den, &other.lo, &other.den) && fraction_le(
            &other.hi,
            &other.den,
            &self.hi,
            &self.den,
        )
    }

    fn intersects(&self, other: &Self) -> (r: bool)
        ensures
            r == span_intersects(self.span(), other.span()),
    {
        fraction_lt(&self.lo, &self.den, &other.hi, &other.den) && fraction_lt(
            &other.lo,
            &other.den,
            &self.hi,
            &self.den,
        )
    }

    fn is_empty(&self) -> (r: bool)
        requires
            self.wf(),
        ensures
            r == (self.span().0 == self.span().1),
    {
        big_le(&self.hi, &self.lo)
    }

    fn midpoint(&self) -> (r: Fraction)
        ensures
            nat_of(r.num@) == self.span().0 + self.span().1,
            nat_of(r.den@) == 2 * self.span().2,
    {
        Fraction { num: big_add(&self.lo, &self.hi), den: big_mul(&self.den, &digits_from_u128(2)) }
    }

    fn contains_point(&self, point: &Fraction) -> (r: bool)
        ensures
            r == span_contains_point(self.span(), nat_of(point.num@), nat_of(point.den@)),
    {
        fraction_le(&self.lo, &self.den, &point.num, &point.den) && fraction_lt(
            &point.num,
            &point.den,
            &self.hi,
            &self.den,
        )
    }
}

pub(crate) fn fraction_le(a_num: &Vec<u32>, a_den: &Vec<u32>, b_num: &Vec<u32>, b_den: &Vec<u32>) -> (r: bool)
    ensures
        r == (nat_of(a_num@) * nat_of(b_den@) <= nat_of(b_num@) * nat_of(a_den@)),
{
    big_le(&big_mul(a_num, b_den), &big_mul(b_num, a_den))
}

fn fraction_lt(a_num: &Vec<u32>, a_den: &Vec<u32>, b_num: &Vec<u32>, b_den: &Vec<u32>) -> (r: bool)
    ensures
        r == (nat_of(a_num@) * nat_of(b_den@) < nat_of(b_num@) * nat_of(a_den@)),
{
    big_lt(&big_mul(a_num, b_den), &big_mul(b_num, a_den))
}

/// Deliberately slow, exact correctness oracle for the stream-constraint idea.
///
/// This implementation keeps exact arbitrary-precision rational intervals for
/// the symbol stream and byte stream. It is not intended to be fast. Its job is
/// to make the semantics painfully literal.
pub struct ReferenceModel {
    weights: [u64; SYMBOLS],
    cumulative: [u128; 258],
    total: u128,
    symbol_interval: Interval,
    byte_interval: Interval,
    byte_output: Vec<u8>,
    symbol_output: Vec<ByteSymbol>,
    eos_constrained: bool,
    eos_decoded: bool,
}

/// Total weight of the 257 symbols.
pub open spec fn model_total(weights: Seq<u64>) -> nat {
    prefix_weight(weights, 257)
}

/// No byte symbol carries all the mass: a byte interval then never stays
/// inside one symbol child forever.
pub open spec fn splits_mass(weights: Seq<u64>) -> bool {
    forall|i: int| 0 <= i < 256 ==> weights[i] < model_total(weights)
}

impl ReferenceModel {
    pub closed spec fn weights_spec(&self) -> Seq<u64> {
        self.weights@
    }

    /// The current symbol interval.
    pub closed spec fn symbol_span(&self) -> (nat, nat, nat) {
        self.symbol_interval.span()
    }

    /// The current byte interval.
    pub closed spec fn byte_span(&self) -> (nat, nat, nat) {
        self.byte_interval.span()
    }

    pub closed spec fn eos_constrained_spec(&self) -> bool {
        self.eos_constrained
    }

    pub closed spec fn eos_decoded_spec(&self) -> bool {
        self.eos_decoded
    }

    /// The model's internal state is consistent.
    pub closed spec fn wf(&self) -> bool {
        &&& self.weights@.len() == 257
        &&& forall|i: int| 0 <= i <= 257 ==> #[trigger] self.cumulative@[i] == prefix_weight(self.weights@, i)
        &&& self.total == model_total(self.weights@)
        &&& self.total > 0
        &&& self.symbol_interval.wf()
        &&& self.byte_interval.wf()
        &&& self.symbol_span().0 < self.symbol_span().1
        &&& self.byte_span().0 < self.byte_span().1
    }

    pub fn new(weights: [u64; SYMBOLS]) -> (r: Result<Self, ReferenceError>)
        ensures
            r is Err <==> model_total(weights@) == 0,
            r matches Err(e) ==> e == ReferenceError::ZeroTotalWeight,
            r matches Ok(model) ==> {
                &&& model.wf()
                &&& model.weights_spec() == weights@
                &&& model.symbol_span() == unit_span()
                &&& model.byte_span() == unit_span()
                &&& !model.eos_constrained_spec()
                &&& !model.eos_decoded_spec()
            },
    {
        let mut cumulative = [0u128; 258];
        let mut index: usize = 0;
        while index < SYMBOLS
            invariant
                index <= 257,
                weights@.len() == 257,
                cumulative@.len() == 258,
                forall|i: int| 0 <= i <= index ==> #[trigger] cumulative@[i] == prefix_weight(weights@, i),
                prefix_weight(weights@, index as int) <= index * (u64::MAX as nat),
            decreases 257 - index,
        {
            cumulative[index + 1] = cumulative[index] + weights[index] as u128;
            index = index + 1;
        }
        let total = cumulative[SYMBOLS];
        if total == 0 {
            return Err(ReferenceError::ZeroTotalWeight);
        }
        Ok(
            ReferenceModel {
                weights,
                cumulative,
                total,
                symbol_interval: Interval::unit(),
                byte_interval: Interval::unit(),
                byte_output: Vec::new(),
                symbol_output: Vec::new(),
                eos_constrained: false,
                eos_decoded: false,
            },
        )
    }

    pub fn uniform() -> (r: Self)
        ensures
            r.wf(),
            r.weights_spec() == Seq::new(257, |i: int| 1u64),
            r.symbol_span() == unit_span(),
            r.byte_span() == unit_span(),
            !r.eos_constrained_spec(),
            !r.eos_decoded_spec(),
    {
        let weights = [1u64; SYMBOLS];
        proof {
            lemma_ones_total(weights@, 257);
            assert(weights@ =~= Seq::new(257, |i: int| 1u64));
        }
        match Self::new(weights) {
            Ok(model) => model,
            Err(_) => {
                proof {
                    assert(false);
                }
                vstd::pervasive::unreached()
            },
        }
    }

    fn symbol_child(&self, index: usize) -> (r: Interval)
        requires
            self.wf(),
            index < 257,
        ensures
            r.span() == symbol_child_span(self.weights@, self.symbol_span(), index as int),
            r.wf(),
    {
        proof {
            crate::partition::lemma_prefix_weight_bounds(self.weights@, 257);
        }
        self.symbol_interval.child(self.cumulative[index], self.cumulative[index + 1], self.total)
    }

    /// Constrain the symbol side and return the byte prefix that became forced.
    pub fn try_push_symbol(&mut self, symbol: ByteSymbol) -> (r: Result<&[u8], ReferenceError>)
        requires
            old(self).wf(),
        ensures
            final(self).wf(),
            final(self).weights_spec() == old(self).weights_spec(),
            old(self).eos_constrained_spec() ==> r == Err::<&[u8], ReferenceError>(
                ReferenceError::EosAlreadyConstrained,
            ),
            !old(self).eos_constrained_spec() && old(self).weights_spec()[symbol_index(symbol)] == 0 ==> r
                == Err::<&[u8], ReferenceError>(ReferenceError::ZeroWeightSymbol(symbol)),
            !old(self).eos_constrained_spec() && old(self).weights_spec()[symbol_index(symbol)] > 0 && !span_intersects(
                symbol_child_span(old(self).weights_spec(), old(self).symbol_span(), symbol_index(symbol)),
                old(self).byte_span(),
            ) ==> r == Err::<&[u8], ReferenceError>(ReferenceError::InconsistentConstraint),
            r is Ok <==> !old(self).eos_constrained_spec() && old(self).weights_spec()[symbol_index(symbol)] > 0
                && span_intersects(
                symbol_child_span(old(self).weights_spec(), old(self).symbol_span(), symbol_index(symbol)),
                old(self).byte_span(),
            ),
            r is Err ==> final(self).symbol_span() == old(self).symbol_span() && final(self).byte_span()
                == old(self).byte_span() && final(self).eos_constrained_spec() == old(self).eos_constrained_spec(),
            final(self).eos_decoded_spec() == old(self).eos_decoded_spec(),
            r matches Ok(bytes) ==> {
                let next = symbol_child_span(old(self).weights_spec(), old(self).symbol_span(), symbol_index(symbol));
                &&& !old(self).eos_constrained_spec()
                &&& old(self).weights_spec()[symbol_index(symbol)] > 0
                &&& span_intersects(next, old(self).byte_span())
                &&& final(self).symbol_span() == next
                &&& final(self).byte_span() == byte_walk(old(self).byte_span(), bytes@)
                &&& forall|k: int|
                    0 <= k < bytes@.len() ==> forced_byte(byte_walk(old(self).byte_span(), #[trigger] bytes@.take(k)), next)
                        == Some(bytes@[k])
                &&& forced_byte(final(self).byte_span(), next) is None
                &&& final(self).eos_constrained_spec() == (symbol == ByteSymbol::Eos)
            },
    {
        self.byte_output.clear();
        if self.eos_constrained {
            return Err(ReferenceError::EosAlreadyConstrained);
        }
        let index = symbol.index();
        if self.weights[index] == 0 {
            return Err(ReferenceError::ZeroWeightSymbol(symbol));
        }
        let next = self.symbol_child(index);
        proof {
            crate::partition::lemma_prefix_weight_bounds(self.weights@, index as int + 1);
            lemma_child_shape(
                self.symbol_span(),
                prefix_weight(self.weights@, index as int),
                prefix_weight(self.weights@, index as int + 1),
                self.total as nat,
            );
            let sw = (self.symbol_span().1 - self.symbol_span().0) as nat;
            let wi = (prefix_weight(self.weights@, index as int + 1) - prefix_weight(self.weights@, index as int)) as nat;
            assert(sw * wi > 0) by (nonlinear_arith)
                requires
                    sw > 0,
                    wi > 0,
            ;
        }
        if next.is_empty() || !next.intersects(&self.byte_interval) {
            return Err(ReferenceError::InconsistentConstraint);
        }
        self.symbol_interval = next;
        push_forced_bytes(&mut self.byte_interval, &self.symbol_interval, &mut self.byte_output);
        if symbol == ByteSymbol::Eos {
            self.eos_constrained = true;
        }
        Ok(self.byte_output.as_slice())
    }

    /// Constrain the byte side and return the symbol prefix that became forced.
    pub fn try_push_byte(&mut self, byte: u8) -> (r: Result<&[ByteSymbol], ReferenceError>)
        requires
            old(self).wf(),
            splits_mass(old(self).weights_spec()),
        ensures
            final(self).wf(),
            final(self).weights_spec() == old(self).weights_spec(),
            final(self).eos_constrained_spec() == old(self).eos_constrained_spec(),
            old(self).eos_decoded_spec() ==> (r matches Ok(symbols) && symbols@.len() == 0),
            old(self).eos_decoded_spec() || r is Err ==> final(self).symbol_span() == old(self).symbol_span()
                && final(self).byte_span() == old(self).byte_span() && final(self).eos_decoded_spec()
                == old(self).eos_decoded_spec(),
            !old(self).eos_decoded_spec() ==> (r is Err <==> !span_intersects(
                byte_child_span(old(self).byte_span(), byte as nat),
                old(self).symbol_span(),
            )),
            r matches Err(e) ==> e == ReferenceError::InconsistentConstraint,
            !old(self).eos_decoded_spec() && r is Ok ==> ({
                let next = byte_child_span(old(self).byte_span(), byte as nat);
                let symbols = r->Ok_0@;
                &&& final(self).byte_span() == next
                &&& final(self).symbol_span() == symbol_walk(old(self).weights_spec(), old(self).symbol_span(), symbols)
                &&& forall|k: int|
                    0 <= k < symbols.len() ==> forced_symbol(
                        old(self).weights_spec(),
                        symbol_walk(old(self).weights_spec(), old(self).symbol_span(), #[trigger] symbols.take(k)),
                        next,
                    ) == Some(symbol_index(symbols[k]))
                &&& forall|k: int| 0 <= k < symbols.len() - 1 ==> #[trigger] symbols[k] != ByteSymbol::Eos
                &&& final(self).eos_decoded_spec() == (symbols.len() > 0 && symbols.last() == ByteSymbol::Eos)
                &&& !final(self).eos_decoded_spec() ==> forced_symbol(
                    old(self).weights_spec(),
                    final(self).symbol_span(),
                    next,
                ) is None
            }),
    {
        self.symbol_output.clear();
        if self.eos_decoded {
            return Ok(self.symbol_output.as_slice());
        }
        let next = self.byte_interval.byte_child(byte);
        if !next.intersects(&self.symbol_interval) {
            return Err(ReferenceError::InconsistentConstraint);
        }
        proof {
            lemma_byte_child_width(self.byte_span(), byte as nat);
            assert(self.byte_span().2 * 256 > 0);
        }
        self.byte_interval = next;
        let eos = push_forced_symbols(
            &self.weights,
            &self.cumulative,
            self.total,
            &mut self.symbol_interval,
            &self.byte_interval,
            &mut self.symbol_output,
        );
        if eos {
            self.eos_decoded = true;
        }
        Ok(self.symbol_output.as_slice())
    }

    /// Choose a canonical compatible byte continuation after EOS.
    ///
    /// Before finalization the symbol interval is contained in the byte interval.
    /// We follow the midpoint of the final symbol interval through radix-256
    /// children until the selected byte cylinder lies completely inside it.
    pub fn try_finish(&mut self) -> (r: Result<&[u8], ReferenceError>)
        requires
            old(self).wf(),
        ensures
            final(self).wf(),
            final(self).weights_spec() == old(self).weights_spec(),
            final(self).symbol_span() == old(self).symbol_span(),
            final(self).eos_constrained_spec() == old(self).eos_constrained_spec(),
            final(self).eos_decoded_spec() == old(self).eos_decoded_spec(),
            !old(self).eos_constrained_spec() ==> r == Err::<&[u8], ReferenceError>(ReferenceError::EosNotConstrained),
            old(self).eos_constrained_spec() && !span_contains_point(
                old(self).byte_span(),
                midpoint(old(self).symbol_span()).0,
                midpoint(old(self).symbol_span()).1,
            ) ==> r == Err::<&[u8], ReferenceError>(ReferenceError::InconsistentConstraint),
            r is Err ==> final(self).byte_span() == old(self).byte_span(),
            r is Ok <==> old(self).eos_constrained_spec() && span_contains_point(
                old(self).byte_span(),
                midpoint(old(self).symbol_span()).0,
                midpoint(old(self).symbol_span()).1,
            ),
            r matches Ok(bytes) ==> final(self).byte_span() == byte_walk(old(self).byte_span(), bytes@),
            r is Ok ==> span_contains(final(self).symbol_span(), final(self).byte_span()),
            r matches Ok(bytes) ==> finish_steps(old(self).symbol_span(), old(self).byte_span(), bytes@),
    {
        self.byte_output.clear();
        if !self.eos_constrained {
            return Err(ReferenceError::EosNotConstrained);
        }
        let point = self.symbol_interval.midpoint();
        if !self.byte_interval.contains_point(&point) {
            return Err(ReferenceError::InconsistentConstraint);
        }
        let ghost start = self.byte_span();
        let ghost target = self.symbol_span();
        let ghost mid = midpoint(target);
        proof {
            assert(self.byte_output@ =~= Seq::<u8>::empty());
        }
        while !self.symbol_interval.contains(&self.byte_interval)
            invariant
                self.wf(),
                self.symbol_span() == target,
                start == old(self).byte_span(),
                target == old(self).symbol_span(),
                mid == midpoint(target),
                self.eos_constrained,
                span_contains_point(start, mid.0, mid.1),
                nat_of(point.num@) == mid.0,
                nat_of(point.den@) == mid.1,
                mid.1 > 0,
                span_contains_point(self.byte_span(), mid.0, mid.1),
                self.byte_span() == byte_walk(start, self.byte_output@),
                finish_steps(target, start, self.byte_output@),
                self.weights@ == old(self).weights@,
                self.eos_constrained == old(self).eos_constrained,
                self.eos_decoded == old(self).eos_decoded,
            decreases finish_excess(self.byte_span(), self.symbol_span()),
        {
            proof {
                if finish_excess(self.byte_span(), target) == 0 {
                    let x = 2 * (self.byte_span().1 - self.byte_span().0) * target.2;
                    let y = (target.1 - target.0) * self.byte_span().2;
                    assert(y > 0) by (nonlinear_arith)
                        requires
                            target.1 - target.0 > 0,
                            self.byte_span().2 > 0,
                            y == (target.1 - target.0) * self.byte_span().2,
                    ;
                    vstd::arithmetic::div_mod::lemma_fundamental_div_mod(x as int, y as int);
                    assert(x < y) by (nonlinear_arith)
                        requires
                            x / y == 0,
                            y > 0,
                            x == y * (x / y) + x % y,
                            x % y < y,
                    {
                        vstd::arithmetic::div_mod::lemma_mod_bound(x as int, y as int);
                    }
                    lemma_narrow_around_midpoint(self.byte_span(), target);
                }
            }
            let (byte, child) = child_containing_point(&self.byte_interval, &point);
            let ghost before = self.byte_output@;
            proof {
                lemma_finish_excess_shrinks(self.byte_span(), target, byte as nat);
                lemma_byte_child_width(self.byte_span(), byte as nat);
            }
            self.byte_output.push(byte);
            self.byte_interval = child;
            proof {
                let out = self.byte_output@;
                assert(out.drop_last() =~= before);
                assert forall|k: int| 0 <= k < out.len() implies !span_contains(
                    target,
                    byte_walk(start, #[trigger] out.take(k)),
                ) && span_contains_point(byte_walk(start, out.take(k + 1)), mid.0, mid.1) by {
                    if k < before.len() {
                        assert(out.take(k) =~= before.take(k));
                        assert(out.take(k + 1) =~= before.take(k + 1));
                    } else {
                        assert(out.take(k) =~= before);
                        assert(out.take(k + 1) =~= out);
                    }
                }
            }
        }
        let out = self.byte_output.as_slice();
        Ok(out)
    }

    pub fn partition_view(&self) -> (r: BoundaryMerge)
        requires
            self.wf(),
        ensures
            r.events() == crate::partition::merged_events(self.weights_spec()),
    {
        match BoundaryMerge::from_weights(&self.weights) {
            Ok(merge) => merge,
            Err(_) => {
                proof {
                    assert(false);
                }
                vstd::pervasive::unreached()
            },
        }
    }
}

/// The ratio of the byte interval's width to the symbol interval's width,
/// rounded down.
pub open spec fn byte_excess(byte: (nat, nat, nat), symbol: (nat, nat, nat)) -> nat {
    (((byte.1 - byte.0) * symbol.2) / ((symbol.1 - symbol.0) * byte.2)) as nat
}

/// Containment compares widths.
pub(crate) proof fn lemma_contains_width(outer: (nat, nat, nat), inner: (nat, nat, nat))
    requires
        span_contains(outer, inner),
        inner.0 <= inner.1,
        outer.0 <= outer.1,
    ensures
        (inner.1 - inner.0) * outer.2 <= (outer.1 - outer.0) * inner.2,
{
    assert((inner.1 - inner.0) * outer.2 == inner.1 * outer.2 - inner.0 * outer.2) by (nonlinear_arith);
    assert((outer.1 - outer.0) * inner.2 == outer.1 * inner.2 - outer.0 * inner.2) by (nonlinear_arith);
}

/// A child keeps its parent's order and its width is the parent's width
/// times the part's width.
pub(crate) proof fn lemma_child_shape(span: (nat, nat, nat), part_lo: nat, part_hi: nat, total: nat)
    requires
        span.0 <= span.1,
        part_lo <= part_hi,
    ensures
        span_child(span, part_lo, part_hi, total).0 <= span_child(span, part_lo, part_hi, total).1,
        span_child(span, part_lo, part_hi, total).1 - span_child(span, part_lo, part_hi, total).0 == (
        span.1 - span.0) * (part_hi - part_lo),
{
    let w = (span.1 - span.0) as nat;
    assert(w * part_hi - w * part_lo == w * (part_hi - part_lo)) by (nonlinear_arith);
    assert(w * part_lo <= w * part_hi) by (nonlinear_arith)
        requires
            part_lo <= part_hi,
    ;
}

/// A byte child keeps its parent's width over a 256 times larger
/// denominator.
pub(crate) proof fn lemma_byte_child_width(span: (nat, nat, nat), b: nat)
    requires
        span.0 <= span.1,
    ensures
        byte_child_span(span, b).1 - byte_child_span(span, b).0 == span.1 - span.0,
        byte_child_span(span, b).0 <= byte_child_span(span, b).1,
        byte_child_span(span, b).2 == span.2 * 256,
{
    lemma_child_shape(span, b, b + 1, 256);
    let w = span.1 - span.0;
    assert(w * (b + 1 - b) == w) by (nonlinear_arith);
}

/// Descending into a byte child that still contains the symbol interval
/// shrinks the excess.
pub(crate) proof fn lemma_byte_excess_shrinks(byte: (nat, nat, nat), symbol: (nat, nat, nat), b: nat)
    requires
        byte.0 <= byte.1,
        byte.2 > 0,
        symbol.0 < symbol.1,
        symbol.2 > 0,
        b < 256,
        span_contains(byte_child_span(byte, b), symbol),
    ensures
        byte_excess(byte_child_span(byte, b), symbol) < byte_excess(byte, symbol),
{
    let child = byte_child_span(byte, b);
    lemma_child_shape(byte, b, b + 1, 256);
    lemma_contains_width(child, symbol);
    let w = (byte.1 - byte.0) as nat;
    let sw = (symbol.1 - symbol.0) as nat;
    let x = w * symbol.2;
    let y = sw * byte.2;
    assert(child.1 - child.0 == w * (b + 1 - b));
    assert(w * (b + 1 - b) == w) by (nonlinear_arith);
    assert(child.2 == byte.2 * 256);
    vstd::arithmetic::mul::lemma_mul_is_associative(sw as int, byte.2 as int, 256);
    assert(sw * child.2 == y * 256);
    assert(y * 256 <= x);
    assert(y > 0) by (nonlinear_arith)
        requires
            sw > 0,
            byte.2 > 0,
            y == sw * byte.2,
    ;
    vstd::arithmetic::div_mod::lemma_div_denominator(x as int, y as int, 256);
    vstd::arithmetic::div_mod::lemma_div_is_ordered((y * 256) as int, x as int, y as int);
    vstd::arithmetic::div_mod::lemma_div_by_multiple(256, y as int);
    vstd::arithmetic::mul::lemma_mul_is_commutative(256, y as int);
    let q = x / y;
    assert(q >= 256);
    assert(q / 256 < q);
    assert(byte_excess(byte, symbol) == q);
    assert(byte_excess(child, symbol) == x / (y * 256));
}

/// Extending a forced prefix by the next forced byte keeps it forced.
proof fn lemma_forced_bytes_extend(start: (nat, nat, nat), before: Seq<u8>, byte: u8, target: (nat, nat, nat))
    requires
        forall|k: int|
            0 <= k < before.len() ==> forced_byte(byte_walk(start, #[trigger] before.take(k)), target)
                == Some(before[k]),
        forced_byte(byte_walk(start, before), target) == Some(byte),
    ensures
        forall|k: int|
            0 <= k < before.push(byte).len() ==> forced_byte(byte_walk(start, #[trigger] before.push(byte).take(k)), target)
                == Some(before.push(byte)[k]),
        byte_walk(start, before.push(byte)) == byte_child_span(byte_walk(start, before), byte as nat),
{
    let out = before.push(byte);
    assert(out.drop_last() =~= before);
    assert forall|k: int| 0 <= k < out.len() implies forced_byte(
        byte_walk(start, #[trigger] out.take(k)),
        target,
    ) == Some(out[k]) by {
        if k < before.len() {
            assert(out.take(k) =~= before.take(k));
        } else {
            assert(out.take(k) =~= before);
        }
    }
}

/// A forced byte's child contains the interval that forced it.
proof fn lemma_forced_byte_contains(span: (nat, nat, nat), inner: (nat, nat, nat), b: u8)
    requires
        forced_byte(span, inner) == Some(b),
    ensures
        span_contains(byte_child_span(span, b as nat), inner),
{
    reveal(forced_byte);
    assert(exists|x: u8| span_contains(byte_child_span(span, x as nat), inner));
    let pick = choose|x: u8|
        span_contains(byte_child_span(span, x as nat), inner) && forall|c: u8|
            c < x ==> !span_contains(byte_child_span(span, c as nat), inner);
    let least = choose|x: u8| span_contains(byte_child_span(span, x as nat), inner);
    lemma_least_byte_exists(span, inner, least);
}

/// If some byte child contains `inner`, a least one does.
proof fn lemma_least_byte_exists(span: (nat, nat, nat), inner: (nat, nat, nat), b: u8)
    requires
        span_contains(byte_child_span(span, b as nat), inner),
    ensures
        exists|x: u8|
            span_contains(byte_child_span(span, x as nat), inner) && forall|c: u8|
                c < x ==> !span_contains(byte_child_span(span, c as nat), inner),
    decreases b,
{
    if exists|c: u8| c < b && span_contains(byte_child_span(span, c as nat), inner) {
        let c = choose|c: u8| c < b && span_contains(byte_child_span(span, c as nat), inner);
        lemma_least_byte_exists(span, inner, c);
    } else {
        assert(span_contains(byte_child_span(span, b as nat), inner) && forall|c: u8|
            c < b ==> !span_contains(byte_child_span(span, c as nat), inner));
    }
}

/// The first byte child of `byte` that contains `symbol`, and that child.
fn first_containing_byte(byte: &Interval, symbol: &Interval) -> (r: Option<(u8, Interval)>)
    requires
        byte.wf(),
    ensures
        r matches Some((b, child)) ==> forced_byte(byte.span(), symbol.span()) == Some(b)
            && child.span() == byte_child_span(byte.span(), b as nat) && child.wf(),
        r is None ==> forced_byte(byte.span(), symbol.span()) is None,
{
    reveal(forced_byte);
    let mut candidate: u16 = 0;
    while candidate < 256
        invariant
            candidate <= 256,
            byte.wf(),
            forall|c: u8| c < candidate ==> !span_contains(byte_child_span(byte.span(), c as nat), symbol.span()),
        decreases 256 - candidate,
    {
        let child = byte.byte_child(candidate as u8);
        if child.contains(symbol) {
            proof {
                reveal(forced_byte);
                let b = candidate as u8;
                let pick = choose|x: u8|
                    span_contains(byte_child_span(byte.span(), x as nat), symbol.span()) && forall|c: u8|
                        c < x ==> !span_contains(byte_child_span(byte.span(), c as nat), symbol.span());
                assert(span_contains(byte_child_span(byte.span(), b as nat), symbol.span()));
                assert(pick == b) by {
                    if pick < b {
                    } else if pick > b {
                        assert(!span_contains(byte_child_span(byte.span(), b as nat), symbol.span()));
                    }
                }
            }
            return Some((candidate as u8, child));
        }
        candidate = candidate + 1;
    }
    None
}

/// The ratio, scaled by the model total, of the symbol interval's width to
/// the byte interval's width, rounded down.
pub open spec fn symbol_excess(symbol: (nat, nat, nat), byte: (nat, nat, nat), total: nat) -> nat {
    ((total * ((symbol.1 - symbol.0) * byte.2)) / ((byte.1 - byte.0) * symbol.2)) as nat
}

/// Descending into a symbol child with less than all the mass that still
/// contains the byte interval shrinks the excess.
pub(crate) proof fn lemma_symbol_excess_shrinks(
    weights: Seq<u64>,
    symbol: (nat, nat, nat),
    byte: (nat, nat, nat),
    index: int,
)
    requires
        weights.len() == 257,
        0 <= index < 257,
        0 < weights[index] < model_total(weights),
        symbol.0 < symbol.1,
        symbol.2 > 0,
        byte.0 < byte.1,
        byte.2 > 0,
        span_contains(symbol_child_span(weights, symbol, index), byte),
    ensures
        symbol_excess(symbol_child_span(weights, symbol, index), byte, model_total(weights)) < symbol_excess(
            symbol,
            byte,
            model_total(weights),
        ),
{
    let total = model_total(weights);
    let child = symbol_child_span(weights, symbol, index);
    crate::partition::lemma_prefix_weight_bounds(weights, 257);
    let lo = prefix_weight(weights, index);
    let hi = prefix_weight(weights, index + 1);
    assert(hi == lo + weights[index]);
    lemma_child_shape(symbol, lo, hi, total);
    lemma_contains_width(child, byte);
    let sw = (symbol.1 - symbol.0) as nat;
    let bw = (byte.1 - byte.0) as nat;
    let wi = weights[index] as nat;
    let x = sw * byte.2;
    let y = bw * symbol.2;
    assert(child.1 - child.0 == sw * wi);
    assert(child.2 == symbol.2 * total);
    // Containment: bw * (symbol.2 * total) <= (sw * wi) * byte.2.
    assert(y * total <= x * wi) by (nonlinear_arith)
        requires
            bw * (symbol.2 * total) <= (sw * wi) * byte.2,
            x == sw * byte.2,
            y == bw * symbol.2,
    ;
    assert(y > 0) by (nonlinear_arith)
        requires
            bw > 0,
            symbol.2 > 0,
            y == bw * symbol.2,
    ;
    assert(x * wi <= x * (total - 1)) by (nonlinear_arith)
        requires
            wi <= total - 1,
    ;
    assert(y <= x) by (nonlinear_arith)
        requires
            y * total <= x * wi,
            wi < total,
            y > 0,
    ;
    assert(x * wi <= total * x - y) by (nonlinear_arith)
        requires
            x * wi <= x * (total - 1),
            y <= x,
    ;
    // The child's excess is (x * wi) / y.
    assert(total * ((child.1 - child.0) * byte.2) == (x * wi) * total) by (nonlinear_arith)
        requires
            child.1 - child.0 == sw * wi,
            x == sw * byte.2,
    ;
    assert(bw * child.2 == y * total) by (nonlinear_arith)
        requires
            child.2 == symbol.2 * total,
            y == bw * symbol.2,
    ;
    assert(total > 0);
    let a = x * wi;
    vstd::arithmetic::div_mod::lemma_div_denominator((a * total) as int, total as int, y as int);
    vstd::arithmetic::div_mod::lemma_div_by_multiple(a as int, total as int);
    vstd::arithmetic::mul::lemma_mul_is_commutative(total as int, y as int);
    assert((a * total) / (y * total) == a / y);
    vstd::arithmetic::div_mod::lemma_div_is_ordered(a as int, (total * x - y) as int, y as int);
    vstd::arithmetic::div_mod::lemma_div_plus_one((total * x - y) as int, y as int);
    assert(symbol_excess(child, byte, total) == a / y);
    assert(symbol_excess(symbol, byte, total) == (total * x) / y);
}

/// Descend `byte` through every byte child that contains `symbol`, recording
/// the bytes after what `output` already holds.
fn push_forced_bytes(byte: &mut Interval, symbol: &Interval, output: &mut Vec<u8>)
    requires
        old(byte).wf(),
        old(byte).span().0 < old(byte).span().1,
        symbol.span().0 < symbol.span().1,
        symbol.span().2 > 0,
        old(output)@.len() == 0,
    ensures
        final(byte).wf(),
        final(byte).span().0 < final(byte).span().1,
        final(byte).span() == byte_walk(old(byte).span(), final(output)@),
        forall|k: int|
            0 <= k < final(output)@.len() ==> forced_byte(byte_walk(old(byte).span(), #[trigger] final(output)@.take(k)), symbol.span())
                == Some(final(output)@[k]),
        forced_byte(final(byte).span(), symbol.span()) is None,
{
    let ghost start = byte.span();
    let ghost target = symbol.span();
    proof {
        assert(output@ =~= Seq::<u8>::empty());
    }
    loop
        invariant
            byte.wf(),
            byte.span().0 < byte.span().1,
            symbol.span() == target,
            target.0 < target.1,
            target.2 > 0,
            byte.span() == byte_walk(start, output@),
            forall|k: int|
                0 <= k < output@.len() ==> forced_byte(byte_walk(start, #[trigger] output@.take(k)), target)
                    == Some(output@[k]),
        ensures
            byte.wf(),
            byte.span().0 < byte.span().1,
            byte.span() == byte_walk(start, output@),
            forall|k: int|
                0 <= k < output@.len() ==> forced_byte(byte_walk(start, #[trigger] output@.take(k)), target)
                    == Some(output@[k]),
            forced_byte(byte.span(), target) is None,
        decreases byte_excess(byte.span(), target),
    {
        match first_containing_byte(byte, symbol) {
            None => {
                break;
            },
            Some((next, child)) => {
                let ghost before = output@;
                proof {
                    lemma_forced_byte_contains(byte.span(), target, next);
                    lemma_byte_excess_shrinks(byte.span(), target, next as nat);
                    lemma_forced_bytes_extend(start, before, next, target);
                    lemma_byte_child_width(byte.span(), next as nat);
                }
                output.push(next);
                *byte = child;
            },
        }
    }
}

/// The cumulative weights are the prefix sums of the weights.
pub open spec fn cumulative_of(weights: Seq<u64>, cumulative: Seq<u128>) -> bool {
    &&& weights.len() == 257
    &&& cumulative.len() == 258
    &&& forall|i: int| 0 <= i <= 257 ==> #[trigger] cumulative[i] == prefix_weight(weights, i)
}

/// A positive-weight symbol child is a nonempty interval.
pub(crate) proof fn lemma_symbol_child_shape(weights: Seq<u64>, span: (nat, nat, nat), index: int)
    requires
        weights.len() == 257,
        0 <= index < 257,
        span.0 <= span.1,
    ensures
        symbol_child_span(weights, span, index).0 <= symbol_child_span(weights, span, index).1,
        symbol_child_span(weights, span, index).1 - symbol_child_span(weights, span, index).0 == (span.1
            - span.0) * weights[index],
        symbol_child_span(weights, span, index).2 == span.2 * model_total(weights),
        span.0 < span.1 && weights[index] > 0 ==> symbol_child_span(weights, span, index).0
            < symbol_child_span(weights, span, index).1,
{
    let lo = prefix_weight(weights, index);
    let hi = prefix_weight(weights, index + 1);
    assert(hi == lo + weights[index]);
    lemma_child_shape(span, lo, hi, model_total(weights));
    let sw = (span.1 - span.0) as nat;
    if span.0 < span.1 && weights[index] > 0 {
        assert(sw * weights[index] > 0) by (nonlinear_arith)
            requires
                sw > 0,
                weights[index] > 0,
        ;
    }
}

/// The first positive-weight symbol child of `symbol` that contains `byte`,
/// and that child.
fn first_forced_symbol(
    weights: &[u64; SYMBOLS],
    cumulative: &[u128; 258],
    total: u128,
    symbol: &Interval,
    byte: &Interval,
) -> (r: Option<(usize, Interval)>)
    requires
        cumulative_of(weights@, cumulative@),
        total == model_total(weights@),
        total > 0,
        symbol.wf(),
    ensures
        r matches Some((i, child)) ==> forced_symbol(weights@, symbol.span(), byte.span()) == Some(i as int)
            && child.span() == symbol_child_span(weights@, symbol.span(), i as int) && child.wf() && i < 257,
        r is None ==> forced_symbol(weights@, symbol.span(), byte.span()) is None,
{
    proof {
        crate::partition::lemma_prefix_weight_bounds(weights@, 257);
    }
    let mut index: usize = 0;
    while index < SYMBOLS
        invariant
            index <= 257,
            cumulative_of(weights@, cumulative@),
            total == model_total(weights@),
            total > 0,
            symbol.wf(),
            forall|i: int| 0 <= i <= 257 ==> #[trigger] prefix_weight(weights@, i) <= prefix_weight(weights@, 257),
            forall|j: int|
                0 <= j < index ==> !(weights@[j] > 0 && span_contains(
                    symbol_child_span(weights@, symbol.span(), j),
                    byte.span(),
                )),
        decreases 257 - index,
    {
        if weights[index] != 0 {
            proof {
                assert(prefix_weight(weights@, index as int + 1) == prefix_weight(weights@, index as int)
                    + weights@[index as int]);
            }
            let child = symbol.child(cumulative[index], cumulative[index + 1], total);
            if child.contains(byte) {
                proof {
                    reveal(forced_symbol);
                    let i = index as int;
                    let pick = choose|x: int|
                        0 <= x < 257 && weights@[x] > 0 && span_contains(
                            symbol_child_span(weights@, symbol.span(), x),
                            byte.span(),
                        ) && forall|j: int|
                            0 <= j < x ==> !(weights@[j] > 0 && span_contains(
                                symbol_child_span(weights@, symbol.span(), j),
                                byte.span(),
                            ));
                    assert(0 <= i < 257 && weights@[i] > 0 && span_contains(
                        symbol_child_span(weights@, symbol.span(), i),
                        byte.span(),
                    ));
                    assert(pick == i) by {
                        if pick > i {
                        }
                    }
                }
                return Some((index, child));
            }
        }
        index = index + 1;
    }
    proof {
        reveal(forced_symbol);
    }
    None
}

/// A forced symbol has positive weight and its child contains the interval
/// that forced it.
proof fn lemma_forced_symbol_contains(weights: Seq<u64>, span: (nat, nat, nat), inner: (nat, nat, nat), i: int)
    requires
        forced_symbol(weights, span, inner) == Some(i),
    ensures
        0 <= i < 257,
        weights[i] > 0,
        span_contains(symbol_child_span(weights, span, i), inner),
{
    reveal(forced_symbol);
    let least = choose|x: int|
        0 <= x < 257 && weights[x] > 0 && span_contains(symbol_child_span(weights, span, x), inner);
    lemma_least_symbol_exists(weights, span, inner, least);
}

proof fn lemma_least_symbol_exists(weights: Seq<u64>, span: (nat, nat, nat), inner: (nat, nat, nat), i: int)
    requires
        0 <= i < 257,
        weights[i] > 0,
        span_contains(symbol_child_span(weights, span, i), inner),
    ensures
        exists|x: int|
            0 <= x < 257 && weights[x] > 0 && span_contains(symbol_child_span(weights, span, x), inner)
                && forall|j: int|
                0 <= j < x ==> !(weights[j] > 0 && span_contains(symbol_child_span(weights, span, j), inner)),
    decreases i,
{
    if exists|j: int| 0 <= j < i && weights[j] > 0 && span_contains(symbol_child_span(weights, span, j), inner) {
        let j = choose|j: int|
            0 <= j < i && weights[j] > 0 && span_contains(symbol_child_span(weights, span, j), inner);
        lemma_least_symbol_exists(weights, span, inner, j);
    }
}

/// Extending a forced symbol prefix by the next forced symbol keeps it forced.
proof fn lemma_forced_symbols_extend(
    weights: Seq<u64>,
    start: (nat, nat, nat),
    before: Seq<ByteSymbol>,
    symbol: ByteSymbol,
    target: (nat, nat, nat),
)
    requires
        forall|k: int|
            0 <= k < before.len() ==> forced_symbol(weights, symbol_walk(weights, start, #[trigger] before.take(k)), target)
                == Some(symbol_index(before[k])),
        forced_symbol(weights, symbol_walk(weights, start, before), target) == Some(symbol_index(symbol)),
    ensures
        forall|k: int|
            0 <= k < before.push(symbol).len() ==> forced_symbol(
                weights,
                symbol_walk(weights, start, #[trigger] before.push(symbol).take(k)),
                target,
            ) == Some(symbol_index(before.push(symbol)[k])),
        symbol_walk(weights, start, before.push(symbol)) == symbol_child_span(
            weights,
            symbol_walk(weights, start, before),
            symbol_index(symbol),
        ),
{
    let out = before.push(symbol);
    assert(out.drop_last() =~= before);
    assert forall|k: int| 0 <= k < out.len() implies forced_symbol(
        weights,
        symbol_walk(weights, start, #[trigger] out.take(k)),
        target,
    ) == Some(symbol_index(out[k])) by {
        if k < before.len() {
            assert(out.take(k) =~= before.take(k));
        } else {
            assert(out.take(k) =~= before);
        }
    }
}

/// Descend `symbol` through every positive-weight symbol child that contains
/// `byte`, recording the symbols after what `output` already holds, and
/// stopping after the end of stream. Returns whether the end of stream was
/// reached.
fn push_forced_symbols(
    weights: &[u64; SYMBOLS],
    cumulative: &[u128; 258],
    total: u128,
    symbol: &mut Interval,
    byte: &Interval,
    output: &mut Vec<ByteSymbol>,
) -> (eos: bool)
    requires
        cumulative_of(weights@, cumulative@),
        total == model_total(weights@),
        total > 0,
        splits_mass(weights@),
        old(symbol).wf(),
        old(symbol).span().0 < old(symbol).span().1,
        byte.span().0 < byte.span().1,
        byte.span().2 > 0,
        old(output)@.len() == 0,
    ensures
        final(symbol).wf(),
        final(symbol).span().0 < final(symbol).span().1,
        final(symbol).span() == symbol_walk(weights@, old(symbol).span(), final(output)@),
        forall|k: int|
            0 <= k < final(output)@.len() ==> forced_symbol(
                weights@,
                symbol_walk(weights@, old(symbol).span(), #[trigger] final(output)@.take(k)),
                byte.span(),
            ) == Some(symbol_index(final(output)@[k])),
        forall|k: int| 0 <= k < final(output)@.len() - 1 ==> #[trigger] final(output)@[k] != ByteSymbol::Eos,
        eos == (final(output)@.len() > 0 && final(output)@.last() == ByteSymbol::Eos),
        !eos ==> forced_symbol(weights@, final(symbol).span(), byte.span()) is None,
{
    let ghost start = symbol.span();
    let ghost target = byte.span();
    proof {
        assert(output@ =~= Seq::<ByteSymbol>::empty());
    }
    loop
        invariant
            cumulative_of(weights@, cumulative@),
            total == model_total(weights@),
            total > 0,
            splits_mass(weights@),
            symbol.wf(),
            symbol.span().0 < symbol.span().1,
            symbol.span().2 > 0,
            byte.span() == target,
            target.0 < target.1,
            target.2 > 0,
            start == old(symbol).span(),
            symbol.span() == symbol_walk(weights@, start, output@),
            forall|k: int|
                0 <= k < output@.len() ==> forced_symbol(weights@, symbol_walk(weights@, start, #[trigger] output@.take(k)), target)
                    == Some(symbol_index(output@[k])),
            forall|k: int| 0 <= k < output@.len() ==> #[trigger] output@[k] != ByteSymbol::Eos,
        ensures
            symbol.wf(),
            symbol.span().0 < symbol.span().1,
            symbol.span() == symbol_walk(weights@, start, output@),
            forall|k: int|
                0 <= k < output@.len() ==> forced_symbol(weights@, symbol_walk(weights@, start, #[trigger] output@.take(k)), target)
                    == Some(symbol_index(output@[k])),
            forall|k: int| 0 <= k < output@.len() - 1 ==> #[trigger] output@[k] != ByteSymbol::Eos,
            output@.len() > 0 && output@.last() == ByteSymbol::Eos || forced_symbol(weights@, symbol.span(), target) is None,
        decreases symbol_excess(symbol.span(), target, total as nat),
    {
        match first_forced_symbol(weights, cumulative, total, symbol, byte) {
            None => {
                break;
            },
            Some((index, child)) => {
                let next = ByteSymbol::from_index(index);
                let ghost before = output@;
                proof {
                    lemma_forced_symbol_contains(weights@, symbol.span(), target, index as int);
                    lemma_symbol_child_shape(weights@, symbol.span(), index as int);
                    lemma_forced_symbols_extend(weights@, start, before, next, target);
                    assert(symbol.span().2 * total > 0) by (nonlinear_arith)
                        requires
                            symbol.span().2 > 0,
                            total > 0,
                    ;
                    if index < 256 {
                        lemma_symbol_excess_shrinks(weights@, symbol.span(), target, index as int);
                    }
                }
                output.push(next);
                *symbol = child;
                if index == 256 {
                    proof {
                        assert(output@.last() == ByteSymbol::Eos);
                        assert forall|k: int| 0 <= k < output@.len() - 1 implies #[trigger] output@[k]
                            != ByteSymbol::Eos by {
                            assert(output@[k] == before[k]);
                        }
                    }
                    return true;
                }
            },
        }
    }
    proof {
        if output@.len() > 0 {
            assert(output@.last() != ByteSymbol::Eos);
        }
    }
    false
}

/// The midpoint of a symbol interval, as `(numerator, denominator)`.
pub open spec fn midpoint(span: (nat, nat, nat)) -> (nat, nat) {
    (span.0 + span.1, 2 * span.2)
}

/// Twice the ratio of the byte interval's width to the symbol interval's
/// width, rounded down.
pub open spec fn finish_excess(byte: (nat, nat, nat), symbol: (nat, nat, nat)) -> nat {
    ((2 * (byte.1 - byte.0) * symbol.2) / ((symbol.1 - symbol.0) * byte.2)) as nat
}

/// A byte interval holding the midpoint of a symbol interval, and narrower
/// than half of it, lies inside the symbol interval.
proof fn lemma_narrow_around_midpoint(byte: (nat, nat, nat), symbol: (nat, nat, nat))
    requires
        byte.0 <= byte.1,
        byte.2 > 0,
        symbol.0 < symbol.1,
        symbol.2 > 0,
        span_contains_point(byte, midpoint(symbol).0, midpoint(symbol).1),
        2 * (byte.1 - byte.0) * symbol.2 < (symbol.1 - symbol.0) * byte.2,
    ensures
        span_contains(symbol, byte),
{
    let p = byte.0 * symbol.2;
    let q = byte.1 * symbol.2;
    let a = symbol.0 * byte.2;
    let b = symbol.1 * byte.2;
    assert(byte.0 * (2 * symbol.2) == 2 * p) by (nonlinear_arith)
        requires
            p == byte.0 * symbol.2,
    ;
    assert((symbol.0 + symbol.1) * byte.2 == a + b) by (nonlinear_arith)
        requires
            a == symbol.0 * byte.2,
            b == symbol.1 * byte.2,
    ;
    assert(byte.1 * (2 * symbol.2) == 2 * q) by (nonlinear_arith)
        requires
            q == byte.1 * symbol.2,
    ;
    assert(2 * (byte.1 - byte.0) * symbol.2 == 2 * q - 2 * p) by (nonlinear_arith)
        requires
            p == byte.0 * symbol.2,
            q == byte.1 * symbol.2,
    ;
    assert((symbol.1 - symbol.0) * byte.2 == b - a) by (nonlinear_arith)
        requires
            a == symbol.0 * byte.2,
            b == symbol.1 * byte.2,
    ;
    assert(a <= p && q <= b);
}

/// Descending into a byte child shrinks the finishing excess while it is
/// at least one.
proof fn lemma_finish_excess_shrinks(byte: (nat, nat, nat), symbol: (nat, nat, nat), b: nat)
    requires
        byte.0 <= byte.1,
        byte.2 > 0,
        symbol.0 < symbol.1,
        symbol.2 > 0,
        finish_excess(byte, symbol) >= 1,
    ensures
        finish_excess(byte_child_span(byte, b), symbol) < finish_excess(byte, symbol),
{
    lemma_byte_child_width(byte, b);
    let child = byte_child_span(byte, b);
    let x = 2 * (byte.1 - byte.0) * symbol.2;
    let y = (symbol.1 - symbol.0) * byte.2;
    assert(y > 0) by (nonlinear_arith)
        requires
            symbol.1 - symbol.0 > 0,
            byte.2 > 0,
            y == (symbol.1 - symbol.0) * byte.2,
    ;
    assert((symbol.1 - symbol.0) * child.2 == y * 256) by (nonlinear_arith)
        requires
            child.2 == byte.2 * 256,
            y == (symbol.1 - symbol.0) * byte.2,
    ;
    vstd::arithmetic::div_mod::lemma_div_denominator(x as int, y as int, 256);
    assert(finish_excess(child, symbol) == x / (y * 256));
    assert(finish_excess(byte, symbol) == x / y);
}

/// The byte child of `byte` that holds the point `num / den`.
fn child_containing_point(byte: &Interval, point: &Fraction) -> (r: (u8, Interval))
    requires
        byte.wf(),
        nat_of(point.den@) > 0,
        span_contains_point(byte.span(), nat_of(point.num@), nat_of(point.den@)),
    ensures
        r.1.span() == byte_child_span(byte.span(), r.0 as nat),
        r.1.wf(),
        span_contains_point(r.1.span(), nat_of(point.num@), nat_of(point.den@)),
{
    let ghost pn = nat_of(point.num@);
    let ghost pd = nat_of(point.den@);
    let ghost span = byte.span();
    let mut candidate: u16 = 0;
    proof {
        assert((span.0 * 256 + (span.1 - span.0) * 0) * pd <= pn * (span.2 * 256)) by (nonlinear_arith)
            requires
                span.0 * pd <= pn * span.2,
        ;
    }
    while candidate < 256
        invariant
            candidate <= 256,
            byte.wf(),
            span == byte.span(),
            pn == nat_of(point.num@),
            pd == nat_of(point.den@),
            pd > 0,
            span_contains_point(span, pn, pd),
            (span.0 * 256 + (span.1 - span.0) * candidate) * pd <= pn * (span.2 * 256),
        decreases 256 - candidate,
    {
        let child = byte.byte_child(candidate as u8);
        if child.contains_point(point) {
            return (candidate as u8, child);
        }
        proof {
            lemma_byte_child_width(span, candidate as nat);
            let w = (span.1 - span.0) as nat;
            assert(child.span().1 == span.0 * 256 + w * (candidate + 1)) by (nonlinear_arith)
                requires
                    child.span() == byte_child_span(span, candidate as nat),
                    w == span.1 - span.0,
            ;
        }
        candidate = candidate + 1;
    }
    proof {
        let w = (span.1 - span.0) as nat;
        assert(span.0 * 256 + w * 256 == span.1 * 256) by (nonlinear_arith)
            requires
                w == span.1 - span.0,
        ;
        assert((span.1 * 256) * pd <= pn * (span.2 * 256) ==> span.1 * pd <= pn * span.2) by (nonlinear_arith);
    }
    vstd::pervasive::unreached()
}

/// Each finishing step starts from a byte interval not yet inside `symbol`
/// and descends into the child holding the symbol interval's midpoint.
pub open spec fn finish_steps(symbol: (nat, nat, nat), start: (nat, nat, nat), bytes: Seq<u8>) -> bool {
    forall|k: int|
        0 <= k < bytes.len() ==> !span_contains(symbol, byte_walk(start, #[trigger] bytes.take(k)))
            && span_contains_point(
            byte_walk(start, bytes.take(k + 1)),
            midpoint(symbol).0,
            midpoint(symbol).1,
        )
}

/// The symbols that code `input`: each byte, then the end of stream.
pub open spec fn message(input: Seq<u8>) -> Seq<ByteSymbol> {
    input.map_values(|byte: u8| ByteSymbol::Byte(byte)).push(ByteSymbol::Eos)
}

/// The weight of `symbol`.
pub open spec fn symbol_weight(weights: Seq<u64>, symbol: ByteSymbol) -> u64 {
    weights[symbol_index(symbol)]
}

/// Position `j` of `symbols` is the first whose symbol has zero weight.
pub open spec fn first_zero_weight(weights: Seq<u64>, symbols: Seq<ByteSymbol>, j: int) -> bool {
    &&& 0 <= j < symbols.len()
    &&& symbol_weight(weights, symbols[j]) == 0
    &&& forall|i: int| 0 <= i < j ==> symbol_weight(weights, #[trigger] symbols[i]) > 0
}

/// A child lies inside its parent.
pub(crate) proof fn lemma_child_within(span: (nat, nat, nat), part_lo: nat, part_hi: nat, total: nat)
    requires
        span.0 <= span.1,
        span.2 > 0,
        part_lo <= part_hi <= total,
        total > 0,
    ensures
        span_contains(span, span_child(span, part_lo, part_hi, total)),
{
    let child = span_child(span, part_lo, part_hi, total);
    let w = (span.1 - span.0) as nat;
    assert(span.0 * child.2 <= child.0 * span.2) by (nonlinear_arith)
        requires
            child.0 == span.0 * total + w * part_lo,
            child.2 == span.2 * total,
    ;
    assert(child.1 * span.2 <= span.1 * child.2) by (nonlinear_arith)
        requires
            child.1 == span.0 * total + w * part_hi,
            child.2 == span.2 * total,
            w == span.1 - span.0,
            part_hi <= total,
    ;
}

/// `x <= y` and `u <= v` chained through a shared middle term, scaled by
/// positive factors: `x / d1 <= m / d2 <= v / d3` in cross-multiplied form.
pub(crate) proof fn lemma_fraction_le_trans(x: int, d1: int, m: int, d2: int, v: int, d3: int)
    requires
        d1 > 0,
        d2 > 0,
        d3 > 0,
        x >= 0,
        m >= 0,
        v >= 0,
        x * d2 <= m * d1,
        m * d3 <= v * d2,
    ensures
        x * d3 <= v * d1,
{
    vstd::arithmetic::mul::lemma_mul_inequality(x * d2, m * d1, d3);
    vstd::arithmetic::mul::lemma_mul_inequality(m * d3, v * d2, d1);
    assert((m * d1) * d3 == (m * d3) * d1) by (nonlinear_arith);
    assert((x * d2) * d3 == (x * d3) * d2) by (nonlinear_arith);
    assert((v * d2) * d1 == (v * d1) * d2) by (nonlinear_arith);
    vstd::arithmetic::mul::lemma_mul_inequality_converse(x * d3, v * d1, d2);
}

/// Containment is transitive.
pub(crate) proof fn lemma_contains_trans(a: (nat, nat, nat), b: (nat, nat, nat), c: (nat, nat, nat))
    requires
        a.2 > 0,
        b.2 > 0,
        c.2 > 0,
        span_contains(a, b),
        span_contains(b, c),
    ensures
        span_contains(a, c),
{
    lemma_fraction_le_trans(a.0 as int, a.2 as int, b.0 as int, b.2 as int, c.0 as int, c.2 as int);
    lemma_fraction_le_trans(c.1 as int, c.2 as int, b.1 as int, b.2 as int, a.1 as int, a.2 as int);
}

/// A nonempty interval inside another meets it.
proof fn lemma_contains_intersects(outer: (nat, nat, nat), inner: (nat, nat, nat))
    requires
        outer.2 > 0,
        inner.2 > 0,
        inner.0 < inner.1,
        span_contains(outer, inner),
    ensures
        span_intersects(inner, outer),
        span_intersects(outer, inner),
{
    assert(inner.0 * outer.2 < inner.1 * outer.2) by (nonlinear_arith)
        requires
            inner.0 < inner.1,
            outer.2 > 0,
    ;
}

/// The midpoint of a nonempty interval lies in every interval containing it.
proof fn lemma_midpoint_within(outer: (nat, nat, nat), inner: (nat, nat, nat))
    requires
        outer.2 > 0,
        inner.2 > 0,
        inner.0 < inner.1,
        span_contains(outer, inner),
    ensures
        span_contains_point(outer, midpoint(inner).0, midpoint(inner).1),
{
    assert(outer.0 * (2 * inner.2) <= (inner.0 + inner.1) * outer.2) by (nonlinear_arith)
        requires
            outer.0 * inner.2 <= inner.0 * outer.2,
            inner.0 < inner.1,
    ;
    assert((inner.0 + inner.1) * outer.2 < outer.1 * (2 * inner.2)) by (nonlinear_arith)
        requires
            inner.1 * outer.2 <= outer.1 * inner.2,
            inner.0 < inner.1,
            outer.2 > 0,
    ;
}

/// Walking through two byte strings walks through their concatenation.
proof fn lemma_byte_walk_concat(start: (nat, nat, nat), first: Seq<u8>, second: Seq<u8>)
    ensures
        byte_walk(start, first + second) == byte_walk(byte_walk(start, first), second),
    decreases second.len(),
{
    if second.len() > 0 {
        lemma_byte_walk_concat(start, first, second.drop_last());
        assert((first + second).drop_last() =~= first + second.drop_last());
    } else {
        assert(first + second =~= first);
    }
}

/// A forced byte chain ends inside the interval that forced it, provided it
/// started around it.
proof fn lemma_forced_chain_contains(start: (nat, nat, nat), bytes: Seq<u8>, target: (nat, nat, nat))
    requires
        span_contains(start, target),
        forall|k: int|
            0 <= k < bytes.len() ==> forced_byte(byte_walk(start, #[trigger] bytes.take(k)), target)
                == Some(bytes[k]),
    ensures
        span_contains(byte_walk(start, bytes), target),
{
    if bytes.len() > 0 {
        let k = bytes.len() - 1;
        assert(bytes.take(k) =~= bytes.drop_last());
        lemma_forced_byte_contains(byte_walk(start, bytes.take(k)), target, bytes[k]);
    }
}

/// Append `bytes` to `output`.
fn append_bytes(output: &mut Vec<u8>, bytes: &[u8])
    ensures
        final(output)@ == old(output)@ + bytes@,
{
    let mut i: usize = 0;
    while i < bytes.len()
        invariant
            i <= bytes@.len(),
            output@ == old(output)@ + bytes@.take(i as int),
        decreases bytes.len() - i,
    {
        output.push(bytes[i]);
        i = i + 1;
        proof {
            assert(output@ =~= old(output)@ + bytes@.take(i as int));
        }
    }
    proof {
        assert(bytes@.take(i as int) =~= bytes@);
    }
}

/// Containment of the byte interval around the symbol interval survives a
/// successful symbol push.
proof fn lemma_push_symbol_keeps_containment(
    weights: Seq<u64>,
    old_symbol: (nat, nat, nat),
    old_byte: (nat, nat, nat),
    index: int,
    bytes: Seq<u8>,
)
    requires
        weights.len() == 257,
        0 <= index < 257,
        weights[index] > 0,
        model_total(weights) > 0,
        old_symbol.0 < old_symbol.1,
        old_symbol.2 > 0,
        old_byte.2 > 0,
        span_contains(old_byte, old_symbol),
        forall|k: int|
            0 <= k < bytes.len() ==> forced_byte(byte_walk(old_byte, #[trigger] bytes.take(k)), symbol_child_span(weights, old_symbol, index))
                == Some(bytes[k]),
    ensures
        span_contains(byte_walk(old_byte, bytes), symbol_child_span(weights, old_symbol, index)),
        span_intersects(symbol_child_span(weights, old_symbol, index), old_byte),
{
    let next = symbol_child_span(weights, old_symbol, index);
    crate::partition::lemma_prefix_weight_bounds(weights, 257);
    assert(prefix_weight(weights, index + 1) == prefix_weight(weights, index) + weights[index]);
    lemma_child_within(old_symbol, prefix_weight(weights, index), prefix_weight(weights, index + 1), model_total(weights));
    lemma_symbol_child_shape(weights, old_symbol, index);
    assert(old_symbol.2 * model_total(weights) > 0) by (nonlinear_arith)
        requires
            old_symbol.2 > 0,
            model_total(weights) > 0,
    ;
    lemma_contains_trans(old_byte, old_symbol, next);
    lemma_contains_intersects(old_byte, next);
    lemma_forced_chain_contains(old_byte, bytes, next);
}

/// Walking through two symbol strings walks through their concatenation.
proof fn lemma_symbol_walk_concat(
    weights: Seq<u64>,
    start: (nat, nat, nat),
    first: Seq<ByteSymbol>,
    second: Seq<ByteSymbol>,
)
    ensures
        symbol_walk(weights, start, first + second) == symbol_walk(weights, symbol_walk(weights, start, first), second),
    decreases second.len(),
{
    if second.len() > 0 {
        lemma_symbol_walk_concat(weights, start, first, second.drop_last());
        assert((first + second).drop_last() =~= first + second.drop_last());
    } else {
        assert(first + second =~= first);
    }
}

/// A forced symbol chain ends around the interval that forced it, provided
/// it started around it.
proof fn lemma_forced_symbols_contain(
    weights: Seq<u64>,
    start: (nat, nat, nat),
    symbols: Seq<ByteSymbol>,
    target: (nat, nat, nat),
)
    requires
        span_contains(start, target),
        forall|k: int|
            0 <= k < symbols.len() ==> forced_symbol(weights, symbol_walk(weights, start, #[trigger] symbols.take(k)), target)
                == Some(symbol_index(symbols[k])),
    ensures
        span_contains(symbol_walk(weights, start, symbols), target),
{
    if symbols.len() > 0 {
        let k = symbols.len() - 1;
        assert(symbols.take(k) =~= symbols.drop_last());
        lemma_forced_symbol_contains(weights, symbol_walk(weights, start, symbols.take(k)), target, symbol_index(symbols[k]));
    }
}

/// The symbols of decoded bytes.
pub open spec fn byte_symbols(bytes: Seq<u8>) -> Seq<ByteSymbol> {
    bytes.map_values(|byte: u8| ByteSymbol::Byte(byte))
}

pub(crate) proof fn lemma_ones_total(weights: Seq<u64>, n: int)
    requires
        0 <= n <= weights.len(),
        forall|i: int| 0 <= i < weights.len() ==> weights[i] == 1,
    ensures
        prefix_weight(weights, n) == n,
    decreases n,
{
    if n > 0 {
        lemma_ones_total(weights, n - 1);
    }
}

/// The byte stream that codes `input` followed by the end of stream.
#[verifier::spinoff_prover]
pub fn compress(weights: [u64; SYMBOLS], input: &[u8]) -> (r: Result<Vec<u8>, ReferenceError>)
    ensures
        model_total(weights@) == 0 ==> r == Err::<Vec<u8>, ReferenceError>(ReferenceError::ZeroTotalWeight),
        model_total(weights@) > 0 ==> (r is Ok <==> forall|j: int|
            0 <= j < message(input@).len() ==> symbol_weight(weights@, #[trigger] message(input@)[j]) > 0),
        model_total(weights@) > 0 ==> (r matches Err(e) ==> exists|j: int|
            first_zero_weight(weights@, message(input@), j) && e == ReferenceError::ZeroWeightSymbol(
                message(input@)[j],
            )),
        r matches Ok(bytes) ==> span_contains(
            symbol_walk(weights@, unit_span(), message(input@)),
            byte_walk(unit_span(), bytes@),
        ),
        r matches Ok(bytes) ==> within_message(weights@, input@, byte_walk(unit_span(), bytes@)),
        r matches Ok(bytes) ==> compressed_as(symbol_walk(weights@, unit_span(), message(input@)), bytes@),
{
    let mut model = match ReferenceModel::new(weights) {
        Ok(model) => model,
        Err(e) => {
            return Err(e);
        },
    };
    let ghost msg = message(input@);
    let mut output: Vec<u8> = Vec::new();
    let mut i: usize = 0;
    proof {
        assert(msg.take(0) =~= Seq::<ByteSymbol>::empty());
        assert(output@ =~= Seq::<u8>::empty());
    }
    while i < input.len()
        invariant
            i <= input@.len(),
            msg == message(input@),
            model.wf(),
            model.weights_spec() == weights@,
            !model.eos_constrained_spec(),
            model.symbol_span() == symbol_walk(weights@, unit_span(), msg.take(i as int)),
            model.byte_span() == byte_walk(unit_span(), output@),
            span_contains(model.byte_span(), model.symbol_span()),
            forall|j: int| 0 <= j < i ==> symbol_weight(weights@, #[trigger] msg[j]) > 0,
            forall|k: int|
                0 <= k < output@.len() ==> forced_byte(byte_walk(unit_span(), #[trigger] output@.take(k)), model.symbol_span())
                    == Some(output@[k]),
        decreases input@.len() - i,
    {
        let symbol = ByteSymbol::Byte(input[i]);
        let ghost old_symbol = model.symbol_span();
        let ghost old_byte = model.byte_span();
        let ghost old_output = output@;
        proof {
            assert(msg[i as int] == symbol);
        }
        match model.try_push_symbol(symbol) {
            Ok(bytes) => {
                proof {
                    lemma_push_symbol_keeps_containment(weights@, old_symbol, old_byte, input@[i as int] as int, bytes@);
                    lemma_byte_walk_concat(unit_span(), old_output, bytes@);
                    crate::frontier_reference::lemma_symbol_walk_shape(weights@, msg.take(i as int));
                    lemma_forced_prefix_extend(weights@, old_symbol, input@[i as int] as int, old_output, bytes@);
                }
                append_bytes(&mut output, bytes);
            },
            Err(e) => {
                proof {
                    if symbol_weight(weights@, symbol) > 0 {
                        lemma_push_symbol_keeps_containment(weights@, old_symbol, old_byte, input@[i as int] as int, Seq::<u8>::empty());
                    }
                    assert(first_zero_weight(weights@, msg, i as int));
                }
                return Err(e);
            },
        }
        proof {
            assert(msg.take(i + 1).drop_last() =~= msg.take(i as int));
        }
        i = i + 1;
    }
    let ghost old_symbol = model.symbol_span();
    let ghost old_byte = model.byte_span();
    let ghost old_output = output@;
    proof {
        assert(msg[i as int] == ByteSymbol::Eos);
        assert(msg.take(i + 1) =~= msg);
        assert(msg.drop_last() =~= msg.take(i as int));
    }
    match model.try_push_symbol(ByteSymbol::Eos) {
        Ok(bytes) => {
            proof {
                lemma_push_symbol_keeps_containment(weights@, old_symbol, old_byte, 256, bytes@);
                lemma_byte_walk_concat(unit_span(), old_output, bytes@);
                crate::frontier_reference::lemma_symbol_walk_shape(weights@, msg.take(i as int));
                lemma_forced_prefix_extend(weights@, old_symbol, 256, old_output, bytes@);
            }
            append_bytes(&mut output, bytes);
        },
        Err(e) => {
            proof {
                if weights@[256] > 0 {
                    lemma_push_symbol_keeps_containment(weights@, old_symbol, old_byte, 256, Seq::<u8>::empty());
                }
                assert(first_zero_weight(weights@, msg, i as int));
            }
            return Err(e);
        },
    }
    let ghost last_output = output@;
    proof {
        lemma_midpoint_within(model.byte_span(), model.symbol_span());
    }
    proof {
        assert(forced_run(unit_span(), model.symbol_span(), last_output));
    }
    match model.try_finish() {
        Ok(bytes) => {
            proof {
                lemma_byte_walk_concat(unit_span(), last_output, bytes@);
            }
            append_bytes(&mut output, bytes);
            proof {
                let n = last_output.len() as int;
                assert(output@.take(n) =~= last_output);
                assert(output@.skip(n) =~= bytes@);
                assert(compressed_as(model.symbol_span(), output@));
            }
        },
        Err(_) => {
            proof {
                assert(false);
            }
            return Err(ReferenceError::InconsistentConstraint);
        },
    }
    Ok(output)
}

/// `bytes` are the bytes forced toward `inner` from `start`: each is the
/// first child that contains `inner`, and once they are walked no child
/// contains it.
pub open spec fn forced_run(start: (nat, nat, nat), inner: (nat, nat, nat), bytes: Seq<u8>) -> bool {
    &&& forall|k: int|
        0 <= k < bytes.len() ==> forced_byte(byte_walk(start, #[trigger] bytes.take(k)), inner) == Some(bytes[k])
    &&& forced_byte(byte_walk(start, bytes), inner) is None
}

/// The bytes `compress` writes for a message whose interval is `symbol`:
/// the bytes forced toward the interval, then the bytes that follow its
/// midpoint until the byte interval lies inside it.
pub open spec fn compressed_as(symbol: (nat, nat, nat), bytes: Seq<u8>) -> bool {
    exists|n: int|
        0 <= n <= bytes.len() && forced_run(unit_span(), symbol, #[trigger] bytes.take(n)) && finish_steps(
            symbol,
            byte_walk(unit_span(), bytes.take(n)),
            bytes.skip(n),
        ) && span_contains(symbol, byte_walk(unit_span(), bytes))
}

/// No nonempty interval lies inside two different byte children.
proof fn lemma_byte_children_exclusive(byte: (nat, nat, nat), inner: (nat, nat, nat), c: u8, b: u8)
    requires
        byte.0 <= byte.1,
        byte.2 > 0,
        inner.2 > 0,
        inner.0 < inner.1,
        c < b,
    ensures
        !(span_contains(byte_child_span(byte, c as nat), inner) && span_contains(
            byte_child_span(byte, b as nat),
            inner,
        )),
{
    let child = byte_child_span(byte, b as nat);
    let other = byte_child_span(byte, c as nat);
    if span_contains(other, inner) && span_contains(child, inner) {
        let w = (byte.1 - byte.0) as nat;
        let d = byte.2 * 256;
        assert(w * (c as nat + 1) <= w * (b as nat)) by (nonlinear_arith)
            requires
                c < b,
        ;
        assert(other.1 <= child.0);
        assert(other.2 == d && child.2 == d);
        assert(other.1 * inner.2 <= child.0 * inner.2) by (nonlinear_arith)
            requires
                other.1 <= child.0,
        ;
        assert(inner.1 * d <= inner.0 * d);
        assert(inner.1 <= inner.0) by (nonlinear_arith)
            requires
                inner.1 * d <= inner.0 * d,
                d > 0,
        ;
    }
}

/// A byte forced toward an interval is forced toward every nonempty
/// interval inside it.
proof fn lemma_forced_byte_nested(
    byte: (nat, nat, nat),
    outer: (nat, nat, nat),
    inner: (nat, nat, nat),
    b: u8,
)
    requires
        byte.0 <= byte.1,
        byte.2 > 0,
        outer.2 > 0,
        inner.2 > 0,
        inner.0 < inner.1,
        span_contains(outer, inner),
        forced_byte(byte, outer) == Some(b),
    ensures
        forced_byte(byte, inner) == Some(b),
{
    lemma_forced_byte_contains(byte, outer, b);
    let child = byte_child_span(byte, b as nat);
    lemma_child_shape(byte, b as nat, b as nat + 1, 256);
    lemma_contains_trans(child, outer, inner);
    assert forall|c: u8| c < b implies !span_contains(byte_child_span(byte, c as nat), inner) by {
        lemma_byte_children_exclusive(byte, inner, c, b);
    }
    lemma_least_byte_exists(byte, inner, b);
    reveal(forced_byte);
    let chosen = choose|c: u8|
        span_contains(byte_child_span(byte, c as nat), inner) && forall|e: u8|
            e < c ==> !span_contains(byte_child_span(byte, e as nat), inner);
    if chosen > b {
        assert(!span_contains(byte_child_span(byte, b as nat), inner));
    }
}

/// The bytes forced toward a symbol interval, followed by the bytes its
/// child then forces, are all forced toward the child.
proof fn lemma_forced_prefix_extend(
    weights: Seq<u64>,
    parent: (nat, nat, nat),
    index: int,
    before: Seq<u8>,
    bytes: Seq<u8>,
)
    requires
        weights.len() == 257,
        0 <= index < 257,
        model_total(weights) > 0,
        parent.0 <= parent.1,
        parent.2 > 0,
        symbol_child_span(weights, parent, index).0 < symbol_child_span(weights, parent, index).1,
        forall|k: int|
            0 <= k < before.len() ==> forced_byte(byte_walk(unit_span(), #[trigger] before.take(k)), parent) == Some(
                before[k],
            ),
        forall|j: int|
            0 <= j < bytes.len() ==> forced_byte(
                byte_walk(byte_walk(unit_span(), before), #[trigger] bytes.take(j)),
                symbol_child_span(weights, parent, index),
            ) == Some(bytes[j]),
    ensures
        forall|k: int|
            0 <= k < (before + bytes).len() ==> forced_byte(
                byte_walk(unit_span(), #[trigger] (before + bytes).take(k)),
                symbol_child_span(weights, parent, index),
            ) == Some((before + bytes)[k]),
{
    let next = symbol_child_span(weights, parent, index);
    let all = before + bytes;
    lemma_symbol_child_shape(weights, parent, index);
    lemma_symbol_child_within(weights, parent, index);
    assert(next.2 > 0) by (nonlinear_arith)
        requires
            next.2 == parent.2 * model_total(weights),
            parent.2 > 0,
            model_total(weights) > 0,
    ;
    assert forall|k: int| 0 <= k < all.len() implies forced_byte(
        byte_walk(unit_span(), #[trigger] all.take(k)),
        next,
    ) == Some(all[k]) by {
        if k < before.len() {
            assert(all.take(k) =~= before.take(k));
            assert(all[k] == before[k]);
            crate::frontier_reference::lemma_byte_walk_shape(before.take(k));
            lemma_forced_byte_nested(byte_walk(unit_span(), before.take(k)), parent, next, before[k]);
        } else {
            let j = k - before.len();
            assert(all.take(k) =~= before + bytes.take(j));
            assert(all[k] == bytes[j]);
            lemma_byte_walk_concat(unit_span(), before, bytes.take(j));
        }
    }
}

/// A symbol's child lies inside its parent.
proof fn lemma_symbol_child_within(weights: Seq<u64>, span: (nat, nat, nat), index: int)
    requires
        weights.len() == 257,
        0 <= index < 257,
        span.0 <= span.1,
        span.2 > 0,
        model_total(weights) > 0,
    ensures
        span_contains(span, symbol_child_span(weights, span, index)),
{
    crate::partition::lemma_prefix_weight_bounds(weights, 257);
    assert(prefix_weight(weights, index + 1) == prefix_weight(weights, index) + weights[index]);
    lemma_child_within(span, prefix_weight(weights, index), prefix_weight(weights, index + 1), model_total(weights));
}

/// Two runs of forced bytes toward the same interval are the same run.
proof fn lemma_forced_runs_agree(start: (nat, nat, nat), inner: (nat, nat, nat), a: Seq<u8>, b: Seq<u8>)
    requires
        forced_run(start, inner, a),
        forced_run(start, inner, b),
    ensures
        a == b,
{
    let m = if a.len() <= b.len() {
        a.len() as int
    } else {
        b.len() as int
    };
    lemma_forced_prefixes_agree(start, inner, a, b, m);
    if a.len() < b.len() {
        assert(a =~= b.take(m));
    } else if b.len() < a.len() {
        assert(b =~= a.take(m));
    } else {
        assert(a =~= a.take(m));
        assert(b =~= b.take(m));
    }
}

proof fn lemma_forced_prefixes_agree(start: (nat, nat, nat), inner: (nat, nat, nat), a: Seq<u8>, b: Seq<u8>, m: int)
    requires
        forced_run(start, inner, a),
        forced_run(start, inner, b),
        0 <= m <= a.len(),
        m <= b.len(),
    ensures
        a.take(m) == b.take(m),
    decreases m,
{
    if m > 0 {
        lemma_forced_prefixes_agree(start, inner, a, b, m - 1);
        assert(a.take(m - 1) =~= b.take(m - 1));
        assert(a.take(m) =~= a.take(m - 1).push(a[m - 1]));
        assert(b.take(m) =~= b.take(m - 1).push(b[m - 1]));
    }
}

/// A point lies in at most one byte child.
proof fn lemma_point_in_one_child(span: (nat, nat, nat), num: nat, den: nat, c: u8, d: u8)
    requires
        span.0 <= span.1,
        span.2 > 0,
        den > 0,
        c < d,
    ensures
        !(span_contains_point(byte_child_span(span, c as nat), num, den) && span_contains_point(
            byte_child_span(span, d as nat),
            num,
            den,
        )),
{
    let first = byte_child_span(span, c as nat);
    let second = byte_child_span(span, d as nat);
    let w = (span.1 - span.0) as nat;
    assert(w * (c as nat + 1) <= w * (d as nat)) by (nonlinear_arith)
        requires
            c < d,
    ;
    assert(first.1 <= second.0);
    if span_contains_point(first, num, den) && span_contains_point(second, num, den) {
        assert(second.0 * den < first.1 * den);
        assert(second.0 < first.1) by (nonlinear_arith)
            requires
                second.0 * den < first.1 * den,
                den > 0,
        ;
    }
}

/// Two finishes from the same byte interval toward the same midpoint, each
/// ending once the byte interval lies inside the symbol interval, are the
/// same bytes.
proof fn lemma_finishes_agree(symbol: (nat, nat, nat), start: (nat, nat, nat), a: Seq<u8>, b: Seq<u8>, m: int)
    requires
        start.0 < start.1,
        start.2 > 0,
        symbol.2 > 0,
        finish_steps(symbol, start, a),
        finish_steps(symbol, start, b),
        0 <= m <= a.len(),
        m <= b.len(),
    ensures
        a.take(m) == b.take(m),
    decreases m,
{
    if m > 0 {
        lemma_finishes_agree(symbol, start, a, b, m - 1);
        let k = m - 1;
        assert(a.take(k) =~= b.take(k));
        let w = byte_walk(start, a.take(k));
        lemma_byte_walk_positive(start, a.take(k));
        assert(a.take(k + 1) =~= a.take(k).push(a[k]));
        assert(b.take(k + 1) =~= b.take(k).push(b[k]));
        assert(a.take(k).push(a[k]).drop_last() =~= a.take(k));
        assert(b.take(k).push(b[k]).drop_last() =~= b.take(k));
        assert(2 * symbol.2 > 0);
        if a[k] < b[k] {
            lemma_point_in_one_child(w, midpoint(symbol).0, midpoint(symbol).1, a[k], b[k]);
        } else if b[k] < a[k] {
            lemma_point_in_one_child(w, midpoint(symbol).0, midpoint(symbol).1, b[k], a[k]);
        }
        assert(a.take(m) =~= a.take(k).push(a[k]));
        assert(b.take(m) =~= b.take(k).push(b[k]));
    }
}

/// Walking bytes from a nonempty interval keeps it nonempty.
proof fn lemma_byte_walk_positive(start: (nat, nat, nat), bytes: Seq<u8>)
    requires
        start.0 < start.1,
        start.2 > 0,
    ensures
        byte_walk(start, bytes).0 < byte_walk(start, bytes).1,
        byte_walk(start, bytes).2 > 0,
    decreases bytes.len(),
{
    if bytes.len() > 0 {
        lemma_byte_walk_positive(start, bytes.drop_last());
        lemma_byte_child_width(byte_walk(start, bytes.drop_last()), bytes.last() as nat);
    }
}

/// `compressed_as` fixes the bytes: a nonempty symbol interval is written
/// as one byte string only.
#[verifier::spinoff_prover]
#[verifier::rlimit(30)]
pub proof fn lemma_compressed_unique(symbol: (nat, nat, nat), a: Seq<u8>, b: Seq<u8>)
    requires
        symbol.2 > 0,
        compressed_as(symbol, a),
        compressed_as(symbol, b),
    ensures
        a == b,
{
    let na = choose|n: int|
        0 <= n <= a.len() && forced_run(unit_span(), symbol, #[trigger] a.take(n)) && finish_steps(
            symbol,
            byte_walk(unit_span(), a.take(n)),
            a.skip(n),
        ) && span_contains(symbol, byte_walk(unit_span(), a));
    let nb = choose|n: int|
        0 <= n <= b.len() && forced_run(unit_span(), symbol, #[trigger] b.take(n)) && finish_steps(
            symbol,
            byte_walk(unit_span(), b.take(n)),
            b.skip(n),
        ) && span_contains(symbol, byte_walk(unit_span(), b));
    lemma_forced_runs_agree(unit_span(), symbol, a.take(na), b.take(nb));
    assert(na == nb);
    let n = na;
    let start = byte_walk(unit_span(), a.take(n));
    crate::frontier_reference::lemma_byte_walk_shape(a.take(n));
    let fa = a.skip(n);
    let fb = b.skip(n);
    assert(a =~= a.take(n) + fa);
    assert(b =~= b.take(n) + fb);
    lemma_byte_walk_concat(unit_span(), a.take(n), fa);
    lemma_byte_walk_concat(unit_span(), b.take(n), fb);
    let m = if fa.len() <= fb.len() {
        fa.len() as int
    } else {
        fb.len() as int
    };
    lemma_finishes_agree(symbol, start, fa, fb, m);
    if fa.len() < fb.len() {
        assert(fa =~= fb.take(m));
        assert(!span_contains(symbol, byte_walk(start, fb.take(m))));
    } else if fb.len() < fa.len() {
        assert(fb =~= fa.take(m));
        assert(!span_contains(symbol, byte_walk(start, fa.take(m))));
    } else {
        assert(fa =~= fa.take(m));
        assert(fb =~= fb.take(m));
    }
}

/// Every symbol of `input`'s message carries weight and the message's
/// interval contains `byte`.
pub open spec fn within_message(weights: Seq<u64>, input: Seq<u8>, byte: (nat, nat, nat)) -> bool {
    &&& forall|k: int| 0 <= k < message(input).len() ==> symbol_weight(weights, #[trigger] message(input)[k]) > 0
    &&& span_contains(symbol_walk(weights, unit_span(), message(input)), byte)
}

/// The symbol a prefix of the input forces while decoding toward a message
/// whose interval contains the whole input's byte interval is that
/// message's next symbol.
proof fn lemma_forced_symbol_matches(
    weights: Seq<u64>,
    x: Seq<u8>,
    input: Seq<u8>,
    t: int,
    decoded: Seq<u8>,
    index: int,
)
    requires
        weights.len() == 257,
        model_total(weights) > 0,
        within_message(weights, x, byte_walk(unit_span(), input)),
        0 <= t <= input.len(),
        decoded.len() <= x.len(),
        decoded == x.take(decoded.len() as int),
        forced_symbol(
            weights,
            symbol_walk(weights, unit_span(), byte_symbols(decoded)),
            byte_walk(unit_span(), input.take(t)),
        ) == Some(index),
    ensures
        symbol_index(message(x)[decoded.len() as int]) == index,
{
    let k = decoded.len() as int;
    let full = byte_walk(unit_span(), input);
    let partial = byte_walk(unit_span(), input.take(t));
    let msg = message(x);
    let parent = symbol_walk(weights, unit_span(), byte_symbols(decoded));
    crate::frontier_reference::lemma_message_prefix(x, k);
    assert(msg.take(k) =~= byte_symbols(decoded));
    let m = symbol_index(msg[k]);
    assert(symbol_weight(weights, msg[k]) > 0);
    assert(msg.take(k + 1).drop_last() =~= msg.take(k));
    assert(symbol_walk(weights, unit_span(), msg.take(k + 1)) == symbol_child_span(weights, parent, m));
    crate::frontier_reference::lemma_symbol_walk_nested(weights, msg, k + 1);
    crate::frontier_reference::lemma_symbol_walk_shape(weights, msg.take(k + 1));
    crate::frontier_reference::lemma_symbol_walk_shape(weights, msg);
    crate::frontier_reference::lemma_symbol_walk_shape(weights, byte_symbols(decoded));
    crate::frontier_reference::lemma_byte_walk_shape(input);
    crate::frontier_reference::lemma_byte_walk_shape(input.take(t));
    crate::frontier_reference::lemma_byte_walk_nested(input, t);
    lemma_contains_trans(symbol_child_span(weights, parent, m), symbol_walk(weights, unit_span(), msg), full);
    lemma_forced_symbol_contains(weights, parent, partial, index);
    assert(parent.2 * model_total(weights) > 0) by (nonlinear_arith)
        requires
            parent.2 > 0,
            model_total(weights) > 0,
    ;
    lemma_contains_trans(symbol_child_span(weights, parent, index), partial, full);
    crate::frontier_reference::lemma_children_disjoint(weights, parent, full, m, index);
}

/// `symbols` are forced one after another by the byte interval `byte`:
/// each is the first positive-weight symbol whose child, below the symbols
/// before it, contains `byte`.
pub open spec fn forced_symbols(weights: Seq<u64>, byte: (nat, nat, nat), symbols: Seq<ByteSymbol>) -> bool {
    forall|k: int|
        0 <= k < symbols.len() ==> forced_symbol(weights, symbol_walk(weights, unit_span(), #[trigger] symbols.take(k)), byte)
            == Some(symbol_index(symbols[k]))
}

/// A symbol forced by a byte interval is forced by every nonempty byte
/// interval inside it.
proof fn lemma_forced_symbol_nested(
    weights: Seq<u64>,
    span: (nat, nat, nat),
    outer: (nat, nat, nat),
    inner: (nat, nat, nat),
    i: int,
)
    requires
        weights.len() == 257,
        model_total(weights) > 0,
        span.0 <= span.1,
        span.2 > 0,
        outer.2 > 0,
        inner.0 < inner.1,
        inner.2 > 0,
        span_contains(outer, inner),
        forced_symbol(weights, span, outer) == Some(i),
    ensures
        forced_symbol(weights, span, inner) == Some(i),
{
    lemma_forced_symbol_contains(weights, span, outer, i);
    let child = symbol_child_span(weights, span, i);
    lemma_symbol_child_shape(weights, span, i);
    assert(child.2 > 0) by (nonlinear_arith)
        requires
            child.2 == span.2 * model_total(weights),
            span.2 > 0,
            model_total(weights) > 0,
    ;
    lemma_contains_trans(child, outer, inner);
    lemma_least_symbol_exists(weights, span, inner, i);
    reveal(forced_symbol);
    let chosen = choose|x: int|
        0 <= x < 257 && weights[x] > 0 && span_contains(symbol_child_span(weights, span, x), inner) && forall|j: int|
            0 <= j < x ==> !(weights[j] > 0 && span_contains(symbol_child_span(weights, span, j), inner));
    crate::frontier_reference::lemma_children_disjoint(weights, span, inner, chosen, i);
}

/// Two symbol sequences forced by the same byte interval agree as far as
/// both go.
proof fn lemma_forced_symbols_agree(
    weights: Seq<u64>,
    byte: (nat, nat, nat),
    a: Seq<ByteSymbol>,
    b: Seq<ByteSymbol>,
    m: int,
)
    requires
        forced_symbols(weights, byte, a),
        forced_symbols(weights, byte, b),
        0 <= m <= a.len(),
        m <= b.len(),
    ensures
        a.take(m) == b.take(m),
    decreases m,
{
    if m > 0 {
        lemma_forced_symbols_agree(weights, byte, a, b, m - 1);
        assert(a.take(m - 1) =~= b.take(m - 1));
        assert(symbol_index(a[m - 1]) == symbol_index(b[m - 1]));
        assert(a[m - 1] == b[m - 1]) by {
            match a[m - 1] {
                ByteSymbol::Byte(x) => {
                    match b[m - 1] {
                        ByteSymbol::Byte(y) => {},
                        ByteSymbol::Eos => {},
                    }
                },
                ByteSymbol::Eos => {},
            }
        }
        assert(a.take(m) =~= a.take(m - 1).push(a[m - 1]));
        assert(b.take(m) =~= b.take(m - 1).push(b[m - 1]));
    }
}

/// Symbols forced by a byte interval stay forced by every nonempty byte
/// interval inside it.
proof fn lemma_forced_symbols_nested(
    weights: Seq<u64>,
    outer: (nat, nat, nat),
    inner: (nat, nat, nat),
    symbols: Seq<ByteSymbol>,
)
    requires
        weights.len() == 257,
        model_total(weights) > 0,
        outer.2 > 0,
        inner.0 < inner.1,
        inner.2 > 0,
        span_contains(outer, inner),
        forced_symbols(weights, outer, symbols),
    ensures
        forced_symbols(weights, inner, symbols),
{
    assert forall|k: int| 0 <= k < symbols.len() implies forced_symbol(
        weights,
        symbol_walk(weights, unit_span(), #[trigger] symbols.take(k)),
        inner,
    ) == Some(symbol_index(symbols[k])) by {
        crate::frontier_reference::lemma_symbol_walk_shape(weights, symbols.take(k));
        lemma_forced_symbol_nested(
            weights,
            symbol_walk(weights, unit_span(), symbols.take(k)),
            outer,
            inner,
            symbol_index(symbols[k]),
        );
    }
}

/// A byte interval forces at most one whole message, so `decompress`'s
/// result is fixed by the input.
pub proof fn lemma_forced_message_unique(weights: Seq<u64>, byte: (nat, nat, nat), x: Seq<u8>, y: Seq<u8>)
    requires
        forced_symbols(weights, byte, message(x)),
        forced_symbols(weights, byte, message(y)),
    ensures
        x == y,
{
    let mx = message(x);
    let my = message(y);
    if x.len() < y.len() {
        lemma_forced_symbols_agree(weights, byte, mx, my, mx.len() as int);
        assert(mx.take(mx.len() as int)[x.len() as int] == my.take(mx.len() as int)[x.len() as int]);
        assert(my[x.len() as int] == ByteSymbol::Byte(y[x.len() as int]));
    } else if y.len() < x.len() {
        lemma_forced_symbols_agree(weights, byte, my, mx, my.len() as int);
        assert(my.take(my.len() as int)[y.len() as int] == mx.take(my.len() as int)[y.len() as int]);
        assert(mx[y.len() as int] == ByteSymbol::Byte(x[y.len() as int]));
    } else {
        lemma_forced_symbols_agree(weights, byte, mx, my, mx.len() as int);
        assert forall|i: int| 0 <= i < x.len() implies x[i] == y[i] by {
            assert(mx.take(mx.len() as int)[i] == my.take(mx.len() as int)[i]);
            assert(mx[i] == ByteSymbol::Byte(x[i]));
            assert(my[i] == ByteSymbol::Byte(y[i]));
        }
        assert(x =~= y);
    }
}

/// Once the bytes forced by a byte interval stop short of the end of
/// stream, that interval forces no whole message.
proof fn lemma_no_forced_message(weights: Seq<u64>, byte: (nat, nat, nat), out: Seq<u8>, x: Seq<u8>)
    requires
        forced_symbols(weights, byte, byte_symbols(out)),
        forced_symbol(weights, symbol_walk(weights, unit_span(), byte_symbols(out)), byte) is None,
    ensures
        !forced_symbols(weights, byte, message(x)),
{
    let c = byte_symbols(out);
    let msg = message(x);
    if forced_symbols(weights, byte, msg) {
        if msg.len() <= c.len() {
            lemma_forced_symbols_agree(weights, byte, msg, c, msg.len() as int);
            assert(msg[msg.len() - 1] == ByteSymbol::Eos);
            assert(msg.take(msg.len() as int)[msg.len() - 1] == c.take(msg.len() as int)[msg.len() - 1]);
        } else {
            lemma_forced_symbols_agree(weights, byte, msg, c, c.len() as int);
            assert(c.take(c.len() as int) =~= c);
        }
    }
}

/// The bytes that `input` codes, up to its end of stream.
#[verifier::spinoff_prover]
pub fn decompress(weights: [u64; SYMBOLS], input: &[u8]) -> (r: Result<Vec<u8>, ReferenceError>)
    requires
        model_total(weights@) > 0 && input@.len() > 0 ==> splits_mass(weights@),
    ensures
        model_total(weights@) == 0 ==> r == Err::<Vec<u8>, ReferenceError>(ReferenceError::ZeroTotalWeight),
        model_total(weights@) > 0 ==> (r matches Err(e) ==> e == ReferenceError::MissingEos),
        model_total(weights@) > 0 && input@.len() == 0 ==> r == Err::<Vec<u8>, ReferenceError>(
            ReferenceError::MissingEos,
        ),
        r matches Ok(bytes) ==> exists|k: int|
            0 <= k <= input@.len() && span_contains(
                symbol_walk(weights@, unit_span(), message(bytes@)),
                byte_walk(unit_span(), #[trigger] input@.take(k)),
            ),
        input@.len() > 0 ==> forall|x: Seq<u8>|
            #[trigger] within_message(weights@, x, byte_walk(unit_span(), input@)) ==> (r matches Ok(out) && out@
                == x),
        r matches Ok(out) ==> exists|k: int|
            1 <= k <= input@.len() && forced_symbols(
                weights@,
                byte_walk(unit_span(), #[trigger] input@.take(k)),
                message(out@),
            ) && forall|k2: int, x: Seq<u8>|
                1 <= k2 < k ==> !#[trigger] forced_symbols(
                    weights@,
                    byte_walk(unit_span(), input@.take(k2)),
                    message(x),
                ),
        model_total(weights@) > 0 && r is Err ==> forall|k: int, x: Seq<u8>|
            1 <= k <= input@.len() ==> !#[trigger] forced_symbols(
                weights@,
                byte_walk(unit_span(), input@.take(k)),
                message(x),
            ),
{
    let ghost full = byte_walk(unit_span(), input@);
    proof {
        if input@.len() > 0 && exists|x: Seq<u8>| #[trigger] within_message(weights@, x, full) {
            let x = choose|x: Seq<u8>| #[trigger] within_message(weights@, x, full);
            crate::frontier_reference::lemma_message_prefix(x, x.len() as int);
            assert(symbol_weight(weights@, message(x)[x.len() as int]) > 0);
            crate::partition::lemma_prefix_weight_bounds(weights@, 257);
            lemma_weight_within_total(weights@, 256);
        }
    }
    let mut model = match ReferenceModel::new(weights) {
        Ok(model) => model,
        Err(e) => {
            return Err(e);
        },
    };
    let mut output: Vec<u8> = Vec::new();
    let mut i: usize = 0;
    proof {
        assert(input@.take(0) =~= Seq::<u8>::empty());
        assert(byte_symbols(output@) =~= Seq::<ByteSymbol>::empty());
        assert forall|x: Seq<u8>| #[trigger] within_message(weights@, x, full) implies output@.len() <= x.len()
            && output@ == x.take(output@.len() as int) by {
            assert(x.take(0) =~= output@);
        }
    }
    while i < input.len()
        invariant
            i <= input@.len(),
            input@.len() > 0 ==> splits_mass(weights@),
            model.wf(),
            model.weights_spec() == weights@,
            !model.eos_decoded_spec(),
            model.byte_span() == byte_walk(unit_span(), input@.take(i as int)),
            model.symbol_span() == symbol_walk(weights@, unit_span(), byte_symbols(output@)),
            span_contains(model.symbol_span(), model.byte_span()),
            full == byte_walk(unit_span(), input@),
            forall|x: Seq<u8>| #[trigger]
                within_message(weights@, x, full) ==> output@.len() <= x.len() && output@ == x.take(
                    output@.len() as int,
                ),
            i > 0 ==> forced_symbol(weights@, model.symbol_span(), model.byte_span()) is None,
            forced_symbols(weights@, model.byte_span(), byte_symbols(output@)),
            forall|k2: int, x: Seq<u8>|
                1 <= k2 <= i ==> !#[trigger] forced_symbols(
                    weights@,
                    byte_walk(unit_span(), input@.take(k2)),
                    message(x),
                ),
        decreases input@.len() - i,
    {
        let ghost old_symbol = model.symbol_span();
        let ghost old_byte = model.byte_span();
        let ghost old_output = output@;
        let byte = input[i];
        proof {
            lemma_byte_child_width(old_byte, byte as nat);
            assert(old_byte.2 * 256 > 0);
            lemma_child_within(old_byte, byte as nat, byte as nat + 1, 256);
            lemma_contains_trans(old_symbol, old_byte, byte_child_span(old_byte, byte as nat));
            lemma_contains_intersects(old_symbol, byte_child_span(old_byte, byte as nat));
            assert(input@.take(i + 1).drop_last() =~= input@.take(i as int));
        }
        let symbols = match model.try_push_byte(byte) {
            Ok(symbols) => vstd::slice::slice_to_vec(symbols),
            Err(e) => {
                return Err(e);
            },
        };
        let ghost next = byte_child_span(old_byte, byte as nat);
        proof {
            lemma_forced_symbols_contain(weights@, old_symbol, symbols@, next);
            crate::frontier_reference::lemma_byte_walk_shape(input@.take(i as int));
            crate::frontier_reference::lemma_byte_walk_shape(input@.take(i + 1));
            lemma_forced_symbols_nested(weights@, old_byte, next, byte_symbols(old_output));
        }
        let mut j: usize = 0;
        while j < symbols.len()
            invariant
                j <= symbols@.len(),
                forall|k: int| 0 <= k < symbols@.len() - 1 ==> #[trigger] symbols@[k] != ByteSymbol::Eos,
                byte_symbols(output@) == byte_symbols(old_output) + symbols@.take(j as int),
                model.symbol_span() == symbol_walk(weights@, old_symbol, symbols@),
                old_symbol == symbol_walk(weights@, unit_span(), byte_symbols(old_output)),
                model.byte_span() == next,
                next == byte_walk(unit_span(), input@.take(i + 1)),
                span_contains(model.symbol_span(), model.byte_span()),
                model.eos_decoded_spec() == (symbols@.len() > 0 && symbols@.last() == ByteSymbol::Eos),
                i < input@.len(),
                model_total(weights@) > 0,
                model.wf(),
                model.weights_spec() == weights@,
                full == byte_walk(unit_span(), input@),
                forall|k: int|
                    0 <= k < symbols@.len() ==> forced_symbol(
                        weights@,
                        symbol_walk(weights@, old_symbol, #[trigger] symbols@.take(k)),
                        next,
                    ) == Some(symbol_index(symbols@[k])),
                forall|x: Seq<u8>| #[trigger]
                    within_message(weights@, x, full) ==> output@.len() <= x.len() && output@ == x.take(
                        output@.len() as int,
                    ),
                !model.eos_decoded_spec() ==> forced_symbol(weights@, model.symbol_span(), next) is None,
                forced_symbols(weights@, next, byte_symbols(output@)),
                forall|k2: int, x: Seq<u8>|
                    1 <= k2 <= i ==> !#[trigger] forced_symbols(
                        weights@,
                        byte_walk(unit_span(), input@.take(k2)),
                        message(x),
                    ),
            decreases symbols@.len() - j,
        {
            let ghost before = output@;
            proof {
                lemma_symbol_walk_concat(weights@, unit_span(), byte_symbols(old_output), symbols@.take(j as int));
                assert(symbol_walk(weights@, old_symbol, symbols@.take(j as int)) == symbol_walk(
                    weights@,
                    unit_span(),
                    byte_symbols(before),
                ));
                assert forall|x: Seq<u8>| #[trigger] within_message(weights@, x, full) implies symbol_index(
                    message(x)[before.len() as int],
                ) == symbol_index(symbols@[j as int]) by {
                    lemma_forced_symbol_matches(weights@, x, input@, i + 1, before, symbol_index(symbols@[j as int]));
                }
            }
            match symbols[j] {
                ByteSymbol::Byte(value) => {
                    output.push(value);
                    proof {
                        assert(byte_symbols(output@) =~= byte_symbols(before).push(ByteSymbol::Byte(value)));
                        lemma_forced_symbols_extend(weights@, unit_span(), byte_symbols(before), ByteSymbol::Byte(value), next);
                        assert(symbols@.take(j + 1) =~= symbols@.take(j as int).push(symbols@[j as int]));
                        assert forall|x: Seq<u8>| #[trigger] within_message(weights@, x, full) implies output@.len()
                            <= x.len() && output@ == x.take(output@.len() as int) by {
                            crate::frontier_reference::lemma_message_prefix(x, before.len() as int);
                            if before.len() == x.len() {
                                assert(message(x)[before.len() as int] == ByteSymbol::Eos);
                            }
                            assert(x.take(output@.len() as int) =~= before.push(value));
                        }
                    }
                },
                ByteSymbol::Eos => {
                    proof {
                        assert(j == symbols@.len() - 1);
                        assert(symbols@ =~= symbols@.take(j as int).push(ByteSymbol::Eos));
                        assert(message(output@) =~= byte_symbols(old_output) + symbols@);
                        assert(message(output@) =~= byte_symbols(before).push(ByteSymbol::Eos));
                        lemma_forced_symbols_extend(weights@, unit_span(), byte_symbols(before), ByteSymbol::Eos, next);
                        assert(forced_symbols(weights@, byte_walk(unit_span(), input@.take(i + 1)), message(output@)));
                        lemma_symbol_walk_concat(weights@, unit_span(), byte_symbols(old_output), symbols@);
                        assert forall|x: Seq<u8>| #[trigger] within_message(weights@, x, full) implies output@ == x by {
                            crate::frontier_reference::lemma_message_prefix(x, before.len() as int);
                            if before.len() < x.len() {
                                assert(message(x)[before.len() as int] == ByteSymbol::Byte(x[before.len() as int]));
                            }
                            assert(x.take(x.len() as int) =~= x);
                        }
                    }
                    return Ok(output);
                },
            }
            j = j + 1;
        }
        proof {
            assert(symbols@.take(j as int) =~= symbols@);
            lemma_symbol_walk_concat(weights@, unit_span(), byte_symbols(old_output), symbols@);
            if symbols@.len() > 0 {
                assert(symbols@.last() != ByteSymbol::Eos);
            }
            assert forall|k2: int, x: Seq<u8>| 1 <= k2 <= i + 1 implies !#[trigger] forced_symbols(
                weights@,
                byte_walk(unit_span(), input@.take(k2)),
                message(x),
            ) by {
                if k2 == i + 1 {
                    lemma_no_forced_message(weights@, next, output@, x);
                }
            }
        }
        i = i + 1;
    }
    proof {
        if input@.len() > 0 {
            assert(input@.take(i as int) =~= input@);
            assert forall|x: Seq<u8>| !#[trigger] within_message(weights@, x, full) by {
                if within_message(weights@, x, full) {
                    let k = output@.len() as int;
                    let msg = message(x);
                    crate::frontier_reference::lemma_message_prefix(x, k);
                    assert(msg.take(k) =~= byte_symbols(output@));
                    let m = symbol_index(msg[k]);
                    assert(symbol_weight(weights@, msg[k]) > 0);
                    assert(msg.take(k + 1).drop_last() =~= msg.take(k));
                    crate::frontier_reference::lemma_symbol_walk_nested(weights@, msg, k + 1);
                    crate::frontier_reference::lemma_symbol_walk_shape(weights@, msg.take(k + 1));
                    crate::frontier_reference::lemma_symbol_walk_shape(weights@, msg);
                    lemma_contains_trans(
                        symbol_walk(weights@, unit_span(), msg.take(k + 1)),
                        symbol_walk(weights@, unit_span(), msg),
                        full,
                    );
                    reveal(forced_symbol);
                    assert(0 <= m < 257 && weights@[m] > 0 && span_contains(
                        symbol_child_span(weights@, model.symbol_span(), m),
                        full,
                    ));
                }
            }
        }
    }
    Err(ReferenceError::MissingEos)
}

/// A symbol's weight is part of the total.
proof fn lemma_weight_within_total(weights: Seq<u64>, i: int)
    requires
        weights.len() == 257,
        0 <= i < 257,
    ensures
        weights[i] <= model_total(weights),
{
    crate::partition::lemma_prefix_weight_bounds(weights, 257);
    assert(prefix_weight(weights, i + 1) == prefix_weight(weights, i) + weights[i]);
}

} // verus!
