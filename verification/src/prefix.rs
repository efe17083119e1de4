//! Ranked prefixes of conditional event probabilities and their exact tails.
use vstd::arithmetic::mul::*;
use vstd::prelude::*;

use crate::bignum::{big_mul, digits_from_u64, exp2, lemma_exp2_adds, lemma_exp2_small, nat_of};
use crate::dyadic::{canonical, is_canonical, lemma_canonical_le, BigDyadic};

pub mod fixtures;
pub mod implementations;

verus! {

/// The reduced factor `1 - raw / 256` as `(odd numerator, fractional bits)`.
pub open spec fn reduced_factor(raw: u8) -> (nat, nat) {
    canonical((256 - raw) as nat, 8)
}

/// Product of the reduced odd numerators of every factor.
pub open spec fn tail_numerator(probabilities: Seq<u8>) -> nat
    decreases probabilities.len(),
{
    if probabilities.len() == 0 {
        1
    } else {
        tail_numerator(probabilities.drop_last()) * reduced_factor(probabilities.last()).0
    }
}

/// Sum of the reduced fractional bits of every factor.
pub open spec fn tail_bits(probabilities: Seq<u8>) -> nat
    decreases probabilities.len(),
{
    if probabilities.len() == 0 {
        0
    } else {
        tail_bits(probabilities.drop_last()) + reduced_factor(probabilities.last()).1
    }
}

/// The exact tail `product_i ((256 - x_i) / 256)` of a prefix, as its
/// canonical `(numerator, fractional bits)`.
pub open spec fn tail_spec(probabilities: Seq<u8>) -> (nat, nat) {
    canonical(tail_numerator(probabilities), tail_bits(probabilities))
}

/// `product_i (256 - x_i)`, the unreduced tail numerator over `256^len`.
pub open spec fn plain_product(probabilities: Seq<u8>) -> nat
    decreases probabilities.len(),
{
    if probabilities.len() == 0 {
        1
    } else {
        plain_product(probabilities.drop_last()) * (256 - probabilities.last()) as nat
    }
}

/// Inputs on which the exact tail can be computed: its precision fits a
/// `usize` with room for the integer bit.
pub open spec fn tail_fits(probabilities: Seq<u8>) -> bool {
    tail_bits(probabilities) < usize::MAX
}

/// An ordered prefix of conditional event probabilities.
///
/// Each byte `raw` represents the probability `p = raw / 256` that the event
/// at that position occurs, conditioned on every previous event in the prefix
/// having been denied. A prefix of length `N` describes `N` explicit ranked
/// events plus one implicit tail event with probability
/// `product_i (1 - p[i])`.
///
/// Probability one is deliberately not representable, so the tail of every
/// finite prefix is strictly positive.
#[derive(Clone, Copy, Debug, Default, PartialEq, Eq, Hash)]
pub struct RankedPrefix<'a> {
    probabilities: &'a [u8],
}

impl<'a> View for RankedPrefix<'a> {
    type V = Seq<u8>;

    closed spec fn view(&self) -> Seq<u8> {
        self.probabilities@
    }
}

impl<'a> RankedPrefix<'a> {
    /// Construct a ranked prefix from raw `u8 / 256` probabilities.
    pub fn new(probabilities: &'a [u8]) -> (r: Self)
        ensures
            r@ == probabilities@,
    {
        Self { probabilities }
    }

    /// Construct a ranked prefix from raw `u8 / 256` probabilities.
    pub fn from_slice(probabilities: &'a [u8]) -> (r: Self)
        ensures
            r@ == probabilities@,
    {
        Self { probabilities }
    }

    /// Borrow the raw conditional probabilities.
    pub fn as_slice(self) -> (r: &'a [u8])
        ensures
            r@ == self@,
    {
        self.probabilities
    }

    /// Number of explicit events in this prefix.
    ///
    /// The prefix also has one implicit tail event at rank `len()`.
    pub fn len(self) -> (r: usize)
        ensures
            r == self@.len(),
    {
        self.probabilities.len()
    }

    /// Whether this prefix has no explicit events.
    pub fn is_empty(self) -> (r: bool)
        ensures
            r == (self@.len() == 0),
    {
        self.probabilities.len() == 0
    }

    /// Split the first explicit event from the remaining prefix.
    pub fn split_first(self) -> (r: Option<(u8, Self)>)
        ensures
            self@.len() == 0 ==> r is None,
            self@.len() > 0 ==> (r matches Some((first, rest)) && first == self@[0] && rest@
                == self@.drop_first()),
    {
        if self.probabilities.len() == 0 {
            None
        } else {
            let first = self.probabilities[0];
            let rest = &self.probabilities[1..self.probabilities.len()];
            proof {
                assert(rest@ =~= self@.drop_first());
            }
            Some((first, Self::new(rest)))
        }
    }

    /// Split this prefix at an anchored event boundary.
    pub fn split_at(self, mid: usize) -> (r: (Self, Self))
        requires
            mid <= self@.len(),
        ensures
            r.0@ == self@.subrange(0, mid as int),
            r.1@ == self@.subrange(mid as int, self@.len() as int),
    {
        let (left, right) = self.probabilities.split_at(mid);
        (Self::new(left), Self::new(right))
    }

    /// Return the exact probability of the implicit tail event,
    /// `product_i ((256 - x_i) / 256)`.
    ///
    /// Powers of two are removed from each small factor, up to eight odd
    /// factors are accumulated in a `u64` (`255^8 < 2^64`), and the chunk
    /// products are combined through an online balanced multiplication tree.
    pub fn tail_probability(self) -> (r: BigDyadic)
        requires
            tail_fits(self@),
        ensures
            r@ == tail_spec(self@),
    {
        implementations::online_balanced::compute(&self)
    }
}

/// Reduce one factor `256 - raw` to its odd part and the number of
/// fractional bits left after cancelling powers of two.
pub fn reduce_factor(raw: u8) -> (r: (u64, usize))
    ensures
        r.0 == reduced_factor(raw).0,
        r.1 == reduced_factor(raw).1,
        1 <= r.0 <= 255,
        r.1 <= 8,
        r.0 <= exp2(r.1 as nat),
{
    let mut odd: u16 = 256 - raw as u16;
    let mut bits: usize = 8;
    proof {
        lemma_exp2_small();
    }
    while bits > 0 && odd % 2 == 0
        invariant
            canonical(odd as nat, bits as nat) == reduced_factor(raw),
            1 <= odd <= 256,
            bits <= 8,
            odd == 256 ==> bits == 8,
            odd <= exp2(bits as nat),
        decreases bits,
    {
        proof {
            assert(exp2(bits as nat) == 2 * exp2((bits - 1) as nat));
        }
        odd = odd / 2;
        bits = bits - 1;
    }
    proof {
        if bits == 0 {
            assert(odd <= 1);
        }
        if odd == 256 {
            assert(odd % 2 == 0);
        }
    }
    (odd as u64, bits)
}

/// Reducing one more factor extends the tail specification.
pub proof fn lemma_tail_push(probabilities: Seq<u8>, raw: u8)
    ensures
        tail_numerator(probabilities.push(raw)) == tail_numerator(probabilities)
            * reduced_factor(raw).0,
        tail_bits(probabilities.push(raw)) == tail_bits(probabilities) + reduced_factor(raw).1,
        plain_product(probabilities.push(raw)) == plain_product(probabilities) * (256 - raw) as nat,
{
    assert(probabilities.push(raw).drop_last() =~= probabilities);
}

/// The reduced tail never needs more precision than the unreduced one, its
/// numerator is odd, and it lies in `(0, 1]`.
pub proof fn lemma_tail_bounds(probabilities: Seq<u8>)
    ensures
        tail_bits(probabilities) <= 8 * probabilities.len(),
        tail_numerator(probabilities) >= 1,
        tail_numerator(probabilities) % 2 == 1,
        tail_numerator(probabilities) <= exp2(tail_bits(probabilities)),
    decreases probabilities.len(),
{
    if probabilities.len() > 0 {
        let init = probabilities.drop_last();
        let raw = probabilities.last();
        lemma_tail_bounds(init);
        lemma_reduced_factor_facts(raw);
        let (o, b) = reduced_factor(raw);
        let n = tail_numerator(init);
        let k = tail_bits(init);
        lemma_exp2_adds(k, b);
        lemma_mul_upper_bound(n as int, exp2(k) as int, o as int, exp2(b) as int);
        let a = n / 2;
        let c = o / 2;
        assert(n * o == 2 * (2 * a * c + a + c) + 1) by (nonlinear_arith)
            requires
                n == 2 * a + 1,
                o == 2 * c + 1,
        ;
    } else {
        lemma_exp2_small();
    }
}

/// Facts about one reduced factor.
pub proof fn lemma_reduced_factor_facts(raw: u8)
    ensures
        reduced_factor(raw).0 % 2 == 1,
        1 <= reduced_factor(raw).0 <= 255,
        reduced_factor(raw).1 <= 8,
        reduced_factor(raw).0 <= exp2(reduced_factor(raw).1),
        reduced_factor(raw).0 * 256 == (256 - raw) * exp2(reduced_factor(raw).1),
{
    lemma_factor_reduction(raw);
}

proof fn lemma_factor_reduction(raw: u8)
    ensures
        reduced_factor(raw).0 % 2 == 1,
        1 <= reduced_factor(raw).0 <= 255,
        reduced_factor(raw).1 <= 8,
        reduced_factor(raw).0 <= exp2(reduced_factor(raw).1),
        reduced_factor(raw).0 * 256 == (256 - raw) * exp2(reduced_factor(raw).1),
{
    lemma_exp2_small();
    lemma_canonical_le((256 - raw) as nat, 8);
    lemma_canonical_value((256 - raw) as nat, 8);
    lemma_canonical_odd((256 - raw) as nat, 8);
    let (o, b) = reduced_factor(raw);
    if b == 0 {
        assert(o <= 1);
    }
    if o == 256 {
        assert(b == 8) by {
            if b < 8 {
                crate::bignum::lemma_exp2_strict(b, 8);
            }
        }
    }
}

/// The canonical form denotes the same rational value.
pub proof fn lemma_canonical_value(n: nat, k: nat)
    ensures
        canonical(n, k).0 * exp2(k) == n * exp2(canonical(n, k).1),
    decreases k,
{
    if n == 0 {
        assert(canonical(0, k) == (0nat, 0nat));
        assert(0 * exp2(k) == 0) by (nonlinear_arith);
        assert(0 * exp2(0) == 0) by (nonlinear_arith);
    } else if k > 0 && n % 2 == 0 {
        let k1 = (k - 1) as nat;
        lemma_canonical_value(n / 2, k1);
        let (c, e) = canonical(n / 2, k1);
        assert(canonical(n, k) == (c, e));
        assert(exp2(k) == 2 * exp2(k1));
        assert(n == 2 * (n / 2));
        assert(c * exp2(k) == n * exp2(e)) by (nonlinear_arith)
            requires
                c * exp2(k1) == (n / 2) * exp2(e),
                exp2(k) == 2 * exp2(k1),
                n == 2 * (n / 2),
        ;
    } else {
    }
}

/// A canonical nonzero numerator with fractional bits is odd.
pub proof fn lemma_canonical_odd(n: nat, k: nat)
    ensures
        n > 0 ==> canonical(n, k).0 > 0,
        n > 0 && canonical(n, k).1 > 0 ==> canonical(n, k).0 % 2 == 1,
    decreases k,
{
    if n > 0 && k > 0 && n % 2 == 0 {
        lemma_canonical_odd(n / 2, (k - 1) as nat);
    }
}

/// An odd numerator is already canonical.
pub proof fn lemma_odd_is_canonical(n: nat, k: nat)
    requires
        n % 2 == 1,
    ensures
        is_canonical(n, k),
{
}

/// Insert an equally-sized product into an online balanced multiplication
/// tree.
///
/// `levels[n]` contains a product of `2^n` original chunks. Collisions
/// multiply equal-sized operands and carry upward, exactly like incrementing a
/// binary counter.
pub fn push_balanced(levels: &mut Vec<Option<Vec<u32>>>, value: Vec<u32>)
    ensures
        levels_product(final(levels)@) == levels_product(old(levels)@) * nat_of(value@),
{
    let ghost initial = value@;
    let mut carry = value;
    let mut level: usize = 0;
    let mut done = false;
    let ghost total = levels_product(old(levels)@) * nat_of(carry@);
    proof {
        lemma_levels_product_split(old(levels)@, 0);
        assert(old(levels)@.subrange(0, 0) =~= Seq::<Option<Vec<u32>>>::empty());
    }
    while !done
        invariant
            level <= levels.len(),
            levels_product(levels@.subrange(0, level as int)) == 1,
            !done ==> levels_product(levels@) * nat_of(carry@) == total,
            done ==> levels_product(levels@) == total,
            total == levels_product(old(levels)@) * nat_of(initial),
        decreases (if done {
            0int
        } else {
            1int
        }) + usize::MAX - level,
    {
        if level == levels.len() {
            proof {
                lemma_levels_product_split(levels@, level as int);
                assert(levels@.subrange(level as int, levels@.len() as int) =~= Seq::<
                    Option<Vec<u32>>,
                >::empty());
            }
            let ghost pushed = carry@;
            let ghost prior = levels@;
            levels.push(Some(carry));
            proof {
                assert(levels@.drop_last() =~= prior);
                assert(levels_product(levels@) == levels_product(prior) * nat_of(pushed));
                assert(levels@.subrange(0, level as int) =~= prior.subrange(0, level as int));
            }
            done = true;
            carry = Vec::new();
        } else {
            let ghost before = levels@;
            let slot = levels[level].take();
            proof {
                lemma_levels_product_update(before, level as int, None);
            }
            match slot {
                None => {
                    let ghost middle = levels@;
                    proof {
                        lemma_levels_product_update(middle, level as int, Some(carry));
                        assert(levels_product(before) * 1 == levels_product(middle) * 1);
                    }
                    let ghost stored = carry@;
                    levels.set(level, Some(carry));
                    proof {
                        assert(levels_product(middle) * nat_of(stored) == levels_product(levels@)
                            * 1);
                        assert(levels@.subrange(0, level as int) =~= middle.subrange(
                            0,
                            level as int,
                        ));
                        assert(middle.subrange(0, level as int) =~= before.subrange(
                            0,
                            level as int,
                        ));
                    }
                    done = true;
                    carry = Vec::new();
                },
                Some(other) => {
                    let next = big_mul(&carry, &other);
                    proof {
                        assert(levels_product(levels@) * nat_of(other@) == levels_product(before));
                        lemma_mul_is_associative(
                            levels_product(levels@) as int,
                            nat_of(other@) as int,
                            nat_of(carry@) as int,
                        );
                        lemma_mul_is_commutative(nat_of(other@) as int, nat_of(carry@) as int);
                        assert(levels@.subrange(0, level as int) =~= before.subrange(
                            0,
                            level as int,
                        ));
                        let one = levels@.subrange(level as int, level + 1);
                        assert(one =~= seq![None::<Vec<u32>>]);
                        lemma_levels_product_single(None);
                        lemma_levels_product_concat(levels@.subrange(0, level as int), one);
                        assert(levels@.subrange(0, level as int) + one =~= levels@.subrange(
                            0,
                            level + 1,
                        ));
                    }
                    carry = next;
                    level = level + 1;
                },
            }
        }
    }
}

/// Product of the values held in a sequence of optional tree levels.
pub open spec fn levels_product(levels: Seq<Option<Vec<u32>>>) -> nat
    decreases levels.len(),
{
    if levels.len() == 0 {
        1
    } else {
        levels_product(levels.drop_last()) * match levels.last() {
            Some(v) => nat_of(v@),
            None => 1,
        }
    }
}

pub proof fn lemma_levels_product_single(v: Option<Vec<u32>>)
    ensures
        levels_product(seq![v]) == match v {
            Some(x) => nat_of(x@),
            None => 1,
        },
{
    let s = seq![v];
    assert(s.drop_last() =~= Seq::<Option<Vec<u32>>>::empty());
    assert(s.last() == v);
    assert(levels_product(s.drop_last()) == 1);
    let x = match v {
        Some(x) => nat_of(x@),
        None => 1,
    };
    assert(levels_product(s) == 1 * x);
}

pub proof fn lemma_levels_product_concat(a: Seq<Option<Vec<u32>>>, b: Seq<Option<Vec<u32>>>)
    ensures
        levels_product(a + b) == levels_product(a) * levels_product(b),
    decreases b.len(),
{
    if b.len() == 0 {
        assert(a + b =~= a);
        assert(levels_product(b) == 1);
        assert(levels_product(a) * 1 == levels_product(a));
    } else {
        lemma_levels_product_concat(a, b.drop_last());
        assert((a + b).drop_last() =~= a + b.drop_last());
        assert((a + b).last() == b.last());
        let x = levels_product(a);
        let y = levels_product(b.drop_last());
        let z = match b.last() {
            Some(v) => nat_of(v@),
            None => 1,
        };
        lemma_mul_is_associative(x as int, y as int, z as int);
    }
}

pub proof fn lemma_levels_product_split(levels: Seq<Option<Vec<u32>>>, i: int)
    requires
        0 <= i <= levels.len(),
    ensures
        levels_product(levels) == levels_product(levels.subrange(0, i)) * levels_product(
            levels.subrange(i, levels.len() as int),
        ),
{
    lemma_levels_product_concat(levels.subrange(0, i), levels.subrange(i, levels.len() as int));
    assert(levels.subrange(0, i) + levels.subrange(i, levels.len() as int) =~= levels);
}

pub proof fn lemma_levels_product_update(
    levels: Seq<Option<Vec<u32>>>,
    i: int,
    v: Option<Vec<u32>>,
)
    requires
        0 <= i < levels.len(),
    ensures
        levels_product(levels) * match v {
            Some(x) => nat_of(x@),
            None => 1,
        } == levels_product(levels.update(i, v)) * match levels[i] {
            Some(x) => nat_of(x@),
            None => 1,
        },
{
    let u = levels.update(i, v);
    lemma_levels_product_split(levels, i);
    lemma_levels_product_split(u, i);
    let a = levels.subrange(0, i);
    assert(u.subrange(0, i) =~= a);
    let rest = levels.subrange(i, levels.len() as int);
    let urest = u.subrange(i, u.len() as int);
    let tail = levels.subrange(i + 1, levels.len() as int);
    assert(rest =~= seq![levels[i]] + tail);
    assert(urest =~= seq![v] + tail);
    lemma_levels_product_concat(seq![levels[i]], tail);
    lemma_levels_product_concat(seq![v], tail);
    lemma_levels_product_single(levels[i]);
    lemma_levels_product_single(v);
    let pa = levels_product(a);
    let pt = levels_product(tail);
    let old_v = match levels[i] {
        Some(x) => nat_of(x@),
        None => 1,
    };
    let new_v = match v {
        Some(x) => nat_of(x@),
        None => 1,
    };
    assert(levels_product(seq![levels[i]]) == old_v);
    assert(levels_product(seq![v]) == new_v);
    assert(pa * (old_v * pt) * new_v == pa * (new_v * pt) * old_v) by (nonlinear_arith);
}

/// Multiply the values of every level together.
pub fn levels_fold(levels: Vec<Option<Vec<u32>>>) -> (r: Vec<u32>)
    ensures
        nat_of(r@) == levels_product(levels@),
{
    let mut acc = digits_from_u64(1);
    let mut i: usize = 0;
    proof {
        assert(levels@.subrange(0, 0) =~= Seq::<Option<Vec<u32>>>::empty());
    }
    while i < levels.len()
        invariant
            i <= levels.len(),
            nat_of(acc@) == levels_product(levels@.subrange(0, i as int)),
        decreases levels.len() - i,
    {
        proof {
            assert(levels@.subrange(0, i + 1).drop_last() =~= levels@.subrange(0, i as int));
        }
        match &levels[i] {
            Some(value) => {
                acc = big_mul(&acc, value);
            },
            None => {},
        }
        i = i + 1;
    }
    proof {
        assert(levels@.subrange(0, levels.len() as int) =~= levels@);
    }
    acc
}

/// The canonical exact tail of a prefix, from its reduced numerator and
/// fractional bits.
pub(crate) fn tail_from_reduced(numerator: Vec<u32>, fractional_bits: usize, probabilities: Ghost<Seq<u8>>) -> (r: BigDyadic)
    requires
        nat_of(numerator@) == tail_numerator(probabilities@),
        fractional_bits == tail_bits(probabilities@),
        tail_fits(probabilities@),
    ensures
        r@ == tail_spec(probabilities@),
{
    proof {
        lemma_tail_bounds(probabilities@);
    }
    BigDyadic::from_scaled(numerator, fractional_bits)
}

} // verus!

verus! {

/// `tail_numerator(s) / 2^tail_bits(s)` equals `plain_product(s) / 256^len(s)`.
proof fn lemma_reduced_tail_value(s: Seq<u8>)
    ensures
        tail_numerator(s) * exp2(8 * s.len()) == plain_product(s) * exp2(tail_bits(s)),
    decreases s.len(),
{
    if s.len() == 0 {
        lemma_exp2_small();
    } else {
        let init = s.drop_last();
        let x = s.last();
        lemma_reduced_tail_value(init);
        lemma_reduced_factor_facts(x);
        let (o, b) = reduced_factor(x);
        let n = tail_numerator(init);
        let p = plain_product(init);
        let bb = tail_bits(init);
        let e = exp2(8 * init.len());
        lemma_exp2_adds(8 * init.len(), 8);
        lemma_exp2_adds(bb, b);
        lemma_exp2_small();
        assert(8 * s.len() == 8 * init.len() + 8);
        let f = (256 - x) as nat;
        assert((n * o) * (e * 256) == (p * f) * (exp2(bb) * exp2(b))) by (nonlinear_arith)
            requires
                n * e == p * exp2(bb),
                o * 256 == f * exp2(b),
        ;
    }
}

/// The exact tail of a prefix is `product_i ((256 - x_i) / 256)`: its
/// canonical form denotes the same rational number as the unreduced product
/// over `256^len`.
pub proof fn lemma_tail_is_exact(probabilities: Seq<u8>)
    ensures
        crate::dyadic::dyadic_same(
            tail_spec(probabilities),
            (plain_product(probabilities), 8 * probabilities.len()),
        ),
{
    let n = tail_numerator(probabilities);
    let k = tail_bits(probabilities);
    let (c, e) = tail_spec(probabilities);
    lemma_reduced_tail_value(probabilities);
    lemma_canonical_value(n, k);
    crate::bignum::lemma_exp2_positive(k);
    let p = plain_product(probabilities);
    let big = exp2(8 * probabilities.len());
    assert(c * big == p * exp2(e)) by (nonlinear_arith)
        requires
            c * exp2(k) == n * exp2(e),
            n * big == p * exp2(k),
            exp2(k) > 0,
    ;
}

/// Every finite tail is strictly positive and at most one.
pub proof fn lemma_tail_is_positive(probabilities: Seq<u8>)
    ensures
        tail_spec(probabilities).0 >= 1,
        tail_spec(probabilities).0 <= exp2(tail_spec(probabilities).1),
        is_canonical(tail_spec(probabilities).0, tail_spec(probabilities).1),
{
    lemma_tail_bounds(probabilities);
    let n = tail_numerator(probabilities);
    let k = tail_bits(probabilities);
    lemma_odd_is_canonical(n, k);
}

/// A zero probability is a multiplicative identity: appending it leaves the
/// tail unchanged.
pub proof fn lemma_zero_probability_is_identity(probabilities: Seq<u8>)
    ensures
        tail_spec(probabilities.push(0)) == tail_spec(probabilities),
{
    reveal_with_fuel(canonical, 10);
    assert(reduced_factor(0) == (1nat, 0nat));
    lemma_tail_push(probabilities, 0);
    assert(tail_numerator(probabilities.push(0)) == tail_numerator(probabilities) * 1);
    assert(tail_numerator(probabilities.push(0)) == tail_numerator(probabilities));
    assert(tail_bits(probabilities.push(0)) == tail_bits(probabilities));
}

/// A canonical form only strips powers of two: the numerator is the
/// canonical numerator times `2` to the bits it dropped.
proof fn lemma_canonical_shape(n: nat, k: nat)
    ensures
        canonical(n, k).1 <= k,
        n == canonical(n, k).0 * exp2((k - canonical(n, k).1) as nat),
    decreases k,
{
    if n == 0 {
        assert(canonical(0, k) == (0nat, 0nat));
        assert(0 * exp2(k) == 0) by (nonlinear_arith);
    } else if k > 0 && n % 2 == 0 {
        let k1 = (k - 1) as nat;
        lemma_canonical_shape(n / 2, k1);
        let (c, e) = canonical(n / 2, k1);
        let d = (k1 - e) as nat;
        assert(exp2(d + 1) == 2 * exp2(d));
        assert((k - e) as nat == d + 1);
        assert(n == c * exp2(d + 1)) by (nonlinear_arith)
            requires
                n / 2 == c * exp2(d),
                exp2(d + 1) == 2 * exp2(d),
                n % 2 == 0,
        ;
    } else {
        assert(canonical(n, k) == (n, k));
        assert(exp2(0) == 1);
        assert(n * exp2(0) == n);
    }
}

/// Scaling a positive numerator and its fractional bits by the same power of
/// two leaves the canonical form unchanged.
proof fn lemma_canonical_scale(n: nat, k: nat, t: nat)
    requires
        n > 0,
    ensures
        canonical(n * exp2(t), k + t) == canonical(n, k),
    decreases t,
{
    if t == 0 {
        assert(exp2(0) == 1);
        assert(n * 1 == n);
    } else {
        let t1 = (t - 1) as nat;
        crate::bignum::lemma_exp2_positive(t1);
        assert(exp2(t) == 2 * exp2(t1));
        let m = n * exp2(t1);
        assert(n * exp2(t) == 2 * m && m > 0) by (nonlinear_arith)
            requires
                exp2(t) == 2 * exp2(t1),
                m == n * exp2(t1),
                exp2(t1) >= 1,
                n > 0,
        ;
        assert((2 * m) % 2 == 0 && (2 * m) / 2 == m);
        assert((k + t - 1) as nat == k + t1);
        lemma_canonical_scale(n, k, t1);
    }
}

/// Canonical forms multiply like the values they stand for: reducing each
/// factor before multiplying gives the canonical form of the exact product.
pub proof fn lemma_canonical_product(x: nat, i: nat, y: nat, j: nat)
    ensures
        canonical(canonical(x, i).0 * canonical(y, j).0, canonical(x, i).1 + canonical(y, j).1) == canonical(
            x * y,
            i + j,
        ),
{
    let (cx, ex) = canonical(x, i);
    let (cy, ey) = canonical(y, j);
    if x == 0 || y == 0 {
        assert(x * y == 0) by (nonlinear_arith)
            requires
                x == 0 || y == 0,
        ;
        assert(cx * cy == 0) by (nonlinear_arith)
            requires
                cx == 0 || cy == 0,
        ;
    } else {
        lemma_canonical_shape(x, i);
        lemma_canonical_shape(y, j);
        lemma_canonical_odd(x, i);
        lemma_canonical_odd(y, j);
        let a = (i - ex) as nat;
        let b = (j - ey) as nat;
        crate::bignum::lemma_exp2_adds(a, b);
        assert(x * y == (cx * cy) * exp2(a + b)) by (nonlinear_arith)
            requires
                x == cx * exp2(a),
                y == cy * exp2(b),
                exp2(a + b) == exp2(a) * exp2(b),
        ;
        assert(cx * cy > 0) by (nonlinear_arith)
            requires
                cx > 0,
                cy > 0,
        ;
        assert(i + j == (ex + ey) + (a + b));
        lemma_canonical_scale(cx * cy, ex + ey, a + b);
    }
}

/// The exact tail of a concatenation is the product of the tails of its
/// parts: `S(a ++ b) = S(a) * S(b)`, in the canonical form that
/// `BigDyadic::multiplied` gives.
pub proof fn lemma_tail_of_concat(a: Seq<u8>, b: Seq<u8>)
    ensures
        tail_spec(a + b) == canonical(tail_spec(a).0 * tail_spec(b).0, tail_spec(a).1 + tail_spec(b).1),
{
    crate::prefix::implementations::widening_u128::lemma_tail_concat(a, b);
    lemma_canonical_product(tail_numerator(a), tail_bits(a), tail_numerator(b), tail_bits(b));
}

/// Taking one factor out of the middle of a prefix divides its exact tail by
/// that factor alone.
proof fn lemma_tail_remove(s: Seq<u8>, k: int)
    requires
        0 <= k < s.len(),
    ensures
        tail_numerator(s) == tail_numerator(s.remove(k)) * reduced_factor(s[k]).0,
        tail_bits(s) == tail_bits(s.remove(k)) + reduced_factor(s[k]).1,
{
    let front = s.take(k);
    let back = s.skip(k + 1);
    let one = seq![s[k]];
    assert(s =~= (front + one) + back);
    assert(s.remove(k) =~= front + back);
    crate::prefix::implementations::widening_u128::lemma_tail_concat(front + one, back);
    crate::prefix::implementations::widening_u128::lemma_tail_concat(front, one);
    crate::prefix::implementations::widening_u128::lemma_tail_concat(front, back);
    assert(one.drop_last() =~= Seq::<u8>::empty());
    assert(one.last() == s[k]);
    assert(tail_numerator(Seq::<u8>::empty()) == 1);
    assert(tail_bits(Seq::<u8>::empty()) == 0);
    assert(tail_numerator(one) == 1 * reduced_factor(s[k]).0);
    assert(tail_numerator(one) == reduced_factor(s[k]).0);
    assert(tail_bits(one) == reduced_factor(s[k]).1);
    assert(tail_numerator(front) * tail_numerator(one) * tail_numerator(back) == tail_numerator(front)
        * tail_numerator(back) * tail_numerator(one)) by (nonlinear_arith);
}

/// The exact tail of a prefix depends only on which probabilities it holds,
/// not on their order: two prefixes that are permutations of each other
/// have the same tail.
pub proof fn lemma_tail_permutation(s1: Seq<u8>, s2: Seq<u8>)
    requires
        s1.to_multiset() == s2.to_multiset(),
    ensures
        tail_numerator(s1) == tail_numerator(s2),
        tail_bits(s1) == tail_bits(s2),
        tail_spec(s1) == tail_spec(s2),
    decreases s1.len(),
{
    broadcast use vstd::seq_lib::group_to_multiset_ensures;

    if s1.len() == 0 {
        assert(s1.to_multiset().len() == 0);
        assert(s2.to_multiset().len() == s2.len());
        assert(s2.len() == 0);
        assert(s1 =~= s2);
    } else {
        let x = s1.last();
        let last = s1.len() - 1;
        assert(s1.contains(x)) by {
            assert(s1[last] == x);
        }
        assert(s1.to_multiset().count(x) > 0);
        assert(s2.contains(x));
        let k = choose|k: int| 0 <= k < s2.len() && s2[k] == x;
        assert(s1.remove(last) =~= s1.drop_last());
        assert(s1.remove(last).to_multiset() == s1.to_multiset().remove(s1[last]));
        assert(s2.remove(k).to_multiset() == s2.to_multiset().remove(s2[k]));
        lemma_tail_permutation(s1.drop_last(), s2.remove(k));
        lemma_tail_remove(s2, k);
    }
}

} // verus!
