//! Reproducible benchmark workloads for ranked conditional probabilities.
use vstd::prelude::*;

verus! {

/// Which deterministic input a [`Fixture`] generates.
#[derive(Clone, Copy, Debug, PartialEq, Eq)]
pub enum FixtureShape {
    Patterned,
    Ones,
    ModelFlat,
    ModelPeaked,
    ModelLongTail,
}

/// A deterministic input family used by the Criterion matrix.
#[derive(Clone, Copy, Debug)]
pub struct Fixture {
    pub name: &'static str,
    pub shape: FixtureShape,
}

/// Byte `i` of the patterned input: `73 i + i / 8 + 19`, modulo 256.
pub open spec fn patterned_byte(i: nat) -> u8 {
    ((73 * i + i / 8 + 19) % 256) as u8
}

/// The sum of `weights[from..]`.
pub open spec fn suffix_sum(weights: Seq<u64>, from: int) -> nat
    decreases weights.len() - from,
{
    if from >= weights.len() {
        0
    } else {
        weights[from] as nat + suffix_sum(weights, from + 1)
    }
}

/// The hazard of rank `i`: its weight's share of the mass not yet ranked,
/// as `u8 / 256`, capped at 255 (zero when no mass is left).
pub open spec fn hazard(weights: Seq<u64>, i: int) -> u8 {
    let remaining = suffix_sum(weights, i);
    if remaining == 0 {
        0
    } else if (weights[i] as nat * 256) / remaining > 255 {
        255
    } else {
        ((weights[i] as nat * 256) / remaining) as u8
    }
}

/// The weights of the peaked model: all the mass on rank zero, `32` times
/// the size, against weight one for every other rank.
pub open spec fn peaked_weight(size: nat, index: nat) -> u64 {
    if index == 0 {
        (if size == 0 {
            1nat
        } else {
            size
        } * 32) as u64
    } else {
        1
    }
}

/// The weights of the long-tail model: `size / (index + 1)`, at least one.
pub open spec fn long_tail_weight(size: nat, index: nat) -> u64 {
    if size / (index + 1) == 0 {
        1
    } else {
        (size / (index + 1)) as u64
    }
}

/// The input `shape` generates for `size`.
pub open spec fn fixture_bytes(shape: FixtureShape, size: nat) -> Seq<u8> {
    match shape {
        FixtureShape::Patterned => Seq::new(size, |i: int| patterned_byte(i as nat)),
        FixtureShape::Ones => Seq::new(size, |i: int| 1u8),
        FixtureShape::ModelFlat => {
            let weights = Seq::new(size, |i: int| 1u64);
            Seq::new(size, |i: int| hazard(weights, i))
        },
        FixtureShape::ModelPeaked => {
            let weights = Seq::new(size, |i: int| peaked_weight(size, i as nat));
            Seq::new(size, |i: int| hazard(weights, i))
        },
        FixtureShape::ModelLongTail => {
            let weights = Seq::new(size, |i: int| long_tail_weight(size, i as nat));
            Seq::new(size, |i: int| hazard(weights, i))
        },
    }
}

/// Sizes every fixture can generate: the peaked model's first weight,
/// `32` times the size, must fit a `u64`.
pub open spec fn fixture_size_fits(size: nat) -> bool {
    size * 32 <= u64::MAX
}

impl Fixture {
    pub fn generate(self, size: usize) -> (r: Vec<u8>)
        requires
            fixture_size_fits(size as nat),
        ensures
            r@ == fixture_bytes(self.shape, size as nat),
    {
        match self.shape {
            FixtureShape::Patterned => patterned(size),
            FixtureShape::Ones => ones(size),
            FixtureShape::ModelFlat => model_flat(size),
            FixtureShape::ModelPeaked => model_peaked(size),
            FixtureShape::ModelLongTail => model_long_tail(size),
        }
    }
}

pub fn patterned_fixture() -> (r: Fixture)
    ensures
        r.name@ == "patterned"@,
        r.shape == FixtureShape::Patterned,
{
    Fixture { name: "patterned", shape: FixtureShape::Patterned }
}

pub fn ones_fixture() -> (r: Fixture)
    ensures
        r.name@ == "ones"@,
        r.shape == FixtureShape::Ones,
{
    Fixture { name: "ones", shape: FixtureShape::Ones }
}

pub fn model_flat_fixture() -> (r: Fixture)
    ensures
        r.name@ == "model-flat"@,
        r.shape == FixtureShape::ModelFlat,
{
    Fixture { name: "model-flat", shape: FixtureShape::ModelFlat }
}

pub fn model_peaked_fixture() -> (r: Fixture)
    ensures
        r.name@ == "model-peaked"@,
        r.shape == FixtureShape::ModelPeaked,
{
    Fixture { name: "model-peaked", shape: FixtureShape::ModelPeaked }
}

pub fn model_long_tail_fixture() -> (r: Fixture)
    ensures
        r.name@ == "model-long-tail"@,
        r.shape == FixtureShape::ModelLongTail,
{
    Fixture { name: "model-long-tail", shape: FixtureShape::ModelLongTail }
}

/// The general-purpose fixtures.
pub fn general_fixtures() -> (r: Vec<Fixture>)
    ensures
        r@.len() == 2,
        r@[0].shape == FixtureShape::Patterned,
        r@[1].shape == FixtureShape::Ones,
{
    let mut v = Vec::new();
    v.push(patterned_fixture());
    v.push(ones_fixture());
    v
}

/// The fixtures shaped like real models.
pub fn model_shaped_fixtures() -> (r: Vec<Fixture>)
    ensures
        r@.len() == 3,
        r@[0].shape == FixtureShape::ModelFlat,
        r@[1].shape == FixtureShape::ModelPeaked,
        r@[2].shape == FixtureShape::ModelLongTail,
{
    let mut v = Vec::new();
    v.push(model_flat_fixture());
    v.push(model_peaked_fixture());
    v.push(model_long_tail_fixture());
    v
}

/// `(73 i + i / 8 + 19) mod 256` from the residues of its terms.
proof fn lemma_patterned_residue(i: nat)
    ensures
        ((i % 256) * 73 + (i / 8) % 256 + 19) % 256 == (73 * i + i / 8 + 19) % 256,
{
    vstd::arithmetic::div_mod::lemma_mul_mod_noop_left(i as int, 73, 256);
    vstd::arithmetic::div_mod::lemma_add_mod_noop(73 * i as int, (i / 8) as int, 256);
    vstd::arithmetic::div_mod::lemma_add_mod_noop((i % 256) as int * 73, ((i / 8) % 256) as int, 256);
    vstd::arithmetic::div_mod::lemma_mod_twice((i / 8) as int, 256);
    vstd::arithmetic::div_mod::lemma_add_mod_noop((73 * i + i / 8) as int, 19, 256);
    vstd::arithmetic::div_mod::lemma_add_mod_noop(((i % 256) * 73 + (i / 8) % 256) as int, 19, 256);
}

fn patterned(size: usize) -> (r: Vec<u8>)
    ensures
        r@ == Seq::new(size as nat, |i: int| patterned_byte(i as nat)),
{
    let mut out: Vec<u8> = Vec::new();
    let mut i: usize = 0;
    while i < size
        invariant
            i <= size,
            out@ == Seq::new(i as nat, |k: int| patterned_byte(k as nat)),
        decreases size - i,
    {
        let value = ((i % 256) * 73 + (i / 8) % 256 + 19) % 256;
        proof {
            lemma_patterned_residue(i as nat);
        }
        out.push(value as u8);
        proof {
            assert(out@ =~= Seq::new((i + 1) as nat, |k: int| patterned_byte(k as nat)));
        }
        i = i + 1;
    }
    out
}

fn ones(size: usize) -> (r: Vec<u8>)
    ensures
        r@ == Seq::new(size as nat, |i: int| 1u8),
{
    let mut out: Vec<u8> = Vec::new();
    let mut i: usize = 0;
    while i < size
        invariant
            i <= size,
            out@ == Seq::new(i as nat, |k: int| 1u8),
        decreases size - i,
    {
        out.push(1);
        proof {
            assert(out@ =~= Seq::new((i + 1) as nat, |k: int| 1u8));
        }
        i = i + 1;
    }
    out
}

/// The suffix sums telescope.
proof fn lemma_suffix_sum_bound(weights: Seq<u64>, from: int)
    requires
        0 <= from <= weights.len(),
    ensures
        suffix_sum(weights, from) <= (weights.len() - from) * (u64::MAX as nat),
    decreases weights.len() - from,
{
    if from < weights.len() {
        lemma_suffix_sum_bound(weights, from + 1);
    }
}

/// Convert ranked weights into conditional `u8 / 256` hazards.
fn ranked_hazards(weights: &Vec<u64>) -> (r: Vec<u8>)
    ensures
        r@ == Seq::new(weights@.len(), |i: int| hazard(weights@, i)),
{
    let n = weights.len();
    let mut total: u128 = 0;
    let mut k: usize = n;
    proof {
        lemma_suffix_sum_bound(weights@, 0);
    }
    while k > 0
        invariant
            k <= n == weights@.len(),
            total == suffix_sum(weights@, k as int),
            suffix_sum(weights@, 0) <= n * (u64::MAX as nat),
        decreases k,
    {
        proof {
            lemma_suffix_sum_bound(weights@, (k - 1) as int);
            lemma_suffix_sum_monotone(weights@, 0, (k - 1) as int);
            assert(n * (u64::MAX as nat) < u128::MAX) by (nonlinear_arith)
                requires
                    n <= usize::MAX,
            ;
        }
        total = total + weights[k - 1] as u128;
        k = k - 1;
    }
    let mut remaining = total;
    let mut out: Vec<u8> = Vec::new();
    let mut i: usize = 0;
    while i < n
        invariant
            i <= n == weights@.len(),
            remaining == suffix_sum(weights@, i as int),
            out@ == Seq::new(i as nat, |j: int| hazard(weights@, j)),
        decreases n - i,
    {
        let weight = weights[i] as u128;
        let numerator = weight * 256;
        let raw: u8 = if remaining == 0 {
            0
        } else {
            let quotient = numerator / remaining;
            if quotient > 255 {
                255
            } else {
                quotient as u8
            }
        };
        out.push(raw);
        proof {
            assert(out@ =~= Seq::new((i + 1) as nat, |j: int| hazard(weights@, j)));
        }
        remaining = remaining - weight;
        i = i + 1;
    }
    out
}

/// Suffix sums shrink as the start moves right.
proof fn lemma_suffix_sum_monotone(weights: Seq<u64>, a: int, b: int)
    requires
        0 <= a <= b <= weights.len(),
    ensures
        suffix_sum(weights, b) <= suffix_sum(weights, a),
    decreases b - a,
{
    if a < b {
        lemma_suffix_sum_monotone(weights, a + 1, b);
    }
}

fn model_flat(size: usize) -> (r: Vec<u8>)
    ensures
        r@ == fixture_bytes(FixtureShape::ModelFlat, size as nat),
{
    let mut weights: Vec<u64> = Vec::new();
    let mut i: usize = 0;
    while i < size
        invariant
            i <= size,
            weights@ == Seq::new(i as nat, |k: int| 1u64),
        decreases size - i,
    {
        weights.push(1);
        proof {
            assert(weights@ =~= Seq::new((i + 1) as nat, |k: int| 1u64));
        }
        i = i + 1;
    }
    ranked_hazards(&weights)
}

fn model_peaked(size: usize) -> (r: Vec<u8>)
    requires
        fixture_size_fits(size as nat),
    ensures
        r@ == fixture_bytes(FixtureShape::ModelPeaked, size as nat),
{
    let mut weights: Vec<u64> = Vec::new();
    let mut i: usize = 0;
    while i < size
        invariant
            i <= size,
            fixture_size_fits(size as nat),
            weights@ == Seq::new(i as nat, |k: int| peaked_weight(size as nat, k as nat)),
        decreases size - i,
    {
        let weight: u64 = if i == 0 {
            let base: u64 = if size == 0 {
                1
            } else {
                size as u64
            };
            base * 32
        } else {
            1
        };
        weights.push(weight);
        proof {
            assert(weights@ =~= Seq::new((i + 1) as nat, |k: int| peaked_weight(size as nat, k as nat)));
        }
        i = i + 1;
    }
    ranked_hazards(&weights)
}

fn model_long_tail(size: usize) -> (r: Vec<u8>)
    ensures
        r@ == fixture_bytes(FixtureShape::ModelLongTail, size as nat),
{
    let mut weights: Vec<u64> = Vec::new();
    let mut i: usize = 0;
    while i < size
        invariant
            i <= size,
            weights@ == Seq::new(i as nat, |k: int| long_tail_weight(size as nat, k as nat)),
        decreases size - i,
    {
        let share = size / (i + 1);
        let weight: u64 = if share == 0 {
            1
        } else {
            share as u64
        };
        weights.push(weight);
        proof {
            assert(weights@ =~= Seq::new((i + 1) as nat, |k: int| long_tail_weight(size as nat, k as nat)));
        }
        i = i + 1;
    }
    ranked_hazards(&weights)
}

} // verus!
