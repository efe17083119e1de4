//! Exact tail-probability implementations and benchmark candidates.
use vstd::prelude::*;

use crate::dyadic::BigDyadic;
use crate::prefix::{lemma_tail_push, tail_bits, tail_fits, tail_spec, RankedPrefix};

pub mod batch_balanced;
pub mod histogram;
pub mod histogram_powers;
pub mod histogram_primes;
pub mod online_balanced;
pub mod owned;
pub mod scalar;
pub mod size_adaptive;
pub mod widening_u128;

verus! {

/// Largest possible product of `k` reduced odd factors, `255^k`.
pub open spec fn chunk_bound(k: nat) -> nat
    decreases k,
{
    if k == 0 {
        1
    } else {
        255 * chunk_bound((k - 1) as nat)
    }
}

/// One more factor of at most 255 keeps a chunk of at most eight factors
/// inside a `u64`.
pub proof fn lemma_chunk_bound_step(product: nat, odd: nat, k: nat)
    requires
        product <= chunk_bound(k),
        odd <= 255,
        k < 8,
    ensures
        product * odd <= chunk_bound(k + 1),
        chunk_bound(k + 1) <= u64::MAX,
{
    reveal_with_fuel(chunk_bound, 9);
    assert(chunk_bound(8) == 17878103347812890625);
    lemma_chunk_bound_monotone(k + 1, 8);
    vstd::arithmetic::mul::lemma_mul_upper_bound(
        product as int,
        chunk_bound(k) as int,
        odd as int,
        255,
    );
}

pub proof fn lemma_chunk_bound_monotone(a: nat, b: nat)
    requires
        a <= b,
    ensures
        chunk_bound(a) <= chunk_bound(b),
    decreases b,
{
    if a < b {
        lemma_chunk_bound_monotone(a, (b - 1) as nat);
    }
}

/// Precision of a prefix of the input never exceeds that of the input.
pub proof fn lemma_tail_bits_prefix(s: Seq<u8>, i: int)
    requires
        0 <= i <= s.len(),
    ensures
        tail_bits(s.subrange(0, i)) <= tail_bits(s),
    decreases s.len() - i,
{
    if i < s.len() {
        lemma_tail_bits_prefix(s, i + 1);
        assert(s.subrange(0, i + 1) =~= s.subrange(0, i).push(s[i]));
        lemma_tail_push(s.subrange(0, i), s[i]);
    } else {
        assert(s.subrange(0, i) =~= s);
    }
}

/// Production implementation selected by the durable benchmark matrix.
pub fn compute(prefix: &RankedPrefix) -> (r: BigDyadic)
    requires
        tail_fits(prefix@),
    ensures
        r@ == tail_spec(prefix@),
{
    online_balanced::compute(prefix)
}

} // verus!

verus! {

/// Which exact tail algorithm a [`Candidate`] runs.
#[derive(Clone, Copy, Debug, PartialEq, Eq)]
pub enum TailAlgorithm {
    OnlineBalanced,
    BatchBalanced,
    ScalarReference,
}

/// One exact implementation selectable by benchmark logic.
#[derive(Clone, Copy, Debug)]
pub struct Candidate {
    /// Stable name used in benchmark identifiers and reports.
    pub name: &'static str,
    /// The algorithm run by [`Candidate::compute`].
    pub algorithm: TailAlgorithm,
}

impl Candidate {
    /// Compute the exact tail with this implementation.
    pub fn compute(self, prefix: &RankedPrefix) -> (r: BigDyadic)
        requires
            tail_fits(prefix@),
        ensures
            r@ == tail_spec(prefix@),
    {
        match self.algorithm {
            TailAlgorithm::OnlineBalanced => online_balanced::compute(prefix),
            TailAlgorithm::BatchBalanced => batch_balanced::compute(prefix),
            TailAlgorithm::ScalarReference => scalar::compute(prefix),
        }
    }
}

/// The online binary-counter tree.
pub fn online_balanced_candidate() -> (r: Candidate)
    ensures
        r.name@ == "online-balanced"@,
        r.algorithm == TailAlgorithm::OnlineBalanced,
{
    Candidate { name: "online-balanced", algorithm: TailAlgorithm::OnlineBalanced }
}

/// The round-based pairwise tree.
pub fn batch_balanced_candidate() -> (r: Candidate)
    ensures
        r.name@ == "batch-balanced"@,
        r.algorithm == TailAlgorithm::BatchBalanced,
{
    Candidate { name: "batch-balanced", algorithm: TailAlgorithm::BatchBalanced }
}

/// The sequential reference.
pub fn scalar_reference_candidate() -> (r: Candidate)
    ensures
        r.name@ == "scalar-reference"@,
        r.algorithm == TailAlgorithm::ScalarReference,
{
    Candidate { name: "scalar-reference", algorithm: TailAlgorithm::ScalarReference }
}

/// Candidates timed by the full benchmark matrix.
pub fn performance_candidates() -> (r: Vec<Candidate>)
    ensures
        r@.len() == 2,
        r@[0].algorithm == TailAlgorithm::OnlineBalanced,
        r@[1].algorithm == TailAlgorithm::BatchBalanced,
{
    let mut v = Vec::new();
    v.push(online_balanced_candidate());
    v.push(batch_balanced_candidate());
    v
}

/// Every exact implementation, including the sequential reference.
pub fn all_implementations() -> (r: Vec<Candidate>)
    ensures
        r@.len() == 3,
        r@[0].algorithm == TailAlgorithm::OnlineBalanced,
        r@[1].algorithm == TailAlgorithm::BatchBalanced,
        r@[2].algorithm == TailAlgorithm::ScalarReference,
{
    let mut v = Vec::new();
    v.push(online_balanced_candidate());
    v.push(batch_balanced_candidate());
    v.push(scalar_reference_candidate());
    v
}

/// Descriptor for the candidate used by [`RankedPrefix::tail_probability`].
pub fn default_candidate() -> (r: Candidate)
    ensures
        r.name@ == "online-balanced"@,
        r.algorithm == TailAlgorithm::OnlineBalanced,
{
    online_balanced_candidate()
}

} // verus!
