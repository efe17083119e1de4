//! Binary probability topologies over leaf indices, and the ranked chain.
use vstd::prelude::*;

use super::sealed;
use super::symbols::copy_items;
use super::{
    branches, follows, lemma_walk_push, ratio_raw, valid_walk, walk, Branch, DecodeNode, Decision,
    Decisions, Decoder, Frac32,
};

verus! {

/// A cursor whose leaves are indices `0..len` of a topology.
pub trait IndexDecoder: Decoder<Symbol = usize> {}

/// Binary probability topology over leaf indices `0..len`.
///
/// Kept separate from [`super::Symbols`] so probability layout and symbol
/// lookup can be benchmarked and changed independently.
pub trait Topology: sealed::Topology {
    type Decoder<'a>: IndexDecoder where Self: 'a;

    type Encoder<'a>: Decisions where Self: 'a;

    /// The number of leaves.
    spec fn size(&self) -> nat;

    /// The decisions leading from the root to leaf `index`.
    spec fn path(&self, index: int) -> Seq<Decision>;

    fn len(&self) -> (r: usize)
        ensures
            r == self.size(),
    ;

    /// A cursor at the root. Following the path of any leaf reaches that
    /// leaf, and every leaf that a legal walk reaches is a leaf of the
    /// topology whose path is that walk.
    fn decoder(&self) -> (r: Self::Decoder<'_>)
        ensures
            r.well_formed(),
            forall|index: int|
                0 <= index < self.size() ==> #[trigger] follows(
                    r,
                    self.path(index),
                    DecodeNode::Symbol(index as usize),
                ),
            forall|taken: Seq<Branch>|
                valid_walk(r, taken) && (#[trigger] walk(r, taken)).node_spec() is Symbol ==> {
                    let leaf = walk(r, taken).node_spec()->Symbol_0;
                    leaf < self.size() && branches(self.path(leaf as int)) == taken
                },
    ;

    fn encode_index(&self, index: usize) -> (r: Option<Self::Encoder<'_>>)
        ensures
            r is Some <==> index < self.size(),
            r matches Some(encoder) ==> encoder.remaining() == self.path(index as int),
    ;

    fn is_empty(&self) -> (r: bool)
        ensures
            r == (self.size() == 0),
    {
        self.len() == 0
    }
}

#[derive(Clone, Copy, Debug, PartialEq, Eq)]
pub enum BuildError {
    Empty,
    ZeroWeight { index: usize },
    LengthMismatch { symbols: usize, probabilities: usize },
}

/// The sum of `weights`.
pub open spec fn weight_sum(weights: Seq<u64>) -> nat
    decreases weights.len(),
{
    if weights.len() == 0 {
        0
    } else {
        weights[0] as nat + weight_sum(weights.drop_first())
    }
}

/// The sum of `weights[from..]`.
pub open spec fn suffix_sum(weights: Seq<u64>, from: int) -> nat {
    weight_sum(weights.subrange(from, weights.len() as int))
}

/// Weights that a topology accepts: at least one, and none zero.
pub open spec fn valid_weights(weights: Seq<u64>) -> bool {
    weights.len() > 0 && forall|i: int| 0 <= i < weights.len() ==> weights[i] > 0
}

/// The error that building from `weights` reports: `None` for valid weights.
pub open spec fn weights_error(weights: Seq<u64>) -> Option<BuildError> {
    if weights.len() == 0 {
        Some(BuildError::Empty)
    } else if exists|i: int| 0 <= i < weights.len() && weights[i] == 0 {
        let first = choose|i: int|
            0 <= i < weights.len() && weights[i] == 0 && forall|j: int| 0 <= j < i ==> weights[j] > 0;
        Some(BuildError::ZeroWeight { index: first as usize })
    } else {
        None
    }
}

pub proof fn lemma_weight_sum_bound(weights: Seq<u64>)
    ensures
        weight_sum(weights) <= weights.len() * (u64::MAX as nat),
    decreases weights.len(),
{
    if weights.len() > 0 {
        lemma_weight_sum_bound(weights.drop_first());
    }
}

pub proof fn lemma_weight_sum_positive(weights: Seq<u64>)
    requires
        valid_weights(weights),
    ensures
        weight_sum(weights) >= weights[0],
        weight_sum(weights) > 0,
    decreases weights.len(),
{
    if weights.len() > 1 {
        lemma_weight_sum_positive(weights.drop_first());
    }
}

pub proof fn lemma_weight_sum_concat(first: Seq<u64>, second: Seq<u64>)
    ensures
        weight_sum(first + second) == weight_sum(first) + weight_sum(second),
    decreases first.len(),
{
    if first.len() == 0 {
        assert(first + second =~= second);
    } else {
        assert((first + second).drop_first() =~= first.drop_first() + second);
        lemma_weight_sum_concat(first.drop_first(), second);
    }
}

/// Check that `weights` is nonempty and has no zero weight.
pub fn validate_weights(weights: &[u64]) -> (r: Result<(), BuildError>)
    ensures
        r is Ok <==> valid_weights(weights@),
        r matches Err(e) ==> weights_error(weights@) == Some(e),
        weights_error(weights@) is None <==> valid_weights(weights@),
{
    if weights.len() == 0 {
        return Err(BuildError::Empty);
    }
    let mut index: usize = 0;
    while index < weights.len()
        invariant
            0 < weights.len(),
            index <= weights.len(),
            forall|j: int| 0 <= j < index ==> weights@[j] > 0,
        decreases weights.len() - index,
    {
        if weights[index] == 0 {
            proof {
                let first = choose|i: int|
                    0 <= i < weights@.len() && weights@[i] == 0 && forall|j: int|
                        0 <= j < i ==> weights@[j] > 0;
                assert(0 <= index < weights@.len() && weights@[index as int] == 0 && forall|j: int|
                    0 <= j < index ==> weights@[j] > 0);
                assert(first == index) by {
                    if first < index {
                        assert(weights@[first] > 0);
                    } else if first > index {
                        assert(weights@[index as int] > 0);
                    }
                }
            }
            return Err(BuildError::ZeroWeight { index });
        }
        index = index + 1;
    }
    Ok(())
}

/// The left probabilities of the chain over `weights`: leaf `i` against the
/// rest of the chain from `i` on.
pub open spec fn chain_raw(weights: Seq<u64>, i: int) -> int {
    ratio_raw(weights[i] as int, suffix_sum(weights, i) as int)
}

/// Degenerate binary tree: choose the current leaf or skip to the suffix.
///
/// If leaves are in descending probability order, this is the ranked linear
/// representation. Common symbols can be extremely shallow, while the
/// worst-case path is linear in the vocabulary.
#[derive(Debug)]
pub struct Chain {
    left_probabilities: Vec<Frac32>,
}

/// The path of leaf `index` in a chain with `probabilities`: skip every
/// earlier leaf, then take `index` unless it is the last leaf.
pub open spec fn chain_path(probabilities: Seq<Frac32>, index: int) -> Seq<Decision> {
    let skipped = Seq::new(
        if index < probabilities.len() { index as nat } else { probabilities.len() },
        |k: int| Decision { left_probability: probabilities[k], branch: Branch::Right },
    );
    if index < probabilities.len() {
        skipped.push(Decision { left_probability: probabilities[index], branch: Branch::Left })
    } else {
        skipped
    }
}

impl Chain {
    #[verifier::type_invariant]
    spec fn bounded(self) -> bool {
        self.left_probabilities@.len() < usize::MAX
    }

    /// The branch probabilities, one per leaf but the last.
    pub closed spec fn probabilities(&self) -> Seq<Frac32> {
        self.left_probabilities@
    }

    pub fn from_weights(weights: &[u64]) -> (r: Result<Self, BuildError>)
        ensures
            r is Ok <==> valid_weights(weights@),
            r matches Err(e) ==> weights_error(weights@) == Some(e),
            r matches Ok(chain) ==> {
                &&& chain.probabilities().len() == weights@.len() - 1
                &&& forall|i: int|
                    0 <= i < chain.probabilities().len() ==> (#[trigger] chain.probabilities()[i]).raw_spec()
                        == chain_raw(weights@, i)
            },
    {
        match validate_weights(weights) {
            Err(e) => {
                return Err(e);
            },
            Ok(()) => {},
        }
        let n = weights.len();
        let mut suffix: Vec<u128> = Vec::with_capacity(n);
        let mut k: usize = 0;
        while k < n
            invariant
                n == weights.len(),
                k <= n,
                suffix@.len() == k,
            decreases n - k,
        {
            suffix.push(0);
            k = k + 1;
        }
        let mut total: u128 = 0;
        let mut i: usize = n;
        proof {
            assert(weights@.subrange(n as int, n as int) =~= Seq::<u64>::empty());
        }
        while i > 0
            invariant
                n == weights.len(),
                i <= n,
                suffix@.len() == n,
                total == suffix_sum(weights@, i as int),
                forall|j: int| i <= j < n ==> suffix@[j] == suffix_sum(weights@, j),
            decreases i,
        {
            i = i - 1;
            proof {
                let rest = weights@.subrange(i as int, n as int);
                assert(rest.drop_first() =~= weights@.subrange(i + 1, n as int));
                lemma_weight_sum_bound(rest);
                assert(rest.len() * (u64::MAX as nat) <= n * (u64::MAX as nat)) by (nonlinear_arith)
                    requires
                        rest.len() <= n,
                ;
                assert(n * (u64::MAX as nat) <= usize::MAX * (u64::MAX as nat)) by (nonlinear_arith)
                    requires
                        n <= usize::MAX,
                ;
                assert(usize::MAX * (u64::MAX as nat) <= u128::MAX) by (nonlinear_arith)
                    requires
                        usize::MAX <= u64::MAX,
                ;
            }
            total = total + weights[i] as u128;
            suffix.set(i, total);
        }
        let mut left_probabilities: Vec<Frac32> = Vec::with_capacity(n - 1);
        let mut i: usize = 0;
        while i < n - 1
            invariant
                n == weights.len(),
                valid_weights(weights@),
                suffix@.len() == n,
                forall|j: int| 0 <= j < n ==> suffix@[j] == suffix_sum(weights@, j),
                i <= n - 1,
                left_probabilities@.len() == i,
                forall|j: int|
                    0 <= j < i ==> (#[trigger] left_probabilities@[j]).raw_spec() == chain_raw(weights@, j),
            decreases n - 1 - i,
        {
            proof {
                let rest = weights@.subrange(i as int, n as int);
                assert(rest.drop_first() =~= weights@.subrange(i + 1, n as int));
                lemma_weight_sum_positive(weights@.subrange(i + 1, n as int));
            }
            let p = Frac32::from_positive_ratio(weights[i] as u128, suffix[i]);
            left_probabilities.push(p);
            i = i + 1;
        }
        Ok(Chain { left_probabilities })
    }

    pub fn left_probabilities(&self) -> (r: &[Frac32])
        ensures
            r@ == self.probabilities(),
    {
        self.left_probabilities.as_slice()
    }
}

impl Clone for Chain {
    fn clone(&self) -> (r: Self)
        ensures
            r.probabilities() == self.probabilities(),
    {
        proof {
            use_type_invariant(self);
        }
        Chain { left_probabilities: copy_items(&self.left_probabilities) }
    }
}

/// A chain holds at most `usize::MAX` branch probabilities.
proof fn lemma_chain_len(chain: Chain)
    ensures
        chain.probabilities().len() <= usize::MAX,
{
    assert(chain.left_probabilities.len() == chain.left_probabilities@.len());
}

impl sealed::Topology for Chain {}

pub struct ChainDecoder<'a> {
    chain: &'a Chain,
    rank: usize,
    selected: Option<usize>,
}

impl<'a> ChainDecoder<'a> {
    #[verifier::type_invariant]
    spec fn in_range(self) -> bool {
        &&& self.rank <= self.chain.probabilities().len()
        &&& self.selected matches Some(index) ==> index < self.chain.probabilities().len()
    }
}

impl<'a> Decoder for ChainDecoder<'a> {
    type Symbol = usize;

    closed spec fn node_spec(&self) -> DecodeNode<usize> {
        match self.selected {
            Some(index) => DecodeNode::Symbol(index),
            None => if self.rank >= self.chain.probabilities().len() {
                DecodeNode::Symbol(self.rank)
            } else {
                DecodeNode::Branch(self.chain.probabilities()[self.rank as int])
            },
        }
    }

    closed spec fn advanced(&self, branch: Branch) -> Self {
        match branch {
            Branch::Left => ChainDecoder { selected: Some(self.rank), ..*self },
            Branch::Right => ChainDecoder { rank: (self.rank + 1) as usize, ..*self },
        }
    }

    closed spec fn depth(&self) -> nat {
        if self.selected is Some || self.rank >= self.chain.probabilities().len() {
            0
        } else {
            (self.chain.probabilities().len() - self.rank) as nat
        }
    }

    closed spec fn well_formed(&self) -> bool {
        true
    }

    proof fn lemma_advance_shrinks(&self, branch: Branch) {
        lemma_chain_len(*self.chain);
    }

    fn node(&self) -> (r: DecodeNode<usize>) {
        proof {
            use_type_invariant(self);
        }
        if let Some(index) = self.selected {
            DecodeNode::Symbol(index)
        } else if self.rank == self.chain.left_probabilities.len() {
            DecodeNode::Symbol(self.rank)
        } else {
            DecodeNode::Branch(self.chain.left_probabilities[self.rank])
        }
    }

    fn choose_branch(&mut self, branch: Branch) {
        proof {
            use_type_invariant(&*self);
            lemma_chain_len(*self.chain);
        }
        let chain = self.chain;
        let rank = self.rank;
        let selected = self.selected;
        match branch {
            Branch::Left => {
                *self = ChainDecoder { chain, rank, selected: Some(rank) };
            },
            Branch::Right => {
                *self = ChainDecoder { chain, rank: rank + 1, selected };
            },
        }
    }
}

impl<'a> IndexDecoder for ChainDecoder<'a> {}

pub struct ChainEncoder<'a> {
    chain: &'a Chain,
    target: usize,
    rank: usize,
}

impl<'a> ChainEncoder<'a> {
    #[verifier::type_invariant]
    spec fn in_range(self) -> bool {
        &&& self.target <= self.chain.probabilities().len()
        &&& self.rank <= chain_path(self.chain.probabilities(), self.target as int).len()
    }
}

impl<'a> Decisions for ChainEncoder<'a> {
    closed spec fn remaining(&self) -> Seq<Decision> {
        let path = chain_path(self.chain.probabilities(), self.target as int);
        path.subrange(self.rank as int, path.len() as int)
    }

    fn next(&mut self) -> (r: Option<Decision>) {
        proof {
            use_type_invariant(&*self);
        }
        let chain = self.chain;
        let target = self.target;
        let rank = self.rank;
        if rank >= chain.left_probabilities.len() || rank > target {
            return None;
        }
        *self = ChainEncoder { chain, target, rank: rank + 1 };
        Some(
            Decision {
                left_probability: chain.left_probabilities[rank],
                branch: if rank == target {
                    Branch::Left
                } else {
                    Branch::Right
                },
            },
        )
    }
}

/// Walking only right branches from the root of a chain moves the rank.
proof fn lemma_chain_rights<'a>(root: ChainDecoder<'a>, taken: Seq<Branch>)
    requires
        root.rank == 0,
        root.selected is None,
        taken.len() <= root.chain.probabilities().len(),
        forall|j: int| 0 <= j < taken.len() ==> taken[j] == Branch::Right,
    ensures
        walk(root, taken) == (ChainDecoder { rank: taken.len() as usize, ..root }),
    decreases taken.len(),
{
    lemma_chain_len(*root.chain);
    if taken.len() > 0 {
        let shorter = taken.drop_last();
        lemma_chain_rights(root, shorter);
        assert(shorter.push(taken.last()) =~= taken);
        lemma_walk_push(root, shorter, taken.last());
    }
}

/// The branches of a chain path: rights up to the leaf, then a left unless
/// the leaf is the last one.
proof fn lemma_chain_path_branches(probabilities: Seq<Frac32>, index: int, k: int)
    requires
        0 <= index <= probabilities.len(),
        0 <= k <= chain_path(probabilities, index).len(),
    ensures
        k <= index ==> forall|j: int|
            0 <= j < k ==> #[trigger] branches(chain_path(probabilities, index).take(k))[j] == Branch::Right,
        branches(chain_path(probabilities, index).take(k)).len() == k,
{
}

impl Topology for Chain {
    type Decoder<'a> = ChainDecoder<'a>;

    type Encoder<'a> = ChainEncoder<'a>;

    open spec fn size(&self) -> nat {
        self.probabilities().len() + 1
    }

    open spec fn path(&self, index: int) -> Seq<Decision> {
        chain_path(self.probabilities(), index)
    }

    fn len(&self) -> (r: usize) {
        proof {
            use_type_invariant(self);
        }
        self.left_probabilities.len() + 1
    }

    fn decoder(&self) -> (r: ChainDecoder<'_>) {
        let r = ChainDecoder { chain: self, rank: 0, selected: None };
        proof {
            lemma_chain_len(*self);
            let probabilities = self.probabilities();
            assert forall|index: int| 0 <= index < self.size() implies #[trigger] follows(
                r,
                self.path(index),
                DecodeNode::Symbol(index as usize),
            ) by {
                let path = chain_path(probabilities, index);
                assert forall|k: int| 0 <= k < path.len() implies #[trigger] walk(
                    r,
                    branches(path.take(k)),
                ).node_spec() == DecodeNode::<usize>::Branch(path[k].left_probability) by {
                    lemma_chain_path_branches(probabilities, index, k);
                    lemma_chain_rights(r, branches(path.take(k)));
                }
                let skipped = if index < probabilities.len() {
                    index
                } else {
                    probabilities.len() as int
                };
                lemma_chain_path_branches(probabilities, index, skipped);
                let rights = branches(path.take(skipped));
                lemma_chain_rights(r, rights);
                if index < probabilities.len() {
                    assert(branches(path) =~= rights.push(Branch::Left));
                    lemma_walk_push(r, rights, Branch::Left);
                } else {
                    assert(branches(path) =~= rights);
                }
            }
            assert forall|taken: Seq<Branch>|
                valid_walk(r, taken) && (#[trigger] walk(r, taken)).node_spec() is Symbol implies {
                let leaf = walk(r, taken).node_spec()->Symbol_0;
                leaf < self.size() && branches(self.path(leaf as int)) == taken
            } by {
                lemma_chain_reached(r, taken);
            }
        }
        r
    }

    fn encode_index(&self, index: usize) -> (r: Option<ChainEncoder<'_>>) {
        proof {
            use_type_invariant(self);
        }
        if index < self.left_probabilities.len() + 1 {
            Some(ChainEncoder { chain: self, target: index, rank: 0 })
        } else {
            None
        }
    }
}

/// A legal walk from the root of a chain that ends at a leaf is that
/// leaf's path.
proof fn lemma_chain_reached<'a>(root: ChainDecoder<'a>, taken: Seq<Branch>)
    requires
        root.rank == 0,
        root.selected is None,
        valid_walk(root, taken),
        walk(root, taken).node_spec() is Symbol,
    ensures
        ({
            let leaf = walk(root, taken).node_spec()->Symbol_0;
            &&& leaf <= root.chain.probabilities().len()
            &&& branches(chain_path(root.chain.probabilities(), leaf as int)) == taken
        }),
{
    lemma_chain_len(*root.chain);
    let probabilities = root.chain.probabilities();
    let n = taken.len();
    // Every step but the last is a right branch.
    assert forall|j: int| 0 <= j < n - 1 implies taken[j] == Branch::Right by {
        lemma_chain_prefix_rights(root, taken, j + 1);
    }
    if n == 0 {
        assert(walk(root, taken) == root);
        assert(branches(chain_path(probabilities, 0)) =~= taken);
    } else {
        let before = taken.drop_last();
        lemma_chain_prefix_rights(root, taken, n - 1);
        assert(taken.take(n - 1) =~= before);
        lemma_chain_rights(root, before);
        assert(before.push(taken.last()) =~= taken);
        lemma_walk_push(root, before, taken.last());
        assert(walk(root, taken.take(n - 1)).node_spec() is Branch);
        let leaf = walk(root, taken).node_spec()->Symbol_0;
        let path = chain_path(probabilities, leaf as int);
        if taken.last() == Branch::Left {
            assert(leaf == n - 1);
            assert(branches(path) =~= taken);
        } else {
            assert(leaf == n);
            assert(branches(path) =~= taken);
        }
    }
}

/// In a legal walk from the root of a chain, the first `k` steps are right
/// branches, for every `k` short of the walk's length.
proof fn lemma_chain_prefix_rights<'a>(root: ChainDecoder<'a>, taken: Seq<Branch>, k: int)
    requires
        root.rank == 0,
        root.selected is None,
        valid_walk(root, taken),
        0 <= k < taken.len(),
    ensures
        forall|j: int| 0 <= j < k ==> taken[j] == Branch::Right,
        k <= root.chain.probabilities().len(),
    decreases k,
{
    lemma_chain_len(*root.chain);
    if k > 0 {
        lemma_chain_prefix_rights(root, taken, k - 1);
        let before = taken.take(k - 1);
        assert(before.len() == k - 1);
        assert forall|j: int| 0 <= j < before.len() implies before[j] == Branch::Right by {
        }
        lemma_chain_rights(root, before);
        assert(taken.take(k) =~= before.push(taken[k - 1]));
        lemma_walk_push(root, before, taken[k - 1]);
        assert(walk(root, taken.take(k)).node_spec() is Branch);
        assert(walk(root, taken.take(k - 1)).node_spec() is Branch);
    }
}

} // verus!
