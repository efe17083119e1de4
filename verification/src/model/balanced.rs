//! The flat implicit balanced binary tree topology.
use vstd::prelude::*;

use super::sealed;
use super::symbols::copy_items;
use super::topology::{
    lemma_weight_sum_bound, lemma_weight_sum_concat, lemma_weight_sum_positive, validate_weights,
    valid_weights, weight_sum, weights_error, BuildError, IndexDecoder, Topology,
};
use super::{
    branches, follows, ratio_raw, valid_walk, walk, Branch, DecodeNode, Decision, Decisions,
    Decoder, Frac32,
};

verus! {

/// The number of leaves in the left subtree of a node over `len` leaves.
pub open spec fn left_size(len: int) -> int {
    (len + 1) / 2
}

/// The raw branch probabilities of the balanced tree over `weights`, in
/// preorder: the root's share of the left half, then the left subtree, then
/// the right subtree.
pub open spec fn balanced_raws(weights: Seq<u64>) -> Seq<int>
    decreases weights.len(),
{
    if weights.len() <= 1 {
        Seq::empty()
    } else {
        let split = left_size(weights.len() as int);
        let left = weights.subrange(0, split);
        let right = weights.subrange(split, weights.len() as int);
        seq![ratio_raw(weight_sum(left) as int, weight_sum(weights) as int)] + balanced_raws(left)
            + balanced_raws(right)
    }
}

/// The decisions from the subtree over leaves `start..start + len`, whose
/// root branch is `probabilities[node]`, down to leaf `target`.
pub open spec fn balanced_path(
    probabilities: Seq<Frac32>,
    start: int,
    len: int,
    node: int,
    target: int,
) -> Seq<Decision>
    decreases len,
{
    if len <= 1 {
        Seq::empty()
    } else {
        let split = left_size(len);
        if target < start + split {
            seq![Decision { left_probability: probabilities[node], branch: Branch::Left }]
                + balanced_path(probabilities, start, split, node + 1, target)
        } else {
            seq![Decision { left_probability: probabilities[node], branch: Branch::Right }]
                + balanced_path(probabilities, start + split, len - split, node + split, target)
        }
    }
}

pub proof fn lemma_balanced_raws_len(weights: Seq<u64>)
    requires
        weights.len() >= 1,
    ensures
        balanced_raws(weights).len() == weights.len() - 1,
    decreases weights.len(),
{
    if weights.len() > 1 {
        let split = left_size(weights.len() as int);
        lemma_balanced_raws_len(weights.subrange(0, split));
        lemma_balanced_raws_len(weights.subrange(split, weights.len() as int));
    }
}

/// Flat implicit balanced binary tree.
///
/// Only the `n - 1` branch probabilities are stored. Child locations and leaf
/// ranges are derived arithmetically from a preorder layout. Construction
/// visits every leaf and internal node once; encode/decode/sample depth is
/// `floor(log2 n)` or `ceil(log2 n)`.
#[derive(Debug)]
pub struct BalancedTree {
    len: usize,
    left_probabilities: Vec<Frac32>,
}

/// The leaves in the left subtree of a node over `len` leaves.
fn split_len(len: usize) -> (r: usize)
    ensures
        r == left_size(len as int),
{
    len - len / 2
}

/// Append the preorder branch probabilities of the balanced tree over
/// `weights` to `probabilities`, and return the weights' total.
fn build_balanced(weights: &[u64], probabilities: &mut Vec<Frac32>) -> (total: u128)
    requires
        valid_weights(weights@),
    ensures
        total == weight_sum(weights@),
        final(probabilities)@.len() == old(probabilities)@.len() + weights@.len() - 1,
        forall|i: int|
            0 <= i < old(probabilities)@.len() ==> final(probabilities)@[i] == old(probabilities)@[i],
        forall|i: int|
            0 <= i < weights@.len() - 1 ==> (#[trigger] final(probabilities)@[old(probabilities)@.len()
                + i]).raw_spec() == balanced_raws(weights@)[i],
    decreases weights@.len(),
{
    let n = weights.len();
    proof {
        lemma_weight_sum_bound(weights@);
        assert(weights@.len() * (u64::MAX as nat) <= u128::MAX) by (nonlinear_arith)
            requires
                weights@.len() <= u64::MAX,
        ;
    }
    if n == 1 {
        proof {
            assert(weights@.drop_first().len() == 0);
            assert(weight_sum(weights@.drop_first()) == 0);
        }
        return weights[0] as u128;
    }
    let ghost initial = probabilities@;
    let branch_index = probabilities.len();
    probabilities.push(Frac32::zero());
    let left_len = split_len(weights.len());
    let (left_weights, right_weights) = weights.split_at(left_len);
    proof {
        assert forall|i: int| 0 <= i < left_weights@.len() implies left_weights@[i] > 0 by {
            assert(left_weights@[i] == weights@[i]);
        }
        assert forall|i: int| 0 <= i < right_weights@.len() implies right_weights@[i] > 0 by {
            assert(right_weights@[i] == weights@[left_len + i]);
        }
    }
    let ghost middle = probabilities@;
    let left = build_balanced(left_weights, probabilities);
    let ghost after_left = probabilities@;
    let right = build_balanced(right_weights, probabilities);
    proof {
        assert(weights@ =~= left_weights@ + right_weights@);
        lemma_weight_sum_concat(left_weights@, right_weights@);
        lemma_weight_sum_positive(left_weights@);
        lemma_weight_sum_positive(right_weights@);
    }
    let share = Frac32::from_positive_ratio(left, left + right);
    probabilities.set(branch_index, share);
    proof {
        let raws = balanced_raws(weights@);
        lemma_balanced_raws_len(left_weights@);
        lemma_balanced_raws_len(right_weights@);
        assert(raws =~= seq![ratio_raw(weight_sum(left_weights@) as int, weight_sum(weights@) as int)]
            + balanced_raws(left_weights@) + balanced_raws(right_weights@));
        assert forall|i: int| 0 <= i < weights@.len() - 1 implies (#[trigger] probabilities@[initial.len()
            + i]).raw_spec() == raws[i] by {
            if i == 0 {
            } else if i < left_len {
                assert(probabilities@[initial.len() + i] == after_left[middle.len() + (i - 1)]);
            } else {
                assert(probabilities@[initial.len() + i] == probabilities@[after_left.len() + (i
                    - left_len)]);
            }
        }
    }
    left + right
}

impl BalancedTree {
    #[verifier::type_invariant]
    spec fn shaped(self) -> bool {
        &&& self.len >= 1
        &&& self.left_probabilities@.len() == self.len - 1
    }

    /// The branch probabilities in preorder.
    pub closed spec fn probabilities(&self) -> Seq<Frac32> {
        self.left_probabilities@
    }

    /// The number of leaves.
    pub closed spec fn leaves(&self) -> nat {
        self.len as nat
    }

    pub fn from_weights(weights: &[u64]) -> (r: Result<Self, BuildError>)
        ensures
            r is Ok <==> valid_weights(weights@),
            r matches Err(e) ==> weights_error(weights@) == Some(e),
            r matches Ok(tree) ==> {
                &&& tree.leaves() == weights@.len()
                &&& tree.probabilities().len() == weights@.len() - 1
                &&& forall|i: int|
                    0 <= i < tree.probabilities().len() ==> (#[trigger] tree.probabilities()[i]).raw_spec()
                        == balanced_raws(weights@)[i]
            },
    {
        match validate_weights(weights) {
            Err(e) => {
                return Err(e);
            },
            Ok(()) => {},
        }
        let mut left_probabilities: Vec<Frac32> = Vec::with_capacity(weights.len() - 1);
        build_balanced(weights, &mut left_probabilities);
        proof {
            assert forall|i: int| 0 <= i < left_probabilities@.len() implies (
            #[trigger] left_probabilities@[i]).raw_spec() == balanced_raws(weights@)[i] by {
                assert(left_probabilities@[0 + i] == left_probabilities@[i]);
            }
        }
        Ok(BalancedTree { len: weights.len(), left_probabilities })
    }

    pub fn left_probabilities(&self) -> (r: &[Frac32])
        ensures
            r@ == self.probabilities(),
    {
        self.left_probabilities.as_slice()
    }
}

impl Clone for BalancedTree {
    fn clone(&self) -> (r: Self)
        ensures
            r.probabilities() == self.probabilities(),
            r.leaves() == self.leaves(),
    {
        proof {
            use_type_invariant(self);
        }
        BalancedTree { len: self.len, left_probabilities: copy_items(&self.left_probabilities) }
    }
}

impl sealed::Topology for BalancedTree {}

pub struct BalancedDecoder<'a> {
    tree: &'a BalancedTree,
    start: usize,
    len: usize,
    node_index: usize,
}

impl<'a> BalancedDecoder<'a> {
    #[verifier::type_invariant]
    spec fn in_range(self) -> bool {
        &&& self.len >= 1
        &&& self.start + self.len <= self.tree.leaves()
        &&& self.node_index + self.len <= self.tree.probabilities().len() + 1
    }
}

impl<'a> Decoder for BalancedDecoder<'a> {
    type Symbol = usize;

    closed spec fn node_spec(&self) -> DecodeNode<usize> {
        if self.len <= 1 {
            DecodeNode::Symbol(self.start)
        } else {
            DecodeNode::Branch(self.tree.probabilities()[self.node_index as int])
        }
    }

    closed spec fn advanced(&self, branch: Branch) -> Self {
        let split = left_size(self.len as int);
        match branch {
            Branch::Left => BalancedDecoder {
                len: split as usize,
                node_index: (self.node_index + 1) as usize,
                ..*self
            },
            Branch::Right => BalancedDecoder {
                start: (self.start + split) as usize,
                len: (self.len - split) as usize,
                node_index: (self.node_index + split) as usize,
                ..*self
            },
        }
    }

    closed spec fn depth(&self) -> nat {
        self.len as nat
    }

    closed spec fn well_formed(&self) -> bool {
        true
    }

    proof fn lemma_advance_shrinks(&self, branch: Branch) {
    }

    fn node(&self) -> (r: DecodeNode<usize>) {
        proof {
            use_type_invariant(self);
            use_type_invariant(self.tree);
        }
        if self.len == 1 {
            DecodeNode::Symbol(self.start)
        } else {
            DecodeNode::Branch(self.tree.left_probabilities[self.node_index])
        }
    }

    fn choose_branch(&mut self, branch: Branch) {
        proof {
            use_type_invariant(&*self);
            use_type_invariant(self.tree);
        }
        let tree = self.tree;
        let start = self.start;
        let len = self.len;
        let node_index = self.node_index;
        let left_len = split_len(len);
        match branch {
            Branch::Left => {
                *self = BalancedDecoder { tree, start, len: left_len, node_index: node_index + 1 };
            },
            Branch::Right => {
                *self = BalancedDecoder {
                    tree,
                    start: start + left_len,
                    len: len - left_len,
                    node_index: node_index + left_len,
                };
            },
        }
    }
}

impl<'a> IndexDecoder for BalancedDecoder<'a> {}

pub struct BalancedEncoder<'a> {
    tree: &'a BalancedTree,
    target: usize,
    start: usize,
    len: usize,
    node_index: usize,
}

impl<'a> BalancedEncoder<'a> {
    #[verifier::type_invariant]
    spec fn in_range(self) -> bool {
        &&& self.len >= 1
        &&& self.start <= self.target < self.start + self.len
        &&& self.start + self.len <= self.tree.leaves()
        &&& self.node_index + self.len <= self.tree.probabilities().len() + 1
    }
}

impl<'a> Decisions for BalancedEncoder<'a> {
    closed spec fn remaining(&self) -> Seq<Decision> {
        balanced_path(
            self.tree.probabilities(),
            self.start as int,
            self.len as int,
            self.node_index as int,
            self.target as int,
        )
    }

    fn next(&mut self) -> (r: Option<Decision>) {
        proof {
            use_type_invariant(&*self);
            use_type_invariant(self.tree);
        }
        let tree = self.tree;
        let target = self.target;
        let start = self.start;
        let len = self.len;
        let node_index = self.node_index;
        if len == 1 {
            return None;
        }
        let left_len = split_len(len);
        let split = start + left_len;
        let left_probability = tree.left_probabilities[node_index];
        if target < split {
            *self = BalancedEncoder { tree, target, start, len: left_len, node_index: node_index + 1 };
            Some(Decision { left_probability, branch: Branch::Left })
        } else {
            *self = BalancedEncoder {
                tree,
                target,
                start: split,
                len: len - left_len,
                node_index: node_index + left_len,
            };
            Some(Decision { left_probability, branch: Branch::Right })
        }
    }
}

/// Following the path of any leaf of a subtree from the subtree's root
/// reaches that leaf.
proof fn lemma_balanced_follows<'a>(decoder: BalancedDecoder<'a>, target: int)
    requires
        decoder.len >= 1,
        decoder.start <= target < decoder.start + decoder.len,
        decoder.start + decoder.len <= usize::MAX,
        decoder.node_index + decoder.len <= usize::MAX,
    ensures
        follows(
            decoder,
            balanced_path(
                decoder.tree.probabilities(),
                decoder.start as int,
                decoder.len as int,
                decoder.node_index as int,
                target,
            ),
            DecodeNode::Symbol(target as usize),
        ),
    decreases decoder.len,
{
    let probabilities = decoder.tree.probabilities();
    let path = balanced_path(
        probabilities,
        decoder.start as int,
        decoder.len as int,
        decoder.node_index as int,
        target,
    );
    if decoder.len <= 1 {
        assert(branches(path) =~= Seq::<Branch>::empty());
        assert forall|k: int| 0 <= k < path.len() implies #[trigger] walk(
            decoder,
            branches(path.take(k)),
        ).node_spec() == DecodeNode::<usize>::Branch(path[k].left_probability) by {
        }
    } else {
        let split = left_size(decoder.len as int);
        let branch = if target < decoder.start + split {
            Branch::Left
        } else {
            Branch::Right
        };
        let child = decoder.advanced(branch);
        let rest = balanced_path(
            probabilities,
            child.start as int,
            child.len as int,
            child.node_index as int,
            target,
        );
        assert(path =~= seq![Decision { left_probability: probabilities[decoder.node_index as int], branch }]
            + rest);
        lemma_balanced_follows(child, target);
        assert forall|k: int| 0 <= k < path.len() implies #[trigger] walk(
            decoder,
            branches(path.take(k)),
        ).node_spec() == DecodeNode::<usize>::Branch(path[k].left_probability) by {
            if k == 0 {
                assert(branches(path.take(0)) =~= Seq::<Branch>::empty());
            } else {
                let taken = branches(path.take(k));
                assert(taken[0] == branch);
                assert(taken.drop_first() =~= branches(rest.take(k - 1)));
                assert(path[k] == rest[k - 1]);
                assert(walk(child, branches(rest.take(k - 1))).node_spec()
                    == DecodeNode::<usize>::Branch(rest[k - 1].left_probability));
            }
        }
        let taken = branches(path);
        assert(taken[0] == branch);
        assert(taken.drop_first() =~= branches(rest));
    }
}

/// A legal walk from the root of a subtree that ends at a leaf is the path
/// of that leaf.
proof fn lemma_balanced_reached<'a>(decoder: BalancedDecoder<'a>, taken: Seq<Branch>)
    requires
        decoder.len >= 1,
        decoder.start + decoder.len <= usize::MAX,
        decoder.node_index + decoder.len <= usize::MAX,
        valid_walk(decoder, taken),
        walk(decoder, taken).node_spec() is Symbol,
    ensures
        ({
            let leaf = walk(decoder, taken).node_spec()->Symbol_0;
            &&& decoder.start <= leaf < decoder.start + decoder.len
            &&& branches(
                balanced_path(
                    decoder.tree.probabilities(),
                    decoder.start as int,
                    decoder.len as int,
                    decoder.node_index as int,
                    leaf as int,
                ),
            ) == taken
        }),
    decreases taken.len(),
{
    let probabilities = decoder.tree.probabilities();
    if taken.len() == 0 {
        assert(walk(decoder, taken) == decoder);
        assert(decoder.len == 1);
        let path = balanced_path(
            probabilities,
            decoder.start as int,
            decoder.len as int,
            decoder.node_index as int,
            decoder.start as int,
        );
        assert(branches(path) =~= taken);
    } else {
        assert(taken.take(0) =~= Seq::<Branch>::empty());
        assert(walk(decoder, taken.take(0)).node_spec() is Branch);
        let branch = taken[0];
        let child = decoder.advanced(branch);
        let rest = taken.drop_first();
        assert forall|k: int| 0 <= k < rest.len() implies (#[trigger] walk(child, rest.take(k))).node_spec() is Branch by {
            assert(taken.take(k + 1)[0] == branch);
            assert(taken.take(k + 1).drop_first() =~= rest.take(k));
            assert(walk(decoder, taken.take(k + 1)).node_spec() is Branch);
        }
        lemma_balanced_reached(child, rest);
        let leaf = walk(decoder, taken).node_spec()->Symbol_0;
        let split = left_size(decoder.len as int);
        let path = balanced_path(
            probabilities,
            decoder.start as int,
            decoder.len as int,
            decoder.node_index as int,
            leaf as int,
        );
        let child_path = balanced_path(
            probabilities,
            child.start as int,
            child.len as int,
            child.node_index as int,
            leaf as int,
        );
        assert(path =~= seq![Decision { left_probability: probabilities[decoder.node_index as int], branch }]
            + child_path);
        assert(branches(child_path) == rest);
        assert forall|i: int| 0 <= i < taken.len() implies branches(path)[i] == taken[i] by {
            if i > 0 {
                assert(branches(path)[i] == branches(child_path)[i - 1]);
                assert(rest[i - 1] == taken[i]);
            }
        }
        assert(branches(path) =~= taken);
    }
}

impl Topology for BalancedTree {
    type Decoder<'a> = BalancedDecoder<'a>;

    type Encoder<'a> = BalancedEncoder<'a>;

    open spec fn size(&self) -> nat {
        self.leaves()
    }

    open spec fn path(&self, index: int) -> Seq<Decision> {
        balanced_path(self.probabilities(), 0, self.leaves() as int, 0, index)
    }

    fn len(&self) -> (r: usize) {
        self.len
    }

    fn decoder(&self) -> (r: BalancedDecoder<'_>) {
        proof {
            use_type_invariant(self);
        }
        let r = BalancedDecoder { tree: self, start: 0, len: self.len, node_index: 0 };
        proof {
            assert forall|index: int| 0 <= index < self.size() implies #[trigger] follows(
                r,
                self.path(index),
                DecodeNode::Symbol(index as usize),
            ) by {
                lemma_balanced_follows(r, index);
            }
            assert forall|taken: Seq<Branch>|
                valid_walk(r, taken) && (#[trigger] walk(r, taken)).node_spec() is Symbol implies {
                let leaf = walk(r, taken).node_spec()->Symbol_0;
                leaf < self.size() && branches(self.path(leaf as int)) == taken
            } by {
                lemma_balanced_reached(r, taken);
            }
        }
        r
    }

    fn encode_index(&self, index: usize) -> (r: Option<BalancedEncoder<'_>>) {
        proof {
            use_type_invariant(self);
        }
        if index < self.len {
            Some(BalancedEncoder { tree: self, target: index, start: 0, len: self.len, node_index: 0 })
        } else {
            None
        }
    }
}


/// The total weight of the symbols in `lo..hi` that satisfy `pred`.
pub open spec fn weight_where(weights: Seq<u64>, lo: int, hi: int, pred: spec_fn(int) -> bool) -> nat
    decreases hi - lo,
{
    if hi <= lo {
        0
    } else {
        weight_where(weights, lo, hi - 1, pred) + if pred(hi - 1) {
            weights[hi - 1] as nat
        } else {
            0nat
        }
    }
}

/// `bs` begins with `prefix`.
pub open spec fn has_prefix(bs: Seq<Branch>, prefix: Seq<Branch>) -> bool {
    prefix.len() <= bs.len() && bs.take(prefix.len() as int) == prefix
}

proof fn lemma_weight_where_split(weights: Seq<u64>, lo: int, mid: int, hi: int, pred: spec_fn(int) -> bool)
    requires
        lo <= mid <= hi,
    ensures
        weight_where(weights, lo, hi, pred) == weight_where(weights, lo, mid, pred) + weight_where(
            weights,
            mid,
            hi,
            pred,
        ),
    decreases hi - mid,
{
    if hi > mid {
        lemma_weight_where_split(weights, lo, mid, hi - 1, pred);
    }
}

proof fn lemma_weight_where_ext(
    weights: Seq<u64>,
    lo: int,
    hi: int,
    p: spec_fn(int) -> bool,
    q: spec_fn(int) -> bool,
)
    requires
        forall|j: int| lo <= j < hi ==> #[trigger] p(j) == q(j),
    ensures
        weight_where(weights, lo, hi, p) == weight_where(weights, lo, hi, q),
    decreases hi - lo,
{
    if hi > lo {
        lemma_weight_where_ext(weights, lo, hi - 1, p, q);
    }
}

proof fn lemma_weight_where_none(weights: Seq<u64>, lo: int, hi: int, p: spec_fn(int) -> bool)
    requires
        forall|j: int| lo <= j < hi ==> !#[trigger] p(j),
    ensures
        weight_where(weights, lo, hi, p) == 0,
    decreases hi - lo,
{
    if hi > lo {
        lemma_weight_where_none(weights, lo, hi - 1, p);
    }
}

proof fn lemma_weight_where_all(weights: Seq<u64>, lo: int, hi: int, p: spec_fn(int) -> bool)
    requires
        0 <= lo <= hi <= weights.len(),
        forall|j: int| lo <= j < hi ==> #[trigger] p(j),
    ensures
        weight_where(weights, lo, hi, p) == weight_sum(weights.subrange(lo, hi)),
    decreases hi - lo,
{
    if hi > lo {
        lemma_weight_where_all(weights, lo, hi - 1, p);
        let last = seq![weights[hi - 1]];
        lemma_weight_sum_concat(weights.subrange(lo, hi - 1), last);
        assert(weights.subrange(lo, hi - 1) + last =~= weights.subrange(lo, hi));
        assert(last.drop_first() =~= Seq::<u64>::empty());
        assert(weight_sum(last) == weights[hi - 1] as nat + weight_sum(last.drop_first()));
    } else {
        assert(weights.subrange(lo, hi) =~= Seq::<u64>::empty());
    }
}

/// A path that starts with one branch starts with `c` then `z` exactly when
/// that branch is `c` and the rest starts with `z`.
proof fn lemma_has_prefix_cons(b: Branch, a: Seq<Branch>, c: Branch, z: Seq<Branch>)
    ensures
        has_prefix(seq![b] + a, seq![c] + z) == (b == c && has_prefix(a, z)),
{
    let full = seq![b] + a;
    let pre = seq![c] + z;
    if z.len() <= a.len() {
        assert(full.take(pre.len() as int) =~= seq![b] + a.take(z.len() as int));
        if full.take(pre.len() as int) == pre {
            assert(pre[0] == c);
            assert((seq![b] + a.take(z.len() as int))[0] == b);
            assert(a.take(z.len() as int) =~= pre.drop_first());
            assert(pre.drop_first() =~= z);
        }
        if b == c && has_prefix(a, z) {
            assert(seq![b] + a.take(z.len() as int) =~= pre);
        }
    }
}

/// Which symbols of the subtree over `start..start + len` have a path that
/// starts with `prefix`.
pub open spec fn subtree_pred(
    probabilities: Seq<Frac32>,
    start: int,
    len: int,
    node: int,
    prefix: Seq<Branch>,
) -> spec_fn(int) -> bool {
    |j: int| has_prefix(branches(balanced_path(probabilities, start, len, node, j)), prefix)
}

/// The weight of the symbols of the subtree over `start..start + len` whose
/// path starts with `prefix`.
pub open spec fn subtree_weight(
    weights: Seq<u64>,
    probabilities: Seq<Frac32>,
    start: int,
    len: int,
    node: int,
    prefix: Seq<Branch>,
) -> nat {
    weight_where(weights, start, start + len, subtree_pred(probabilities, start, len, node, prefix))
}

/// Within a subtree laid out as the balanced tree of its weights, every
/// decision on a symbol's path holds the share of the weight below its left
/// branch in the weight below the node.
proof fn lemma_subtree_shares(weights: Seq<u64>, probabilities: Seq<Frac32>, start: int, len: int, node: int)
    requires
        0 <= start,
        1 <= len,
        start + len <= weights.len(),
        0 <= node,
        node + len - 1 <= probabilities.len(),
        forall|m: int|
            0 <= m < len - 1 ==> (#[trigger] probabilities[node + m]).raw_spec() == balanced_raws(
                weights.subrange(start, start + len),
            )[m],
    ensures
        forall|i: int, k: int|
            start <= i < start + len && 0 <= k < balanced_path(probabilities, start, len, node, i).len() ==> (
            #[trigger] balanced_path(probabilities, start, len, node, i)[k]).left_probability.raw_spec() == ratio_raw(
                subtree_weight(
                    weights,
                    probabilities,
                    start,
                    len,
                    node,
                    branches(balanced_path(probabilities, start, len, node, i)).take(k).push(Branch::Left),
                ) as int,
                subtree_weight(
                    weights,
                    probabilities,
                    start,
                    len,
                    node,
                    branches(balanced_path(probabilities, start, len, node, i)).take(k),
                ) as int,
            ),
    decreases len,
{
    if len >= 2 {
        let split = left_size(len);
        let sub = weights.subrange(start, start + len);
        let left = sub.subrange(0, split);
        let right = sub.subrange(split, len);
        assert(left =~= weights.subrange(start, start + split));
        assert(right =~= weights.subrange(start + split, start + len));
        lemma_balanced_raws_len(left);
        lemma_balanced_raws_len(right);
        let raws = balanced_raws(sub);
        assert(raws == seq![ratio_raw(weight_sum(left) as int, weight_sum(sub) as int)] + balanced_raws(left)
            + balanced_raws(right));
        assert forall|m: int| 0 <= m < split - 1 implies (#[trigger] probabilities[(node + 1) + m]).raw_spec()
            == balanced_raws(weights.subrange(start, start + split))[m] by {
            let mm = 1 + m;
            assert(probabilities[node + mm].raw_spec() == raws[mm]);
        }
        assert forall|m: int| 0 <= m < len - split - 1 implies (#[trigger] probabilities[(node + split)
            + m]).raw_spec() == balanced_raws(weights.subrange(start + split, start + len))[m] by {
            let mm = split + m;
            assert(probabilities[node + mm].raw_spec() == raws[mm]);
        }
        lemma_subtree_shares(weights, probabilities, start, split, node + 1);
        lemma_subtree_shares(weights, probabilities, start + split, len - split, node + split);
        assert(probabilities[node + 0].raw_spec() == raws[0]);
        let dl = Decision { left_probability: probabilities[node], branch: Branch::Left };
        let dr = Decision { left_probability: probabilities[node], branch: Branch::Right };
        assert forall|j: int| start <= j < start + split implies branches(
            balanced_path(probabilities, start, len, node, j),
        ) == seq![Branch::Left] + branches(balanced_path(probabilities, start, split, node + 1, j)) by {
            assert(balanced_path(probabilities, start, len, node, j) == seq![dl] + balanced_path(
                probabilities,
                start,
                split,
                node + 1,
                j,
            ));
            assert(branches(seq![dl] + balanced_path(probabilities, start, split, node + 1, j)) =~= seq![
                Branch::Left,
            ] + branches(balanced_path(probabilities, start, split, node + 1, j)));
        }
        assert forall|j: int| start + split <= j < start + len implies branches(
            balanced_path(probabilities, start, len, node, j),
        ) == seq![Branch::Right] + branches(
            balanced_path(probabilities, start + split, len - split, node + split, j),
        ) by {
            assert(balanced_path(probabilities, start, len, node, j) == seq![dr] + balanced_path(
                probabilities,
                start + split,
                len - split,
                node + split,
                j,
            ));
            assert(branches(
                seq![dr] + balanced_path(probabilities, start + split, len - split, node + split, j),
            ) =~= seq![Branch::Right] + branches(
                balanced_path(probabilities, start + split, len - split, node + split, j),
            ));
        }
        assert forall|i: int, k: int|
            start <= i < start + len && 0 <= k < balanced_path(probabilities, start, len, node, i).len() implies (
            #[trigger] balanced_path(probabilities, start, len, node, i)[k]).left_probability.raw_spec()
            == ratio_raw(
            subtree_weight(
                weights,
                probabilities,
                start,
                len,
                node,
                branches(balanced_path(probabilities, start, len, node, i)).take(k).push(Branch::Left),
            ) as int,
            subtree_weight(
                weights,
                probabilities,
                start,
                len,
                node,
                branches(balanced_path(probabilities, start, len, node, i)).take(k),
            ) as int,
        ) by {
            lemma_descend(weights, probabilities, start, len, node, Seq::empty());
            let pi = balanced_path(probabilities, start, len, node, i);
            if i < start + split {
                let sub_path = balanced_path(probabilities, start, split, node + 1, i);
                assert(pi == seq![dl] + sub_path);
                if k == 0 {
                    assert(branches(pi).take(0) =~= Seq::<Branch>::empty());
                    assert(branches(pi).take(0).push(Branch::Left) =~= seq![Branch::Left] + Seq::<Branch>::empty());
                    lemma_whole_subtree(weights, probabilities, start, len, node);
                    lemma_whole_subtree(weights, probabilities, start, split, node + 1);
                } else {
                    let rest = branches(sub_path).take(k - 1);
                    assert(branches(pi) =~= seq![Branch::Left] + branches(sub_path));
                    assert(branches(pi).take(k) =~= seq![Branch::Left] + rest);
                    assert(branches(pi).take(k).push(Branch::Left) =~= seq![Branch::Left] + rest.push(Branch::Left));
                    lemma_descend(weights, probabilities, start, len, node, rest);
                    lemma_descend(weights, probabilities, start, len, node, rest.push(Branch::Left));
                    assert(pi[k] == sub_path[k - 1]);
                }
            } else {
                let sub_path = balanced_path(probabilities, start + split, len - split, node + split, i);
                assert(pi == seq![dr] + sub_path);
                if k == 0 {
                    assert(branches(pi).take(0) =~= Seq::<Branch>::empty());
                    assert(branches(pi).take(0).push(Branch::Left) =~= seq![Branch::Left] + Seq::<Branch>::empty());
                    lemma_whole_subtree(weights, probabilities, start, len, node);
                    lemma_whole_subtree(weights, probabilities, start, split, node + 1);
                } else {
                    let rest = branches(sub_path).take(k - 1);
                    assert(branches(pi) =~= seq![Branch::Right] + branches(sub_path));
                    assert(branches(pi).take(k) =~= seq![Branch::Right] + rest);
                    assert(branches(pi).take(k).push(Branch::Left) =~= seq![Branch::Right] + rest.push(
                        Branch::Left,
                    ));
                    lemma_descend(weights, probabilities, start, len, node, rest);
                    lemma_descend(weights, probabilities, start, len, node, rest.push(Branch::Left));
                    assert(pi[k] == sub_path[k - 1]);
                }
            }
        }
    }
}

/// Every symbol of a subtree has a path that starts with no branch.
proof fn lemma_whole_subtree(weights: Seq<u64>, probabilities: Seq<Frac32>, start: int, len: int, node: int)
    requires
        0 <= start,
        start + len <= weights.len(),
        0 <= len,
    ensures
        subtree_weight(weights, probabilities, start, len, node, Seq::empty()) == weight_sum(
            weights.subrange(start, start + len),
        ),
{
    let pred = subtree_pred(probabilities, start, len, node, Seq::empty());
    assert forall|j: int| start <= j < start + len implies #[trigger] pred(j) by {
        assert(branches(balanced_path(probabilities, start, len, node, j)).take(0) =~= Seq::<Branch>::empty());
    }
    lemma_weight_where_all(weights, start, start + len, pred);
}

/// The symbols of a subtree whose path starts with the left branch and then
/// `z` are those of its left subtree whose path starts with `z`; likewise on
/// the right.
proof fn lemma_descend(
    weights: Seq<u64>,
    probabilities: Seq<Frac32>,
    start: int,
    len: int,
    node: int,
    z: Seq<Branch>,
)
    requires
        len >= 2,
        forall|j: int|
            start <= j < start + left_size(len) ==> branches(balanced_path(probabilities, start, len, node, j))
                == seq![Branch::Left] + branches(balanced_path(probabilities, start, left_size(len), node + 1, j)),
        forall|j: int|
            start + left_size(len) <= j < start + len ==> branches(
                balanced_path(probabilities, start, len, node, j),
            ) == seq![Branch::Right] + branches(
                balanced_path(probabilities, start + left_size(len), len - left_size(len), node + left_size(len), j),
            ),
    ensures
        subtree_weight(weights, probabilities, start, len, node, seq![Branch::Left] + z) == subtree_weight(
            weights,
            probabilities,
            start,
            left_size(len),
            node + 1,
            z,
        ),
        subtree_weight(weights, probabilities, start, len, node, seq![Branch::Right] + z) == subtree_weight(
            weights,
            probabilities,
            start + left_size(len),
            len - left_size(len),
            node + left_size(len),
            z,
        ),
{
    let split = left_size(len);
    let lp = subtree_pred(probabilities, start, len, node, seq![Branch::Left] + z);
    let rp = subtree_pred(probabilities, start, len, node, seq![Branch::Right] + z);
    let lsub = subtree_pred(probabilities, start, split, node + 1, z);
    let rsub = subtree_pred(probabilities, start + split, len - split, node + split, z);
    lemma_weight_where_split(weights, start, start + split, start + len, lp);
    lemma_weight_where_split(weights, start, start + split, start + len, rp);
    assert forall|j: int| start <= j < start + split implies #[trigger] lp(j) == lsub(j) by {
        let a = branches(balanced_path(probabilities, start, split, node + 1, j));
        lemma_has_prefix_cons(Branch::Left, a, Branch::Left, z);
    }
    assert forall|j: int| start <= j < start + split implies !#[trigger] rp(j) by {
        let a = branches(balanced_path(probabilities, start, split, node + 1, j));
        lemma_has_prefix_cons(Branch::Left, a, Branch::Right, z);
    }
    assert forall|j: int| start + split <= j < start + len implies #[trigger] rp(j) == rsub(j) by {
        let a = branches(balanced_path(probabilities, start + split, len - split, node + split, j));
        lemma_has_prefix_cons(Branch::Right, a, Branch::Right, z);
    }
    assert forall|j: int| start + split <= j < start + len implies !#[trigger] lp(j) by {
        let a = branches(balanced_path(probabilities, start + split, len - split, node + split, j));
        lemma_has_prefix_cons(Branch::Right, a, Branch::Left, z);
    }
    lemma_weight_where_ext(weights, start, start + split, lp, lsub);
    lemma_weight_where_none(weights, start + split, start + len, lp);
    lemma_weight_where_ext(weights, start + split, start + len, rp, rsub);
    lemma_weight_where_none(weights, start, start + split, rp);
}


/// What a balanced tree built from `weights` stores: every decision on the
/// path to a symbol holds, as its left-branch probability, the weight of the
/// symbols whose paths continue to the left over the weight of all symbols
/// whose paths reach that decision (`Frac32::from_positive_ratio` of the
/// two). At the root that is the left half's share of the total.
pub proof fn lemma_balanced_branch_shares(weights: Seq<u64>, tree: BalancedTree)
    requires
        weights.len() >= 1,
        tree.leaves() == weights.len(),
        tree.probabilities().len() == weights.len() - 1,
        forall|i: int|
            0 <= i < tree.probabilities().len() ==> (#[trigger] tree.probabilities()[i]).raw_spec()
                == balanced_raws(weights)[i],
    ensures
        forall|i: int, k: int|
            0 <= i < weights.len() && 0 <= k < tree.path(i).len() ==> (#[trigger] tree.path(
                i,
            )[k]).left_probability.raw_spec() == ratio_raw(
                weight_where(
                    weights,
                    0,
                    weights.len() as int,
                    |j: int| has_prefix(branches(tree.path(j)), branches(tree.path(i)).take(k).push(Branch::Left)),
                ) as int,
                weight_where(
                    weights,
                    0,
                    weights.len() as int,
                    |j: int| has_prefix(branches(tree.path(j)), branches(tree.path(i)).take(k)),
                ) as int,
            ),
{
    let n = weights.len() as int;
    let probabilities = tree.probabilities();
    assert(weights.subrange(0, n) =~= weights);
    assert forall|m: int| 0 <= m < n - 1 implies (#[trigger] probabilities[0 + m]).raw_spec() == balanced_raws(
        weights.subrange(0, n),
    )[m] by {
        assert(probabilities[0 + m] == probabilities[m]);
    }
    lemma_subtree_shares(weights, probabilities, 0, n, 0);
    assert forall|i: int, k: int| 0 <= i < n && 0 <= k < tree.path(i).len() implies (#[trigger] tree.path(
        i,
    )[k]).left_probability.raw_spec() == ratio_raw(
        weight_where(
            weights,
            0,
            n,
            |j: int| has_prefix(branches(tree.path(j)), branches(tree.path(i)).take(k).push(Branch::Left)),
        ) as int,
        weight_where(weights, 0, n, |j: int| has_prefix(branches(tree.path(j)), branches(tree.path(i)).take(k)))
            as int,
    ) by {
        let pre = branches(tree.path(i)).take(k);
        lemma_weight_where_ext(
            weights,
            0,
            n,
            |j: int| has_prefix(branches(tree.path(j)), pre.push(Branch::Left)),
            subtree_pred(probabilities, 0, n, 0, pre.push(Branch::Left)),
        );
        lemma_weight_where_ext(
            weights,
            0,
            n,
            |j: int| has_prefix(branches(tree.path(j)), pre),
            subtree_pred(probabilities, 0, n, 0, pre),
        );
        assert(tree.path(i) == balanced_path(probabilities, 0, n, 0, i));
    }
}

} // verus!
