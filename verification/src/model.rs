//! Categorical distributions exposed as chains of binary conditional
//! decisions, with fixed-point branch probabilities.
use vstd::prelude::*;

mod sealed;
pub mod symbols;

pub mod topology;
pub mod balanced;
pub mod distribution;

pub use symbols::{DenseU32Symbols, DuplicateSymbol, IndexedSymbols, LinearSymbols, Symbols};
pub use topology::{BuildError, Chain, ChainDecoder, ChainEncoder, IndexDecoder, Topology};
pub use balanced::{BalancedDecoder, BalancedEncoder, BalancedTree};
pub use distribution::{BinaryDistribution, IidModel, SymbolDecoder};

verus! {

/// `2^32`, the denominator of a [`Frac32`].
pub open spec fn frac_scale() -> int {
    0x1_0000_0000
}

/// `value` clamped into `lo..=hi`.
pub open spec fn clamp(value: int, lo: int, hi: int) -> int {
    if value < lo {
        lo
    } else if value > hi {
        hi
    } else {
        value
    }
}

/// The raw value that [`Frac32::from_positive_ratio`] gives `part / whole`:
/// `part` is scaled by `2^32` in 128-bit arithmetic (bits shifted past the
/// top are lost), divided by `whole`, and clamped into `1..=u32::MAX`.
pub open spec fn ratio_raw(part: int, whole: int) -> int {
    clamp(((part * frac_scale()) as u128) as int / whole, 1, 0xffff_ffff)
}

/// A fixed-point probability in `[0, 1)` with denominator `2^32`.
///
/// A raw value `r` denotes exactly `r / 2^32`. For a branch with two positive
/// children, constructors return a value in `1..=u32::MAX`, so both children
/// retain at least one representable unit of probability.
#[derive(Clone, Copy, Debug, Default, PartialEq, Eq, PartialOrd, Ord, Hash)]
pub struct Frac32(u32);

impl Frac32 {
    /// The raw numerator over `2^32`.
    pub closed spec fn raw_spec(self) -> u32 {
        self.0
    }

    /// A probability is determined by its raw value.
    pub proof fn lemma_raw_determines(self, other: Self)
        ensures
            self.raw_spec() == other.raw_spec() <==> self == other,
    {
    }

    /// The probability zero.
    pub fn zero() -> (r: Self)
        ensures
            r.raw_spec() == 0,
    {
        Frac32(0)
    }

    /// The largest representable probability, `(2^32 - 1) / 2^32`.
    pub fn max_value() -> (r: Self)
        ensures
            r.raw_spec() == u32::MAX,
    {
        Frac32(u32::MAX)
    }

    pub fn from_raw(raw: u32) -> (r: Self)
        ensures
            r.raw_spec() == raw,
    {
        Frac32(raw)
    }

    pub fn raw(self) -> (r: u32)
        ensures
            r == self.raw_spec(),
    {
        self.0
    }

    /// Quantize `part / whole` while keeping both represented branches alive.
    pub fn from_positive_ratio(part: u128, whole: u128) -> (r: Self)
        requires
            0 < part < whole,
        ensures
            r.raw_spec() == ratio_raw(part as int, whole as int),
    {
        let shifted: u128 = part << 32u32;
        proof {
            assert(shifted == (part * 0x1_0000_0000) as u128)
                by (bit_vector)
                requires
                    shifted == part << 32u32,
            ;
        }
        let quotient: u128 = shifted / whole;
        let raw: u32 = if quotient < 1 {
            1
        } else if quotient > 0xffff_ffff {
            0xffff_ffff
        } else {
            quotient as u32
        };
        Frac32(raw)
    }

    /// Choose the left branch using one uniformly random `u32`.
    pub fn choose_left(self, draw: u32) -> (r: bool)
        ensures
            r == (draw < self.raw_spec()),
    {
        draw < self.0
    }
}

#[derive(Clone, Copy, Debug, PartialEq, Eq, Structural)]
pub enum Branch {
    Left,
    Right,
}

#[derive(Clone, Copy, Debug, PartialEq, Eq)]
pub struct Decision {
    pub left_probability: Frac32,
    pub branch: Branch,
}

#[derive(Clone, Copy, Debug, PartialEq, Eq)]
pub enum DecodeNode<S> {
    Branch(Frac32),
    Symbol(S),
}

/// Cursor over the binary decisions of a categorical distribution.
pub trait Decoder: Sized {
    type Symbol: Copy;

    /// The node under the cursor.
    spec fn node_spec(&self) -> DecodeNode<Self::Symbol>;

    /// The cursor after taking `branch` at the current branch node.
    spec fn advanced(&self, branch: Branch) -> Self;

    /// An upper bound on the branch nodes still ahead of the cursor.
    spec fn depth(&self) -> nat;

    /// The cursor stands on a node of its distribution.
    spec fn well_formed(&self) -> bool;

    proof fn lemma_advance_shrinks(&self, branch: Branch)
        requires
            self.node_spec() is Branch,
        ensures
            self.advanced(branch).depth() < self.depth(),
    ;

    fn node(&self) -> (r: DecodeNode<Self::Symbol>)
        requires
            self.well_formed(),
        ensures
            r == self.node_spec(),
    ;

    fn choose_branch(&mut self, branch: Branch)
        requires
            old(self).well_formed(),
            old(self).node_spec() is Branch,
        ensures
            *final(self) == old(self).advanced(branch),
            final(self).well_formed(),
    ;
}

/// The branch taken at each decision of `path`.
pub open spec fn branches(path: Seq<Decision>) -> Seq<Branch> {
    path.map_values(|decision: Decision| decision.branch)
}

/// The cursor reached from `decoder` by taking `taken` in order.
pub open spec fn walk<D: Decoder>(decoder: D, taken: Seq<Branch>) -> D
    decreases taken.len(),
{
    if taken.len() == 0 {
        decoder
    } else {
        walk(decoder.advanced(taken[0]), taken.drop_first())
    }
}

/// Following `path` from `decoder` meets, before each decision, a branch node
/// with that decision's left probability, and ends at `end`.
pub open spec fn follows<D: Decoder>(decoder: D, path: Seq<Decision>, end: DecodeNode<D::Symbol>) -> bool {
    &&& forall|k: int|
        0 <= k < path.len() ==> #[trigger] walk(decoder, branches(path.take(k))).node_spec()
            == DecodeNode::<D::Symbol>::Branch(path[k].left_probability)
    &&& walk(decoder, branches(path)).node_spec() == end
}

/// Every proper prefix of `taken` leads from `decoder` to a branch node, so
/// each step of the walk is a legal choice.
pub open spec fn valid_walk<D: Decoder>(decoder: D, taken: Seq<Branch>) -> bool {
    forall|k: int| 0 <= k < taken.len() ==> (#[trigger] walk(decoder, taken.take(k))).node_spec() is Branch
}

/// A finite stream of decisions, consumed front to back.
pub trait Decisions: Sized {
    /// The decisions not yet produced.
    spec fn remaining(&self) -> Seq<Decision>;

    fn next(&mut self) -> (r: Option<Decision>)
        ensures
            old(self).remaining().len() == 0 ==> r is None && final(self).remaining() == old(self).remaining(),
            old(self).remaining().len() > 0 ==> r == Some(old(self).remaining()[0])
                && final(self).remaining() == old(self).remaining().drop_first(),
    ;
}

/// A finite categorical distribution exposed as binary conditional decisions.
///
/// This is deliberately more primitive than a CDF. Sampling and arithmetic
/// decoding walk [`Distribution::decoder`]. Encoding an existing symbol walks
/// [`Distribution::encode`]. Neither hot path needs an absolute leaf
/// probability or a normalized list of masses.
pub trait Distribution {
    type Symbol: Copy + Eq;

    type Decoder<'a>: Decoder<Symbol = Self::Symbol> where Self: 'a;

    type Encoder<'a>: Decisions where Self: 'a;

    /// The number of symbols.
    spec fn size(&self) -> nat;

    /// Symbol lookups are exact: the implementation compares symbols as
    /// values.
    spec fn lawful(&self) -> bool;

    /// The decisions that lead from the root to `symbol`, if it is a symbol
    /// of the distribution.
    spec fn path(&self, symbol: Self::Symbol) -> Option<Seq<Decision>>;

    fn len(&self) -> (r: usize)
        ensures
            r == self.size(),
    ;

    /// A cursor at the root. Following the path of any symbol reaches that
    /// symbol, and every symbol that a legal walk reaches is a symbol of the
    /// distribution whose path is that walk.
    fn decoder(&self) -> (r: Self::Decoder<'_>)
        ensures
            r.well_formed(),
            self.lawful() ==> forall|symbol: Self::Symbol| (#[trigger] self.path(symbol)) is Some
                ==> follows(r, self.path(symbol)->0, DecodeNode::Symbol(symbol)),
            self.lawful() ==> forall|taken: Seq<Branch>|
                valid_walk(r, taken) && (#[trigger] walk(r, taken)).node_spec() is Symbol ==> {
                    let symbol = walk(r, taken).node_spec()->Symbol_0;
                    &&& self.path(symbol) is Some
                    &&& branches(self.path(symbol)->0) == taken
                },
    ;

    /// The decisions that select `symbol`, or `None` if it is not a symbol of
    /// the distribution.
    fn encode(&self, symbol: Self::Symbol) -> (r: Option<Self::Encoder<'_>>)
        ensures
            self.lawful() ==> (r is Some <==> self.path(symbol) is Some),
            self.lawful() ==> (r matches Some(encoder) ==> self.path(symbol) == Some(encoder.remaining())),
    ;

    fn is_empty(&self) -> (r: bool)
        ensures
            r == (self.size() == 0),
    {
        self.len() == 0
    }

    /// Sample without imposing an RNG dependency on the crate.
    ///
    /// `next_u32` must return independent uniformly distributed `u32`s.
    fn sample_with<F: FnMut() -> u32>(&self, next_u32: F) -> (r: Self::Symbol)
        where
            Self: Sized,
        requires
            self.size() > 0,
            forall|source: F| call_requires(source, ()),
        ensures
            self.lawful() ==> self.path(r) is Some,
            self.lawful() ==> exists|fresh: Seq<u32>|
                #![trigger fresh.len()]
                {
                    let path = self.path(r)->0;
                    &&& fresh.len() == path.len()
                    &&& forall|k: int| 0 <= k < fresh.len() ==> call_ensures(next_u32, (), #[trigger] fresh[k])
                    &&& forall|k: int|
                        0 <= k < path.len() ==> ((#[trigger] path[k]).branch == Branch::Left) == (fresh[k]
                            < path[k].left_probability.raw_spec())
                },
    {
        let mut draws = Draws::new(next_u32);
        let r = self.sample_from(&mut draws);
        proof {
            if self.lawful() {
                let fresh = draws.drawn().skip(0);
                assert(draws.drawn().skip(0) =~= draws.drawn());
                assert(fresh.len() == self.path(r)->0.len());
            }
        }
        r
    }

    /// Sample by walking the decoder from the root, taking one fresh draw
    /// from `draws` at every branch node and going left exactly when the
    /// draw is below the node's left-branch probability.
    fn sample_from<F: FnMut() -> u32>(&self, draws: &mut Draws<F>) -> (r: Self::Symbol)
        where
            Self: Sized,
        requires
            self.size() > 0,
            forall|source: F| call_requires(source, ()),
        ensures
            final(draws).drawn().len() >= old(draws).drawn().len(),
            final(draws).drawn().take(old(draws).drawn().len() as int) == old(draws).drawn(),
            final(draws).source() == old(draws).source(),
            forall|k: int|
                old(draws).drawn().len() <= k < final(draws).drawn().len() ==> call_ensures(
                    old(draws).source(),
                    (),
                    #[trigger] final(draws).drawn()[k],
                ),
            self.lawful() ==> self.path(r) is Some,
            self.lawful() ==> ({
                let path = self.path(r)->0;
                let fresh = final(draws).drawn().skip(old(draws).drawn().len() as int);
                &&& fresh.len() == path.len()
                &&& forall|k: int|
                    0 <= k < path.len() ==> ((#[trigger] path[k]).branch == Branch::Left) == (fresh[k]
                        < path[k].left_probability.raw_spec())
            }),
    {
        let mut decoder = self.decoder();
        let ghost root = decoder;
        let ghost start = draws.drawn();
        let ghost mut taken: Seq<Branch> = Seq::empty();
        proof {
            assert(draws.drawn().take(start.len() as int) =~= start);
        }
        loop
            invariant
                forall|source: F| call_requires(source, ()),
                decoder.well_formed(),
                decoder == walk(root, taken),
                valid_walk(root, taken),
                start == old(draws).drawn(),
                draws.source() == old(draws).source(),
                forall|k: int|
                    start.len() <= k < draws.drawn().len() ==> call_ensures(
                        draws.source(),
                        (),
                        #[trigger] draws.drawn()[k],
                    ),
                draws.drawn().len() == start.len() + taken.len(),
                draws.drawn().take(start.len() as int) == start,
                forall|k: int|
                    0 <= k < taken.len() ==> (#[trigger] taken[k] == Branch::Left) == (draws.drawn()[start.len() + k]
                        < walk(root, taken.take(k)).node_spec()->Branch_0.raw_spec()),
                self.lawful() ==> forall|taken: Seq<Branch>|
                    valid_walk(root, taken) && (#[trigger] walk(root, taken)).node_spec() is Symbol ==> {
                        let symbol = walk(root, taken).node_spec()->Symbol_0;
                        &&& self.path(symbol) is Some
                        &&& branches(self.path(symbol)->0) == taken
                    },
                self.lawful() ==> forall|symbol: Self::Symbol| (#[trigger] self.path(symbol)) is Some
                    ==> follows(root, self.path(symbol)->0, DecodeNode::Symbol(symbol)),
            decreases decoder.depth(),
        {
            match decoder.node() {
                DecodeNode::Symbol(symbol) => {
                    proof {
                        if self.lawful() {
                            let path = self.path(symbol)->0;
                            let fresh = draws.drawn().skip(start.len() as int);
                            assert(branches(path) == taken);
                            assert forall|k: int| 0 <= k < path.len() implies ((#[trigger] path[k]).branch
                                == Branch::Left) == (fresh[k] < path[k].left_probability.raw_spec()) by {
                                assert(branches(path.take(k)) =~= taken.take(k));
                                assert(taken[k] == branches(path)[k]);
                            }
                        }
                    }
                    return symbol;
                },
                DecodeNode::Branch(p_left) => {
                    let ghost before = draws.drawn();
                    let draw = draws.next();
                    let branch = if p_left.choose_left(draw) {
                        Branch::Left
                    } else {
                        Branch::Right
                    };
                    proof {
                        decoder.lemma_advance_shrinks(branch);
                        lemma_walk_push(root, taken, branch);
                        assert forall|k: int| 0 <= k < taken.push(branch).len() implies (#[trigger] walk(
                            root,
                            taken.push(branch).take(k),
                        )).node_spec() is Branch by {
                            if k < taken.len() {
                                assert(taken.push(branch).take(k) =~= taken.take(k));
                            } else {
                                assert(taken.push(branch).take(k) =~= taken);
                            }
                        }
                        assert(draws.drawn().take(start.len() as int) =~= before.take(start.len() as int));
                        assert forall|k: int| 0 <= k < taken.push(branch).len() implies (#[trigger] taken.push(
                            branch,
                        )[k] == Branch::Left) == (draws.drawn()[start.len() + k] < walk(
                            root,
                            taken.push(branch).take(k),
                        ).node_spec()->Branch_0.raw_spec()) by {
                            if k < taken.len() {
                                assert(taken.push(branch).take(k) =~= taken.take(k));
                            } else {
                                assert(taken.push(branch).take(k) =~= taken);
                            }
                        }
                        taken = taken.push(branch);
                    }
                    decoder.choose_branch(branch);
                },
            }
        }
    }
}

/// A source of `u32` draws that remembers every draw it has handed out.
pub struct Draws<F> {
    source: F,
    drawn: Ghost<Seq<u32>>,
}

impl<F: FnMut() -> u32> Draws<F> {
    /// The draws handed out so far, in order.
    pub closed spec fn drawn(&self) -> Seq<u32> {
        self.drawn@
    }

    /// The source the draws come from.
    pub closed spec fn source(&self) -> F {
        self.source
    }

    pub fn new(source: F) -> (r: Self)
        ensures
            r.drawn() == Seq::<u32>::empty(),
            r.source() == source,
    {
        Draws { source, drawn: Ghost(Seq::empty()) }
    }

    /// Take the next draw from the source.
    pub fn next(&mut self) -> (r: u32)
        requires
            forall|source: F| call_requires(source, ()),
        ensures
            final(self).drawn() == old(self).drawn().push(r),
            final(self).source() == old(self).source(),
            call_ensures(old(self).source(), (), r),
    {
        let r = (self.source)();
        self.drawn = Ghost(self.drawn@.push(r));
        r
    }
}

/// Stateful autoregressive prediction machine.
///
/// The prediction is a zero-copy view into the model. `Symbol` is the shared
/// language between encoder and decoder; for large vocabularies it should
/// normally be a cheap ID such as `u32`.
pub trait Model {
    type Symbol: Copy + Eq;

    type Prediction: Distribution<Symbol = Self::Symbol>;

    fn predict(&self) -> &Self::Prediction;

    fn observe(&mut self, symbol: Self::Symbol);
}

pub proof fn lemma_walk_push<D: Decoder>(decoder: D, taken: Seq<Branch>, branch: Branch)
    ensures
        walk(decoder, taken.push(branch)) == walk(decoder, taken).advanced(branch),
    decreases taken.len(),
{
    if taken.len() == 0 {
        assert(taken.push(branch).drop_first() =~= Seq::<Branch>::empty());
        assert(taken.push(branch)[0] == branch);
        assert(walk(decoder.advanced(branch), Seq::<Branch>::empty()) == decoder.advanced(branch));
    } else {
        assert(taken.push(branch).drop_first() =~= taken.drop_first().push(branch));
        assert(taken.push(branch)[0] == taken[0]);
        lemma_walk_push(decoder.advanced(taken[0]), taken.drop_first(), branch);
    }
}

/// Walking a concatenation of branches walks its two parts in turn.
pub proof fn lemma_walk_concat<D: Decoder>(decoder: D, first: Seq<Branch>, second: Seq<Branch>)
    ensures
        walk(decoder, first + second) == walk(walk(decoder, first), second),
    decreases first.len(),
{
    if first.len() == 0 {
        assert(first + second =~= second);
    } else {
        assert((first + second).drop_first() =~= first.drop_first() + second);
        assert((first + second)[0] == first[0]);
        lemma_walk_concat(decoder.advanced(first[0]), first.drop_first(), second);
    }
}

} // verus!
