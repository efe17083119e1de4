//! Distributions composed of a symbol table and a topology, and the
//! constant-prediction model.
use vstd::prelude::*;

use super::symbols::{lemma_position_of, no_duplicates, position_of, Symbols};
use super::topology::{BuildError, IndexDecoder, Topology};
use super::{
    branches, follows, valid_walk, walk, Branch, DecodeNode, Decision, Decoder, Distribution,
    Model,
};

verus! {

/// Compose an invertible symbol representation with a probability topology.
#[derive(Debug)]
pub struct BinaryDistribution<A: Symbols, T: Topology> {
    symbols: A,
    topology: T,
}

impl<A: Symbols, T: Topology> BinaryDistribution<A, T> {
    #[verifier::type_invariant]
    spec fn matched(self) -> bool {
        &&& self.symbols.table().len() == self.topology.size()
        &&& self.symbols.lawful() ==> no_duplicates(self.symbols.table())
    }

    pub closed spec fn symbols_spec(&self) -> A {
        self.symbols
    }

    pub closed spec fn topology_spec(&self) -> T {
        self.topology
    }

    pub fn new(symbols: A, topology: T) -> (r: Result<Self, BuildError>)
        ensures
            r is Ok <==> symbols.table().len() == topology.size(),
            r matches Ok(d) ==> d.symbols_spec() == symbols && d.topology_spec() == topology,
            r matches Err(e) ==> e == (BuildError::LengthMismatch {
                symbols: symbols.table().len() as usize,
                probabilities: topology.size() as usize,
            }),
    {
        let symbols_len = symbols.len();
        let topology_len = topology.len();
        if symbols_len != topology_len {
            return Err(BuildError::LengthMismatch { symbols: symbols_len, probabilities: topology_len });
        }
        Ok(BinaryDistribution { symbols, topology })
    }

    pub fn symbols(&self) -> (r: &A)
        ensures
            *r == self.symbols_spec(),
    {
        &self.symbols
    }

    pub fn topology(&self) -> (r: &T)
        ensures
            *r == self.topology_spec(),
    {
        &self.topology
    }
}

pub struct SymbolDecoder<'a, A: Symbols, D: IndexDecoder> {
    symbols: &'a A,
    decoder: D,
}

impl<'a, A: Symbols, D: IndexDecoder> SymbolDecoder<'a, A, D> {
    /// Every leaf that a legal walk reaches from here has a symbol.
    spec fn covered(self) -> bool {
        forall|taken: Seq<Branch>|
            valid_walk(self.decoder, taken) && (#[trigger] walk(self.decoder, taken)).node_spec() is Symbol
                ==> walk(self.decoder, taken).node_spec()->Symbol_0 < self.symbols.table().len()
    }
}

impl<'a, A: Symbols, D: IndexDecoder> Decoder for SymbolDecoder<'a, A, D> {
    type Symbol = A::Symbol;

    closed spec fn node_spec(&self) -> DecodeNode<A::Symbol> {
        match self.decoder.node_spec() {
            DecodeNode::Branch(probability) => DecodeNode::Branch(probability),
            DecodeNode::Symbol(index) => DecodeNode::Symbol(self.symbols.table()[index as int]),
        }
    }

    closed spec fn advanced(&self, branch: Branch) -> Self {
        SymbolDecoder { symbols: self.symbols, decoder: self.decoder.advanced(branch) }
    }

    closed spec fn depth(&self) -> nat {
        self.decoder.depth()
    }

    closed spec fn well_formed(&self) -> bool {
        self.decoder.well_formed() && self.covered()
    }

    proof fn lemma_advance_shrinks(&self, branch: Branch) {
        self.decoder.lemma_advance_shrinks(branch);
    }

    fn node(&self) -> (r: DecodeNode<A::Symbol>) {
        proof {
            assert(walk(self.decoder, Seq::<Branch>::empty()) == self.decoder);
            assert(valid_walk(self.decoder, Seq::<Branch>::empty()));
        }
        match self.decoder.node() {
            DecodeNode::Branch(probability) => DecodeNode::Branch(probability),
            DecodeNode::Symbol(index) => DecodeNode::Symbol(self.symbols.symbol(index).unwrap()),
        }
    }

    fn choose_branch(&mut self, branch: Branch) {
        let ghost before = self.decoder;
        let symbols = self.symbols;
        proof {
            let decoder = before.advanced(branch);
            assert forall|taken: Seq<Branch>|
                valid_walk(decoder, taken) && (#[trigger] walk(decoder, taken)).node_spec() is Symbol
                    implies walk(decoder, taken).node_spec()->Symbol_0 < symbols.table().len() by {
                let longer = seq![branch] + taken;
                assert(longer[0] == branch);
                assert(longer.drop_first() =~= taken);
                assert(walk(before, longer) == walk(decoder, taken));
                assert forall|k: int| 0 <= k < longer.len() implies (#[trigger] walk(
                    before,
                    longer.take(k),
                )).node_spec() is Branch by {
                    if k > 0 {
                        assert(longer.take(k)[0] == branch);
                        assert(longer.take(k).drop_first() =~= taken.take(k - 1));
                        assert(walk(decoder, taken.take(k - 1)).node_spec() is Branch);
                    } else {
                        assert(longer.take(0) =~= Seq::<Branch>::empty());
                        assert(before.node_spec() is Branch);
                    }
                }
            }
        }
        self.decoder.choose_branch(branch);
    }
}

/// Walking a symbol cursor walks the index cursor beneath it.
proof fn lemma_symbol_walk<'a, A: Symbols, D: IndexDecoder>(
    cursor: SymbolDecoder<'a, A, D>,
    taken: Seq<Branch>,
)
    ensures
        walk(cursor, taken) == (SymbolDecoder { symbols: cursor.symbols, decoder: walk(cursor.decoder, taken) }),
    decreases taken.len(),
{
    if taken.len() > 0 {
        lemma_symbol_walk(cursor.advanced(taken[0]), taken.drop_first());
    }
}

impl<A: Symbols + 'static, T: Topology + 'static> Distribution for BinaryDistribution<A, T> {
    type Symbol = A::Symbol;

    type Decoder<'a> = SymbolDecoder<'a, A, T::Decoder<'a>>;

    type Encoder<'a> = T::Encoder<'a>;

    open spec fn size(&self) -> nat {
        self.topology_spec().size()
    }

    open spec fn lawful(&self) -> bool {
        self.symbols_spec().lawful()
    }

    open spec fn path(&self, symbol: A::Symbol) -> Option<Seq<Decision>> {
        match position_of(self.symbols_spec().table(), symbol) {
            Some(index) => Some(self.topology_spec().path(index as int)),
            None => None,
        }
    }

    fn len(&self) -> (r: usize) {
        self.topology.len()
    }

    fn decoder(&self) -> (r: SymbolDecoder<'_, A, T::Decoder<'_>>) {
        proof {
            use_type_invariant(self);
        }
        let leaves = self.topology.len();
        let decoder = self.topology.decoder();
        let r = SymbolDecoder { symbols: &self.symbols, decoder };
        proof {
            let table = self.symbols.table();
            if self.symbols.lawful() {
                assert forall|symbol: A::Symbol| (#[trigger] self.path(symbol)) is Some implies follows(
                    r,
                    self.path(symbol)->0,
                    DecodeNode::Symbol(symbol),
                ) by {
                    let index = table.index_of(symbol);
                    let path = self.topology.path(index);
                    assert(follows(decoder, path, DecodeNode::Symbol(index as usize)));
                    assert forall|k: int| 0 <= k < path.len() implies #[trigger] walk(
                        r,
                        branches(path.take(k)),
                    ).node_spec() == DecodeNode::<A::Symbol>::Branch(path[k].left_probability) by {
                        lemma_symbol_walk(r, branches(path.take(k)));
                        assert(walk(decoder, branches(path.take(k))).node_spec()
                            == DecodeNode::<usize>::Branch(path[k].left_probability));
                    }
                    lemma_symbol_walk(r, branches(path));
                }
                assert forall|taken: Seq<Branch>|
                    valid_walk(r, taken) && (#[trigger] walk(r, taken)).node_spec() is Symbol implies {
                    let symbol = walk(r, taken).node_spec()->Symbol_0;
                    &&& self.path(symbol) is Some
                    &&& branches(self.path(symbol)->0) == taken
                } by {
                    lemma_symbol_walk(r, taken);
                    assert forall|k: int| 0 <= k < taken.len() implies (#[trigger] walk(
                        decoder,
                        taken.take(k),
                    )).node_spec() is Branch by {
                        lemma_symbol_walk(r, taken.take(k));
                        assert(walk(r, taken.take(k)).node_spec() is Branch);
                    }
                    assert(walk(decoder, taken).node_spec() is Symbol);
                    let leaf = walk(decoder, taken).node_spec()->Symbol_0;
                    lemma_position_of(table, leaf as int);
                }
            }
            assert forall|taken: Seq<Branch>|
                valid_walk(decoder, taken) && (#[trigger] walk(decoder, taken)).node_spec() is Symbol
                    implies walk(decoder, taken).node_spec()->Symbol_0 < self.symbols.table().len() by {
            }
        }
        r
    }

    fn encode(&self, symbol: A::Symbol) -> (r: Option<T::Encoder<'_>>) {
        proof {
            use_type_invariant(self);
        }
        match self.symbols.index_of(symbol) {
            Some(index) => self.topology.encode_index(index),
            None => None,
        }
    }
}

/// Tiny model useful in tests/examples: every state has the same prediction.
#[derive(Clone, Debug)]
pub struct IidModel<D> {
    distribution: D,
}

impl<D> IidModel<D> {
    pub closed spec fn prediction(&self) -> D {
        self.distribution
    }

    pub fn new(distribution: D) -> (r: Self)
        ensures
            r.prediction() == distribution,
    {
        IidModel { distribution }
    }
}

impl<D: Distribution> Model for IidModel<D> {
    type Symbol = D::Symbol;

    type Prediction = D;

    fn predict(&self) -> (r: &D)
        ensures
            *r == self.prediction(),
    {
        &self.distribution
    }

    fn observe(&mut self, symbol: D::Symbol)
        ensures
            *final(self) == *old(self),
    {
    }
}

} // verus!
