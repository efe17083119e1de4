//! Bidirectional leaf-index <-> symbol mappings.
use std::collections::HashMap;
use std::hash::Hash;
use vstd::laws_eq::obeys_concrete_eq;
use vstd::prelude::*;
use vstd::std_specs::hash::obeys_key_model;

use super::sealed;

verus! {

/// No symbol occurs twice in `table`.
pub open spec fn no_duplicates<S>(table: Seq<S>) -> bool {
    forall|i: int, j: int| 0 <= i < j < table.len() ==> table[i] != table[j]
}

/// `index` is the first position of `table` whose symbol already occurred
/// before it.
pub open spec fn first_repeat<S>(table: Seq<S>, index: int) -> bool {
    &&& 0 <= index < table.len()
    &&& table.take(index).contains(table[index])
    &&& no_duplicates(table.take(index))
}

/// The leaf index of `symbol` in a duplicate-free `table`.
pub open spec fn position_of<S>(table: Seq<S>, symbol: S) -> Option<usize> {
    if table.contains(symbol) {
        Some(table.index_of(symbol) as usize)
    } else {
        None
    }
}

/// Bidirectional leaf-index <-> symbol mapping.
///
/// This trait is sealed so [`super::BinaryDistribution`] can rely on the two
/// directions being inverses.
pub trait Symbols: sealed::Symbols {
    type Symbol: Copy + Eq;

    /// The symbol of each leaf index.
    spec fn table(&self) -> Seq<Self::Symbol>;

    /// Symbol equality as the implementation sees it agrees with value
    /// equality, so lookups by symbol are exact.
    spec fn lawful(&self) -> bool;

    fn len(&self) -> (r: usize)
        ensures
            r == self.table().len(),
            self.lawful() ==> no_duplicates(self.table()),
    ;

    fn symbol(&self, index: usize) -> (r: Option<Self::Symbol>)
        ensures
            r == (if index < self.table().len() {
                Some(self.table()[index as int])
            } else {
                None
            }),
    ;

    fn index_of(&self, symbol: Self::Symbol) -> (r: Option<usize>)
        ensures
            self.lawful() ==> r == position_of(self.table(), symbol),
    ;

    fn is_empty(&self) -> (r: bool)
        ensures
            r == (self.table().len() == 0),
    {
        self.len() == 0
    }
}

#[derive(Clone, Debug, PartialEq, Eq)]
pub struct DuplicateSymbol<S> {
    pub symbol: S,
}

/// A copy of `items`, element for element.
pub(crate) fn copy_items<S: Copy>(items: &Vec<S>) -> (r: Vec<S>)
    ensures
        r@ == items@,
{
    let mut copied: Vec<S> = Vec::with_capacity(items.len());
    let mut i: usize = 0;
    while i < items.len()
        invariant
            i <= items.len(),
            copied@ == items@.take(i as int),
        decreases items.len() - i,
    {
        copied.push(items[i]);
        i = i + 1;
        proof {
            assert(copied@ =~= items@.take(i as int));
        }
    }
    proof {
        assert(items@.take(i as int) =~= items@);
    }
    copied
}

/// Compact explicit symbol list. Decode is O(1); encode lookup is O(n).
#[derive(Debug)]
pub struct LinearSymbols<S: Copy + Eq> {
    symbols: Vec<S>,
}

impl<S: Copy + Eq> LinearSymbols<S> {
    #[verifier::type_invariant]
    spec fn distinct(self) -> bool {
        obeys_concrete_eq::<S>() ==> no_duplicates(self.symbols@)
    }

    pub closed spec fn table_spec(&self) -> Seq<S> {
        self.symbols@
    }

    pub fn new(symbols: Vec<S>) -> (r: Result<Self, DuplicateSymbol<S>>)
        ensures
            r is Ok ==> r->Ok_0.table_spec() == symbols@,
            obeys_concrete_eq::<S>() ==> (r is Ok <==> no_duplicates(symbols@)),
            obeys_concrete_eq::<S>() ==> (r matches Err(e) ==> exists|i: int|
                first_repeat(symbols@, i) && e.symbol == symbols@[i]),
    {
        proof {
            reveal(obeys_concrete_eq);
        }
        let mut i: usize = 0;
        while i < symbols.len()
            invariant
                i <= symbols.len(),
                obeys_concrete_eq::<S>() ==> no_duplicates(symbols@.take(i as int)),
            decreases symbols.len() - i,
        {
            let mut j: usize = 0;
            while j < i
                invariant
                    j <= i < symbols.len(),
                    obeys_concrete_eq::<S>() ==> no_duplicates(symbols@.take(i as int)),
                    obeys_concrete_eq::<S>() ==> forall|k: int| 0 <= k < j ==> symbols@[k] != symbols@[i as int],
                decreases i - j,
            {
                let earlier: S = symbols[j];
                let current: S = symbols[i];
                let same = earlier == current;
                proof {
                    reveal(obeys_concrete_eq);
                }
                if same {
                    proof {
                        if obeys_concrete_eq::<S>() {
                            assert(symbols@.take(i as int)[j as int] == symbols@[i as int]);
                            assert(first_repeat(symbols@, i as int));
                            assert(!no_duplicates(symbols@)) by {
                                assert(symbols@[j as int] == symbols@[i as int]);
                            }
                        }
                    }
                    return Err(DuplicateSymbol { symbol: symbols[i] });
                }
                j = j + 1;
            }
            proof {
                if obeys_concrete_eq::<S>() {
                    let next = symbols@.take(i + 1);
                    assert forall|a: int, b: int| 0 <= a < b < i + 1 implies #[trigger] next[a]
                        != #[trigger] next[b] by {
                        if b < i {
                            assert(symbols@.take(i as int)[a] == symbols@[a]);
                            assert(symbols@.take(i as int)[b] == symbols@[b]);
                        }
                    }
                }
            }
            i = i + 1;
        }
        proof {
            assert(symbols@.take(i as int) =~= symbols@);
        }
        Ok(LinearSymbols { symbols })
    }

    pub fn as_slice(&self) -> (r: &[S])
        ensures
            r@ == self.table_spec(),
    {
        self.symbols.as_slice()
    }
}

impl<S: Copy + Eq> Clone for LinearSymbols<S> {
    fn clone(&self) -> (r: Self)
        ensures
            r.table_spec() == self.table_spec(),
    {
        proof {
            use_type_invariant(self);
        }
        LinearSymbols { symbols: copy_items(&self.symbols) }
    }
}

impl<S: Copy + Eq> sealed::Symbols for LinearSymbols<S> {}

impl<S: Copy + Eq> Symbols for LinearSymbols<S> {
    type Symbol = S;

    open spec fn table(&self) -> Seq<S> {
        self.table_spec()
    }

    open spec fn lawful(&self) -> bool {
        obeys_concrete_eq::<S>()
    }

    fn len(&self) -> (r: usize) {
        proof {
            use_type_invariant(self);
            assert(obeys_concrete_eq::<S>() ==> no_duplicates(self.symbols@));
            assert(self.table() == self.symbols@);
            assert(self.lawful() == obeys_concrete_eq::<S>());
        }
        self.symbols.len()
    }

    fn symbol(&self, index: usize) -> (r: Option<S>) {
        if index < self.symbols.len() {
            Some(self.symbols[index])
        } else {
            None
        }
    }

    fn index_of(&self, symbol: S) -> (r: Option<usize>) {
        proof {
            use_type_invariant(self);
        }
        let mut i: usize = 0;
        while i < self.symbols.len()
            invariant
                i <= self.symbols.len(),
                obeys_concrete_eq::<S>() ==> no_duplicates(self.symbols@),
                obeys_concrete_eq::<S>() ==> forall|k: int| 0 <= k < i ==> self.symbols@[k] != symbol,
            decreases self.symbols.len() - i,
        {
            let candidate: S = self.symbols[i];
            let same = candidate == symbol;
            proof {
                reveal(obeys_concrete_eq);
            }
            if same {
                proof {
                    if obeys_concrete_eq::<S>() {
                        lemma_position_of(self.symbols@, i as int);
                    }
                }
                return Some(i);
            }
            i = i + 1;
        }
        proof {
            if obeys_concrete_eq::<S>() {
                assert(!self.symbols@.contains(symbol));
            }
        }
        None
    }
}

/// In a duplicate-free table, the position of the symbol at `index` is
/// `index`.
pub proof fn lemma_position_of<S>(table: Seq<S>, index: int)
    requires
        no_duplicates(table),
        0 <= index < table.len(),
    ensures
        position_of(table, table[index]) == Some(index as usize),
{
    assert(table.contains(table[index]));
    let found = table.index_of(table[index]);
    assert(table[found] == table[index]);
}

/// Explicit symbol list plus a hash index. Decode is O(1); expected encode
/// lookup is O(1), at the cost of the hash table.
#[derive(Debug)]
pub struct IndexedSymbols<S: Copy + Eq + Hash> {
    symbols: Vec<S>,
    indices: HashMap<S, usize>,
}

impl<S: Copy + Eq + Hash> IndexedSymbols<S> {
    #[verifier::type_invariant]
    spec fn indexed(self) -> bool {
        obeys_key_model::<S>() ==> {
            &&& no_duplicates(self.symbols@)
            &&& forall|k: S| #[trigger]
                self.indices@.contains_key(k) <==> self.symbols@.contains(k)
            &&& forall|i: int|
                0 <= i < self.symbols@.len() ==> self.indices@[#[trigger] self.symbols@[i]] == i
        }
    }

    pub closed spec fn table_spec(&self) -> Seq<S> {
        self.symbols@
    }

    pub fn new(symbols: Vec<S>) -> (r: Result<Self, DuplicateSymbol<S>>)
        ensures
            r is Ok ==> r->Ok_0.table_spec() == symbols@,
            obeys_key_model::<S>() ==> (r is Ok <==> no_duplicates(symbols@)),
            obeys_key_model::<S>() ==> (r matches Err(e) ==> exists|i: int|
                first_repeat(symbols@, i) && e.symbol == symbols@[i]),
    {
        let mut indices: HashMap<S, usize> = HashMap::with_capacity(symbols.len());
        let mut i: usize = 0;
        while i < symbols.len()
            invariant
                i <= symbols.len(),
                obeys_key_model::<S>() ==> {
                    &&& no_duplicates(symbols@.take(i as int))
                    &&& forall|k: S| #[trigger]
                        indices@.contains_key(k) <==> symbols@.take(i as int).contains(k)
                    &&& forall|m: int|
                        0 <= m < i ==> indices@[#[trigger] symbols@[m]] == m
                },
            decreases symbols.len() - i,
        {
            let symbol = symbols[i];
            let previous = indices.insert(symbol, i);
            if previous.is_some() {
                proof {
                    if obeys_key_model::<S>() {
                        assert(symbols@.take(i as int).contains(symbol));
                        assert(first_repeat(symbols@, i as int));
                        let j = symbols@.take(i as int).index_of(symbol);
                        assert(symbols@[j] == symbols@[i as int]);
                    }
                }
                return Err(DuplicateSymbol { symbol });
            }
            proof {
                if obeys_key_model::<S>() {
                    let next = symbols@.take(i + 1);
                    assert(next =~= symbols@.take(i as int).push(symbol));
                    assert forall|a: int, b: int| 0 <= a < b < i + 1 implies #[trigger] next[a] != #[trigger] next[b] by {
                        if b == i {
                            assert(symbols@.take(i as int)[a] == next[a]);
                        } else {
                            assert(symbols@.take(i as int)[a] == next[a]);
                            assert(symbols@.take(i as int)[b] == next[b]);
                        }
                    }
                    assert forall|k: S| #[trigger] indices@.contains_key(k) <==> next.contains(k) by {
                        if next.contains(k) && k != symbol {
                            let w = next.index_of(k);
                            assert(symbols@.take(i as int)[w] == k);
                        }
                        if symbols@.take(i as int).contains(k) {
                            let w = symbols@.take(i as int).index_of(k);
                            assert(next[w] == k);
                        }
                        assert(next[i as int] == symbol);
                    }
                    assert forall|m: int| 0 <= m < i + 1 implies indices@[#[trigger] symbols@[m]] == m by {
                        if m < i {
                            assert(symbols@.take(i as int)[m] == symbols@[m]);
                            assert(symbols@.take(i as int).contains(symbols@[m]));
                        }
                    }
                }
            }
            i = i + 1;
        }
        proof {
            assert(symbols@.take(i as int) =~= symbols@);
        }
        Ok(IndexedSymbols { symbols, indices })
    }

    pub fn as_slice(&self) -> (r: &[S])
        ensures
            r@ == self.table_spec(),
    {
        self.symbols.as_slice()
    }
}

impl<S: Copy + Eq + Hash> Clone for IndexedSymbols<S> {
    fn clone(&self) -> (r: Self)
        ensures
            r.table_spec() == self.table_spec(),
    {
        proof {
            use_type_invariant(self);
        }
        IndexedSymbols { symbols: copy_items(&self.symbols), indices: self.indices.clone() }
    }
}

impl<S: Copy + Eq + Hash> sealed::Symbols for IndexedSymbols<S> {}

impl<S: Copy + Eq + Hash> Symbols for IndexedSymbols<S> {
    type Symbol = S;

    open spec fn table(&self) -> Seq<S> {
        self.table_spec()
    }

    open spec fn lawful(&self) -> bool {
        obeys_key_model::<S>()
    }

    fn len(&self) -> (r: usize) {
        proof {
            use_type_invariant(self);
            assert(obeys_key_model::<S>() ==> no_duplicates(self.symbols@));
            assert(self.table() == self.symbols@);
            assert(self.lawful() == obeys_key_model::<S>());
        }
        self.symbols.len()
    }

    fn symbol(&self, index: usize) -> (r: Option<S>) {
        if index < self.symbols.len() {
            Some(self.symbols[index])
        } else {
            None
        }
    }

    fn index_of(&self, symbol: S) -> (r: Option<usize>) {
        proof {
            use_type_invariant(self);
        }
        let found = self.indices.get(&symbol);
        proof {
            if obeys_key_model::<S>() {
                if self.symbols@.contains(symbol) {
                    let w = self.symbols@.index_of(symbol);
                    lemma_position_of(self.symbols@, w);
                }
            }
        }
        match found {
            Some(index) => Some(*index),
            None => None,
        }
    }
}

/// Zero-storage alphabet for dense token IDs `0..len`.
///
/// This is the intended fast path for byte/token models: encode and decode
/// symbol lookup are both O(1), with no vocabulary-sized symbol array or hash
/// table.
#[derive(Clone, Copy, Debug, PartialEq, Eq)]
pub struct DenseU32Symbols {
    len: u32,
}

impl DenseU32Symbols {
    pub closed spec fn count(&self) -> nat {
        self.len as nat
    }

    pub fn new(len: u32) -> (r: Self)
        ensures
            r.count() == len,
    {
        DenseU32Symbols { len }
    }
}

impl sealed::Symbols for DenseU32Symbols {}

impl Symbols for DenseU32Symbols {
    type Symbol = u32;

    open spec fn table(&self) -> Seq<u32> {
        Seq::new(self.count(), |i: int| i as u32)
    }

    open spec fn lawful(&self) -> bool {
        true
    }

    fn len(&self) -> (r: usize) {
        proof {
            lemma_dense_table(*self);
        }
        self.len as usize
    }

    fn symbol(&self, index: usize) -> (r: Option<u32>) {
        if index < self.len as usize {
            Some(index as u32)
        } else {
            None
        }
    }

    fn index_of(&self, symbol: u32) -> (r: Option<usize>) {
        proof {
            lemma_dense_table(*self);
            if symbol < self.len {
                lemma_position_of(self.table(), symbol as int);
            } else {
                assert(!self.table().contains(symbol));
            }
        }
        if symbol < self.len {
            Some(symbol as usize)
        } else {
            None
        }
    }
}

pub proof fn lemma_dense_table(symbols: DenseU32Symbols)
    ensures
        no_duplicates(symbols.table()),
        symbols.table().len() == symbols.count(),
        symbols.count() <= u32::MAX,
{
}

} // verus!
