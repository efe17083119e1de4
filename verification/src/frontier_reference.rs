//! An exact implementation of the purified transducer interface: a symbol
//! prefix and a byte prefix that are walked independently, and whose only
//! shared view is the order of their next child edges.
use vstd::prelude::*;

use crate::frontier::binomial::Binomials;
use crate::frontier::{DecodedFrontier, Frontier512, FRONTIER_EVENTS};
use crate::partition::{count_true, lemma_prefix_weight_bounds, prefix_weight, SYMBOLS};
use crate::reference::{
    byte_child_span, byte_walk, cumulative_of, fraction_le, message, symbol_walk, lemma_fraction_le_trans, model_total, span_contains, symbol_child_span,
    symbol_index, unit_span, ByteSymbol, Fraction, Interval,
};

verus! {

/// `a <= b` for fractions written as `(numerator, denominator)`.
pub open spec fn frac_le(a: (nat, nat), b: (nat, nat)) -> bool {
    a.0 * b.1 <= b.0 * a.1
}

/// The left end of an interval `(lo, hi, den)` as a fraction.
pub open spec fn span_lo(span: (nat, nat, nat)) -> (nat, nat) {
    (span.0, span.2)
}

/// The right end of an interval `(lo, hi, den)` as a fraction.
pub open spec fn span_hi(span: (nat, nat, nat)) -> (nat, nat) {
    (span.1, span.2)
}

/// Edge `j` of the next symbol partition: the left end of symbol `j`'s
/// child (edge 257 is the right end of the whole interval).
pub open spec fn symbol_edge(weights: Seq<u64>, symbol: (nat, nat, nat), j: int) -> (nat, nat) {
    span_lo(symbol_child_span(weights, symbol, j))
}

/// Edge `i` of the next byte partition: the left end of byte `i`'s child
/// (edge 256 is the right end of the whole interval).
pub open spec fn byte_edge(byte: (nat, nat, nat), i: int) -> (nat, nat) {
    span_lo(byte_child_span(byte, i as nat))
}

/// The events merge the 258 symbol edges and the 257 byte edges in order,
/// a byte edge first on a tie: each symbol edge comes right after exactly
/// the byte edges at or below it.
pub open spec fn orders_edges(
    events: Seq<bool>,
    weights: Seq<u64>,
    symbol: (nat, nat, nat),
    byte: (nat, nat, nat),
) -> bool {
    &&& events.len() == 515
    &&& count_true(events) == 258
    &&& forall|p: int|
        0 <= p < 515 && #[trigger] events[p] ==> {
            let j = count_true(events.take(p)) as int;
            let b = p - j;
            &&& forall|i: int|
                0 <= i < b ==> frac_le(#[trigger] byte_edge(byte, i), symbol_edge(weights, symbol, j))
            &&& b < 257 ==> !frac_le(byte_edge(byte, b), symbol_edge(weights, symbol, j))
        }
}

/// A walker over two prefixes, one in the 257-way symbol tree and one in the
/// radix-256 byte tree, exposing only the order of their next child edges.
pub trait Transducer {
    type Symbol;

    fn push_symbol(&mut self, symbol: Self::Symbol);

    fn push_byte(&mut self, byte: u8);

    fn frontier(&self) -> Frontier512;
}

/// Exact arbitrary-precision implementation of the purified transducer API.
///
/// It owns two independently walkable prefixes: one in the 257-way symbol tree
/// and one in the radix-256 byte tree. `frontier()` exposes only the ordering of
/// their next child edges.
pub struct ReferenceFrontierModel {
    weights: [u64; SYMBOLS],
    cumulative: [u128; 258],
    total: u128,
    symbol_interval: Interval,
    byte_interval: Interval,
    binomials: Binomials,
}

impl ReferenceFrontierModel {
    #[verifier::type_invariant]
    spec fn consistent(self) -> bool {
        &&& cumulative_of(self.weights@, self.cumulative@)
        &&& self.total == model_total(self.weights@)
        &&& self.total > 0
        &&& self.symbol_interval.wf()
        &&& self.byte_interval.wf()
        &&& self.byte_interval.span().0 < self.byte_interval.span().1
        &&& self.binomials.wf()
    }

    pub closed spec fn weights_spec(&self) -> Seq<u64> {
        self.weights@
    }

    /// The current symbol interval.
    pub closed spec fn symbol_span(&self) -> (nat, nat, nat) {
        self.symbol_interval.span()
    }

    /// The current byte interval.
    pub closed spec fn byte_span(&self) -> (nat, nat, nat) {
        self.byte_interval.span()
    }

    /// A model with the given symbol weights and both prefixes empty.
    pub fn new(weights: [u64; SYMBOLS]) -> (r: Self)
        requires
            model_total(weights@) > 0,
        ensures
            r.weights_spec() == weights@,
            r.symbol_span() == unit_span(),
            r.byte_span() == unit_span(),
    {
        let mut cumulative = [0u128; 258];
        let mut index: usize = 0;
        while index < SYMBOLS
            invariant
                index <= 257,
                weights@.len() == 257,
                cumulative@.len() == 258,
                forall|i: int| 0 <= i <= index ==> #[trigger] cumulative@[i] == prefix_weight(weights@, i),
                prefix_weight(weights@, index as int) <= index * (u64::MAX as nat),
            decreases 257 - index,
        {
            cumulative[index + 1] = cumulative[index] + weights[index] as u128;
            index = index + 1;
        }
        let total = cumulative[SYMBOLS];
        ReferenceFrontierModel {
            weights,
            cumulative,
            total,
            symbol_interval: Interval::unit(),
            byte_interval: Interval::unit(),
            binomials: Binomials::new(),
        }
    }

    /// The model that gives every symbol weight one.
    pub fn uniform() -> (r: Self)
        ensures
            r.weights_spec() == Seq::new(257, |i: int| 1u64),
            r.symbol_span() == unit_span(),
            r.byte_span() == unit_span(),
    {
        let weights = [1u64; SYMBOLS];
        proof {
            crate::reference::lemma_ones_total(weights@, 257);
            assert(weights@ =~= Seq::new(257, |i: int| 1u64));
        }
        Self::new(weights)
    }

    pub fn weights(&self) -> (r: &[u64; SYMBOLS])
        ensures
            r@ == self.weights_spec(),
    {
        &self.weights
    }

    /// The binomial table the frontier is ranked with.
    pub fn binomials(&self) -> (r: &Binomials)
        ensures
            r.wf(),
    {
        proof {
            use_type_invariant(self);
        }
        &self.binomials
    }

    /// The order of the next symbol edges and byte edges.
    fn merged_frontier(&self) -> (r: Frontier512)
        ensures
            orders_edges(r.events_spec(), self.weights_spec(), self.symbol_span(), self.byte_span()),
    {
        proof {
            use_type_invariant(self);
            lemma_prefix_weight_bounds(self.weights@, 257);
        }
        let ghost weights = self.weights@;
        let ghost symbol = self.symbol_span();
        let ghost byte = self.byte_span();
        let mut symbol_edges: Vec<Fraction> = Vec::new();
        let mut j: usize = 0;
        while j < 258
            invariant
                j <= 258,
                weights == self.weights@,
                symbol == self.symbol_interval.span(),
                self.symbol_interval.wf(),
                cumulative_of(self.weights@, self.cumulative@),
                self.total == model_total(self.weights@),
                symbol_edges@.len() == j,
                forall|k: int| 0 <= k < j ==> #[trigger] symbol_edges@[k].value() == symbol_edge(weights, symbol, k),
            decreases 258 - j,
        {
            symbol_edges.push(self.symbol_interval.edge(self.cumulative[j], self.total));
            j = j + 1;
        }
        let mut byte_edges: Vec<Fraction> = Vec::new();
        let mut i: usize = 0;
        while i < 257
            invariant
                i <= 257,
                byte == self.byte_interval.span(),
                self.byte_interval.wf(),
                byte_edges@.len() == i,
                forall|k: int| 0 <= k < i ==> #[trigger] byte_edges@[k].value() == byte_edge(byte, k),
            decreases 257 - i,
        {
            byte_edges.push(self.byte_interval.edge(i as u128, 256));
            i = i + 1;
        }
        let mut events = [false; FRONTIER_EVENTS];
        let mut symbol_i: usize = 0;
        let mut byte_i: usize = 0;
        let mut pos: usize = 0;
        proof {
            assert(events@.take(0) =~= Seq::<bool>::empty());
        }
        while pos < FRONTIER_EVENTS
            invariant
                pos <= 515,
                symbol_i + byte_i == pos,
                symbol_i <= 258,
                byte_i <= 257,
                events@.len() == 515,
                symbol_edges@.len() == 258,
                byte_edges@.len() == 257,
                forall|k: int| 0 <= k < 258 ==> #[trigger] symbol_edges@[k].value() == symbol_edge(weights, symbol, k),
                forall|k: int| 0 <= k < 257 ==> #[trigger] byte_edges@[k].value() == byte_edge(byte, k),
                weights.len() == 257,
                symbol.0 <= symbol.1,
                symbol.2 > 0,
                byte.2 > 0,
                model_total(weights) > 0,
                symbol_i == count_true(events@.take(pos as int)),
                forall|p: int| pos <= p < 515 ==> !events@[p],
                forall|k: int|
                    0 <= k < byte_i && symbol_i < 258 ==> frac_le(
                        #[trigger] byte_edge(byte, k),
                        symbol_edge(weights, symbol, symbol_i as int),
                    ),
                forall|p: int|
                    0 <= p < pos && #[trigger] events@[p] ==> {
                        let j = count_true(events@.take(p)) as int;
                        let b = p - j;
                        &&& forall|k: int|
                            0 <= k < b ==> frac_le(#[trigger] byte_edge(byte, k), symbol_edge(weights, symbol, j))
                        &&& b < 257 ==> !frac_le(byte_edge(byte, b), symbol_edge(weights, symbol, j))
                    },
            decreases 515 - pos,
        {
            let take_byte = if byte_i == 257 {
                false
            } else if symbol_i == 258 {
                true
            } else {
                let byte_edge_now = &byte_edges[byte_i];
                let symbol_edge_now = &symbol_edges[symbol_i];
                fraction_le(&byte_edge_now.num, &byte_edge_now.den, &symbol_edge_now.num, &symbol_edge_now.den)
            };
            let ghost before = events@;
            proof {
                assert(before.take(pos + 1).drop_last() =~= before.take(pos as int));
                if byte_i < 257 && symbol_i < 258 {
                    assert(byte_edges@[byte_i as int].value() == byte_edge(byte, byte_i as int));
                    assert(symbol_edges@[symbol_i as int].value() == symbol_edge(weights, symbol, symbol_i as int));
                    assert(take_byte == frac_le(
                        byte_edge(byte, byte_i as int),
                        symbol_edge(weights, symbol, symbol_i as int),
                    ));
                }
            }
            if take_byte {
                byte_i = byte_i + 1;
                proof {
                    assert(events@.take(pos + 1).drop_last() =~= events@.take(pos as int));
                }
            } else {
                events[pos] = true;
                proof {
                    assert(events@.take(pos as int) =~= before.take(pos as int));
                    assert(events@.take(pos + 1).drop_last() =~= events@.take(pos as int));
                    assert forall|p: int|
                        0 <= p < pos + 1 && #[trigger] events@[p] implies {
                        let j = count_true(events@.take(p)) as int;
                        let b = p - j;
                        &&& forall|k: int|
                            0 <= k < b ==> frac_le(#[trigger] byte_edge(byte, k), symbol_edge(weights, symbol, j))
                        &&& b < 257 ==> !frac_le(byte_edge(byte, b), symbol_edge(weights, symbol, j))
                    } by {
                        if p < pos {
                            assert(events@.take(p) =~= before.take(p));
                            assert(before[p]);
                        } else {
                            assert(count_true(events@.take(p)) == symbol_i);
                            assert(p - symbol_i == byte_i);
                        }
                    }
                    if symbol_i + 1 < 258 {
                        assert(symbol.2 * model_total(weights) > 0) by (nonlinear_arith)
                            requires
                                symbol.2 > 0,
                                model_total(weights) > 0,
                        ;
                        lemma_symbol_edges_ordered(weights, symbol, symbol_i as int, symbol_i + 1);
                        assert forall|k: int| 0 <= k < byte_i implies frac_le(
                            #[trigger] byte_edge(byte, k),
                            symbol_edge(weights, symbol, symbol_i + 1),
                        ) by {
                            lemma_frac_le_trans(
                                byte_edge(byte, k),
                                symbol_edge(weights, symbol, symbol_i as int),
                                symbol_edge(weights, symbol, symbol_i + 1),
                            );
                        }
                    }
                }
                symbol_i = symbol_i + 1;
            }
            pos = pos + 1;
        }
        proof {
            assert(events@.take(515) =~= events@);
        }
        Frontier512::from_events(&events, &self.binomials)
    }
}

/// Symbol edges never decrease.
proof fn lemma_symbol_edges_ordered(weights: Seq<u64>, symbol: (nat, nat, nat), j: int, k: int)
    requires
        weights.len() == 257,
        0 <= j <= k <= 257,
        symbol.0 <= symbol.1,
        symbol.2 > 0,
        model_total(weights) > 0,
    ensures
        frac_le(symbol_edge(weights, symbol, j), symbol_edge(weights, symbol, k)),
{
    lemma_prefix_weight_bounds(weights, k);
    let w = (symbol.1 - symbol.0) as nat;
    let cj = prefix_weight(weights, j);
    let ck = prefix_weight(weights, k);
    let a = symbol_edge(weights, symbol, j);
    let b = symbol_edge(weights, symbol, k);
    assert(w * cj <= w * ck) by (nonlinear_arith)
        requires
            cj <= ck,
    ;
    assert(a.1 == b.1);
    assert(a.0 <= b.0);
    assert(a.0 * b.1 <= b.0 * a.1) by (nonlinear_arith)
        requires
            a.0 <= b.0,
            a.1 == b.1,
    ;
}

/// Byte edges never decrease.
proof fn lemma_byte_edges_ordered(byte: (nat, nat, nat), i: int, k: int)
    requires
        0 <= i <= k,
        byte.0 <= byte.1,
    ensures
        frac_le(byte_edge(byte, i), byte_edge(byte, k)),
{
    let w = (byte.1 - byte.0) as nat;
    let a = byte_edge(byte, i);
    let b = byte_edge(byte, k);
    let ii = i as nat;
    let kk = k as nat;
    assert(w * ii <= w * kk) by (nonlinear_arith)
        requires
            ii <= kk,
    ;
    assert(a.0 * b.1 <= b.0 * a.1) by (nonlinear_arith)
        requires
            a.0 <= b.0,
            a.1 == b.1,
    ;
}

/// `<=` on fractions with positive denominators is transitive.
proof fn lemma_frac_le_trans(a: (nat, nat), b: (nat, nat), c: (nat, nat))
    requires
        a.1 > 0,
        b.1 > 0,
        c.1 > 0,
        frac_le(a, b),
        frac_le(b, c),
    ensures
        frac_le(a, c),
{
    lemma_fraction_le_trans(a.0 as int, a.1 as int, b.0 as int, b.1 as int, c.0 as int, c.1 as int);
}


impl Transducer for ReferenceFrontierModel {
    type Symbol = ByteSymbol;

    fn push_symbol(&mut self, symbol: ByteSymbol)
        ensures
            final(self).weights_spec() == old(self).weights_spec(),
            final(self).symbol_span() == symbol_child_span(
                old(self).weights_spec(),
                old(self).symbol_span(),
                symbol_index(symbol),
            ),
            final(self).byte_span() == old(self).byte_span(),
    {
        proof {
            use_type_invariant(&*self);
            lemma_prefix_weight_bounds(self.weights@, 257);
        }
        let index = symbol.index();
        let child = self.symbol_interval.child(self.cumulative[index], self.cumulative[index + 1], self.total);
        self.symbol_interval = child;
    }

    fn push_byte(&mut self, byte: u8)
        ensures
            final(self).weights_spec() == old(self).weights_spec(),
            final(self).symbol_span() == old(self).symbol_span(),
            final(self).byte_span() == byte_child_span(old(self).byte_span(), byte as nat),
    {
        proof {
            use_type_invariant(&*self);
            crate::reference::lemma_byte_child_width(self.byte_interval.span(), byte as nat);
        }
        let child = self.byte_interval.byte_child(byte);
        self.byte_interval = child;
    }

    fn frontier(&self) -> (r: Frontier512)
        ensures
            orders_edges(r.events_spec(), self.weights_spec(), self.symbol_span(), self.byte_span()),
    {
        self.merged_frontier()
    }
}

impl ReferenceFrontierModel {
    /// The decoded frontier: byte edge `i` comes before symbol edge `j`
    /// exactly when its value is at most that of symbol edge `j`.
    fn decoded(&self) -> (r: DecodedFrontier)
        ensures
            r.wf(),
            forall|i: int, j: int|
                0 <= i < 257 && 0 <= j < 258 ==> ((#[trigger] r.byte_positions()[i] < #[trigger] r.symbol_positions()[j])
                    == frac_le(byte_edge(self.byte_span(), i), symbol_edge(self.weights_spec(), self.symbol_span(), j))),
            forall|i: int, j: int|
                0 <= i < 257 && 0 <= j < 258 ==> #[trigger] r.byte_positions()[i] != #[trigger] r.symbol_positions()[j],
    {
        proof {
            use_type_invariant(self);
        }
        let frontier = self.frontier();
        let decoded = frontier.decode(&self.binomials);
        proof {
            lemma_positions_order(decoded, self.weights@, self.symbol_span(), self.byte_span());
        }
        decoded
    }
}

/// In a decoded frontier that orders the edges, position order is value
/// order.
proof fn lemma_positions_order(
    decoded: DecodedFrontier,
    weights: Seq<u64>,
    symbol: (nat, nat, nat),
    byte: (nat, nat, nat),
)
    requires
        decoded.wf(),
        orders_edges(decoded.events(), weights, symbol, byte),
        byte.0 <= byte.1,
        byte.2 > 0,
        symbol.2 > 0,
        model_total(weights) > 0,
    ensures
        forall|i: int, j: int|
            0 <= i < 257 && 0 <= j < 258 ==> ((#[trigger] decoded.byte_positions()[i] < #[trigger] decoded.symbol_positions()[j])
                == frac_le(byte_edge(byte, i), symbol_edge(weights, symbol, j))),
        forall|i: int, j: int|
            0 <= i < 257 && 0 <= j < 258 ==> #[trigger] decoded.byte_positions()[i]
                != #[trigger] decoded.symbol_positions()[j],
{
    assert forall|i: int, j: int| 0 <= i < 257 && 0 <= j < 258 implies ((#[trigger] decoded.byte_positions()[i]
        < #[trigger] decoded.symbol_positions()[j]) == frac_le(byte_edge(byte, i), symbol_edge(weights, symbol, j)))
        && decoded.byte_positions()[i] != decoded.symbol_positions()[j] by {
        decoded.lemma_byte_precedes(i, j);
        let events = decoded.events();
        let p = decoded.symbol_positions()[j] as int;
        assert(events[p]);
        let b = p - j;
        assert(count_true(events.take(p)) == j);
        crate::frontier::lemma_count_true_bound(events.take(p));
        if i < b {
            assert(frac_le(byte_edge(byte, i), symbol_edge(weights, symbol, j)));
        } else {
            assert(!frac_le(byte_edge(byte, b), symbol_edge(weights, symbol, j)));
            if frac_le(byte_edge(byte, i), symbol_edge(weights, symbol, j)) {
                lemma_byte_edges_ordered(byte, b, i);
                assert(symbol.2 * model_total(weights) > 0) by (nonlinear_arith)
                    requires
                        symbol.2 > 0,
                        model_total(weights) > 0,
                ;
                lemma_frac_le_trans(byte_edge(byte, b), byte_edge(byte, i), symbol_edge(weights, symbol, j));
            }
        }
    }
}

/// Scaling both parts of a fraction by a positive factor keeps its value.
proof fn lemma_frac_scale(a: (nat, nat), x: nat, y: nat, t: nat)
    requires
        t > 0,
    ensures
        frac_le(a, (x * t, y * t)) == frac_le(a, (x, y)),
        frac_le((x * t, y * t), a) == frac_le((x, y), a),
{
    assert(a.0 * (y * t) == (a.0 * y) * t) by (nonlinear_arith);
    assert((x * t) * a.1 == (x * a.1) * t) by (nonlinear_arith);
    assert((x * t) * a.1 == (x * a.1) * t) by (nonlinear_arith);
    assert(a.0 * (y * t) == (a.0 * y) * t) by (nonlinear_arith);
    if a.0 * y <= x * a.1 {
        assert((a.0 * y) * t <= (x * a.1) * t) by (nonlinear_arith)
            requires
                a.0 * y <= x * a.1,
        ;
    } else {
        assert((a.0 * y) * t > (x * a.1) * t) by (nonlinear_arith)
            requires
                a.0 * y > x * a.1,
                t > 0,
        ;
    }
    if x * a.1 <= a.0 * y {
        assert((x * a.1) * t <= (a.0 * y) * t) by (nonlinear_arith)
            requires
                x * a.1 <= a.0 * y,
        ;
    } else {
        assert((x * a.1) * t > (a.0 * y) * t) by (nonlinear_arith)
            requires
                x * a.1 > a.0 * y,
                t > 0,
        ;
    }
}

/// The outer edges of both partitions are the ends of their intervals.
proof fn lemma_edge_ends(weights: Seq<u64>, symbol: (nat, nat, nat), byte: (nat, nat, nat))
    requires
        weights.len() == 257,
        symbol.0 <= symbol.1,
        byte.0 <= byte.1,
    ensures
        symbol_edge(weights, symbol, 0) == (symbol.0 * model_total(weights), symbol.2 * model_total(weights)),
        symbol_edge(weights, symbol, 257) == (symbol.1 * model_total(weights), symbol.2 * model_total(weights)),
        byte_edge(byte, 0) == (byte.0 * 256, byte.2 * 256),
        byte_edge(byte, 256) == (byte.1 * 256, byte.2 * 256),
{
    let t = model_total(weights);
    let w = (symbol.1 - symbol.0) as nat;
    assert(prefix_weight(weights, 0) == 0);
    assert(symbol.0 * t + w * t == symbol.1 * t) by (nonlinear_arith)
        requires
            w == symbol.1 - symbol.0,
    ;
    let bw = (byte.1 - byte.0) as nat;
    assert(byte.0 * 256 + bw * 256 == byte.1 * 256) by (nonlinear_arith)
        requires
            bw == byte.1 - byte.0,
    ;
}

/// Byte `b`'s child holds the whole symbol interval with room to spare on
/// the right: its left end at or below the symbol interval's left end, its
/// right end strictly above the symbol interval's right end.
pub open spec fn strictly_holds(symbol: (nat, nat, nat), byte: (nat, nat, nat), b: int) -> bool {
    &&& 0 <= b < 256
    &&& frac_le(byte_edge(byte, b), span_lo(symbol))
    &&& !frac_le(byte_edge(byte, b + 1), span_hi(symbol))
}

/// Byte `b`'s left edge lies strictly above the symbol interval's left end
/// and at or below its right end.
pub open spec fn left_edge_inside(symbol: (nat, nat, nat), byte: (nat, nat, nat), b: int) -> bool {
    &&& 0 <= b < 256
    &&& !frac_le(byte_edge(byte, b), span_lo(symbol))
    &&& frac_le(byte_edge(byte, b), span_hi(symbol))
}

/// Byte `b`'s child holds the symbol interval's left end.
pub open spec fn holds_left_end(symbol: (nat, nat, nat), byte: (nat, nat, nat), b: int) -> bool {
    &&& 0 <= b < 256
    &&& frac_le(byte_edge(byte, b), span_lo(symbol))
    &&& !frac_le(byte_edge(byte, b + 1), span_lo(symbol))
}

/// Symbol `j`'s child holds the whole byte interval with room to spare on
/// the left: its left end strictly below the byte interval's left end, its
/// right end at or above the byte interval's right end.
pub open spec fn symbol_strictly_holds(
    weights: Seq<u64>,
    symbol: (nat, nat, nat),
    byte: (nat, nat, nat),
    j: int,
) -> bool {
    &&& 0 <= j < 257
    &&& !frac_le(span_lo(byte), symbol_edge(weights, symbol, j))
    &&& frac_le(span_hi(byte), symbol_edge(weights, symbol, j + 1))
}

/// The next byte the canonical encoder emits while walking the byte interval
/// `byte` toward the final symbol interval `symbol`, or `None` once the byte
/// interval lies inside the symbol interval with its left end strictly
/// inside: first every strictly forced byte, then the first byte whose left
/// edge lies inside the symbol interval (descending through the child that
/// holds the symbol interval's left end while there is none), then byte
/// zero until the right ends fit.
pub open spec fn canonical_next_byte(symbol: (nat, nat, nat), byte: (nat, nat, nat)) -> Option<u8> {
    if !frac_le(span_lo(byte), span_lo(symbol)) {
        if frac_le(span_hi(byte), span_hi(symbol)) {
            None
        } else {
            Some(0u8)
        }
    } else if exists|b: u8| strictly_holds(symbol, byte, b as int) {
        Some(choose|b: u8| strictly_holds(symbol, byte, b as int))
    } else if exists|b: u8| left_edge_inside(symbol, byte, b as int) {
        Some(
            choose|b: u8|
                left_edge_inside(symbol, byte, b as int) && forall|c: int|
                    0 <= c < b ==> !left_edge_inside(symbol, byte, c),
        )
    } else if exists|b: u8| holds_left_end(symbol, byte, b as int) {
        Some(choose|b: u8| holds_left_end(symbol, byte, b as int))
    } else {
        None
    }
}

/// The right end of `symbol` is the right end of a byte cylinder that holds
/// it and is not the last child of its parent. The canonical encoder then
/// settles on that right end and never stops.
pub open spec fn right_end_shared(symbol: (nat, nat, nat)) -> bool {
    exists|bytes: Seq<u8>|
        bytes.len() > 0 && bytes.last() < 255 && span_contains(#[trigger] byte_walk(unit_span(), bytes), symbol)
            && frac_le(span_hi(byte_walk(unit_span(), bytes)), span_hi(symbol))
}

/// Both partitions' outer edges compare as the ends of their intervals.
proof fn lemma_end_comparisons(weights: Seq<u64>, symbol: (nat, nat, nat), byte: (nat, nat, nat))
    requires
        weights.len() == 257,
        model_total(weights) > 0,
        symbol.0 <= symbol.1,
        byte.0 <= byte.1,
    ensures
        forall|i: int|
            frac_le(#[trigger] byte_edge(byte, i), symbol_edge(weights, symbol, 0)) == frac_le(
                byte_edge(byte, i),
                span_lo(symbol),
            ),
        forall|i: int|
            frac_le(#[trigger] byte_edge(byte, i), symbol_edge(weights, symbol, 257)) == frac_le(
                byte_edge(byte, i),
                span_hi(symbol),
            ),
        forall|j: int|
            frac_le(byte_edge(byte, 0), #[trigger] symbol_edge(weights, symbol, j)) == frac_le(
                span_lo(byte),
                symbol_edge(weights, symbol, j),
            ),
        forall|j: int|
            frac_le(byte_edge(byte, 256), #[trigger] symbol_edge(weights, symbol, j)) == frac_le(
                span_hi(byte),
                symbol_edge(weights, symbol, j),
            ),
        frac_le(span_hi(byte), symbol_edge(weights, symbol, 257)) == frac_le(span_hi(byte), span_hi(symbol)),
        forall|a: (nat, nat)| frac_le(byte_edge(byte, 0), a) == frac_le(span_lo(byte), a),
{
    lemma_edge_ends(weights, symbol, byte);
    let t = model_total(weights);
    assert forall|i: int|
        frac_le(#[trigger] byte_edge(byte, i), symbol_edge(weights, symbol, 0)) == frac_le(
            byte_edge(byte, i),
            span_lo(symbol),
        ) by {
        lemma_frac_scale(byte_edge(byte, i), symbol.0, symbol.2, t);
    }
    assert forall|i: int|
        frac_le(#[trigger] byte_edge(byte, i), symbol_edge(weights, symbol, 257)) == frac_le(
            byte_edge(byte, i),
            span_hi(symbol),
        ) by {
        lemma_frac_scale(byte_edge(byte, i), symbol.1, symbol.2, t);
    }
    assert forall|j: int|
        frac_le(byte_edge(byte, 0), #[trigger] symbol_edge(weights, symbol, j)) == frac_le(
            span_lo(byte),
            symbol_edge(weights, symbol, j),
        ) by {
        lemma_frac_scale(symbol_edge(weights, symbol, j), byte.0, byte.2, 256);
    }
    assert forall|j: int|
        frac_le(byte_edge(byte, 256), #[trigger] symbol_edge(weights, symbol, j)) == frac_le(
            span_hi(byte),
            symbol_edge(weights, symbol, j),
        ) by {
        lemma_frac_scale(symbol_edge(weights, symbol, j), byte.1, byte.2, 256);
    }
    lemma_frac_scale(span_hi(byte), symbol.1, symbol.2, t);
    assert forall|a: (nat, nat)| frac_le(byte_edge(byte, 0), a) == frac_le(span_lo(byte), a) by {
        lemma_frac_scale(a, byte.0, byte.2, 256);
    }
}

impl ReferenceFrontierModel {
    /// The byte whose child strictly holds the symbol interval, if any.
    fn forced_byte(&self) -> (r: Option<u8>)
        ensures
            r matches Some(b) ==> strictly_holds(self.symbol_span(), self.byte_span(), b as int),
            r is None ==> forall|b: int| !strictly_holds(self.symbol_span(), self.byte_span(), b),
    {
        proof {
            use_type_invariant(self);
            lemma_end_comparisons(self.weights@, self.symbol_span(), self.byte_span());
        }
        let decoded = self.decoded();
        let r = decoded.forced_byte_strict();
        proof {
            if let Some(b) = r {
                assert(decoded.byte_positions()[b as int] < decoded.symbol_positions()[0]);
                assert(decoded.symbol_positions()[257] < decoded.byte_positions()[b + 1]);
            } else {
                assert forall|b: int| !strictly_holds(self.symbol_span(), self.byte_span(), b) by {
                    if 0 <= b < 256 {
                        assert(!(decoded.byte_positions()[b] < decoded.symbol_positions()[0]
                            && decoded.symbol_positions()[257] < decoded.byte_positions()[b + 1]));
                    }
                }
            }
        }
        r
    }

    /// The first byte whose left edge lies inside the symbol interval.
    fn first_left_inside(&self) -> (r: Option<u8>)
        ensures
            r matches Some(b) ==> left_edge_inside(self.symbol_span(), self.byte_span(), b as int) && forall|c: int|
                0 <= c < b ==> !left_edge_inside(self.symbol_span(), self.byte_span(), c),
            r is None ==> forall|c: int| !left_edge_inside(self.symbol_span(), self.byte_span(), c),
    {
        proof {
            use_type_invariant(self);
            lemma_end_comparisons(self.weights@, self.symbol_span(), self.byte_span());
        }
        let decoded = self.decoded();
        let r = decoded.first_byte_with_left_inside_symbol();
        proof {
            if let Some(b) = r {
                assert(decoded.symbol_positions()[0] < decoded.byte_positions()[b as int]);
                assert forall|c: int| 0 <= c < b implies !left_edge_inside(
                    self.symbol_span(),
                    self.byte_span(),
                    c,
                ) by {
                    assert(!(decoded.symbol_positions()[0] < decoded.byte_positions()[c]
                        < decoded.symbol_positions()[257]));
                }
            } else {
                assert forall|c: int| !left_edge_inside(self.symbol_span(), self.byte_span(), c) by {
                    if 0 <= c < 256 {
                        assert(!(decoded.symbol_positions()[0] < decoded.byte_positions()[c]
                            < decoded.symbol_positions()[257]));
                    }
                }
            }
        }
        r
    }

    /// The byte whose child holds the symbol interval's left end.
    fn left_end_byte(&self) -> (r: Option<u8>)
        ensures
            r matches Some(b) ==> holds_left_end(self.symbol_span(), self.byte_span(), b as int),
            r is None ==> forall|b: int| !holds_left_end(self.symbol_span(), self.byte_span(), b),
    {
        proof {
            use_type_invariant(self);
            lemma_end_comparisons(self.weights@, self.symbol_span(), self.byte_span());
        }
        let decoded = self.decoded();
        let r = decoded.byte_containing_symbol_left();
        proof {
            if let Some(b) = r {
                assert(decoded.byte_positions()[b as int] < decoded.symbol_positions()[0]);
                assert(decoded.symbol_positions()[0] < decoded.byte_positions()[b + 1]);
            } else {
                assert forall|b: int| !holds_left_end(self.symbol_span(), self.byte_span(), b) by {
                    if 0 <= b < 256 {
                        assert(!(decoded.byte_positions()[b] < decoded.symbol_positions()[0]
                            < decoded.byte_positions()[b + 1]));
                    }
                }
            }
        }
        r
    }

    /// The byte interval's right end is at or below the symbol interval's.
    fn right_end_inside(&self) -> (r: bool)
        ensures
            r == frac_le(span_hi(self.byte_span()), span_hi(self.symbol_span())),
    {
        proof {
            use_type_invariant(self);
            lemma_end_comparisons(self.weights@, self.symbol_span(), self.byte_span());
        }
        let decoded = self.decoded();
        decoded.byte_right_strictly_before_symbol_right()
    }

    /// The symbol whose child strictly holds the byte interval, if any.
    fn forced_symbol(&self) -> (r: Option<usize>)
        ensures
            r matches Some(j) ==> symbol_strictly_holds(
                self.weights_spec(),
                self.symbol_span(),
                self.byte_span(),
                j as int,
            ),
            r is None ==> forall|j: int|
                !symbol_strictly_holds(self.weights_spec(), self.symbol_span(), self.byte_span(), j),
    {
        proof {
            use_type_invariant(self);
            lemma_end_comparisons(self.weights@, self.symbol_span(), self.byte_span());
        }
        let decoded = self.decoded();
        let r = decoded.forced_symbol_strict();
        proof {
            if let Some(j) = r {
                assert(decoded.symbol_positions()[j as int] < decoded.byte_positions()[0]);
                assert(decoded.byte_positions()[256] < decoded.symbol_positions()[j + 1]);
            } else {
                assert forall|j: int|
                    !symbol_strictly_holds(self.weights_spec(), self.symbol_span(), self.byte_span(), j) by {
                    if 0 <= j < 257 {
                        assert(!(decoded.symbol_positions()[j] < decoded.byte_positions()[0]
                            && decoded.byte_positions()[256] < decoded.symbol_positions()[j + 1]));
                    }
                }
            }
        }
        r
    }
}

/// Every byte cylinder is a nonempty interval.
pub(crate) proof fn lemma_byte_walk_shape(bytes: Seq<u8>)
    ensures
        byte_walk(unit_span(), bytes).0 < byte_walk(unit_span(), bytes).1,
        byte_walk(unit_span(), bytes).2 > 0,
    decreases bytes.len(),
{
    if bytes.len() > 0 {
        lemma_byte_walk_shape(bytes.drop_last());
        crate::reference::lemma_byte_child_width(byte_walk(unit_span(), bytes.drop_last()), bytes.last() as nat);
    }
}

/// Walking one more byte descends into that byte's child.
proof fn lemma_byte_walk_push(bytes: Seq<u8>, b: u8)
    ensures
        byte_walk(unit_span(), bytes.push(b)) == byte_child_span(byte_walk(unit_span(), bytes), b as nat),
{
    assert(bytes.push(b).drop_last() =~= bytes);
}

/// A fraction is at most another, or strictly above it.
proof fn lemma_frac_total(a: (nat, nat), b: (nat, nat))
    ensures
        !frac_le(a, b) ==> frac_le(b, a),
{
}

/// A byte child that strictly holds the symbol interval contains it.
proof fn lemma_strictly_holds_contains(symbol: (nat, nat, nat), byte: (nat, nat, nat), b: int)
    requires
        strictly_holds(symbol, byte, b),
    ensures
        span_contains(byte_child_span(byte, b as nat), symbol),
{
    assert(byte_edge(byte, b + 1).0 == byte_child_span(byte, b as nat).1);
}

/// What strictly holds a symbol interval strictly holds every interval
/// inside it.
proof fn lemma_strictly_holds_shrink(symbol: (nat, nat, nat), inner: (nat, nat, nat), byte: (nat, nat, nat), b: int)
    requires
        strictly_holds(symbol, byte, b),
        span_contains(symbol, inner),
        symbol.2 > 0,
        inner.2 > 0,
        byte.2 > 0,
    ensures
        strictly_holds(inner, byte, b),
{
    lemma_frac_le_trans(byte_edge(byte, b), span_lo(symbol), span_lo(inner));
    if frac_le(byte_edge(byte, b + 1), span_hi(inner)) {
        lemma_frac_le_trans(byte_edge(byte, b + 1), span_hi(inner), span_hi(symbol));
    }
}

/// An interval's left end is at most its right end.
proof fn lemma_span_ends(span: (nat, nat, nat))
    requires
        span.0 <= span.1,
    ensures
        frac_le(span_lo(span), span_hi(span)),
{
    assert(span.0 * span.2 <= span.1 * span.2) by (nonlinear_arith)
        requires
            span.0 <= span.1,
    ;
}

/// A byte interval's edges lie between its ends.
proof fn lemma_byte_edges_within(byte: (nat, nat, nat), i: int)
    requires
        byte.0 <= byte.1,
        byte.2 > 0,
        0 <= i <= 256,
    ensures
        frac_le(span_lo(byte), byte_edge(byte, i)),
        frac_le(byte_edge(byte, i), span_hi(byte)),
{
    lemma_byte_edges_ordered(byte, 0, i);
    lemma_byte_edges_ordered(byte, i, 256);
    let bw = (byte.1 - byte.0) as nat;
    assert(byte.0 * 256 + bw * 256 == byte.1 * 256) by (nonlinear_arith)
        requires
            bw == byte.1 - byte.0,
    ;
    lemma_frac_scale(byte_edge(byte, i), byte.0, byte.2, 256);
    lemma_frac_scale(byte_edge(byte, i), byte.1, byte.2, 256);
}

/// A strictly holding byte is the canonical next byte wherever the byte
/// interval's left end is at or below the symbol interval's.
proof fn lemma_canonical_forced(symbol: (nat, nat, nat), byte: (nat, nat, nat), b: int)
    requires
        strictly_holds(symbol, byte, b),
        symbol.0 <= symbol.1,
        symbol.2 > 0,
        byte.0 <= byte.1,
        byte.2 > 0,
    ensures
        frac_le(span_lo(byte), span_lo(symbol)),
        canonical_next_byte(symbol, byte) == Some(b as u8),
{
    lemma_byte_edges_within(byte, b);
    lemma_frac_le_trans(span_lo(byte), byte_edge(byte, b), span_lo(symbol));
    lemma_span_ends(symbol);
    let c = choose|c: u8| strictly_holds(symbol, byte, c as int);
    assert(strictly_holds(symbol, byte, (b as u8) as int));
    if (c as int) < b {
        lemma_byte_edges_ordered(byte, c + 1, b);
        lemma_frac_le_trans(byte_edge(byte, c + 1), byte_edge(byte, b), span_lo(symbol));
        lemma_frac_le_trans(byte_edge(byte, c + 1), span_lo(symbol), span_hi(symbol));
    } else if (c as int) > b {
        lemma_byte_edges_ordered(byte, b + 1, c as int);
        lemma_frac_le_trans(byte_edge(byte, b + 1), byte_edge(byte, c as int), span_lo(symbol));
        lemma_frac_le_trans(byte_edge(byte, b + 1), span_lo(symbol), span_hi(symbol));
    }
}

/// With nothing strictly holding the symbol interval, the first byte whose
/// left edge lies inside it is the canonical next byte.
proof fn lemma_canonical_first_inside(symbol: (nat, nat, nat), byte: (nat, nat, nat), b: int)
    requires
        frac_le(span_lo(byte), span_lo(symbol)),
        forall|c: int| !strictly_holds(symbol, byte, c),
        left_edge_inside(symbol, byte, b),
        forall|c: int| 0 <= c < b ==> !left_edge_inside(symbol, byte, c),
    ensures
        canonical_next_byte(symbol, byte) == Some(b as u8),
{
    assert(!exists|c: u8| strictly_holds(symbol, byte, c as int));
    assert(left_edge_inside(symbol, byte, (b as u8) as int));
    let c = choose|c: u8|
        left_edge_inside(symbol, byte, c as int) && forall|d: int| 0 <= d < c ==> !left_edge_inside(symbol, byte, d);
    assert(left_edge_inside(symbol, byte, (b as u8) as int) && forall|d: int|
        0 <= d < (b as u8) ==> !left_edge_inside(symbol, byte, d));
    if (c as int) > b {
        assert(!left_edge_inside(symbol, byte, b));
    }
}

/// With nothing strictly holding the symbol interval and no byte edge
/// inside it, the child holding its left end is the canonical next byte.
proof fn lemma_canonical_left_end(symbol: (nat, nat, nat), byte: (nat, nat, nat), b: int)
    requires
        frac_le(span_lo(byte), span_lo(symbol)),
        forall|c: int| !strictly_holds(symbol, byte, c),
        forall|c: int| !left_edge_inside(symbol, byte, c),
        holds_left_end(symbol, byte, b),
        byte.0 <= byte.1,
        byte.2 > 0,
        symbol.2 > 0,
    ensures
        canonical_next_byte(symbol, byte) == Some(b as u8),
{
    assert(!exists|c: u8| strictly_holds(symbol, byte, c as int));
    assert(!exists|c: u8| left_edge_inside(symbol, byte, c as int));
    assert(holds_left_end(symbol, byte, (b as u8) as int));
    let c = choose|c: u8| holds_left_end(symbol, byte, c as int);
    if (c as int) < b {
        lemma_byte_edges_ordered(byte, c + 1, b);
        lemma_frac_le_trans(byte_edge(byte, c + 1), byte_edge(byte, b), span_lo(symbol));
    } else if (c as int) > b {
        lemma_byte_edges_ordered(byte, b + 1, c as int);
        lemma_frac_le_trans(byte_edge(byte, b + 1), byte_edge(byte, c as int), span_lo(symbol));
    }
}

/// Between an edge at or below a point and one above it, some child holds
/// the point.
proof fn lemma_left_end_exists(symbol: (nat, nat, nat), byte: (nat, nat, nat), k: int)
    requires
        0 <= k <= 256,
        frac_le(byte_edge(byte, k), span_lo(symbol)),
        !frac_le(byte_edge(byte, 256), span_lo(symbol)),
    ensures
        exists|b: int| holds_left_end(symbol, byte, b),
    decreases 256 - k,
{
    if k < 256 {
        if frac_le(byte_edge(byte, k + 1), span_lo(symbol)) {
            lemma_left_end_exists(symbol, byte, k + 1);
        } else {
            assert(holds_left_end(symbol, byte, k));
        }
    }
}

/// The ratio of the byte interval's width to the gap between its left end
/// and the symbol interval's right end, rounded down.
pub open spec fn settle_excess(byte: (nat, nat, nat), symbol: (nat, nat, nat)) -> nat {
    (((byte.1 - byte.0) * symbol.2) / (symbol.1 * byte.2 - byte.0 * symbol.2)) as nat
}

/// Descending into child zero while the byte interval reaches past the
/// symbol interval's right end shrinks the settling excess.
proof fn lemma_settle_excess_shrinks(byte: (nat, nat, nat), symbol: (nat, nat, nat))
    requires
        byte.0 < byte.1,
        byte.2 > 0,
        symbol.2 > 0,
        byte.0 * symbol.2 < symbol.1 * byte.2,
        !frac_le(span_hi(byte), span_hi(symbol)),
    ensures
        settle_excess(byte_child_span(byte, 0), symbol) < settle_excess(byte, symbol),
        byte_child_span(byte, 0).0 == byte.0 * 256,
        byte_child_span(byte, 0).2 == byte.2 * 256,
{
    let child = byte_child_span(byte, 0);
    let w = (byte.1 - byte.0) as nat;
    assert(child.0 == byte.0 * 256 + w * 0);
    assert(w * 0 == 0);
    assert(child.1 == byte.0 * 256 + w * 1);
    let x = w * symbol.2;
    let y = (symbol.1 * byte.2 - byte.0 * symbol.2) as nat;
    assert(y > 0);
    assert(x > y) by (nonlinear_arith)
        requires
            byte.1 * symbol.2 > symbol.1 * byte.2,
            w == byte.1 - byte.0,
            x == w * symbol.2,
            y == symbol.1 * byte.2 - byte.0 * symbol.2,
    ;
    assert(symbol.1 * (byte.2 * 256) - (byte.0 * 256) * symbol.2 == y * 256) by (nonlinear_arith)
        requires
            y == symbol.1 * byte.2 - byte.0 * symbol.2,
    ;
    assert((child.1 - child.0) * symbol.2 == x);
    vstd::arithmetic::div_mod::lemma_div_denominator(x as int, y as int, 256);
    vstd::arithmetic::div_mod::lemma_div_is_ordered(y as int, x as int, y as int);
    vstd::arithmetic::div_mod::lemma_div_by_multiple(1, y as int);
    let q = x / y;
    assert(q >= 1);
    assert(q / 256 < q);
}

/// Walk the byte prefix through every byte child that strictly holds the
/// symbol interval.
fn push_forced_bytes(model: &mut ReferenceFrontierModel, output: &mut Vec<u8>)
    requires
        old(model).symbol_span().0 < old(model).symbol_span().1,
        old(model).byte_span() == byte_walk(unit_span(), old(output)@),
        span_contains(old(model).byte_span(), old(model).symbol_span()),
        forall|k: int|
            0 <= k < old(output)@.len() ==> strictly_holds(
                old(model).symbol_span(),
                byte_walk(unit_span(), #[trigger] old(output)@.take(k)),
                old(output)@[k] as int,
            ),
    ensures
        final(model).weights_spec() == old(model).weights_spec(),
        final(model).symbol_span() == old(model).symbol_span(),
        final(model).byte_span() == byte_walk(unit_span(), final(output)@),
        span_contains(final(model).byte_span(), final(model).symbol_span()),
        forall|k: int|
            0 <= k < final(output)@.len() ==> strictly_holds(
                final(model).symbol_span(),
                byte_walk(unit_span(), #[trigger] final(output)@.take(k)),
                final(output)@[k] as int,
            ),
        forall|b: int| !strictly_holds(final(model).symbol_span(), final(model).byte_span(), b),
{
    let ghost weights = model.weights_spec();
    let ghost symbol = model.symbol_span();
    proof {
        use_type_invariant(&*model);
    }
    loop
        invariant
            model.weights_spec() == weights,
            model.symbol_span() == symbol,
            symbol.0 < symbol.1,
            symbol.2 > 0,
            model.byte_span() == byte_walk(unit_span(), output@),
            span_contains(model.byte_span(), symbol),
            forall|k: int|
                0 <= k < output@.len() ==> strictly_holds(
                    symbol,
                    byte_walk(unit_span(), #[trigger] output@.take(k)),
                    output@[k] as int,
                ),
        ensures
            model.weights_spec() == weights,
            model.symbol_span() == symbol,
            model.byte_span() == byte_walk(unit_span(), output@),
            span_contains(model.byte_span(), symbol),
            forall|k: int|
                0 <= k < output@.len() ==> strictly_holds(
                    symbol,
                    byte_walk(unit_span(), #[trigger] output@.take(k)),
                    output@[k] as int,
                ),
            forall|b: int| !strictly_holds(symbol, model.byte_span(), b),
        decreases crate::reference::byte_excess(model.byte_span(), symbol),
    {
        match model.forced_byte() {
            None => {
                break;
            },
            Some(byte) => {
                let ghost before = output@;
                let ghost span = model.byte_span();
                proof {
                    lemma_byte_walk_shape(before);
                    lemma_strictly_holds_contains(symbol, span, byte as int);
                    crate::reference::lemma_byte_excess_shrinks(span, symbol, byte as nat);
                    lemma_byte_walk_push(before, byte);
                }
                model.push_byte(byte);
                output.push(byte);
                proof {
                    assert forall|k: int| 0 <= k < output@.len() implies strictly_holds(
                        symbol,
                        byte_walk(unit_span(), #[trigger] output@.take(k)),
                        output@[k] as int,
                    ) by {
                        if k < before.len() {
                            assert(output@.take(k) =~= before.take(k));
                        } else {
                            assert(output@.take(k) =~= before);
                        }
                    }
                }
            },
        }
    }
}

/// Push one symbol, then every byte that became forced.
fn encode_symbol(model: &mut ReferenceFrontierModel, output: &mut Vec<u8>, symbol: ByteSymbol)
    requires
        old(model).weights_spec()[symbol_index(symbol)] > 0,
        old(model).symbol_span().0 < old(model).symbol_span().1,
        old(model).byte_span() == byte_walk(unit_span(), old(output)@),
        span_contains(old(model).byte_span(), old(model).symbol_span()),
        forall|k: int|
            0 <= k < old(output)@.len() ==> strictly_holds(
                old(model).symbol_span(),
                byte_walk(unit_span(), #[trigger] old(output)@.take(k)),
                old(output)@[k] as int,
            ),
    ensures
        final(model).weights_spec() == old(model).weights_spec(),
        final(model).symbol_span() == symbol_child_span(
            old(model).weights_spec(),
            old(model).symbol_span(),
            symbol_index(symbol),
        ),
        final(model).symbol_span().0 < final(model).symbol_span().1,
        final(model).byte_span() == byte_walk(unit_span(), final(output)@),
        span_contains(final(model).byte_span(), final(model).symbol_span()),
        forall|k: int|
            0 <= k < final(output)@.len() ==> strictly_holds(
                final(model).symbol_span(),
                byte_walk(unit_span(), #[trigger] final(output)@.take(k)),
                final(output)@[k] as int,
            ),
        forall|b: int| !strictly_holds(final(model).symbol_span(), final(model).byte_span(), b),
{
    proof {
        use_type_invariant(&*model);
    }
    let ghost weights = model.weights_spec();
    let ghost before = model.symbol_span();
    let ghost index = symbol_index(symbol);
    model.push_symbol(symbol);
    proof {
        use_type_invariant(&*model);
        let after = model.symbol_span();
        lemma_prefix_weight_bounds(weights, 257);
        crate::reference::lemma_child_within(
            before,
            prefix_weight(weights, index),
            prefix_weight(weights, index + 1),
            model_total(weights),
        );
        crate::reference::lemma_symbol_child_shape(weights, before, index);
        lemma_byte_walk_shape(output@);
        crate::reference::lemma_contains_trans(model.byte_span(), before, after);
        assert forall|k: int| 0 <= k < output@.len() implies strictly_holds(
            after,
            byte_walk(unit_span(), #[trigger] output@.take(k)),
            output@[k] as int,
        ) by {
            lemma_byte_walk_shape(output@.take(k));
            lemma_strictly_holds_shrink(before, after, byte_walk(unit_span(), output@.take(k)), output@[k] as int);
        }
    }
    push_forced_bytes(model, output);
}

/// Canonical finalization: choose a byte cylinder that ends inside the
/// final symbol interval with its left end strictly inside it.
#[verifier::rlimit(50)]
fn finish_bytes(model: &mut ReferenceFrontierModel, output: &mut Vec<u8>)
    requires
        old(model).symbol_span().0 < old(model).symbol_span().1,
        old(model).byte_span() == byte_walk(unit_span(), old(output)@),
        span_contains(old(model).byte_span(), old(model).symbol_span()),
        forall|b: int| !strictly_holds(old(model).symbol_span(), old(model).byte_span(), b),
        forall|k: int|
            0 <= k < old(output)@.len() ==> canonical_next_byte(
                old(model).symbol_span(),
                byte_walk(unit_span(), #[trigger] old(output)@.take(k)),
            ) == Some(old(output)@[k]),
        !right_end_shared(old(model).symbol_span()),
    ensures
        final(model).symbol_span() == old(model).symbol_span(),
        forall|k: int|
            0 <= k < final(output)@.len() ==> canonical_next_byte(
                final(model).symbol_span(),
                byte_walk(unit_span(), #[trigger] final(output)@.take(k)),
            ) == Some(final(output)@[k]),
        canonical_next_byte(final(model).symbol_span(), byte_walk(unit_span(), final(output)@)) is None,
        !frac_le(span_lo(byte_walk(unit_span(), final(output)@)), span_lo(final(model).symbol_span())),
        frac_le(span_hi(byte_walk(unit_span(), final(output)@)), span_hi(final(model).symbol_span())),
{
    proof {
        use_type_invariant(&*model);
    }
    let ghost symbol = model.symbol_span();
    let mut left_inside = false;
    loop
        invariant
            model.symbol_span() == symbol,
            symbol.0 < symbol.1,
            symbol.2 > 0,
            model.byte_span() == byte_walk(unit_span(), output@),
            forall|k: int|
                0 <= k < output@.len() ==> canonical_next_byte(symbol, byte_walk(unit_span(), #[trigger] output@.take(k)))
                    == Some(output@[k]),
            left_inside == !frac_le(span_lo(model.byte_span()), span_lo(symbol)),
            !left_inside ==> span_contains(model.byte_span(), symbol),
            !left_inside ==> forall|b: int| !strictly_holds(symbol, model.byte_span(), b),
            left_inside ==> !frac_le(span_hi(symbol), span_lo(model.byte_span())),
            !right_end_shared(symbol),
        ensures
            model.symbol_span() == symbol,
            forall|k: int|
                0 <= k < output@.len() ==> canonical_next_byte(symbol, byte_walk(unit_span(), #[trigger] output@.take(k)))
                    == Some(output@[k]),
            canonical_next_byte(symbol, byte_walk(unit_span(), output@)) is None,
            !frac_le(span_lo(byte_walk(unit_span(), output@)), span_lo(symbol)),
            frac_le(span_hi(byte_walk(unit_span(), output@)), span_hi(symbol)),
        decreases
            (if left_inside {
                0nat
            } else {
                1nat
            }),
            (if left_inside {
                settle_excess(model.byte_span(), symbol)
            } else {
                crate::reference::byte_excess(model.byte_span(), symbol)
            }),
    {
        let ghost before = output@;
        let ghost span = model.byte_span();
        proof {
            lemma_byte_walk_shape(before);
            lemma_span_ends(symbol);
        }
        let byte: u8;
        let mut next_left_inside = left_inside;
        if left_inside {
            if model.right_end_inside() {
                break;
            }
            byte = 0;
            proof {
                lemma_settle_excess_shrinks(span, symbol);
                lemma_frac_scale(span_lo(symbol), span.0, span.2, 256);
                lemma_frac_scale(span_hi(symbol), span.0, span.2, 256);
            }
        } else {
            match model.first_left_inside() {
                Some(b) => {
                    byte = b;
                    next_left_inside = true;
                    proof {
                        lemma_canonical_first_inside(symbol, span, b as int);
                        lemma_byte_edges_within(span, 0);
                        lemma_frac_scale(span_lo(symbol), span.0, span.2, 256);
                        if frac_le(span_hi(symbol), byte_edge(span, b as int)) {
                            // The pick would sit on the symbol interval's right end.
                            assert(b > 0);
                            let c = (b - 1) as int;
                            assert(!left_edge_inside(symbol, span, c));
                            lemma_byte_edges_ordered(span, c, b as int);
                            lemma_frac_le_trans(byte_edge(span, c), byte_edge(span, b as int), span_hi(symbol));
                            let bytes = before.push(c as u8);
                            lemma_byte_walk_push(before, c as u8);
                            assert(byte_edge(span, c + 1).0 == byte_child_span(span, c as nat).1);
                            assert(span_contains(byte_walk(unit_span(), bytes), symbol));
                            assert(right_end_shared(symbol));
                        }
                    }
                },
                None => {
                    proof {
                        lemma_byte_edges_within(span, 0);
                        lemma_frac_scale(span_lo(symbol), span.0, span.2, 256);
                        assert(frac_le(byte_edge(span, 0), span_lo(symbol)));
                        lemma_edge_ends(model.weights_spec(), symbol, span);
                        lemma_frac_scale(span_lo(symbol), span.1, span.2, 256);
                        lemma_frac_scale(span_hi(symbol), span.1, span.2, 256);
                        if frac_le(byte_edge(span, 256), span_lo(symbol)) {
                            lemma_frac_le_trans(span_hi(symbol), span_hi(span), span_lo(symbol));
                            assert(symbol.1 * symbol.2 <= symbol.0 * symbol.2);
                            assert(false) by (nonlinear_arith)
                                requires
                                    symbol.1 * symbol.2 <= symbol.0 * symbol.2,
                                    symbol.0 < symbol.1,
                                    symbol.2 > 0,
                            ;
                        }
                        lemma_left_end_exists(symbol, span, 0);
                    }
                    match model.left_end_byte() {
                        Some(b) => {
                            byte = b;
                            proof {
                                lemma_canonical_left_end(symbol, span, b as int);
                                let child = byte_child_span(span, b as nat);
                                assert(byte_edge(span, b + 1).0 == child.1);
                                // The child still holds the whole symbol interval.
                                if (b as int) + 1 < 256 {
                                    assert(!left_edge_inside(symbol, span, b + 1));
                                    lemma_frac_total(byte_edge(span, b + 1), span_hi(symbol));
                                } else {
                                    lemma_frac_scale(span_hi(symbol), span.1, span.2, 256);
                                }
                                assert(span_contains(child, symbol));
                                crate::reference::lemma_byte_excess_shrinks(span, symbol, b as nat);
                                crate::reference::lemma_byte_child_width(span, b as nat);
                                // Nothing strictly holds the symbol interval inside the child.
                                assert forall|c: int| !strictly_holds(symbol, child, c) by {
                                    if strictly_holds(symbol, child, c) {
                                        lemma_byte_edges_within(child, c + 1);
                                        lemma_frac_total(byte_edge(child, c + 1), span_hi(symbol));
                                        lemma_frac_le_trans(span_hi(symbol), byte_edge(child, c + 1), span_hi(child));
                                        if frac_le(byte_edge(span, b + 1), span_hi(symbol)) {
                                            lemma_frac_le_trans(
                                                byte_edge(child, c + 1),
                                                span_hi(child),
                                                span_hi(symbol),
                                            );
                                        }
                                        assert(strictly_holds(symbol, span, b as int));
                                    }
                                }
                            }
                        },
                        None => {
                            proof {
                                assert(false);
                            }
                            byte = 0;
                        },
                    }
                },
            }
        }
        proof {
            lemma_byte_walk_push(before, byte);
        }
        model.push_byte(byte);
        output.push(byte);
        left_inside = next_left_inside;
        proof {
            assert forall|k: int| 0 <= k < output@.len() implies canonical_next_byte(
                symbol,
                byte_walk(unit_span(), #[trigger] output@.take(k)),
            ) == Some(output@[k]) by {
                if k < before.len() {
                    assert(output@.take(k) =~= before.take(k));
                } else {
                    assert(output@.take(k) =~= before);
                }
            }
        }
    }
}

/// Reading the byte interval `byte` decodes exactly `input`: along the
/// message (`input` and then the end marker), each symbol's child strictly
/// holds `byte`.
pub open spec fn decodes_to(weights: Seq<u64>, input: Seq<u8>, byte: (nat, nat, nat)) -> bool {
    forall|k: int|
        0 <= k < message(input).len() ==> symbol_strictly_holds(
            weights,
            #[trigger] symbol_walk(weights, unit_span(), message(input).take(k)),
            byte,
            symbol_index(message(input)[k]),
        )
}

/// Every symbol interval is ordered with a positive denominator.
pub(crate) proof fn lemma_symbol_walk_shape(weights: Seq<u64>, symbols: Seq<ByteSymbol>)
    requires
        weights.len() == 257,
        model_total(weights) > 0,
    ensures
        symbol_walk(weights, unit_span(), symbols).0 <= symbol_walk(weights, unit_span(), symbols).1,
        symbol_walk(weights, unit_span(), symbols).2 > 0,
    decreases symbols.len(),
{
    if symbols.len() > 0 {
        let parent = symbol_walk(weights, unit_span(), symbols.drop_last());
        lemma_symbol_walk_shape(weights, symbols.drop_last());
        crate::reference::lemma_symbol_child_shape(weights, parent, symbol_index(symbols.last()));
        assert(parent.2 * model_total(weights) > 0) by (nonlinear_arith)
            requires
                parent.2 > 0,
                model_total(weights) > 0,
        ;
    }
}

/// A longer symbol walk lies inside a shorter one.
pub(crate) proof fn lemma_symbol_walk_nested(weights: Seq<u64>, symbols: Seq<ByteSymbol>, k: int)
    requires
        weights.len() == 257,
        model_total(weights) > 0,
        0 <= k <= symbols.len(),
    ensures
        span_contains(
            symbol_walk(weights, unit_span(), symbols.take(k)),
            symbol_walk(weights, unit_span(), symbols),
        ),
    decreases symbols.len() - k,
{
    let outer = symbol_walk(weights, unit_span(), symbols.take(k));
    lemma_symbol_walk_shape(weights, symbols.take(k));
    lemma_symbol_walk_shape(weights, symbols);
    if k == symbols.len() {
        assert(symbols.take(k) =~= symbols);
        assert(outer.0 * outer.2 <= outer.0 * outer.2);
        assert(outer.1 * outer.2 <= outer.1 * outer.2);
    } else {
        lemma_symbol_walk_nested(weights, symbols, k + 1);
        let middle = symbol_walk(weights, unit_span(), symbols.take(k + 1));
        assert(symbols.take(k + 1).drop_last() =~= symbols.take(k));
        lemma_prefix_weight_bounds(weights, 257);
        let index = symbol_index(symbols[k]);
        crate::reference::lemma_child_within(
            outer,
            prefix_weight(weights, index),
            prefix_weight(weights, index + 1),
            model_total(weights),
        );
        lemma_symbol_walk_shape(weights, symbols.take(k + 1));
        crate::reference::lemma_contains_trans(outer, middle, symbol_walk(weights, unit_span(), symbols));
    }
}

/// A byte walk lies inside the walk of any of its prefixes.
pub(crate) proof fn lemma_byte_walk_nested(bytes: Seq<u8>, t: int)
    requires
        0 <= t <= bytes.len(),
    ensures
        span_contains(byte_walk(unit_span(), bytes.take(t)), byte_walk(unit_span(), bytes)),
    decreases bytes.len() - t,
{
    let outer = byte_walk(unit_span(), bytes.take(t));
    lemma_byte_walk_shape(bytes.take(t));
    lemma_byte_walk_shape(bytes);
    if t == bytes.len() {
        assert(bytes.take(t) =~= bytes);
        assert(outer.0 * outer.2 <= outer.0 * outer.2);
        assert(outer.1 * outer.2 <= outer.1 * outer.2);
    } else {
        lemma_byte_walk_nested(bytes, t + 1);
        let middle = byte_walk(unit_span(), bytes.take(t + 1));
        lemma_byte_walk_push(bytes.take(t), bytes[t]);
        assert(bytes.take(t).push(bytes[t]) =~= bytes.take(t + 1));
        crate::reference::lemma_child_within(outer, bytes[t] as nat, bytes[t] as nat + 1, 256);
        lemma_byte_walk_shape(bytes.take(t + 1));
        crate::reference::lemma_contains_trans(outer, middle, byte_walk(unit_span(), bytes));
    }
}

/// Two symbol children that both contain a nonempty interval are the same
/// child.
pub(crate) proof fn lemma_children_disjoint(
    weights: Seq<u64>,
    symbol: (nat, nat, nat),
    byte: (nat, nat, nat),
    i: int,
    j: int,
)
    requires
        weights.len() == 257,
        model_total(weights) > 0,
        symbol.0 <= symbol.1,
        symbol.2 > 0,
        byte.0 < byte.1,
        byte.2 > 0,
        0 <= i < 257,
        0 <= j < 257,
        span_contains(symbol_child_span(weights, symbol, i), byte),
        span_contains(symbol_child_span(weights, symbol, j), byte),
    ensures
        i == j,
{
    assert(symbol.2 * model_total(weights) > 0) by (nonlinear_arith)
        requires
            symbol.2 > 0,
            model_total(weights) > 0,
    ;
    lemma_span_ends(byte);
    if i != j {
        let (a, b) = if i < j {
            (i, j)
        } else {
            (j, i)
        };
        lemma_symbol_edges_ordered(weights, symbol, a + 1, b);
        assert(symbol_edge(weights, symbol, a + 1).0 == symbol_child_span(weights, symbol, a).1);
        // The byte interval's right end is at most the first child's right
        // end, which is at most the second child's left end, which is at
        // most the byte interval's left end.
        assert(frac_le(span_hi(byte), symbol_edge(weights, symbol, a + 1)));
        assert(frac_le(symbol_edge(weights, symbol, b), span_lo(byte)));
        lemma_frac_le_trans(span_hi(byte), symbol_edge(weights, symbol, a + 1), symbol_edge(weights, symbol, b));
        lemma_frac_le_trans(span_hi(byte), symbol_edge(weights, symbol, b), span_lo(byte));
        assert(byte.1 * byte.2 <= byte.0 * byte.2);
        assert(false) by (nonlinear_arith)
            requires
                byte.1 * byte.2 <= byte.0 * byte.2,
                byte.0 < byte.1,
                byte.2 > 0,
        ;
    }
}

/// The first `k` bytes of `input`, as symbols, open its message.
pub(crate) proof fn lemma_message_prefix(input: Seq<u8>, k: int)
    requires
        0 <= k <= input.len(),
    ensures
        message(input).take(k) == input.take(k).map_values(|byte: u8| ByteSymbol::Byte(byte)),
        k < input.len() ==> message(input)[k] == ByteSymbol::Byte(input[k]),
        k == input.len() ==> message(input)[k] == ByteSymbol::Eos,
        message(input).len() == input.len() + 1,
{
    assert(message(input).take(k) =~= input.take(k).map_values(|byte: u8| ByteSymbol::Byte(byte)));
}

/// Decoding the canonical encoding gives the input back: when the final
/// byte interval lies inside the final symbol interval with its left end
/// strictly inside, reading it decodes exactly the input. The bytes of
/// `frontier_compress` meet these conditions, and `frontier_decompress`
/// returns the input of every byte string that decodes to it.
pub proof fn lemma_canonical_encoding_decodes(weights: Seq<u64>, input: Seq<u8>, encoded: Seq<u8>)
    requires
        weights.len() == 257,
        model_total(weights) > 0,
        !frac_le(
            span_lo(byte_walk(unit_span(), encoded)),
            span_lo(symbol_walk(weights, unit_span(), message(input))),
        ),
        frac_le(
            span_hi(byte_walk(unit_span(), encoded)),
            span_hi(symbol_walk(weights, unit_span(), message(input))),
        ),
    ensures
        decodes_to(weights, input, byte_walk(unit_span(), encoded)),
{
    let msg = message(input);
    let byte = byte_walk(unit_span(), encoded);
    let last = symbol_walk(weights, unit_span(), msg);
    lemma_byte_walk_shape(encoded);
    lemma_symbol_walk_shape(weights, msg);
    assert forall|k: int| 0 <= k < msg.len() implies symbol_strictly_holds(
        weights,
        #[trigger] symbol_walk(weights, unit_span(), msg.take(k)),
        byte,
        symbol_index(msg[k]),
    ) by {
        let parent = symbol_walk(weights, unit_span(), msg.take(k));
        let index = symbol_index(msg[k]);
        let child = symbol_child_span(weights, parent, index);
        assert(msg.take(k + 1).drop_last() =~= msg.take(k));
        assert(symbol_walk(weights, unit_span(), msg.take(k + 1)) == child);
        lemma_symbol_walk_nested(weights, msg, k + 1);
        lemma_symbol_walk_shape(weights, msg.take(k + 1));
        assert(symbol_edge(weights, parent, index + 1).0 == child.1);
        // The child's left end is at most the final interval's left end,
        // which lies strictly below the byte interval's left end.
        if frac_le(span_lo(byte), span_lo(child)) {
            lemma_frac_le_trans(span_lo(byte), span_lo(child), span_lo(last));
        }
        lemma_frac_le_trans(span_hi(byte), span_hi(last), span_hi(child));
    }
}

/// Compress through the purified transducer interface alone.
///
/// The model never emits bytes. The driver advances the symbol prefix,
/// examines the frontier, and advances the byte prefix whenever a byte child
/// is forced. Finalization chooses a canonical radix path that ends inside
/// the final end-of-stream cylinder with its left end strictly inside it, so
/// a decoder can eventually force the end of the stream.
pub fn frontier_compress(weights: [u64; SYMBOLS], input: &[u8]) -> (r: Vec<u8>)
    requires
        model_total(weights@) > 0,
        forall|k: int| 0 <= k < input@.len() ==> weights@[#[trigger] input@[k] as int] > 0,
        weights@[256] > 0,
        !right_end_shared(symbol_walk(weights@, unit_span(), message(input@))),
    ensures
        forall|k: int|
            0 <= k < r@.len() ==> canonical_next_byte(
                symbol_walk(weights@, unit_span(), message(input@)),
                byte_walk(unit_span(), #[trigger] r@.take(k)),
            ) == Some(r@[k]),
        canonical_next_byte(symbol_walk(weights@, unit_span(), message(input@)), byte_walk(unit_span(), r@))
            is None,
        !frac_le(
            span_lo(byte_walk(unit_span(), r@)),
            span_lo(symbol_walk(weights@, unit_span(), message(input@))),
        ),
        frac_le(
            span_hi(byte_walk(unit_span(), r@)),
            span_hi(symbol_walk(weights@, unit_span(), message(input@))),
        ),
{
    let mut model = ReferenceFrontierModel::new(weights);
    let mut output: Vec<u8> = Vec::new();
    let ghost msg = message(input@);
    proof {
        assert(msg.take(0) =~= Seq::<ByteSymbol>::empty());
        assert(output@ =~= Seq::<u8>::empty());
        assert(span_contains(unit_span(), unit_span()));
    }
    let mut index: usize = 0;
    while index < input.len()
        invariant
            index <= input@.len(),
            msg == message(input@),
            model_total(weights@) > 0,
            forall|k: int| 0 <= k < input@.len() ==> weights@[#[trigger] input@[k] as int] > 0,
            model.weights_spec() == weights@,
            model.symbol_span() == symbol_walk(weights@, unit_span(), msg.take(index as int)),
            model.symbol_span().0 < model.symbol_span().1,
            model.byte_span() == byte_walk(unit_span(), output@),
            span_contains(model.byte_span(), model.symbol_span()),
            forall|k: int|
                0 <= k < output@.len() ==> strictly_holds(
                    model.symbol_span(),
                    byte_walk(unit_span(), #[trigger] output@.take(k)),
                    output@[k] as int,
                ),
        decreases input@.len() - index,
    {
        let symbol = ByteSymbol::Byte(input[index]);
        proof {
            assert(msg[index as int] == symbol);
            assert(msg.take(index + 1).drop_last() =~= msg.take(index as int));
        }
        encode_symbol(&mut model, &mut output, symbol);
        index = index + 1;
    }
    proof {
        assert(msg[input@.len() as int] == ByteSymbol::Eos);
        assert(msg.take(input@.len() as int + 1).drop_last() =~= msg.take(input@.len() as int));
        assert(msg.take(input@.len() as int + 1) =~= msg);
    }
    encode_symbol(&mut model, &mut output, ByteSymbol::Eos);
    proof {
        use_type_invariant(&model);
        let symbol = model.symbol_span();
        assert forall|k: int| 0 <= k < output@.len() implies canonical_next_byte(
            symbol,
            byte_walk(unit_span(), #[trigger] output@.take(k)),
        ) == Some(output@[k]) by {
            lemma_byte_walk_shape(output@.take(k));
            lemma_canonical_forced(symbol, byte_walk(unit_span(), output@.take(k)), output@[k] as int);
        }
    }
    finish_bytes(&mut model, &mut output);
    output
}

/// Inverse of [`frontier_compress`], again through the transducer interface
/// and the frontier order alone. Exact-boundary ties are handled
/// conservatively by waiting for more byte refinement.
pub fn frontier_decompress(weights: [u64; SYMBOLS], input: &[u8]) -> (r: Option<Vec<u8>>)
    requires
        model_total(weights@) > 0,
        input@.len() > 0 ==> crate::reference::splits_mass(weights@),
    ensures
        r matches Some(out) ==> exists|k: int|
            1 <= k <= input@.len() && span_contains(
                symbol_walk(weights@, unit_span(), message(out@)),
                #[trigger] byte_walk(unit_span(), input@.take(k)),
            ),
        forall|x: Seq<u8>|
            #[trigger] decodes_to(weights@, x, byte_walk(unit_span(), input@)) ==> (r matches Some(out) && out@
                == x),
{
    let mut model = ReferenceFrontierModel::new(weights);
    let mut output: Vec<u8> = Vec::new();
    let mut index: usize = 0;
    let ghost full = byte_walk(unit_span(), input@);
    proof {
        assert(output@.map_values(|byte: u8| ByteSymbol::Byte(byte)) =~= Seq::<ByteSymbol>::empty());
        assert(input@.take(0) =~= Seq::<u8>::empty());
        assert forall|x: Seq<u8>| #[trigger] decodes_to(weights@, x, full) implies output@.len() <= x.len()
            && output@ == x.take(output@.len() as int) by {
            assert(x.take(0) =~= output@);
        }
    }
    while index < input.len()
        invariant
            index <= input@.len(),
            full == byte_walk(unit_span(), input@),
            model_total(weights@) > 0,
            input@.len() > 0 ==> crate::reference::splits_mass(weights@),
            model.weights_spec() == weights@,
            model.symbol_span() == symbol_walk(
                weights@,
                unit_span(),
                output@.map_values(|byte: u8| ByteSymbol::Byte(byte)),
            ),
            model.symbol_span().0 < model.symbol_span().1,
            model.byte_span() == byte_walk(unit_span(), input@.take(index as int)),
            forall|x: Seq<u8>| #[trigger]
                decodes_to(weights@, x, full) ==> output@.len() <= x.len() && output@ == x.take(
                    output@.len() as int,
                ),
            index > 0 ==> forall|j: int|
                !symbol_strictly_holds(weights@, model.symbol_span(), model.byte_span(), j),
        decreases input@.len() - index,
    {
        proof {
            lemma_byte_walk_push(input@.take(index as int), input@[index as int]);
            assert(input@.take(index as int).push(input@[index as int]) =~= input@.take(index + 1));
        }
        model.push_byte(input[index]);
        index = index + 1;
        loop
            invariant
                1 <= index <= input@.len(),
                full == byte_walk(unit_span(), input@),
                model_total(weights@) > 0,
                crate::reference::splits_mass(weights@),
                model.weights_spec() == weights@,
                model.symbol_span() == symbol_walk(
                    weights@,
                    unit_span(),
                    output@.map_values(|byte: u8| ByteSymbol::Byte(byte)),
                ),
                model.symbol_span().0 < model.symbol_span().1,
                model.byte_span() == byte_walk(unit_span(), input@.take(index as int)),
                forall|x: Seq<u8>| #[trigger]
                    decodes_to(weights@, x, full) ==> output@.len() <= x.len() && output@ == x.take(
                        output@.len() as int,
                    ),
            ensures
                1 <= index <= input@.len(),
                model.weights_spec() == weights@,
                model.symbol_span() == symbol_walk(
                    weights@,
                    unit_span(),
                    output@.map_values(|byte: u8| ByteSymbol::Byte(byte)),
                ),
                model.symbol_span().0 < model.symbol_span().1,
                model.byte_span() == byte_walk(unit_span(), input@.take(index as int)),
                forall|x: Seq<u8>| #[trigger]
                    decodes_to(weights@, x, full) ==> output@.len() <= x.len() && output@ == x.take(
                        output@.len() as int,
                    ),
                forall|j: int| !symbol_strictly_holds(weights@, model.symbol_span(), model.byte_span(), j),
            decreases crate::reference::symbol_excess(model.symbol_span(), model.byte_span(), model_total(weights@)),
        {
            let ghost symbol = model.symbol_span();
            let ghost byte = model.byte_span();
            let ghost decoded = output@.map_values(|byte: u8| ByteSymbol::Byte(byte));
            let ghost before = output@;
            let j = match model.forced_symbol() {
                None => {
                    break;
                },
                Some(j) => j,
            };
            let next = ByteSymbol::from_index(j);
            proof {
                use_type_invariant(&model);
                lemma_byte_walk_shape(input@.take(index as int));
                lemma_symbol_strictly_holds_contains(weights@, symbol, byte, j as int);
                assert(decoded.push(next).drop_last() =~= decoded);
                assert forall|x: Seq<u8>| #[trigger] decodes_to(weights@, x, full) implies symbol_index(
                    message(x)[before.len() as int],
                ) == j by {
                    lemma_decoded_symbol_matches(weights@, x, input@, index as int, before, j as int);
                }
            }
            model.push_symbol(next);
            match next {
                ByteSymbol::Byte(value) => {
                    proof {
                        crate::reference::lemma_symbol_excess_shrinks(weights@, symbol, byte, j as int);
                        crate::reference::lemma_symbol_child_shape(weights@, symbol, j as int);
                    }
                    output.push(value);
                    proof {
                        assert(output@.map_values(|byte: u8| ByteSymbol::Byte(byte)) =~= decoded.push(next));
                        assert forall|x: Seq<u8>| #[trigger] decodes_to(weights@, x, full) implies output@.len()
                            <= x.len() && output@ == x.take(output@.len() as int) by {
                            lemma_message_prefix(x, before.len() as int);
                            if before.len() == x.len() {
                                assert(message(x)[before.len() as int] == ByteSymbol::Eos);
                            }
                            assert(x.take(output@.len() as int) =~= before.push(value));
                        }
                    }
                },
                ByteSymbol::Eos => {
                    proof {
                        assert(message(output@) =~= decoded.push(next));
                        assert forall|x: Seq<u8>| #[trigger] decodes_to(weights@, x, full) implies output@ == x by {
                            lemma_message_prefix(x, before.len() as int);
                            if before.len() < x.len() {
                                assert(message(x)[before.len() as int] == ByteSymbol::Byte(x[before.len() as int]));
                            }
                            assert(x.take(x.len() as int) =~= x);
                        }
                    }
                    return Some(output);
                },
            }
        }
    }
    proof {
        assert forall|x: Seq<u8>| !#[trigger] decodes_to(weights@, x, full) by {
            if decodes_to(weights@, x, full) {
                let k = output@.len() as int;
                lemma_message_prefix(x, k);
                assert(message(x).take(k) =~= output@.map_values(|byte: u8| ByteSymbol::Byte(byte)));
                assert(symbol_strictly_holds(
                    weights@,
                    symbol_walk(weights@, unit_span(), message(x).take(k)),
                    full,
                    symbol_index(message(x)[k]),
                ));
                if index > 0 {
                    assert(input@.take(index as int) =~= input@);
                } else {
                    assert(input@ =~= Seq::<u8>::empty());
                    assert(full == unit_span());
                }
            }
        }
    }
    None
}

/// While decoding toward a message whose symbols each strictly hold the
/// whole input's byte interval, the symbol forced by any prefix of the input
/// is that message's next symbol.
proof fn lemma_decoded_symbol_matches(
    weights: Seq<u64>,
    x: Seq<u8>,
    input: Seq<u8>,
    t: int,
    decoded: Seq<u8>,
    j: int,
)
    requires
        weights.len() == 257,
        model_total(weights) > 0,
        decodes_to(weights, x, byte_walk(unit_span(), input)),
        0 <= t <= input.len(),
        decoded.len() <= x.len(),
        decoded == x.take(decoded.len() as int),
        symbol_strictly_holds(
            weights,
            symbol_walk(weights, unit_span(), decoded.map_values(|byte: u8| ByteSymbol::Byte(byte))),
            byte_walk(unit_span(), input.take(t)),
            j,
        ),
    ensures
        symbol_index(message(x)[decoded.len() as int]) == j,
{
    let k = decoded.len() as int;
    let full = byte_walk(unit_span(), input);
    let partial = byte_walk(unit_span(), input.take(t));
    let symbols = decoded.map_values(|byte: u8| ByteSymbol::Byte(byte));
    let parent = symbol_walk(weights, unit_span(), symbols);
    lemma_message_prefix(x, k);
    assert(message(x).take(k) =~= symbols);
    let m = symbol_index(message(x)[k]);
    assert(symbol_strictly_holds(weights, symbol_walk(weights, unit_span(), message(x).take(k)), full, m));
    lemma_byte_walk_shape(input);
    lemma_byte_walk_shape(input.take(t));
    lemma_symbol_walk_shape(weights, symbols);
    lemma_symbol_strictly_holds_contains(weights, parent, full, m);
    lemma_symbol_strictly_holds_contains(weights, parent, partial, j);
    lemma_byte_walk_nested(input, t);
    assert(parent.2 * model_total(weights) > 0) by (nonlinear_arith)
        requires
            parent.2 > 0,
            model_total(weights) > 0,
    ;
    crate::reference::lemma_contains_trans(symbol_child_span(weights, parent, j), partial, full);
    lemma_children_disjoint(weights, parent, full, m, j);
}

/// A symbol child that strictly holds the byte interval contains it and
/// carries weight.
proof fn lemma_symbol_strictly_holds_contains(
    weights: Seq<u64>,
    symbol: (nat, nat, nat),
    byte: (nat, nat, nat),
    j: int,
)
    requires
        symbol_strictly_holds(weights, symbol, byte, j),
        weights.len() == 257,
        model_total(weights) > 0,
        symbol.0 <= symbol.1,
        symbol.2 > 0,
        byte.0 < byte.1,
        byte.2 > 0,
    ensures
        span_contains(symbol_child_span(weights, symbol, j), byte),
        weights[j] > 0,
{
    let t = model_total(weights);
    assert(symbol.2 * t > 0) by (nonlinear_arith)
        requires
            symbol.2 > 0,
            t > 0,
    ;
    let child = symbol_child_span(weights, symbol, j);
    assert(symbol_edge(weights, symbol, j + 1).0 == child.1);
    lemma_frac_total(span_lo(byte), symbol_edge(weights, symbol, j));
    lemma_span_ends(byte);
    lemma_frac_le_trans(span_lo(byte), span_hi(byte), symbol_edge(weights, symbol, j + 1));
    if weights[j] == 0 {
        assert(prefix_weight(weights, j + 1) == prefix_weight(weights, j));
        assert(symbol_edge(weights, symbol, j + 1) == symbol_edge(weights, symbol, j));
    }
}
} // verus!
