//! A complete symbol/byte refinement frontier packed into 512 bits by the
//! combinatorial rank of its edge interleaving.
use vstd::prelude::*;

use crate::bignum::{
    big_add, big_from_bytes_le, big_le, big_sub, big_to_bytes_le, digits_from_u64, exp2, lemma_exp2_adds,
    lemma_exp2_monotone, lemma_exp2_positive, lemma_exp2_small, nat_of, nat_of_bytes,
};
use crate::partition::count_true;

pub mod binomial;

use binomial::{binom, lemma_binom_monotone, lemma_binom_zero_above, lemma_frontier_count_fits, Binomials};

verus! {

/// Number of edges of the next 257-way symbol partition, including both
/// endpoints of the current symbol cylinder.
pub const SYMBOL_EDGES: usize = 258;

/// Number of edges of the next radix-256 byte partition, including both
/// endpoints of the current byte cylinder.
pub const BYTE_EDGES: usize = 257;

/// Total ordered edge events in the complete local frontier.
pub const FRONTIER_EVENTS: usize = SYMBOL_EDGES + BYTE_EDGES;

/// The rank of an event pattern when the `j`-th symbol event counts from
/// `offset + 1`: the symbol event at position `p` whose count is `c`
/// contributes `C(p, c)`.
pub open spec fn shifted_rank(events: Seq<bool>, offset: nat) -> nat
    decreases events.len(),
{
    if events.len() == 0 {
        0
    } else {
        shifted_rank(events.drop_last(), offset) + if events.last() {
            binom((events.len() - 1) as nat, offset + count_true(events))
        } else {
            0
        }
    }
}

/// The combinatorial rank of an event pattern: with symbol events at
/// positions `p_1 < ... < p_k`, the sum of `C(p_i, i)`.
pub open spec fn combinadic_rank(events: Seq<bool>) -> nat {
    shifted_rank(events, 0)
}

pub proof fn lemma_count_true_bound(events: Seq<bool>)
    ensures
        count_true(events) <= events.len(),
    decreases events.len(),
{
    if events.len() > 0 {
        lemma_count_true_bound(events.drop_last());
    }
}

/// The rank of a pattern stays below the number of patterns of its length
/// and count.
pub proof fn lemma_rank_bound(events: Seq<bool>)
    ensures
        combinadic_rank(events) < binom(events.len(), count_true(events)),
    decreases events.len(),
{
    if events.len() > 0 {
        let shorter = events.drop_last();
        let n = (events.len() - 1) as nat;
        lemma_rank_bound(shorter);
        if events.last() {
            let c = count_true(events);
            assert(c == count_true(shorter) + 1);
            assert(binom(events.len(), c) == binom(n, (c - 1) as nat) + binom(n, c));
        } else {
            lemma_binom_monotone(n, events.len(), count_true(events));
        }
    }
}

/// The last event of a pattern is a symbol event exactly when its rank
/// reaches `C(len - 1, count)`.
pub proof fn lemma_rank_threshold(events: Seq<bool>)
    requires
        events.len() > 0,
    ensures
        events.last() <==> combinadic_rank(events) >= binom((events.len() - 1) as nat, count_true(events)),
{
    let shorter = events.drop_last();
    lemma_rank_bound(shorter);
}

/// Patterns of one length and count are told apart by their rank.
pub proof fn lemma_rank_injective(a: Seq<bool>, b: Seq<bool>)
    requires
        a.len() == b.len(),
        count_true(a) == count_true(b),
        combinadic_rank(a) == combinadic_rank(b),
    ensures
        a == b,
    decreases a.len(),
{
    if a.len() > 0 {
        lemma_rank_threshold(a);
        lemma_rank_threshold(b);
        assert(a.last() == b.last());
        lemma_rank_injective(a.drop_last(), b.drop_last());
        assert(a =~= a.drop_last().push(a.last()));
        assert(b =~= b.drop_last().push(b.last()));
    } else {
        assert(a =~= b);
    }
}

/// The value of a byte string whose last byte is nonzero reaches
/// `256^(len - 1)`.
proof fn lemma_bytes_lower_bound(bytes: Seq<u8>)
    requires
        bytes.len() >= 1,
        bytes.last() != 0,
    ensures
        nat_of_bytes(bytes) >= exp2((8 * (bytes.len() - 1)) as nat),
    decreases bytes.len(),
{
    lemma_exp2_small();
    if bytes.len() == 1 {
        assert(bytes.drop_first().len() == 0);
    } else {
        let rest = bytes.drop_first();
        assert(rest.last() == bytes.last());
        lemma_bytes_lower_bound(rest);
        lemma_exp2_adds(8, (8 * (rest.len() - 1)) as nat);
        assert((8 + 8 * (rest.len() - 1)) as nat == (8 * (bytes.len() - 1)) as nat);
    }
}

/// Trailing zero bytes add nothing.
proof fn lemma_bytes_zero_padding(bytes: Seq<u8>, padded: Seq<u8>)
    requires
        padded.len() >= bytes.len(),
        forall|i: int| 0 <= i < bytes.len() ==> padded[i] == bytes[i],
        forall|i: int| bytes.len() <= i < padded.len() ==> padded[i] == 0,
    ensures
        nat_of_bytes(padded) == nat_of_bytes(bytes),
    decreases bytes.len(),
{
    if bytes.len() == 0 {
        lemma_zero_bytes(padded);
    } else {
        lemma_bytes_zero_padding(bytes.drop_first(), padded.drop_first());
    }
}

proof fn lemma_zero_bytes(bytes: Seq<u8>)
    requires
        forall|i: int| 0 <= i < bytes.len() ==> bytes[i] == 0,
    ensures
        nat_of_bytes(bytes) == 0,
    decreases bytes.len(),
{
    if bytes.len() > 0 {
        lemma_zero_bytes(bytes.drop_first());
    }
}

/// A complete symbol/byte refinement frontier packed into exactly 512 bits.
///
/// The decoded frontier contains 258 ordered symbol edges and 257 ordered byte
/// edges. A literal event bitvector would need 515 bits, but the family counts
/// are fixed, so there are only `C(515, 258)` possible interleavings. That is
/// about 510.17 bits of information. The combinatorial rank of the
/// interleaving is stored in 64 little-endian bytes.
#[derive(Clone, Copy, PartialEq, Eq, Hash, Debug)]
pub struct Frontier512 {
    bytes: [u8; 64],
}

impl Frontier512 {
    pub const BYTES: usize = 64;

    pub const BITS: usize = 512;

    #[verifier::type_invariant]
    spec fn ranked(self) -> bool {
        nat_of_bytes(self.bytes@) < binom(515, 258)
    }

    /// The stored rank.
    pub closed spec fn rank_spec(self) -> nat {
        nat_of_bytes(self.bytes@)
    }

    pub fn bytes(&self) -> (r: &[u8; 64])
        ensures
            nat_of_bytes(r@) == self.rank_spec(),
    {
        &self.bytes
    }

    /// Pack an event pattern with exactly 258 symbol events by its rank.
    pub fn from_events(events: &[bool; FRONTIER_EVENTS], binomials: &Binomials) -> (r: Self)
        requires
            count_true(events@) == 258,
            binomials.wf(),
        ensures
            r.rank_spec() == combinadic_rank(events@),
            r.events_spec() == events@,
    {
        let mut rank: Vec<u32> = digits_from_u64(0);
        let mut symbol_i: usize = 0;
        let mut pos: usize = 0;
        proof {
            assert(events@.take(0) =~= Seq::<bool>::empty());
        }
        while pos < FRONTIER_EVENTS
            invariant
                pos <= 515,
                events@.len() == 515,
                count_true(events@) == 258,
                binomials.wf(),
                symbol_i == count_true(events@.take(pos as int)),
                nat_of(rank@) == combinadic_rank(events@.take(pos as int)),
            decreases 515 - pos,
        {
            let ghost prefix = events@.take(pos + 1);
            proof {
                assert(prefix.drop_last() =~= events@.take(pos as int));
                lemma_count_prefix_bound(events@, pos + 1);
            }
            if events[pos] {
                symbol_i = symbol_i + 1;
                rank = big_add(&rank, binomials.get(pos, symbol_i));
            }
            pos = pos + 1;
        }
        proof {
            assert(events@.take(515) =~= events@);
            lemma_rank_bound(events@);
            lemma_frontier_count_fits();
        }
        let encoded = big_to_bytes_le(&rank);
        proof {
            if encoded@.len() > 1 {
                lemma_bytes_lower_bound(encoded@);
                if encoded@.len() > 64 {
                    lemma_exp2_monotone(512, (8 * (encoded@.len() - 1)) as nat);
                }
            }
        }
        let mut bytes = [0u8; 64];
        let mut i: usize = 0;
        while i < encoded.len()
            invariant
                encoded@.len() <= 64,
                i <= encoded@.len(),
                bytes@.len() == 64,
                forall|j: int| 0 <= j < i ==> bytes@[j] == encoded@[j],
                forall|j: int| i <= j < 64 ==> bytes@[j] == 0,
            decreases encoded@.len() - i,
        {
            bytes[i] = encoded[i];
            i = i + 1;
        }
        proof {
            lemma_bytes_zero_padding(encoded@, bytes@);
        }
        let r = Frontier512 { bytes };
        proof {
            let e = r.events_spec();
            assert(events@.len() == 515 && count_true(events@) == 258 && combinadic_rank(events@) == r.rank_spec());
            lemma_rank_injective(e, events@);
        }
        r
    }

    /// Expand the enumerative representation into edge positions.
    pub fn decode(&self, binomials: &Binomials) -> (r: DecodedFrontier)
        requires
            binomials.wf(),
        ensures
            r.events() == self.events_spec(),
            r.wf(),
            count_true(self.events_spec()) == 258,
            combinadic_rank(self.events_spec()) == self.rank_spec(),
    {
        proof {
            use_type_invariant(self);
        }
        let mut rank = big_from_bytes_le(&self.bytes);
        let mut events = [false; FRONTIER_EVENTS];
        let mut upper: usize = FRONTIER_EVENTS;
        let mut i: usize = SYMBOL_EDGES;
        proof {
            assert forall|p: int| 0 <= p < 515 implies !events@[p] by {
            }
            lemma_all_false_rank(events@, 258);
        }
        while i > 0
            invariant
                binomials.wf(),
                events@.len() == 515,
                i <= upper <= 515,
                i <= 258,
                nat_of(rank@) < binom(upper as nat, i as nat),
                forall|p: int| 0 <= p < upper ==> !events@[p],
                count_true(events@) == 258 - i,
                self.rank_spec() == nat_of(rank@) + shifted_rank(events@, i as nat),
            decreases i,
        {
            let mut lo: usize = i - 1;
            let mut hi: usize = upper;
            proof {
                lemma_binom_zero_above(lo as nat, i as nat);
                if upper < i {
                    lemma_binom_zero_above(upper as nat, i as nat);
                }
            }
            while lo + 1 < hi
                invariant
                    binomials.wf(),
                    i >= 1,
                    i <= 258,
                    i - 1 <= lo < hi <= upper <= 515,
                    binom(lo as nat, i as nat) <= nat_of(rank@),
                    nat_of(rank@) < binom(hi as nat, i as nat),
                decreases hi - lo,
            {
                let mid = lo + (hi - lo) / 2;
                if big_le(binomials.get(mid, i), &rank) {
                    lo = mid;
                } else {
                    hi = mid;
                }
            }
            let ghost before = events@;
            let ghost old_rank = nat_of(rank@);
            proof {
                assert(hi == lo + 1);
                assert(binom(hi as nat, i as nat) == binom(lo as nat, (i - 1) as nat) + binom(lo as nat, i as nat));
                lemma_place_symbol(before, lo as int, upper as int, i as nat);
            }
            events[lo] = true;
            rank = big_sub(&rank, binomials.get(lo, i));
            upper = lo;
            i = i - 1;
        }
        proof {
            assert(binom(upper as nat, 0) == 1);
            assert(events@ == self.events_spec()) by {
                lemma_rank_injective(events@, self.events_spec());
            }
        }
        DecodedFrontier::from_events(&events)
    }

    /// The event pattern whose rank is stored.
    pub closed spec fn events_spec(self) -> Seq<bool> {
        choose|events: Seq<bool>|
            events.len() == 515 && count_true(events) == 258 && combinadic_rank(events) == self.rank_spec()
    }
}

/// With every event `false`, the shifted rank is zero.
proof fn lemma_all_false_rank(events: Seq<bool>, offset: nat)
    requires
        forall|p: int| 0 <= p < events.len() ==> !events[p],
    ensures
        shifted_rank(events, offset) == 0,
        count_true(events) == 0,
    decreases events.len(),
{
    if events.len() > 0 {
        lemma_all_false_rank(events.drop_last(), offset);
    }
}

/// The symbol events among the first `n` number at most all of them.
proof fn lemma_count_prefix_bound(events: Seq<bool>, n: int)
    requires
        0 <= n <= events.len(),
    ensures
        count_true(events.take(n)) <= count_true(events),
    decreases events.len() - n,
{
    if n < events.len() {
        lemma_count_prefix_bound(events, n + 1);
        assert(events.take(n + 1).drop_last() =~= events.take(n));
    } else {
        assert(events.take(n) =~= events);
    }
}

/// Placing a symbol event at `lo`, below every placed event, lowers the
/// offset of every later event by one and adds `C(lo, offset)`.
proof fn lemma_place_symbol(events: Seq<bool>, lo: int, upper: int, offset: nat)
    requires
        0 <= lo < upper <= events.len(),
        offset >= 1,
        forall|p: int| 0 <= p < upper ==> !events[p],
    ensures
        shifted_rank(events.update(lo, true), (offset - 1) as nat) == shifted_rank(events, offset) + binom(
            lo as nat,
            offset,
        ),
        count_true(events.update(lo, true)) == count_true(events) + 1,
{
    lemma_place_symbol_prefix(events, lo, upper, offset, events.len() as int);
    assert(events.update(lo, true).take(events.len() as int) =~= events.update(lo, true));
    assert(events.take(events.len() as int) =~= events);
}

proof fn lemma_place_symbol_prefix(events: Seq<bool>, lo: int, upper: int, offset: nat, n: int)
    requires
        0 <= lo < upper <= events.len(),
        offset >= 1,
        forall|p: int| 0 <= p < upper ==> !events[p],
        0 <= n <= events.len(),
    ensures
        n <= lo ==> shifted_rank(events.update(lo, true).take(n), (offset - 1) as nat) == 0
            && shifted_rank(events.take(n), offset) == 0 && count_true(events.update(lo, true).take(n))
            == 0 && count_true(events.take(n)) == 0,
        n > lo ==> shifted_rank(events.update(lo, true).take(n), (offset - 1) as nat) == shifted_rank(
            events.take(n),
            offset,
        ) + binom(lo as nat, offset) && count_true(events.update(lo, true).take(n)) == count_true(
            events.take(n),
        ) + 1,
    decreases n,
{
    let placed = events.update(lo, true);
    if n > 0 {
        lemma_place_symbol_prefix(events, lo, upper, offset, n - 1);
        assert(placed.take(n).drop_last() =~= placed.take(n - 1));
        assert(events.take(n).drop_last() =~= events.take(n - 1));
        assert(placed.take(n).last() == placed[n - 1]);
        assert(events.take(n).last() == events[n - 1]);
    } else {
        assert(placed.take(0) =~= Seq::<bool>::empty());
        assert(events.take(0) =~= Seq::<bool>::empty());
    }
}

/// The number of byte events before position `p`.
pub open spec fn false_before(events: Seq<bool>, p: int) -> int {
    p - count_true(events.take(p))
}

/// `spos` and `bpos` list, in increasing order, the positions of the
/// symbol events and of the byte events of `events`.
pub open spec fn lists_positions(events: Seq<bool>, spos: Seq<u16>, bpos: Seq<u16>) -> bool {
    &&& events.len() == 515
    &&& spos.len() == 258
    &&& bpos.len() == 257
    &&& forall|j: int|
        0 <= j < 258 ==> #[trigger] spos[j] < 515 && events[spos[j] as int] && count_true(
            events.take(spos[j] as int),
        ) == j
    &&& forall|i: int|
        0 <= i < 257 ==> #[trigger] bpos[i] < 515 && !events[bpos[i] as int] && false_before(
            events,
            bpos[i] as int,
        ) == i
    &&& forall|a: int, b: int| 0 <= a < b < 258 ==> #[trigger] spos[a] < #[trigger] spos[b]
    &&& forall|a: int, b: int| 0 <= a < b < 257 ==> #[trigger] bpos[a] < #[trigger] bpos[b]
}

/// Prefix counts grow with the prefix, and strictly past an event of the
/// counted kind.
proof fn lemma_prefix_counts(events: Seq<bool>, p: int, q: int)
    requires
        0 <= p <= q <= events.len(),
    ensures
        count_true(events.take(p)) <= count_true(events.take(q)),
        false_before(events, p) <= false_before(events, q),
        p < q && events[p] ==> count_true(events.take(p)) < count_true(events.take(q)),
        p < q && !events[p] ==> false_before(events, p) < false_before(events, q),
    decreases q - p,
{
    if p < q {
        lemma_prefix_counts(events, p + 1, q);
        assert(events.take(p + 1).drop_last() =~= events.take(p));
    }
}

/// Expanded edge positions for the exact walking policy.
///
/// Positions are indices in the 515-event sorted merge. Within each family,
/// edge identity is implicit in rank order.
#[derive(Clone, Debug)]
pub struct DecodedFrontier {
    symbol_pos: [u16; SYMBOL_EDGES],
    byte_pos: [u16; BYTE_EDGES],
}

impl DecodedFrontier {
    /// The event pattern: symbol edge at `symbol_pos`, byte edge elsewhere.
    pub closed spec fn events(&self) -> Seq<bool> {
        Seq::new(515, |p: int| exists|i: int| 0 <= i < 258 && self.symbol_pos@[i] == p)
    }

    /// The positions of the symbol edges, in order.
    pub closed spec fn symbol_positions(&self) -> Seq<u16> {
        self.symbol_pos@
    }

    /// The positions of the byte edges, in order.
    pub closed spec fn byte_positions(&self) -> Seq<u16> {
        self.byte_pos@
    }

    /// The positions list the two families of `events()`.
    pub open spec fn wf(&self) -> bool {
        lists_positions(self.events(), self.symbol_positions(), self.byte_positions())
    }

    /// Byte edge `i` comes before symbol edge `j` exactly when fewer than
    /// `i + 1` byte edges come before symbol edge `j`.
    pub proof fn lemma_byte_precedes(&self, i: int, j: int)
        requires
            self.wf(),
            0 <= i < 257,
            0 <= j < 258,
        ensures
            (self.byte_positions()[i] < self.symbol_positions()[j]) == (i < self.symbol_positions()[j] - j),
            self.byte_positions()[i] != self.symbol_positions()[j],
    {
        let events = self.events();
        let s = self.symbol_positions()[j] as int;
        let b = self.byte_positions()[i] as int;
        assert(events[s]);
        assert(!events[b]);
        if b < s {
            lemma_prefix_counts(events, b, s);
        } else {
            lemma_prefix_counts(events, s, b);
        }
    }

    fn from_events(events: &[bool; FRONTIER_EVENTS]) -> (r: Self)
        requires
            count_true(events@) == 258,
        ensures
            r.events() == events@,
            r.wf(),
    {
        let mut symbol_pos = [0u16; SYMBOL_EDGES];
        let mut byte_pos = [0u16; BYTE_EDGES];
        let mut symbol_i: usize = 0;
        let mut byte_i: usize = 0;
        let mut pos: usize = 0;
        proof {
            assert(events@.take(0) =~= Seq::<bool>::empty());
        }
        while pos < FRONTIER_EVENTS
            invariant
                pos <= 515,
                events@.len() == 515,
                count_true(events@) == 258,
                symbol_i == count_true(events@.take(pos as int)),
                symbol_i + byte_i == pos,
                symbol_pos@.len() == 258,
                byte_pos@.len() == 257,
                forall|i: int|
                    0 <= i < symbol_i ==> #[trigger] symbol_pos@[i] < pos && events@[symbol_pos@[i] as int]
                        && count_true(events@.take(symbol_pos@[i] as int)) == i,
                forall|i: int|
                    0 <= i < byte_i ==> #[trigger] byte_pos@[i] < pos && !events@[byte_pos@[i] as int]
                        && false_before(events@, byte_pos@[i] as int) == i,
                forall|i: int, j: int| 0 <= i < j < symbol_i ==> #[trigger] symbol_pos@[i] < #[trigger] symbol_pos@[j],
                forall|i: int, j: int| 0 <= i < j < byte_i ==> #[trigger] byte_pos@[i] < #[trigger] byte_pos@[j],
                forall|p: int|
                    0 <= p < pos && events@[p] ==> exists|i: int| 0 <= i < symbol_i && #[trigger] symbol_pos@[i] == p,
            decreases 515 - pos,
        {
            proof {
                assert(events@.take(pos + 1).drop_last() =~= events@.take(pos as int));
                lemma_count_prefix_bound(events@, pos + 1);
                lemma_count_true_bound(events@.take(pos + 1));
            }
            if events[pos] {
                let ghost before = symbol_pos@;
                symbol_pos[symbol_i] = pos as u16;
                proof {
                    assert forall|p: int|
                        0 <= p < pos + 1 && events@[p] implies exists|i: int|
                        0 <= i < symbol_i + 1 && #[trigger] symbol_pos@[i] == p by {
                        if p == pos {
                            assert(symbol_pos@[symbol_i as int] == p);
                        } else {
                            let i = choose|i: int| 0 <= i < symbol_i && #[trigger] before[i] == p;
                            assert(symbol_pos@[i] == p);
                        }
                    }
                }
                symbol_i = symbol_i + 1;
            } else {
                proof {
                    lemma_count_prefix_bound(events@, pos + 1);
                    lemma_count_false_prefix(events@, pos + 1);
                }
                byte_pos[byte_i] = pos as u16;
                byte_i = byte_i + 1;
            }
            pos = pos + 1;
        }
        let r = DecodedFrontier { symbol_pos, byte_pos };
        proof {
            assert(events@.take(515) =~= events@);
            assert forall|p: int| 0 <= p < 515 implies r.events()[p] == events@[p] by {
                if !events@[p] {
                    if exists|i: int| 0 <= i < 258 && symbol_pos@[i] == p {
                        let i = choose|i: int| 0 <= i < 258 && symbol_pos@[i] == p;
                        assert(events@[symbol_pos@[i] as int]);
                    }
                }
            }
            assert(r.events() =~= events@);
        }
        r
    }

    /// A byte child that strictly contains the whole current symbol cylinder:
    /// the byte edge below the symbol cylinder's left edge whose successor
    /// comes after its right edge.
    ///
    /// Cross-family equality is treated conservatively: the frontier stores
    /// only the total order (byte edge before symbol edge on ties), so an
    /// exact tie delays the decision.
    pub fn forced_byte_strict(&self) -> (r: Option<u8>)
        requires
            self.wf(),
        ensures
            r matches Some(b) ==> self.byte_positions()[b as int] < self.symbol_positions()[0]
                && self.symbol_positions()[257] < self.byte_positions()[b + 1] && b < 256,
            r is None ==> forall|b: int|
                0 <= b < 256 ==> !(#[trigger] self.byte_positions()[b] < self.symbol_positions()[0]
                    && self.symbol_positions()[257] < self.byte_positions()[b + 1]),
    {
        let symbol_lo = self.symbol_pos[0];
        let symbol_hi = self.symbol_pos[SYMBOL_EDGES - 1];
        let before = self.byte_edges_before(symbol_lo);
        if before == 0 || before > 256 {
            return None;
        }
        let byte = before - 1;
        if symbol_hi < self.byte_pos[byte + 1] {
            Some(byte as u8)
        } else {
            proof {
                assert forall|b: int|
                    0 <= b < 256 implies !(#[trigger] self.byte_positions()[b] < self.symbol_positions()[0]
                        && self.symbol_positions()[257] < self.byte_positions()[b + 1]) by {
                    if b < byte {
                        assert(self.byte_positions()[b + 1] <= self.byte_positions()[byte as int]);
                    }
                }
            }
            None
        }
    }

    /// The number of byte edges whose positions come before `position`.
    fn byte_edges_before(&self, position: u16) -> (r: usize)
        requires
            self.wf(),
        ensures
            r <= 257,
            forall|i: int| 0 <= i < r ==> self.byte_positions()[i] < position,
            forall|i: int| r <= i < 257 ==> self.byte_positions()[i] >= position,
    {
        let mut count: usize = 0;
        while count < BYTE_EDGES && self.byte_pos[count] < position
            invariant
                self.wf(),
                count <= 257,
                forall|i: int| 0 <= i < count ==> self.byte_positions()[i] < position,
            decreases 257 - count,
        {
            count = count + 1;
        }
        proof {
            assert forall|i: int| count <= i < 257 implies self.byte_positions()[i] >= position by {
                if i > count {
                    assert(self.byte_positions()[count as int] < self.byte_positions()[i]);
                }
            }
        }
        count
    }

    /// The number of symbol edges whose positions come before `position`.
    fn symbol_edges_before(&self, position: u16) -> (r: usize)
        requires
            self.wf(),
        ensures
            r <= 258,
            forall|j: int| 0 <= j < r ==> self.symbol_positions()[j] < position,
            forall|j: int| r <= j < 258 ==> self.symbol_positions()[j] >= position,
    {
        let mut count: usize = 0;
        while count < SYMBOL_EDGES && self.symbol_pos[count] < position
            invariant
                self.wf(),
                count <= 258,
                forall|j: int| 0 <= j < count ==> self.symbol_positions()[j] < position,
            decreases 258 - count,
        {
            count = count + 1;
        }
        proof {
            assert forall|j: int| count <= j < 258 implies self.symbol_positions()[j] >= position by {
                if j > count {
                    assert(self.symbol_positions()[count as int] < self.symbol_positions()[j]);
                }
            }
        }
        count
    }

    /// A symbol child that strictly contains the whole current byte cylinder.
    pub fn forced_symbol_strict(&self) -> (r: Option<usize>)
        requires
            self.wf(),
        ensures
            r matches Some(j) ==> j < 257 && self.symbol_positions()[j as int] < self.byte_positions()[0]
                && self.byte_positions()[256] < self.symbol_positions()[j + 1],
            r is None ==> forall|j: int|
                0 <= j < 257 ==> !(#[trigger] self.symbol_positions()[j] < self.byte_positions()[0]
                    && self.byte_positions()[256] < self.symbol_positions()[j + 1]),
    {
        let byte_lo = self.byte_pos[0];
        let byte_hi = self.byte_pos[BYTE_EDGES - 1];
        let before = self.symbol_edges_before(byte_lo);
        if before == 0 || before > 257 {
            return None;
        }
        let symbol = before - 1;
        if byte_hi < self.symbol_pos[symbol + 1] {
            Some(symbol)
        } else {
            proof {
                assert forall|j: int|
                    0 <= j < 257 implies !(#[trigger] self.symbol_positions()[j] < self.byte_positions()[0]
                        && self.byte_positions()[256] < self.symbol_positions()[j + 1]) by {
                    if j < symbol {
                        assert(self.symbol_positions()[j + 1] <= self.symbol_positions()[symbol as int]);
                    }
                }
            }
            None
        }
    }

    /// The first byte child whose left edge lies strictly inside the current
    /// symbol cylinder.
    pub fn first_byte_with_left_inside_symbol(&self) -> (r: Option<u8>)
        requires
            self.wf(),
        ensures
            r matches Some(b) ==> self.symbol_positions()[0] < self.byte_positions()[b as int]
                < self.symbol_positions()[257] && forall|c: int|
                0 <= c < b ==> !(self.symbol_positions()[0] < #[trigger] self.byte_positions()[c]
                    < self.symbol_positions()[257]),
            r is None ==> forall|c: int|
                0 <= c < 256 ==> !(self.symbol_positions()[0] < #[trigger] self.byte_positions()[c]
                    < self.symbol_positions()[257]),
    {
        let symbol_lo = self.symbol_pos[0];
        let symbol_hi = self.symbol_pos[SYMBOL_EDGES - 1];
        let mut byte: usize = 0;
        while byte < 256
            invariant
                self.wf(),
                byte <= 256,
                symbol_lo == self.symbol_positions()[0],
                symbol_hi == self.symbol_positions()[257],
                forall|c: int|
                    0 <= c < byte ==> !(self.symbol_positions()[0] < #[trigger] self.byte_positions()[c]
                        < self.symbol_positions()[257]),
            decreases 256 - byte,
        {
            if symbol_lo < self.byte_pos[byte] && self.byte_pos[byte] < symbol_hi {
                return Some(byte as u8);
            }
            byte = byte + 1;
        }
        None
    }

    /// The byte child containing the current symbol left edge, under the
    /// byte-before-symbol tie convention.
    pub fn byte_containing_symbol_left(&self) -> (r: Option<u8>)
        requires
            self.wf(),
        ensures
            r matches Some(b) ==> self.byte_positions()[b as int] < self.symbol_positions()[0]
                < self.byte_positions()[b + 1] && b < 256,
            r is None ==> forall|b: int|
                0 <= b < 256 ==> !(#[trigger] self.byte_positions()[b] < self.symbol_positions()[0]
                    < self.byte_positions()[b + 1]),
    {
        let symbol_lo = self.symbol_pos[0];
        let before = self.byte_edges_before(symbol_lo);
        if before == 0 || before > 256 {
            proof {
                assert forall|b: int|
                    0 <= b < 256 implies !(#[trigger] self.byte_positions()[b] < self.symbol_positions()[0]
                        < self.byte_positions()[b + 1]) by {
                }
            }
            return None;
        }
        proof {
            self.lemma_byte_precedes((before - 1) as int, 0);
            self.lemma_byte_precedes(before as int, 0);
        }
        Some((before - 1) as u8)
    }

    /// The last byte edge comes before the last symbol edge.
    pub fn byte_right_strictly_before_symbol_right(&self) -> (r: bool)
        requires
            self.wf(),
        ensures
            r == (self.byte_positions()[256] < self.symbol_positions()[257]),
    {
        self.byte_pos[BYTE_EDGES - 1] < self.symbol_pos[SYMBOL_EDGES - 1]
    }

    /// The events as a string: `S` for a symbol edge, `B` for a byte edge.
    pub fn event_string(&self) -> (r: String)
        requires
            self.wf(),
        ensures
            r@.len() == 515,
            forall|p: int| 0 <= p < 515 ==> r@[p] == if self.events()[p] {
                'S'
            } else {
                'B'
            },
    {
        let mut out = String::new();
        let mut pos: usize = 0;
        let mut symbol_i: usize = 0;
        while pos < FRONTIER_EVENTS
            invariant
                self.wf(),
                pos <= 515,
                out@.len() == pos,
                symbol_i <= 258,
                forall|j: int| 0 <= j < symbol_i ==> self.symbol_positions()[j] < pos,
                forall|j: int| symbol_i <= j < 258 ==> self.symbol_positions()[j] >= pos,
                forall|p: int| 0 <= p < pos ==> out@[p] == if self.events()[p] {
                    'S'
                } else {
                    'B'
                },
            decreases 515 - pos,
        {
            let is_symbol = symbol_i < SYMBOL_EDGES && self.symbol_pos[symbol_i] as usize == pos;
            proof {
                let events = self.events();
                if is_symbol {
                    assert(events[pos as int]);
                } else {
                    assert(!events[pos as int]) by {
                        if exists|i: int| 0 <= i < 258 && self.symbol_positions()[i] == pos {
                            let i = choose|i: int| 0 <= i < 258 && self.symbol_positions()[i] == pos;
                            if i > symbol_i {
                                assert(self.symbol_positions()[symbol_i as int] < self.symbol_positions()[i]);
                            }
                        }
                    }
                }
            }
            if is_symbol {
                crate::partition::push_char(&mut out, 'S');
                symbol_i = symbol_i + 1;
            } else {
                crate::partition::push_char(&mut out, 'B');
            }
            proof {
                assert forall|j: int| symbol_i <= j < 258 implies self.symbol_positions()[j] >= pos + 1 by {
                    if is_symbol && j > symbol_i - 1 {
                        assert(self.symbol_positions()[symbol_i - 1] < self.symbol_positions()[j]);
                    }
                }
            }
            pos = pos + 1;
        }
        out
    }
}

/// Byte events in a prefix are at most those of the whole pattern.
proof fn lemma_count_false_prefix(events: Seq<bool>, n: int)
    requires
        0 <= n <= events.len(),
    ensures
        n - count_true(events.take(n)) <= events.len() - count_true(events),
    decreases events.len() - n,
{
    if n < events.len() {
        lemma_count_false_prefix(events, n + 1);
        assert(events.take(n + 1).drop_last() =~= events.take(n));
    } else {
        assert(events.take(n) =~= events);
    }
}

} // verus!
