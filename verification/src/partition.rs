//! A 512-bit coarse view of a 257-symbol distribution: its symbol boundaries
//! merged with the radix-256 byte cuts of `[0, 1]`.
use vstd::arithmetic::div_mod::{lemma_div_is_ordered, lemma_fundamental_div_mod};
use vstd::prelude::*;
use vstd::std_specs::bits::{axiom_u64_trailing_zeros, u64_trailing_zeros};

verus! {

/// Number of ordered source symbols: all byte values plus EOS.
pub const SYMBOLS: usize = 257;

/// Number of boundaries between 257 ordered source symbols.
pub const SYMBOL_BOUNDARIES: usize = 256;

/// Number of radix-256 bucket right edges, including the terminal edge at 1.
pub const BYTE_CUTS: usize = 256;

/// Total events in the merged boundary stream.
pub const EVENTS: usize = SYMBOL_BOUNDARIES + BYTE_CUTS;

/// Bit `j` of `word`.
pub open spec fn word_bit(word: u64, j: int) -> bool {
    (word >> (j as u64)) & 1 == 1
}

/// The number of set bits among the lowest `n` bits of `word`.
pub open spec fn ones_below(word: u64, n: nat) -> nat
    decreases n,
{
    if n == 0 {
        0
    } else {
        ones_below(word, (n - 1) as nat) + if word_bit(word, n - 1) {
            1nat
        } else {
            0nat
        }
    }
}

/// `count_ones` returns the number of ones in the binary representation.
pub assume_specification[ u64::count_ones ](word: u64) -> (r: u32)
    ensures
        r == ones_below(word, 64),
;

/// The number of `true` entries of `bits`.
pub open spec fn count_true(bits: Seq<bool>) -> nat
    decreases bits.len(),
{
    if bits.len() == 0 {
        0
    } else {
        count_true(bits.drop_last()) + if bits.last() {
            1nat
        } else {
            0nat
        }
    }
}

/// `sum(weights[..n])`.
pub open spec fn prefix_weight(weights: Seq<u64>, n: int) -> nat
    decreases n,
{
    if n <= 0 {
        0
    } else {
        prefix_weight(weights, n - 1) + weights[n - 1] as nat
    }
}

/// The number of byte cuts `(j + 1) / 256` at or below `cumulative / total`.
pub open spec fn cuts_below(cumulative: nat, total: nat) -> int {
    (256 * cumulative) as int / total as int
}

/// The position in the merged stream of symbol boundary `k`, which lies at
/// `sum(weights[..=k]) / sum(weights)`: it comes after the `k` earlier
/// boundaries and after every byte cut at or below it.
pub open spec fn symbol_position(weights: Seq<u64>, k: int) -> int {
    k + cuts_below(prefix_weight(weights, k + 1), prefix_weight(weights, 257))
}

/// The merged event stream of `weights`: `true` at each symbol boundary,
/// `false` at each byte cut.
pub open spec fn merged_events(weights: Seq<u64>) -> Seq<bool> {
    Seq::new(
        512,
        |p: int| exists|k: int| 0 <= k < 256 && #[trigger] symbol_position(weights, k) == p,
    )
}

/// Exactly one cache-line-sized (on common CPUs) coarse view of a distribution.
///
/// Event encoding, from low probability coordinate to high:
/// - `1`: next symbol boundary
/// - `0`: next radix-256 bucket right edge
///
/// Each family is already internally ordered, so event identities are implicit.
/// The kth 1-bit is symbol boundary k; the kth 0-bit is byte-cut k.
///
/// Ties use `byte-cut before symbol-boundary`. This matches the bit ordering
/// `0 < 1`, requires no side metadata, and gives deterministic half-open-style
/// semantics.
#[derive(Clone, Copy, PartialEq, Eq, Hash, Default, Debug)]
pub struct BoundaryMerge {
    words: [u64; 8],
}

#[derive(Debug, Clone, Copy, PartialEq, Eq)]
pub enum BuildError {
    ZeroTotalWeight,
}

impl BuildError {
    /// What went wrong, in words.
    pub fn message(&self) -> (r: &'static str)
        ensures
            r@ == "all 257 symbol weights are zero"@,
    {
        match self {
            BuildError::ZeroTotalWeight => "all 257 symbol weights are zero",
        }
    }
}

/// Setting bit `i` of a word changes that bit only.
proof fn lemma_set_bit(word: u64, i: u64, j: u64)
    requires
        i < 64,
        j < 64,
    ensures
        word_bit(word | (1u64 << i), j as int) == (word_bit(word, j as int) || i == j),
{
    assert(((word | (1u64 << i)) >> j) & 1 == 1 <==> ((word >> j) & 1 == 1 || i == j)) by (bit_vector)
        requires
            i < 64,
            j < 64,
    ;
}

/// The low bits of a word under a mask of its lowest `rem` bits.
proof fn lemma_mask_bit(word: u64, rem: u64, j: u64)
    requires
        rem < 64,
        j < 64,
    ensures
        word_bit(word & ((1u64 << rem) - 1) as u64, j as int) == (word_bit(word, j as int) && j < rem),
{
    assert(((word & ((1u64 << rem) - 1) as u64) >> j) & 1 == 1 <==> ((word >> j) & 1 == 1 && j < rem))
        by (bit_vector)
        requires
            rem < 64,
            j < 64,
    ;
    assert((1u64 << rem) >= 1) by (bit_vector)
        requires
            rem < 64,
    ;
}

proof fn lemma_zero_word(j: u64)
    requires
        j < 64,
    ensures
        !word_bit(0u64, j as int),
{
    assert((0u64 >> j) & 1 == 0) by (bit_vector);
}

proof fn lemma_not_bit(word: u64, j: u64)
    requires
        j < 64,
    ensures
        word_bit(!word, j as int) == !word_bit(word, j as int),
{
    assert(((!word >> j) & 1 == 1) <==> !((word >> j) & 1 == 1)) by (bit_vector)
        requires
            j < 64,
    ;
}

pub proof fn lemma_ones_below_bound(word: u64, n: nat)
    ensures
        ones_below(word, n) <= n,
    decreases n,
{
    if n > 0 {
        lemma_ones_below_bound(word, (n - 1) as nat);
    }
}

/// Masking to the lowest `rem` bits keeps exactly the count below `rem`.
proof fn lemma_ones_below_mask(word: u64, rem: u64, n: nat)
    requires
        rem < 64,
        n <= 64,
    ensures
        ones_below(word & ((1u64 << rem) - 1) as u64, n) == ones_below(word, if n < rem {
            n
        } else {
            rem as nat
        }),
    decreases n,
{
    if n > 0 {
        lemma_ones_below_mask(word, rem, (n - 1) as nat);
        lemma_mask_bit(word, rem, (n - 1) as u64);
    }
}

/// The complement of a word has the complementary count.
proof fn lemma_ones_below_not(word: u64, n: nat)
    requires
        n <= 64,
    ensures
        ones_below(!word, n) == n - ones_below(word, n),
    decreases n,
{
    if n > 0 {
        lemma_ones_below_not(word, (n - 1) as nat);
        lemma_not_bit(word, (n - 1) as u64);
        lemma_ones_below_bound(word, (n - 1) as nat);
    }
}

/// Clearing the lowest set bit, the bit at `trailing_zeros`.
proof fn lemma_clear_lowest(word: u64, j: u64)
    requires
        word != 0,
        j < 64,
    ensures
        u64_trailing_zeros(word) < 64,
        word_bit(word, u64_trailing_zeros(word) as int),
        (j as int) < u64_trailing_zeros(word) ==> !word_bit(word, j as int),
        word_bit(word & ((word - 1) as u64), j as int) == (word_bit(word, j as int) && j != u64_trailing_zeros(
            word,
        )),
{
    axiom_u64_trailing_zeros(word);
    let t = u64_trailing_zeros(word) as u64;
    assert(((word & ((word - 1) as u64)) >> j) & 1 == 1 <==> ((word >> j) & 1 == 1 && j != t)) by (bit_vector)
        requires
            word != 0,
            t < 64,
            j < 64,
            (word >> t) & 1 == 1,
            word << ((64 - t) as u64) == 0,
    ;
    if (j as int) < t {
        assert((word >> j) & 1 == 0) by (bit_vector)
            requires
                j < t,
                t < 64,
                word << ((64 - t) as u64) == 0,
        ;
    }
}

/// The position of the `n`th set bit of `word`, counting from zero at the
/// least significant bit.
fn select_nth_set_bit(word: u64, n: usize) -> (r: usize)
    requires
        n < ones_below(word, 64),
    ensures
        r < 64,
        word_bit(word, r as int),
        ones_below(word, r as nat) == n,
{
    let ghost original = word;
    let ghost target = n;
    let mut current = word;
    let mut remaining = n;
    let ghost mut consumed: nat = 0;
    loop
        invariant
            original == word,
            target == n,
            consumed + remaining == target,
            target < ones_below(original, 64),
            consumed + remaining < ones_below(original, 64),
            forall|j: int|
                0 <= j < 64 ==> #[trigger] word_bit(current, j) == (word_bit(original, j)
                    && ones_below(original, j as nat) >= consumed),
        decreases remaining,
    {
        proof {
            assert(current != 0) by {
                // Some set bit of the original has count at least `consumed`.
                lemma_last_set_bit(original, consumed);
                let j = choose|j: int|
                    0 <= j < 64 && word_bit(original, j) && ones_below(original, j as nat) == consumed;
                assert(word_bit(current, j));
                if current == 0 {
                    lemma_zero_word((j % 64) as u64);
                }
            }
        }
        let bit = current.trailing_zeros() as usize;
        proof {
            lemma_clear_lowest(current, 0);
            let t = bit as int;
            assert forall|j: int| 0 <= j < t implies !#[trigger] word_bit(current, j) by {
                lemma_clear_lowest(current, j as u64);
            }
            // The lowest remaining bit is the first original set bit whose
            // count reached `consumed`; its count is exactly `consumed`.
            lemma_first_reaching(original, current, consumed, t);
        }
        if remaining == 0 {
            return bit;
        }
        proof {
            assert forall|j: int| 0 <= j < 64 implies #[trigger] word_bit(current & ((current - 1) as u64), j)
                == (word_bit(original, j) && ones_below(original, j as nat) >= consumed + 1) by {
                lemma_clear_lowest(current, j as u64);
                if word_bit(original, j) && ones_below(original, j as nat) >= consumed && j != bit {
                    if j < bit {
                        lemma_clear_lowest(current, j as u64);
                    } else {
                        lemma_count_steps(original, bit as int, j);
                    }
                }
            }
            consumed = consumed + 1;
        }
        current = current & (current - 1);
        remaining = remaining - 1;
    }
}

/// Some set bit below 64 has exactly `c` set bits below it, for each `c`
/// short of the word's count.
proof fn lemma_last_set_bit(word: u64, c: nat)
    requires
        c < ones_below(word, 64),
    ensures
        exists|j: int| 0 <= j < 64 && word_bit(word, j) && ones_below(word, j as nat) == c,
{
    lemma_reach_count(word, c, 64);
}

proof fn lemma_reach_count(word: u64, c: nat, n: nat)
    requires
        c < ones_below(word, n),
        n <= 64,
    ensures
        exists|j: int| 0 <= j < n && word_bit(word, j) && ones_below(word, j as nat) == c,
    decreases n,
{
    if n > 0 {
        if c < ones_below(word, (n - 1) as nat) {
            lemma_reach_count(word, c, (n - 1) as nat);
            let j = choose|j: int|
                0 <= j < n - 1 && word_bit(word, j) && ones_below(word, j as nat) == c;
            assert(0 <= j < n && word_bit(word, j) && ones_below(word, j as nat) == c);
        } else {
            assert(word_bit(word, n - 1) && ones_below(word, (n - 1) as nat) == c);
        }
    }
}

/// Between two set bits `a < b`, the count grows by at least one.
proof fn lemma_count_steps(word: u64, a: int, b: int)
    requires
        0 <= a < b <= 64,
        word_bit(word, a),
    ensures
        ones_below(word, b as nat) >= ones_below(word, a as nat) + 1,
    decreases b,
{
    if b > a + 1 {
        lemma_count_steps(word, a, b - 1);
    }
}

/// The lowest set bit `t` of `current`, whose set bits are the original set
/// bits with count at least `c`, has count exactly `c`.
proof fn lemma_first_reaching(original: u64, current: u64, c: nat, t: int)
    requires
        current != 0,
        t == u64_trailing_zeros(current),
        0 <= t < 64,
        word_bit(current, t),
        forall|j: int| 0 <= j < t ==> !#[trigger] word_bit(current, j),
        forall|j: int|
            0 <= j < 64 ==> #[trigger] word_bit(current, j) == (word_bit(original, j)
                && ones_below(original, j as nat) >= c),
        c < ones_below(original, 64),
    ensures
        ones_below(original, t as nat) == c,
{
    lemma_last_set_bit(original, c);
    let j = choose|j: int| 0 <= j < 64 && word_bit(original, j) && ones_below(original, j as nat) == c;
    assert(word_bit(current, j));
    if j < t {
        assert(!word_bit(current, j));
    }
    if j < t {
    } else if j > t {
        lemma_count_steps(original, t, j);
    }
}

impl BoundaryMerge {
    pub const BYTES: usize = 64;

    pub const BITS: usize = EVENTS;

    /// The eight words of the representation.
    pub closed spec fn words_spec(&self) -> Seq<u64> {
        self.words@
    }

    /// The merged event stream: `true` for a symbol boundary, `false` for a
    /// byte cut.
    pub open spec fn events(&self) -> Seq<bool> {
        Seq::new(512, |p: int| word_bit(self.words_spec()[p / 64], p % 64))
    }

    /// The number of symbol boundaries among the first `end` events.
    pub open spec fn rank_spec(&self, end: int) -> nat {
        count_true(self.events().take(end))
    }

    /// Build the 512-bit merged ordering directly from 257 nonnegative integer
    /// weights. No floating point and no division are required.
    ///
    /// Symbol boundary i lies at:
    ///     sum(weights[..=i]) / sum(weights)
    /// for i in 0..256.
    ///
    /// Byte cut j lies at:
    ///     (j + 1) / 256
    /// for j in 0..256, so the final cut is exactly 1.
    pub fn from_weights(weights: &[u64; SYMBOLS]) -> (r: Result<Self, BuildError>)
        ensures
            r is Err <==> prefix_weight(weights@, 257) == 0,
            r matches Err(e) ==> e == BuildError::ZeroTotalWeight,
            r matches Ok(merge) ==> merge.events() == merged_events(weights@) && merge.rank_spec(512)
                == 256,
    {
        let mut total: u128 = 0;
        let mut i: usize = 0;
        while i < SYMBOLS
            invariant
                i <= 257,
                weights@.len() == 257,
                total == prefix_weight(weights@, i as int),
                total <= i * (u64::MAX as nat),
            decreases 257 - i,
        {
            total = total + weights[i] as u128;
            i = i + 1;
        }
        if total == 0 {
            return Err(BuildError::ZeroTotalWeight);
        }
        let mut out = BoundaryMerge { words: [0u64; 8] };
        let mut symbol_i: usize = 0;
        let mut byte_i: usize = 0;
        let mut cumulative: u128 = weights[0] as u128;
        let ghost w = weights@;
        proof {
            assert(prefix_weight(w, 1) == weights@[0]) by {
                assert(prefix_weight(w, 0) == 0);
            }
            assert forall|p: int| 0 <= p < 512 implies !(#[trigger] out.events()[p]) by {
                let word = out.words@[p / 64];
                assert(word == 0u64);
                lemma_zero_word((p % 64) as u64);
            }
            assert(out.events().take(0) =~= Seq::<bool>::empty());
        }
        let mut event_pos: usize = 0;
        while event_pos < EVENTS
            invariant
                w == weights@,
                w.len() == 257,
                total == prefix_weight(w, 257),
                total > 0,
                total <= 257 * (u64::MAX as nat),
                symbol_i <= 256,
                byte_i <= 256,
                event_pos == symbol_i + byte_i,
                event_pos <= 512,
                symbol_i < 256 ==> cumulative == prefix_weight(w, symbol_i + 1),
                symbol_i < 256 ==> byte_i <= cuts_below(prefix_weight(w, symbol_i + 1), total as nat),
                forall|k: int| 0 <= k < symbol_i ==> #[trigger] symbol_position(w, k) < event_pos,
                forall|p: int|
                    0 <= p < event_pos ==> (#[trigger] out.events()[p] <==> exists|k: int|
                        0 <= k < symbol_i && #[trigger] symbol_position(w, k) == p),
                forall|p: int| event_pos <= p < 512 ==> !#[trigger] out.events()[p],
                count_true(out.events().take(event_pos as int)) == symbol_i,
            decreases 512 - event_pos,
        {
            proof {
                lemma_prefix_weight_bounds(w, symbol_i as int + 1);
            }
            let take_byte = if byte_i == BYTE_CUTS {
                false
            } else if symbol_i == SYMBOL_BOUNDARIES {
                true
            } else {
                // Compare (byte_i + 1) / 256 <= cumulative / total.
                // Equality deliberately chooses the byte cut first (0 before 1).
                proof {
                    lemma_prefix_weight_bounds(w, 257);
                    assert((byte_i + 1) * total <= 257 * (257 * (u64::MAX as nat))) by (nonlinear_arith)
                        requires
                            byte_i + 1 <= 257,
                            total <= 257 * (u64::MAX as nat),
                    ;
                    assert(cumulative * 256 <= 257 * (u64::MAX as nat) * 256) by (nonlinear_arith)
                        requires
                            cumulative <= 257 * (u64::MAX as nat),
                    ;
                    lemma_cut_comparison(byte_i as int, cumulative as nat, total as nat);
                }
                let byte_scaled = (byte_i as u128 + 1) * total;
                let symbol_scaled = cumulative * 256u128;
                byte_scaled <= symbol_scaled
            };
            let ghost before = out;
            if take_byte {
                proof {
                    lemma_take_step(before.events(), event_pos as int);
                    assert(!before.events()[event_pos as int]);
                    assert forall|p: int|
                        0 <= p < event_pos + 1 implies (#[trigger] out.events()[p] <==> exists|k: int|
                        0 <= k < symbol_i && #[trigger] symbol_position(w, k) == p) by {
                        if p == event_pos {
                            if exists|k: int| 0 <= k < symbol_i && #[trigger] symbol_position(w, k) == p {
                                let k = choose|k: int|
                                    0 <= k < symbol_i && #[trigger] symbol_position(w, k) == p;
                                assert(symbol_position(w, k) < event_pos);
                            }
                        }
                    }
                }
                byte_i = byte_i + 1;
            } else {
                proof {
                    lemma_prefix_weight_bounds(w, 257);
                    lemma_cuts_below_bound(prefix_weight(w, symbol_i as int + 1), total as nat);
                    assert(symbol_position(w, symbol_i as int) == event_pos);
                }
                out.set_symbol_event(event_pos);
                proof {
                    lemma_take_step(out.events(), event_pos as int);
                    assert(out.events().take(event_pos as int) =~= before.events().take(event_pos as int));
                    assert forall|p: int|
                        0 <= p < event_pos + 1 implies (#[trigger] out.events()[p] <==> exists|k: int|
                        0 <= k < symbol_i + 1 && #[trigger] symbol_position(w, k) == p) by {
                        if p == event_pos {
                            assert(symbol_position(w, symbol_i as int) == p);
                        } else {
                            assert(before.events()[p] == out.events()[p]);
                            if exists|k: int| 0 <= k < symbol_i + 1 && #[trigger] symbol_position(w, k) == p {
                                let k = choose|k: int|
                                    0 <= k < symbol_i + 1 && #[trigger] symbol_position(w, k) == p;
                                assert(k < symbol_i);
                            }
                        }
                    }
                    assert forall|k: int| 0 <= k < symbol_i + 1 implies #[trigger] symbol_position(w, k)
                        < event_pos + 1 by {
                        if k == symbol_i {
                            assert(symbol_position(w, symbol_i as int) == event_pos);
                        }
                    }
                }
                symbol_i = symbol_i + 1;
                if symbol_i < SYMBOL_BOUNDARIES {
                    proof {
                        lemma_prefix_weight_bounds(w, symbol_i as int + 1);
                        assert(prefix_weight(w, symbol_i + 1) == prefix_weight(w, symbol_i as int)
                            + w[symbol_i as int]);
                        lemma_cuts_below_monotone(
                            prefix_weight(w, symbol_i as int),
                            prefix_weight(w, symbol_i + 1),
                            total as nat,
                        );
                    }
                    cumulative = cumulative + weights[symbol_i] as u128;
                }
            }
            event_pos = event_pos + 1;
        }
        proof {
            assert(out.events().take(512) =~= out.events());
            assert(out.events() =~= merged_events(w));
        }
        Ok(out)
    }

    /// Raw 64-byte-friendly machine representation as eight native words.
    pub fn words(&self) -> (r: &[u64; 8])
        ensures
            r@ == self.words_spec(),
    {
        &self.words
    }

    /// True if event `pos` is a symbol boundary; false if it is a byte cut.
    pub fn is_symbol_event(&self, pos: usize) -> (r: bool)
        requires
            pos < EVENTS,
        ensures
            r == self.events()[pos as int],
    {
        let word = self.words[pos / 64];
        let shift = (pos % 64) as u64;
        proof {
            assert(((word >> shift) & 1 != 0) == word_bit(word, shift as int)) by (bit_vector);
        }
        ((word >> shift) & 1) != 0
    }

    /// Number of symbol-boundary events in `0..end`.
    pub fn rank_symbols(&self, end: usize) -> (r: u32)
        requires
            end <= EVENTS,
        ensures
            r == self.rank_spec(end as int),
    {
        let full_words = end / 64;
        let rem = end % 64;
        let mut count: u32 = 0;
        let mut i: usize = 0;
        while i < full_words
            invariant
                full_words == end / 64,
                end <= 512,
                i <= full_words,
                count == self.rank_spec(64 * i),
            decreases full_words - i,
        {
            proof {
                self.lemma_rank_within_word(i as int, 64);
                lemma_ones_below_bound(self.words@[i as int], 64);
                self.lemma_rank_bound(64 * i);
            }
            count = count + self.words[i].count_ones();
            i = i + 1;
        }
        if rem != 0 {
            proof {
                assert((1u64 << (rem as u64)) >= 1) by (bit_vector)
                    requires
                        rem < 64,
                ;
            }
            let mask: u64 = (1u64 << rem as u64) - 1;
            proof {
                lemma_ones_below_mask(self.words@[full_words as int], rem as u64, 64);
                self.lemma_rank_within_word(full_words as int, rem as int);
                lemma_ones_below_bound(self.words@[full_words as int], rem as nat);
                self.lemma_rank_bound(64 * full_words);
            }
            count = count + (self.words[full_words] & mask).count_ones();
        }
        count
    }

    /// The rank inside word `i` grows by the word's own low-bit count.
    proof fn lemma_rank_within_word(&self, i: int, r: int)
        requires
            0 <= i < 8,
            0 <= r <= 64,
        ensures
            self.rank_spec(64 * i + r) == self.rank_spec(64 * i) + ones_below(self.words_spec()[i], r as nat),
        decreases r,
    {
        if r > 0 {
            self.lemma_rank_within_word(i, r - 1);
            let p = 64 * i + r - 1;
            assert(self.events().take(p + 1).drop_last() =~= self.events().take(p));
            assert(p / 64 == i && p % 64 == r - 1);
        }
    }

    /// At most one symbol boundary per event.
    proof fn lemma_rank_bound(&self, end: int)
        requires
            0 <= end <= 512,
        ensures
            self.rank_spec(end) <= end,
        decreases end,
    {
        if end > 0 {
            self.lemma_rank_bound(end - 1);
            assert(self.events().take(end).drop_last() =~= self.events().take(end - 1));
        }
    }

    /// Number of byte-cut events in `0..end`.
    pub fn rank_bytes(&self, end: usize) -> (r: u32)
        requires
            end <= EVENTS,
        ensures
            r == end - self.rank_spec(end as int),
    {
        proof {
            self.lemma_rank_bound(end as int);
        }
        end as u32 - self.rank_symbols(end)
    }

    pub fn count_symbol_events(&self) -> (r: u32)
        ensures
            r == self.rank_spec(512),
    {
        self.rank_symbols(EVENTS)
    }

    /// Position of the kth symbol boundary (k in 0..256).
    pub fn select_symbol(&self, k: usize) -> (r: usize)
        requires
            k < SYMBOL_BOUNDARIES,
            k < self.rank_spec(512),
        ensures
            r < EVENTS,
            self.events()[r as int],
            self.rank_spec(r as int) == k,
    {
        let ghost target = k;
        let mut remaining = k;
        let mut word_i: usize = 0;
        while word_i < 8
            invariant
                target == k,
                word_i <= 8,
                target < self.rank_spec(512),
                remaining + self.rank_spec(64 * word_i) == target,
            decreases 8 - word_i,
        {
            let word = self.words[word_i];
            let n = word.count_ones() as usize;
            proof {
                self.lemma_rank_within_word(word_i as int, 64);
            }
            if remaining < n {
                let bit = select_nth_set_bit(word, remaining);
                proof {
                    assert(self.words_spec()[word_i as int] == word);
                    self.lemma_rank_within_word(word_i as int, bit as int);
                    let p = 64 * word_i + bit;
                    assert(p / 64 == word_i && p % 64 == bit);
                }
                return word_i * 64 + bit;
            }
            remaining = remaining - n;
            word_i = word_i + 1;
        }
        proof {
            assert(self.rank_spec(512) <= target);
        }
        vstd::pervasive::unreached()
    }

    /// Position of the kth byte cut (k in 0..256).
    pub fn select_byte(&self, k: usize) -> (r: usize)
        requires
            k < BYTE_CUTS,
            k < 512 - self.rank_spec(512),
        ensures
            r < EVENTS,
            !self.events()[r as int],
            r - self.rank_spec(r as int) == k,
    {
        let ghost target = k;
        let mut remaining = k;
        let mut word_i: usize = 0;
        while word_i < 8
            invariant
                target == k,
                word_i <= 8,
                target < 512 - self.rank_spec(512),
                remaining + (64 * word_i - self.rank_spec(64 * word_i)) == target,
            decreases 8 - word_i,
        {
            let inv = !self.words[word_i];
            let n = inv.count_ones() as usize;
            proof {
                self.lemma_rank_within_word(word_i as int, 64);
                lemma_ones_below_not(self.words@[word_i as int], 64);
            }
            if remaining < n {
                let bit = select_nth_set_bit(inv, remaining);
                proof {
                    assert(self.words_spec()[word_i as int] == self.words[word_i as int]);
                    self.lemma_rank_within_word(word_i as int, bit as int);
                    lemma_ones_below_not(self.words@[word_i as int], bit as nat);
                    lemma_not_bit(self.words@[word_i as int], bit as u64);
                    let p = 64 * word_i + bit;
                    assert(p / 64 == word_i && p % 64 == bit);
                }
                return word_i * 64 + bit;
            }
            remaining = remaining - n;
            word_i = word_i + 1;
        }
        vstd::pervasive::unreached()
    }

    /// Number of symbol-boundary events associated with radix bucket `bucket`.
    ///
    /// More precisely, this counts symbol events after the previous bucket's
    /// right-edge event and before this bucket's right-edge event. With the
    /// chosen tie rule, a symbol boundary exactly on a bucket edge is placed
    /// immediately after that edge, i.e. on the right-hand side.
    pub fn symbol_boundaries_in_bucket(&self, bucket: u8) -> (r: u16)
        requires
            bucket < 512 - self.rank_spec(512),
        ensures
            r == self.rank_spec(self.byte_cut_position(bucket as int)) - if bucket == 0 {
                0
            } else {
                self.rank_spec(self.byte_cut_position(bucket - 1) + 1)
            },
    {
        let bucket = bucket as usize;
        let end = self.select_byte(bucket);
        proof {
            self.lemma_byte_cut_position(bucket as int, end as int);
        }
        let start = if bucket == 0 {
            0
        } else {
            let previous = self.select_byte(bucket - 1);
            proof {
                self.lemma_byte_cut_position(bucket - 1, previous as int);
                self.lemma_byte_cuts_ordered(previous as int, end as int);
            }
            previous + 1
        };
        proof {
            self.lemma_rank_monotone(start as int, end as int);
            self.lemma_rank_bound(end as int);
        }
        (self.rank_symbols(end) - self.rank_symbols(start)) as u16
    }

    /// The position of byte cut `k`.
    pub open spec fn byte_cut_position(&self, k: int) -> int {
        choose|p: int| 0 <= p < 512 && !self.events()[p] && p - self.rank_spec(p) == k
    }

    /// Byte cuts are found at one position only.
    pub proof fn lemma_byte_cut_position(&self, k: int, p: int)
        requires
            0 <= p < 512,
            !self.events()[p],
            p - self.rank_spec(p) == k,
        ensures
            self.byte_cut_position(k) == p,
    {
        let q = self.byte_cut_position(k);
        if q != p {
            if q < p {
                self.lemma_byte_count_steps(q, p);
            } else {
                self.lemma_byte_count_steps(p, q);
            }
        }
    }

    /// After a byte cut at `a`, the byte count at any later `b` is larger.
    proof fn lemma_byte_count_steps(&self, a: int, b: int)
        requires
            0 <= a < b <= 512,
            !self.events()[a],
        ensures
            b - self.rank_spec(b) >= a - self.rank_spec(a) + 1,
        decreases b,
    {
        assert(self.events().take(a + 1).drop_last() =~= self.events().take(a));
        if b > a + 1 {
            self.lemma_byte_count_steps(a, b - 1);
            assert(self.events().take(b).drop_last() =~= self.events().take(b - 1));
        }
    }

    proof fn lemma_byte_cuts_ordered(&self, a: int, b: int)
        requires
            0 <= a < 512,
            0 <= b < 512,
            !self.events()[a],
            b - self.rank_spec(b) == a - self.rank_spec(a) + 1,
        ensures
            a < b,
    {
        if b <= a {
            if b < a {
                self.lemma_byte_count_steps_any(b, a);
            }
        }
    }

    /// The byte count never decreases.
    proof fn lemma_byte_count_steps_any(&self, a: int, b: int)
        requires
            0 <= a <= b <= 512,
        ensures
            b - self.rank_spec(b) >= a - self.rank_spec(a),
        decreases b,
    {
        if b > a {
            self.lemma_byte_count_steps_any(a, b - 1);
            assert(self.events().take(b).drop_last() =~= self.events().take(b - 1));
        }
    }

    /// The symbol count never decreases.
    proof fn lemma_rank_monotone(&self, a: int, b: int)
        requires
            0 <= a <= b <= 512,
        ensures
            self.rank_spec(a) <= self.rank_spec(b),
        decreases b,
    {
        if b > a {
            self.lemma_rank_monotone(a, b - 1);
            assert(self.events().take(b).drop_last() =~= self.events().take(b - 1));
        }
    }

    /// Human-readable event stream, useful because the representation is funny.
    /// `S` is a symbol boundary and `B` is a byte cut.
    pub fn event_string(&self) -> (r: String)
        ensures
            r@ == Seq::new(512, |i: int| if self.events()[i] { 'S' } else { 'B' }),
    {
        let mut s = string_with_capacity(EVENTS);
        let mut i: usize = 0;
        while i < EVENTS
            invariant
                i <= 512,
                s@ == Seq::new(i as nat, |j: int| if self.events()[j] { 'S' } else { 'B' }),
            decreases 512 - i,
        {
            push_char(&mut s, if self.is_symbol_event(i) { 'S' } else { 'B' });
            i = i + 1;
            proof {
                assert(s@ =~= Seq::new(i as nat, |j: int| if self.events()[j] { 'S' } else { 'B' }));
            }
        }
        s
    }

    fn set_symbol_event(&mut self, pos: usize)
        requires
            pos < 512,
        ensures
            forall|p: int| 0 <= p < 512 ==> #[trigger] final(self).events()[p] == (old(self).events()[p] || p == pos),
    {
        let word_index = pos / 64;
        let shift = (pos % 64) as u64;
        let updated = self.words[word_index] | (1u64 << shift);
        let ghost before = *self;
        self.words[word_index] = updated;
        proof {
            assert forall|p: int| 0 <= p < 512 implies #[trigger] self.events()[p] == (before.events()[p]
                || p == pos) by {
                if p / 64 == word_index {
                    lemma_set_bit(before.words@[word_index as int], shift, (p % 64) as u64);
                }
            }
        }
    }
}

/// A string with room for `capacity` bytes and no contents.
#[verifier::external_body]
fn string_with_capacity(capacity: usize) -> (r: String)
    ensures
        r@ == Seq::<char>::empty(),
{
    String::with_capacity(capacity)
}

/// `String::push`: appends one character.
#[verifier::external_body]
pub(crate) fn push_char(s: &mut String, c: char)
    ensures
        final(s)@ == old(s)@.push(c),
{
    s.push(c)
}

/// One more event extends the count of the taken prefix by that event.
proof fn lemma_take_step(events: Seq<bool>, p: int)
    requires
        0 <= p < events.len(),
    ensures
        count_true(events.take(p + 1)) == count_true(events.take(p)) + if events[p] {
            1nat
        } else {
            0nat
        },
{
    assert(events.take(p + 1).drop_last() =~= events.take(p));
}

pub proof fn lemma_prefix_weight_bounds(weights: Seq<u64>, n: int)
    requires
        0 <= n <= weights.len(),
    ensures
        prefix_weight(weights, n) <= n * (u64::MAX as nat),
        forall|m: int| 0 <= m <= n ==> #[trigger] prefix_weight(weights, m) <= prefix_weight(weights, n),
    decreases n,
{
    if n > 0 {
        lemma_prefix_weight_bounds(weights, n - 1);
    }
}

/// `(b + 1) * total <= 256 * c` exactly when `b + 1` cuts lie at or below
/// `c / total`.
proof fn lemma_cut_comparison(b: int, c: nat, total: nat)
    requires
        b >= 0,
        total > 0,
    ensures
        ((b + 1) * total <= 256 * c) <==> (b + 1 <= cuts_below(c, total)),
{
    let x = (256 * c) as int;
    let t = total as int;
    lemma_fundamental_div_mod(x, t);
    let q = x / t;
    let r = x % t;
    assert(0 <= r < t) by {
        vstd::arithmetic::div_mod::lemma_mod_bound(x, t);
    }
    assert((b + 1) * t <= x <==> b + 1 <= q) by (nonlinear_arith)
        requires
            x == t * q + r,
            0 <= r < t,
            t > 0,
            b >= 0,
    ;
}

proof fn lemma_cuts_below_bound(c: nat, total: nat)
    requires
        c <= total,
        total > 0,
    ensures
        0 <= cuts_below(c, total) <= 256,
{
    lemma_div_is_ordered((256 * c) as int, (256 * total) as int, total as int);
    assert((256 * total) as int / total as int == 256) by {
        vstd::arithmetic::div_mod::lemma_div_multiples_vanish(256, total as int);
    }
    vstd::arithmetic::div_mod::lemma_div_pos_is_pos((256 * c) as int, total as int);
}

proof fn lemma_cuts_below_monotone(a: nat, b: nat, total: nat)
    requires
        a <= b,
        total > 0,
    ensures
        cuts_below(a, total) <= cuts_below(b, total),
{
    lemma_div_is_ordered((256 * a) as int, (256 * b) as int, total as int);
}

} // verus!
