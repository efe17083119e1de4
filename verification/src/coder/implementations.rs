//! Range-coder implementations over different probability grids.
use std::marker::PhantomData;
use vstd::prelude::*;

use crate::coder::{
    decoder_ok, decoder_renormalize, decoder_renormalize_exec, decoder_step, decoder_step_exec,
    encoder_finish, encoder_finish_exec, encoder_step, encoder_step_exec,
    lemma_decoder_renormalize, lemma_decoder_renormalize_width, range_of, width_ok, FULL_RANGE, OutputBytes,
};
use crate::coder::round_trip::{decode_all, encode_all, lemma_round_trip, q17_split};

pub mod branchless;
pub mod q16;
pub mod q17;
pub mod range_shift;

verus! {

/// A fixed-point grid of binary probabilities.
pub trait Grid {
    type Probability: Copy;

    /// Width of the lower branch of `range`.
    spec fn split_spec(range: u32, p: Self::Probability) -> u32;

    /// Probabilities this grid accepts.
    spec fn admits(p: Self::Probability) -> bool;

    fn split(range: u32, p: Self::Probability) -> (r: u32)
        requires
            Self::admits(p),
            2 <= range,
        ensures
            r == Self::split_spec(range, p),
            1 <= r < range,
    ;

    /// An admitted probability leaves both branches of every range of at
    /// least two nonempty.
    proof fn lemma_split_bounds(range: u32, p: Self::Probability)
        requires
            Self::admits(p),
            2 <= range,
        ensures
            1 <= Self::split_spec(range, p) < range,
    ;
}

/// The lower-branch width a grid coder uses on a range.
pub open spec fn grid_split<G: Grid>() -> spec_fn(nat, G::Probability) -> u32 {
    |range: nat, p: G::Probability| G::split_spec(range as u32, p)
}

/// Decoding inverts encoding for [`BaselineEncoder`] and [`BaselineDecoder`]
/// over any grid: the decisions read back from the bytes of `put` for each
/// of `lowers` under `ps`, then `finish`, are exactly `lowers`.
pub proof fn lemma_baseline_round_trip<G: Grid>(ps: Seq<G::Probability>, lowers: Seq<bool>)
    requires
        ps.len() == lowers.len(),
        forall|i: int| 0 <= i < ps.len() ==> G::admits(#[trigger] ps[i]),
    ensures
        decode_all(encode_all(ps, lowers, grid_split::<G>(), false), ps, grid_split::<G>(), false) == lowers,
{
    assert forall|i: int, w: u32| 0 <= i < ps.len() && width_ok(w, false) implies 1 <= #[trigger] grid_split::<
        G,
    >()(range_of(w, false), ps[i]) < range_of(w, false) by {
        G::lemma_split_bounds((w + 1) as u32, ps[i]);
    }
    lemma_round_trip(ps, lowers, grid_split::<G>(), false);
}

/// Range encoder over a denominator `range - 1` and an arbitrary grid.
pub struct BaselineEncoder<G: Grid> {
    low: u32,
    denominator: u32,
    pending: usize,
    grid: PhantomData<G>,
}

impl<G: Grid> BaselineEncoder<G> {
    /// `(low, denominator, pending)`.
    pub closed spec fn state(&self) -> (u32, u32, nat) {
        (self.low, self.denominator, self.pending as nat)
    }

    #[verifier::type_invariant]
    closed spec fn inv(&self) -> bool {
        width_ok(self.denominator, false)
    }

    pub fn new() -> (r: Self)
        ensures
            r.state() == (0u32, (FULL_RANGE - 1) as u32, 0nat),
    {
        BaselineEncoder { low: 0, denominator: FULL_RANGE - 1, pending: 0, grid: PhantomData }
    }

    /// Encode one binary decision with lower-branch probability `p`.
    pub fn put(&mut self, p: G::Probability, lower: bool) -> (output: OutputBytes)
        requires
            G::admits(p),
            old(self).state().2 + 3 <= usize::MAX,
        ensures
            ({
                let s = old(self).state();
                let r = encoder_step(
                    s.0,
                    s.1,
                    s.2,
                    G::split_spec((s.1 + 1) as u32, p),
                    lower,
                    false,
                );
                &&& final(self).state() == (r.0, r.1, r.2)
                &&& output@ == r.3
            }),
    {
        proof {
            use_type_invariant(&*self);
        }
        let split = G::split(self.denominator + 1, p);
        let mut low = self.low;
        let mut denominator = self.denominator;
        let mut pending = self.pending;
        let output = encoder_step_exec(&mut low, &mut denominator, &mut pending, split, lower, false);
        *self = BaselineEncoder { low, denominator, pending, grid: PhantomData };
        output
    }

    /// Flush the final interval.
    pub fn finish(self) -> (output: OutputBytes)
        requires
            self.state().2 + 3 <= usize::MAX,
        ensures
            output@ == encoder_finish(self.state().0, self.state().2, false),
    {
        encoder_finish_exec(self.low, self.pending, false)
    }
}

impl<G: Grid> Default for BaselineEncoder<G> {
    fn default() -> (r: Self)
        ensures
            r.state() == (0u32, (FULL_RANGE - 1) as u32, 0nat),
    {
        Self::new()
    }
}

/// Range decoder over a denominator `range - 1` and an arbitrary grid.
pub struct BaselineDecoder<'a, G: Grid> {
    numerator: u32,
    denominator: u32,
    input: &'a [u8],
    grid: PhantomData<G>,
}

impl<'a, G: Grid> BaselineDecoder<'a, G> {
    /// `(numerator, denominator, remaining input)`.
    pub closed spec fn state(&self) -> (u32, u32, Seq<u8>) {
        (self.numerator, self.denominator, self.input@)
    }

    #[verifier::type_invariant]
    closed spec fn inv(&self) -> bool {
        decoder_ok(self.numerator, self.denominator, false)
    }

    pub fn new(input: &'a [u8]) -> (r: Self)
        ensures
            r.state() == decoder_renormalize(0, 0, input@, 3, false),
    {
        let mut numerator: u32 = 0;
        let mut denominator: u32 = 0;
        let mut rest = input;
        proof {
            lemma_decoder_renormalize(0, 0, input@, 3, false);
            lemma_decoder_renormalize_width(0, 0, input@, false);
        }
        decoder_renormalize_exec(&mut numerator, &mut denominator, &mut rest, false);
        BaselineDecoder { numerator, denominator, input: rest, grid: PhantomData }
    }

    /// Decode one binary decision with lower-branch probability `p`.
    pub fn test(&mut self, p: G::Probability) -> (lower: bool)
        requires
            G::admits(p),
        ensures
            ({
                let s = old(self).state();
                let r = decoder_step(s.0, s.1, s.2, G::split_spec((s.1 + 1) as u32, p), false);
                &&& lower == r.0
                &&& final(self).state() == (r.1, r.2, r.3)
            }),
    {
        proof {
            use_type_invariant(&*self);
        }
        let split = G::split(self.denominator + 1, p);
        let mut numerator = self.numerator;
        let mut denominator = self.denominator;
        let mut input = self.input;
        let lower = decoder_step_exec(&mut numerator, &mut denominator, &mut input, split, false);
        *self = BaselineDecoder { numerator, denominator, input, grid: PhantomData };
        lower
    }
}

impl<'a, G: Grid> Clone for BaselineDecoder<'a, G> {
    fn clone(&self) -> (r: Self)
        ensures
            r.state() == self.state(),
    {
        proof {
            use_type_invariant(self);
        }
        BaselineDecoder {
            numerator: self.numerator,
            denominator: self.denominator,
            input: self.input,
            grid: PhantomData,
        }
    }
}


/// The `Q16` and `Q17` grids agree on every probability they share: `Q16`
/// raw `r16 >= 2^15` and `Q17` raw `2 (r16 - 2^15)` both denote `r16 / 2^16`,
/// so their baseline encoders write the same bytes for the same decisions,
/// and their baseline decoders read the same decisions from the same bytes.
pub proof fn lemma_q16_q17_same_bytes(
    ps16: Seq<q16::Probability>,
    ps17: Seq<crate::coder::FractionalU16>,
    lowers: Seq<bool>,
    bytes: Seq<u8>,
)
    requires
        ps16.len() == ps17.len(),
        forall|i: int|
            0 <= i < ps16.len() ==> (#[trigger] ps16[i]).raw_spec() >= 0x8000 && ps17[i].0 == (ps16[i].raw_spec()
                - 0x8000) * 2,
    ensures
        encode_all(ps16, lowers, grid_split::<q16::Q16>(), false) == encode_all(
            ps17,
            lowers,
            grid_split::<q17::Q17>(),
            false,
        ),
        decode_all(bytes, ps16, grid_split::<q16::Q16>(), false) == decode_all(
            bytes,
            ps17,
            grid_split::<q17::Q17>(),
            false,
        ),
{
    assert forall|i: int, w: u32| 0 <= i < ps16.len() && width_ok(w, false) implies 1
        <= #[trigger] grid_split::<q16::Q16>()(range_of(w, false), ps16[i]) < range_of(w, false) by {
        <q16::Q16 as Grid>::lemma_split_bounds((w + 1) as u32, ps16[i]);
    }
    assert forall|i: int, w: u32| 0 <= i < ps16.len() && width_ok(w, false) implies #[trigger] grid_split::<
        q16::Q16,
    >()(range_of(w, false), ps16[i]) == grid_split::<q17::Q17>()(range_of(w, false), ps17[i]) by {
        let r = (w + 1) as nat;
        let raw = ps16[i].raw_spec() as nat;
        assert(ps16[i].raw_spec() >= 0x8000);
        assert(0x1_0000 + ps17[i].0 == 2 * raw);
        let x = (r * raw) as int;
        assert(r * (2 * raw) == 2 * x) by (nonlinear_arith)
            requires
                x == r * raw,
        ;
        vstd::arithmetic::div_mod::lemma_fundamental_div_mod(x, 0x1_0000);
        let q = x / 0x1_0000;
        let m = x % 0x1_0000;
        assert(2 * x == q * 0x2_0000 + 2 * m);
        vstd::arithmetic::div_mod::lemma_fundamental_div_mod_converse_div(2 * x, 0x2_0000, q, 2 * m);
        assert((r * (2 * raw)) / 0x2_0000 == (r * raw) / 0x1_0000);
    }
    crate::coder::round_trip::lemma_same_splits_same_bytes(
        0,
        (FULL_RANGE - 1) as u32,
        0,
        ps16,
        grid_split::<q16::Q16>(),
        ps17,
        grid_split::<q17::Q17>(),
        lowers,
        false,
    );
    crate::coder::round_trip::lemma_same_splits_same_decisions(
        bytes,
        ps16,
        grid_split::<q16::Q16>(),
        ps17,
        grid_split::<q17::Q17>(),
        false,
    );
}

/// Every `Q17` coder agrees with every other: `BaselineEncoder<Q17>` (and the
/// `legacy_inline` coder, which keeps the same denominator) writes exactly
/// the bytes of the range coders (`range_shift`, `branchless`,
/// `range_shift_inline`) for the same decisions, and the matching decoders
/// read the same decisions from the same bytes.
pub proof fn lemma_q17_coders_agree(ps: Seq<crate::coder::FractionalU16>, lowers: Seq<bool>, bytes: Seq<u8>)
    ensures
        encode_all(ps, lowers, grid_split::<q17::Q17>(), false) == encode_all(ps, lowers, q17_split(), true),
        encode_all(ps, lowers, q17_split(), false) == encode_all(ps, lowers, q17_split(), true),
        decode_all(bytes, ps, grid_split::<q17::Q17>(), false) == decode_all(bytes, ps, q17_split(), true),
        decode_all(bytes, ps, q17_split(), false) == decode_all(bytes, ps, q17_split(), true),
{
    assert forall|i: int, w: u32| 0 <= i < ps.len() && width_ok(w, false) implies 1
        <= #[trigger] q17_split()(range_of(w, false), ps[i]) < range_of(w, false)
        && grid_split::<q17::Q17>()(range_of(w, false), ps[i]) == q17_split()(range_of(w, false), ps[i]) by {
        crate::coder::lemma_split_q17_bounds(range_of(w, false), ps[i].0);
    }
    crate::coder::round_trip::lemma_same_splits_same_bytes(
        0,
        (FULL_RANGE - 1) as u32,
        0,
        ps,
        q17_split(),
        ps,
        grid_split::<q17::Q17>(),
        lowers,
        false,
    );
    crate::coder::round_trip::lemma_same_splits_same_decisions(
        bytes,
        ps,
        q17_split(),
        ps,
        grid_split::<q17::Q17>(),
        false,
    );
    crate::coder::round_trip::lemma_forms_agree(ps, lowers, q17_split(), bytes);
}
} // verus!
