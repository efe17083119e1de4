//! Arithmetic-coder interfaces and the shared range-coder machinery.
use vstd::prelude::*;

use crate::prefix::RankedPrefix;

pub mod implementations;
pub mod legacy_inline;
pub mod range_shift_inline;
pub mod round_trip;

verus! {

/// Width in bits of the coder's working range.
pub const RANGE_BITS: u32 = 24;

/// `2^24`, the full working range.
pub const FULL_RANGE: u32 = 0x0100_0000;

/// `2^16`: a range at or below this (a denominator below it) is renormalized.
pub const RANGE_TOP: u32 = 0x0001_0000;

/// A binary probability on the `Q17` grid: raw `r` denotes `(2^16 + r) / 2^17`,
/// a probability in `[1/2, 1)` of the lower branch.
#[derive(Clone, Copy, Debug, PartialEq, Eq)]
pub struct FractionalU16(pub u16);

impl FractionalU16 {
    pub fn from_raw(raw: u16) -> (r: Self)
        ensures
            r.0 == raw,
    {
        FractionalU16(raw)
    }

    pub fn raw(self) -> (r: u16)
        ensures
            r == self.0,
    {
        self.0
    }
}

/// `floor(range * (2^16 + raw) / 2^17)`.
pub open spec fn split_q17(range: nat, raw: u16) -> nat {
    (range * (0x1_0000 + raw) as nat) / 0x2_0000
}

/// Width of the lower branch of `range` under probability `p`.
pub fn split(range: u32, p: FractionalU16) -> (r: u32)
    ensures
        r == split_q17(range as nat, p.0),
        range >= 2 ==> 1 <= r < range,
{
    let raw = p.0;
    let probability: u64 = 0x1_0000 | (raw as u64);
    proof {
        assert(0x1_0000 | (raw as u64) == 0x1_0000 + raw) by (bit_vector);
        assert((range as u64) * probability <= 0xffff_ffff * 0x1_ffff) by (nonlinear_arith)
            requires
                probability <= 0x1_ffff,
        ;
    }
    let product = (range as u64) * probability;
    let r = (product >> 17) as u32;
    proof {
        assert(product >> 17 == product / 0x2_0000) by (bit_vector);
        lemma_split_q17_bounds(range as nat, p.0);
    }
    r
}

/// `split_q17` keeps both branches alive on every range of at least two.
pub proof fn lemma_split_q17_bounds(range: nat, raw: u16)
    ensures
        split_q17(range, raw) <= range,
        range >= 2 ==> 1 <= split_q17(range, raw) < range,
{
    let p = 0x1_0000 + raw;
    assert(range * p <= range * 0x2_0000 - range) by (nonlinear_arith)
        requires
            p <= 0x1_ffff,
    ;
    assert(range * p >= range * 0x1_0000) by (nonlinear_arith)
        requires
            p >= 0x1_0000,
    ;
    if range >= 2 {
        assert((range * p) / 0x2_0000 >= 1) by (nonlinear_arith)
            requires
                range * p >= range * 0x1_0000,
                range >= 2,
        ;
        assert((range * p) / 0x2_0000 < range) by (nonlinear_arith)
            requires
                range * p <= range * 0x2_0000 - range,
                range >= 2,
        ;
    }
    assert((range * p) / 0x2_0000 <= range) by (nonlinear_arith)
        requires
            range * p <= range * 0x2_0000,
    ;
}

/// `first` followed by `count` copies of `repeated`.
pub open spec fn run(first: u8, repeated: u8, count: nat) -> Seq<u8> {
    seq![first] + Seq::new(count, |_i: int| repeated)
}

/// Bytes irrevocably settled by one coder step, consumed front to back.
#[derive(Debug)]
pub struct OutputBytes {
    bytes: Vec<u8>,
    position: usize,
}

impl View for OutputBytes {
    type V = Seq<u8>;

    /// The bytes not yet consumed.
    closed spec fn view(&self) -> Seq<u8> {
        if self.position <= self.bytes@.len() {
            self.bytes@.subrange(self.position as int, self.bytes@.len() as int)
        } else {
            Seq::empty()
        }
    }
}

impl OutputBytes {
    pub fn new() -> (r: Self)
        ensures
            r@ == Seq::<u8>::empty(),
    {
        let r = OutputBytes { bytes: Vec::new(), position: 0 };
        proof {
            assert(r@ =~= Seq::<u8>::empty());
        }
        r
    }

    /// Append `first` followed by `repeated_count` copies of `repeated`.
    pub fn push(&mut self, first: u8, repeated: u8, repeated_count: usize)
        ensures
            final(self)@ == old(self)@ + run(first, repeated, repeated_count as nat),
    {
        if self.position > self.bytes.len() {
            self.position = self.bytes.len();
            proof {
                assert(self@ =~= old(self)@);
            }
        }
        let ghost base = self@;
        self.bytes.push(first);
        proof {
            assert(self@ =~= base + run(first, repeated, 0));
        }
        let mut i: usize = 0;
        while i < repeated_count
            invariant
                i <= repeated_count,
                self.position <= self.bytes@.len(),
                self@ == base + run(first, repeated, i as nat),
            decreases repeated_count - i,
        {
            proof {
                assert(run(first, repeated, (i + 1) as nat) =~= run(first, repeated, i as nat).push(
                    repeated,
                ));
            }
            let ghost prev = self@;
            self.bytes.push(repeated);
            i = i + 1;
            proof {
                assert(self@ =~= prev.push(repeated));
                assert(self@ =~= base + run(first, repeated, i as nat));
            }
        }
    }

    /// The next unconsumed byte.
    pub fn next(&mut self) -> (r: Option<u8>)
        ensures
            old(self)@.len() == 0 ==> r is None && final(self)@ == old(self)@,
            old(self)@.len() > 0 ==> r == Some(old(self)@[0]) && final(self)@ == old(
                self,
            )@.drop_first(),
    {
        if self.position < self.bytes.len() {
            let byte = self.bytes[self.position];
            self.position = self.position + 1;
            proof {
                assert(self@ =~= old(self)@.drop_first());
            }
            Some(byte)
        } else {
            None
        }
    }

    /// Number of unconsumed bytes.
    pub fn len(&self) -> (r: usize)
        ensures
            r == self@.len(),
    {
        if self.position < self.bytes.len() {
            self.bytes.len() - self.position
        } else {
            0
        }
    }

    /// The unconsumed bytes, in order.
    pub fn to_vec(&self) -> (r: Vec<u8>)
        ensures
            r@ == self@,
    {
        let mut out: Vec<u8> = Vec::new();
        if self.position > self.bytes.len() {
            return out;
        }
        let mut i = self.position;
        proof {
            assert(out@ =~= self.bytes@.subrange(self.position as int, i as int));
        }
        while i < self.bytes.len()
            invariant
                self.position <= i <= self.bytes.len(),
                out@ == self.bytes@.subrange(self.position as int, i as int),
            decreases self.bytes.len() - i,
        {
            out.push(self.bytes[i]);
            i = i + 1;
            proof {
                assert(out@ =~= self.bytes@.subrange(self.position as int, i as int));
            }
        }
        out
    }
}

/// A path-relative arithmetic coder over ranked-prefix probability models.
///
/// For a [`RankedPrefix`] of length `N`, [`Coder::locate`] returns a rank in
/// `0..=N`; rank `N` is the implicit tail event. [`Coder::zoom`] restricts the
/// coder to the explicit events of `accepted` after every event of `denied`
/// has been excluded; `accepted` must hold at least one nonzero probability.
///
/// Only exact replay is promised: the same initial state and the same
/// sequence of byte-identical calls give the same output and the same later
/// `locate` results. Equivalent but differently constructed models carry no
/// guarantee.
pub trait Coder {
    /// Bytes irrevocably settled by one [`Coder::zoom`] operation.
    type Output;

    /// Locate the current coded value in a finite ranked-prefix model.
    fn locate(&self, prefix: &RankedPrefix) -> (r: usize)
        ensures
            r <= prefix@.len(),
    ;

    /// Restrict the coder to the interval described by `denied` and
    /// `accepted`.
    fn zoom(&mut self, denied: &RankedPrefix, accepted: &RankedPrefix) -> Self::Output
        requires
            exists|i: int| 0 <= i < accepted@.len() && accepted@[i] != 0,
    ;
}

/// The top byte of `low`.
pub open spec fn head(low: u32) -> u8 {
    (low >> 24u32) as u8
}

/// `x + y` modulo `2^32`.
pub open spec fn wrap_add(x: u32, y: u32) -> u32 {
    if x + y > u32::MAX {
        (x + y - 0x1_0000_0000) as u32
    } else {
        (x + y) as u32
    }
}

/// One byte shift of the encoder's low word, with carry-pending bookkeeping:
/// the new low word, the new pending count and the bytes it settles.
pub open spec fn shift_low(low: u32, pending: nat) -> (u32, nat, Seq<u8>) {
    let next = (low >> 16u32) as u8;
    if pending == 0 {
        ((low << 8u32) as u32, 1, Seq::empty())
    } else if next == 0xff {
        ((low & 0xff00_0000u32) | ((low << 8u32) & 0x00ff_ff00u32), pending + 1, Seq::empty())
    } else {
        ((low << 8u32) as u32, 1, run(head(low), 0xff, (pending - 1) as nat))
    }
}

/// `steps` renormalization rounds of an encoder whose working width is
/// `width` (the denominator, or the range); `narrow(width)` decides whether a
/// round shifts, and `widen(width)` is its new width.
pub open spec fn encoder_renormalize(
    low: u32,
    width: u32,
    pending: nat,
    steps: nat,
    range_form: bool,
) -> (u32, u32, nat, Seq<u8>)
    decreases steps,
{
    if steps == 0 {
        (low, width, pending, Seq::empty())
    } else if narrow(width, range_form) {
        let s = shift_low(low, pending);
        let r = encoder_renormalize(s.0, widen(width, range_form), s.1, (steps - 1) as nat, range_form);
        (r.0, r.1, r.2, s.2 + r.3)
    } else {
        encoder_renormalize(low, width, pending, (steps - 1) as nat, range_form)
    }
}

/// Whether a working width needs renormalizing: a denominator below
/// `RANGE_TOP`, or a range at most `RANGE_TOP`.
pub open spec fn narrow(width: u32, range_form: bool) -> bool {
    if range_form {
        width <= RANGE_TOP
    } else {
        width < RANGE_TOP
    }
}

/// The working width after one renormalization round.
pub open spec fn widen(width: u32, range_form: bool) -> u32 {
    if range_form {
        (width << 8u32) as u32
    } else {
        (width << 8u32) | 0xffu32
    }
}

/// The encoder state after choosing the lower or upper branch of width
/// `split`, before renormalization.
pub open spec fn encoder_choose(
    low: u32,
    width: u32,
    pending: nat,
    split: u32,
    lower: bool,
    range_form: bool,
) -> (u32, u32, nat, Seq<u8>) {
    if lower {
        (low, if range_form {
            split
        } else {
            (split - 1) as u32
        }, pending, Seq::empty())
    } else {
        let moved = wrap_add(low, split);
        let rest = (width - split) as u32;
        if head(moved) != head(low) {
            if pending == 0 {
                (moved, rest, 1, Seq::empty())
            } else {
                (moved & 0x00ff_ffffu32, rest, 0, run(head(moved), 0, (pending - 1) as nat))
            }
        } else {
            (moved, rest, pending, Seq::empty())
        }
    }
}

/// One encoder step: the state after choosing a branch and renormalizing, and
/// the bytes it settles.
pub open spec fn encoder_step(
    low: u32,
    width: u32,
    pending: nat,
    split: u32,
    lower: bool,
    range_form: bool,
) -> (u32, u32, nat, Seq<u8>) {
    let c = encoder_choose(low, width, pending, split, lower, range_form);
    let r = encoder_renormalize(c.0, c.1, c.2, 3, range_form);
    (r.0, r.1, r.2, c.3 + r.3)
}

/// The bytes settled when an encoder finishes: every remaining width is
/// flushed, then the pending head and its carried `0xff` bytes.
pub open spec fn encoder_finish(low: u32, pending: nat, range_form: bool) -> Seq<u8> {
    let r = encoder_renormalize(low, if range_form {
        1u32
    } else {
        0u32
    }, pending, 3, range_form);
    r.3 + if r.2 != 0 {
        run(head(r.0), 0xff, (r.2 - 1) as nat)
    } else {
        Seq::empty()
    }
}

/// Valid working widths: a denominator in `[RANGE_TOP, FULL_RANGE)`, or a
/// range in `(RANGE_TOP, FULL_RANGE]`.
pub open spec fn width_ok(width: u32, range_form: bool) -> bool {
    if range_form {
        RANGE_TOP < width <= FULL_RANGE
    } else {
        RANGE_TOP <= width < FULL_RANGE
    }
}

/// The range a working width denotes.
pub open spec fn range_of(width: u32, range_form: bool) -> nat {
    if range_form {
        width as nat
    } else {
        (width + 1) as nat
    }
}

/// Splits that leave both branches nonempty.
pub open spec fn split_ok(width: u32, split: u32, range_form: bool) -> bool {
    1 <= split < range_of(width, range_form)
}

/// Encoder renormalization restores a valid width and grows the pending
/// count by at most three.
pub proof fn lemma_encoder_renormalize(
    low: u32,
    width: u32,
    pending: nat,
    range_form: bool,
)
    requires
        width_pre(width, range_form),
    ensures
        width_ok(encoder_renormalize(low, width, pending, 3, range_form).1, range_form),
        encoder_renormalize(low, width, pending, 3, range_form).2 <= pending + 3,
{
    reveal_with_fuel(encoder_renormalize, 4);
    lemma_three_rounds(width, range_form);
}

/// One decoder renormalization round: the new numerator, denominator-or-range
/// and remaining input.
pub open spec fn decoder_renormalize(
    numerator: u32,
    width: u32,
    input: Seq<u8>,
    steps: nat,
    range_form: bool,
) -> (u32, u32, Seq<u8>)
    decreases steps,
{
    if steps == 0 {
        (numerator, width, input)
    } else if narrow(width, range_form) {
        let byte: u8 = if input.len() == 0 {
            0
        } else {
            input[0]
        };
        let rest = if input.len() == 0 {
            input
        } else {
            input.drop_first()
        };
        decoder_renormalize(
            (numerator << 8u32) | (byte as u32),
            widen(width, range_form),
            rest,
            (steps - 1) as nat,
            range_form,
        )
    } else {
        decoder_renormalize(numerator, width, input, (steps - 1) as nat, range_form)
    }
}

/// One decoder step: whether the coded value lies in the lower branch of
/// width `split`, and the state after conditioning on that branch and
/// renormalizing.
pub open spec fn decoder_step(
    numerator: u32,
    width: u32,
    input: Seq<u8>,
    split: u32,
    range_form: bool,
) -> (bool, u32, u32, Seq<u8>) {
    let lower = numerator < split;
    let n1 = if lower {
        numerator
    } else {
        (numerator - split) as u32
    };
    let w1 = if lower {
        if range_form {
            split
        } else {
            (split - 1) as u32
        }
    } else {
        (width - split) as u32
    };
    let r = decoder_renormalize(n1, w1, input, 3, range_form);
    (lower, r.0, r.1, r.2)
}

/// The decoder's coded value stays inside its working range.
pub open spec fn decoder_ok(numerator: u32, width: u32, range_form: bool) -> bool {
    width_ok(width, range_form) && numerator < range_of(width, range_form)
}

/// Widths a branch choice can leave: anything below `FULL_RANGE` for a
/// denominator, anything in `[1, FULL_RANGE]` for a range.
pub open spec fn width_pre(width: u32, range_form: bool) -> bool {
    if range_form {
        1 <= width <= FULL_RANGE
    } else {
        width < FULL_RANGE
    }
}

/// One renormalization round keeps a width in the pre-domain, multiplies its
/// range by 256 and makes room for one more byte of the coded value.
pub proof fn lemma_widen(width: u32, range_form: bool)
    requires
        width_pre(width, range_form),
        narrow(width, range_form),
    ensures
        width_pre(widen(width, range_form), range_form),
        range_of(widen(width, range_form), range_form) == 256 * range_of(width, range_form),
{
    if range_form {
        assert(1 <= width <= 0x1_0000 ==> (width << 8u32) as u32 == width * 256) by (bit_vector);
    } else {
        assert(width < 0x1_0000 ==> ((width << 8u32) | 0xffu32) == width * 256 + 255)
            by (bit_vector);
    }
}

/// Shifting one byte into a coded value below a narrow range.
pub proof fn lemma_shift_in(numerator: u32, byte: u8, width: u32, range_form: bool)
    requires
        width_pre(width, range_form),
        narrow(width, range_form),
        numerator < range_of(width, range_form),
    ensures
        (numerator << 8u32) | (byte as u32) == numerator * 256 + byte,
        (numerator << 8u32) | (byte as u32) < range_of(widen(width, range_form), range_form),
{
    lemma_widen(width, range_form);
    assert(numerator <= 0x1_0000 ==> (numerator << 8u32) | (byte as u32) == numerator * 256 + byte)
        by (bit_vector);
}

/// Decoder renormalization keeps the coded value inside the range.
pub proof fn lemma_decoder_renormalize(
    numerator: u32,
    width: u32,
    input: Seq<u8>,
    steps: nat,
    range_form: bool,
)
    requires
        numerator < range_of(width, range_form),
        width_pre(width, range_form),
    ensures
        decoder_renormalize(numerator, width, input, steps, range_form).0 < range_of(
            decoder_renormalize(numerator, width, input, steps, range_form).1,
            range_form,
        ),
        width_pre(decoder_renormalize(numerator, width, input, steps, range_form).1, range_form),
    decreases steps,
{
    if steps > 0 && narrow(width, range_form) {
        let byte: u8 = if input.len() == 0 {
            0
        } else {
            input[0]
        };
        let rest = if input.len() == 0 {
            input
        } else {
            input.drop_first()
        };
        lemma_shift_in(numerator, byte, width, range_form);
        lemma_widen(width, range_form);
        lemma_decoder_renormalize(
            (numerator << 8u32) | (byte as u32),
            widen(width, range_form),
            rest,
            (steps - 1) as nat,
            range_form,
        );
    } else if steps > 0 {
        lemma_decoder_renormalize(numerator, width, input, (steps - 1) as nat, range_form);
    }
}

/// Three renormalization rounds always leave a valid width.
pub proof fn lemma_decoder_renormalize_width(
    numerator: u32,
    width: u32,
    input: Seq<u8>,
    range_form: bool,
)
    requires
        width_pre(width, range_form),
    ensures
        width_ok(decoder_renormalize(numerator, width, input, 3, range_form).1, range_form),
{
    reveal_with_fuel(decoder_renormalize, 4);
    lemma_three_rounds(width, range_form);
}

/// Three rounds of widening reach a valid width from any pre-domain width.
pub proof fn lemma_three_rounds(width: u32, range_form: bool)
    requires
        width_pre(width, range_form),
    ensures
        ({
            let w1 = if narrow(width, range_form) {
                widen(width, range_form)
            } else {
                width
            };
            let w2 = if narrow(w1, range_form) {
                widen(w1, range_form)
            } else {
                w1
            };
            let w3 = if narrow(w2, range_form) {
                widen(w2, range_form)
            } else {
                w2
            };
            width_ok(w3, range_form)
        }),
{
    if range_form {
        assert(forall|w: u32|
            1 <= w <= 0x1_0000 ==> #[trigger] ((w << 8u32) as u32) == w * 256) by (bit_vector);
    } else {
        assert(forall|w: u32| w < 0x1_0000 ==> #[trigger] ((w << 8u32) | 0xffu32) == w * 256 + 255)
            by (bit_vector);
    }
}

} // verus!

verus! {

/// Encoder and decoder that share a working width, split the same way and
/// follow the same branch stay in lockstep: their widths agree afterwards.
pub proof fn lemma_encoder_decoder_lockstep(
    low: u32,
    pending: nat,
    numerator: u32,
    width: u32,
    input: Seq<u8>,
    split: u32,
    range_form: bool,
)
    ensures
        encoder_step(
            low,
            width,
            pending,
            split,
            decoder_step(numerator, width, input, split, range_form).0,
            range_form,
        ).1 == decoder_step(numerator, width, input, split, range_form).2,
{
    let lower = numerator < split;
    let c = encoder_choose(low, width, pending, split, lower, range_form);
    let w1 = c.1;
    lemma_widths_agree(c.0, w1, c.2, 0, Seq::empty(), 3, range_form);
    let n1 = if lower {
        numerator
    } else {
        (numerator - split) as u32
    };
    lemma_renormalize_width_only(n1, w1, input, c.0, c.2, 3, range_form);
}

/// The width reached by renormalization depends on the width alone.
proof fn lemma_widths_agree(
    low: u32,
    width: u32,
    pending: nat,
    numerator: u32,
    input: Seq<u8>,
    steps: nat,
    range_form: bool,
)
    ensures
        encoder_renormalize(low, width, pending, steps, range_form).1 == decoder_renormalize(
            numerator,
            width,
            input,
            steps,
            range_form,
        ).1,
    decreases steps,
{
    if steps > 0 {
        if narrow(width, range_form) {
            let s = shift_low(low, pending);
            let byte: u8 = if input.len() == 0 {
                0
            } else {
                input[0]
            };
            let rest = if input.len() == 0 {
                input
            } else {
                input.drop_first()
            };
            lemma_widths_agree(
                s.0,
                widen(width, range_form),
                s.1,
                (numerator << 8u32) | (byte as u32),
                rest,
                (steps - 1) as nat,
                range_form,
            );
        } else {
            lemma_widths_agree(low, width, pending, numerator, input, (steps - 1) as nat, range_form);
        }
    }
}

pub(crate) proof fn lemma_renormalize_width_only(
    numerator: u32,
    width: u32,
    input: Seq<u8>,
    low: u32,
    pending: nat,
    steps: nat,
    range_form: bool,
)
    ensures
        decoder_renormalize(numerator, width, input, steps, range_form).1 == encoder_renormalize(
            low,
            width,
            pending,
            steps,
            range_form,
        ).1,
{
    lemma_widths_agree(low, width, pending, numerator, input, steps, range_form);
}

/// One renormalization round of an encoder's low word and pending count.
pub(crate) fn shift_low_exec(low: &mut u32, pending: &mut usize, output: &mut OutputBytes)
    requires
        *old(pending) < usize::MAX,
    ensures
        *final(low) == shift_low(*old(low), *old(pending) as nat).0,
        *final(pending) == shift_low(*old(low), *old(pending) as nat).1,
        final(output)@ == old(output)@ + shift_low(*old(low), *old(pending) as nat).2,
{
    let head_byte = (*low >> 24u32) as u8;
    let next = (*low >> 16u32) as u8;
    if *pending == 0 {
        *low = *low << 8u32;
        *pending = 1;
        proof {
            assert(old(output)@ + Seq::<u8>::empty() =~= old(output)@);
        }
    } else if next == 0xff {
        *low = (*low & 0xff00_0000u32) | ((*low << 8u32) & 0x00ff_ff00u32);
        *pending = *pending + 1;
        proof {
            assert(old(output)@ + Seq::<u8>::empty() =~= old(output)@);
        }
    } else {
        output.push(head_byte, 0xff, *pending - 1);
        *low = *low << 8u32;
        *pending = 1;
    }
}

/// Three encoder renormalization rounds.
pub(crate) fn encoder_renormalize_exec(
    low: &mut u32,
    width: &mut u32,
    pending: &mut usize,
    output: &mut OutputBytes,
    range_form: bool,
)
    requires
        width_pre(*old(width), range_form),
        *old(pending) + 3 <= usize::MAX,
    ensures
        ({
            let r = encoder_renormalize(
                *old(low),
                *old(width),
                *old(pending) as nat,
                3,
                range_form,
            );
            &&& *final(low) == r.0
            &&& *final(width) == r.1
            &&& *final(pending) == r.2
            &&& final(output)@ == old(output)@ + r.3
        }),
{
    let ghost target = encoder_renormalize(*low, *width, *pending as nat, 3, range_form);
    let ghost out0 = output@;
    let ghost p0 = *pending;
    let mut i: usize = 0;
    proof {
        assert(out0 + Seq::<u8>::empty() =~= out0);
    }
    while i < 3
        invariant
            i <= 3,
            *pending <= p0 + i,
            p0 + 3 <= usize::MAX,
            width_pre(*width, range_form),
            ({
                let r = encoder_renormalize(
                    *low,
                    *width,
                    *pending as nat,
                    (3 - i) as nat,
                    range_form,
                );
                &&& r.0 == target.0
                &&& r.1 == target.1
                &&& r.2 == target.2
                &&& output@ + r.3 == out0 + target.3
            }),
        decreases 3 - i,
    {
        let shift = if range_form {
            *width <= RANGE_TOP
        } else {
            *width < RANGE_TOP
        };
        if shift {
            let ghost before_out = output@;
            let ghost s = shift_low(*low, *pending as nat);
            proof {
                lemma_widen(*width, range_form);
            }
            shift_low_exec(low, pending, output);
            *width = if range_form {
                *width << 8u32
            } else {
                (*width << 8u32) | 0xffu32
            };
            proof {
                assert(before_out + (s.2 + encoder_renormalize(
                    *low,
                    *width,
                    *pending as nat,
                    (3 - i - 1) as nat,
                    range_form,
                ).3) =~= output@ + encoder_renormalize(
                    *low,
                    *width,
                    *pending as nat,
                    (3 - i - 1) as nat,
                    range_form,
                ).3);
            }
        }
        i = i + 1;
    }
    proof {
        assert(output@ + Seq::<u8>::empty() =~= output@);
    }
}

/// One encoder step: choose a branch of width `split`, then renormalize.
pub(crate) fn encoder_step_exec(
    low: &mut u32,
    width: &mut u32,
    pending: &mut usize,
    split: u32,
    lower: bool,
    range_form: bool,
) -> (output: OutputBytes)
    requires
        width_ok(*old(width), range_form),
        split_ok(*old(width), split, range_form),
        *old(pending) + 3 <= usize::MAX,
    ensures
        ({
            let r = encoder_step(
                *old(low),
                *old(width),
                *old(pending) as nat,
                split,
                lower,
                range_form,
            );
            &&& *final(low) == r.0
            &&& *final(width) == r.1
            &&& *final(pending) == r.2
            &&& output@ == r.3
        }),
        width_ok(*final(width), range_form),
{
    let mut output = OutputBytes::new();
    if lower {
        *width = if range_form {
            split
        } else {
            split - 1
        };
    } else {
        let before = *low;
        let old_head = before >> 24u32;
        let after = low.wrapping_add(split);
        *low = after;
        *width = *width - split;
        let new_head = after >> 24u32;
        proof {
            assert((old_head != new_head) == (((before >> 24u32) as u8) != ((after >> 24u32) as u8)))
                by (bit_vector)
                requires
                    old_head == before >> 24u32,
                    new_head == after >> 24u32,
            ;
        }
        if new_head != old_head {
            if *pending == 0 {
                *pending = 1;
            } else {
                output.push(new_head as u8, 0x00, *pending - 1);
                *low = *low & 0x00ff_ffffu32;
                *pending = 0;
            }
        }
    }
    let ghost chosen_out = output@;
    proof {
        let c = encoder_choose(
            *old(low),
            *old(width),
            *old(pending) as nat,
            split,
            lower,
            range_form,
        );
        assert(output@ =~= c.3);
    }
    encoder_renormalize_exec(low, width, pending, &mut output, range_form);
    proof {
        lemma_encoder_renormalize(
            encoder_choose(*old(low), *old(width), *old(pending) as nat, split, lower, range_form).0,
            encoder_choose(*old(low), *old(width), *old(pending) as nat, split, lower, range_form).1,
            encoder_choose(*old(low), *old(width), *old(pending) as nat, split, lower, range_form).2,
            range_form,
        );
    }
    output
}

/// Flush a finished encoder: every remaining width, then the pending head.
pub(crate) fn encoder_finish_exec(low: u32, pending: usize, range_form: bool) -> (output:
    OutputBytes)
    requires
        pending + 3 <= usize::MAX,
    ensures
        output@ == encoder_finish(low, pending as nat, range_form),
{
    let mut output = OutputBytes::new();
    let mut low = low;
    let mut pending = pending;
    let mut width: u32 = if range_form {
        1
    } else {
        0
    };
    encoder_renormalize_exec(&mut low, &mut width, &mut pending, &mut output, range_form);
    if pending != 0 {
        output.push((low >> 24u32) as u8, 0xff, pending - 1);
    } else {
        proof {
            assert(output@ + Seq::<u8>::empty() =~= output@);
        }
    }
    output
}

/// Read the next input byte, or zero once the input is exhausted.
pub(crate) fn read_byte(input: &mut &[u8]) -> (r: u8)
    ensures
        r == if old(input)@.len() == 0 {
            0u8
        } else {
            old(input)@[0]
        },
        final(input)@ == if old(input)@.len() == 0 {
            old(input)@
        } else {
            old(input)@.drop_first()
        },
{
    if input.len() == 0 {
        0
    } else {
        let byte = input[0];
        *input = &input[1..input.len()];
        proof {
            assert(input@ =~= old(input)@.drop_first());
        }
        byte
    }
}

/// Three decoder renormalization rounds.
pub(crate) fn decoder_renormalize_exec(
    numerator: &mut u32,
    width: &mut u32,
    input: &mut &[u8],
    range_form: bool,
)
    ensures
        ({
            let r = decoder_renormalize(*old(numerator), *old(width), old(input)@, 3, range_form);
            &&& *final(numerator) == r.0
            &&& *final(width) == r.1
            &&& final(input)@ == r.2
        }),
{
    let ghost target = decoder_renormalize(*numerator, *width, input@, 3, range_form);
    let mut i: usize = 0;
    while i < 3
        invariant
            i <= 3,
            decoder_renormalize(*numerator, *width, input@, (3 - i) as nat, range_form) == target,
        decreases 3 - i,
    {
        let shift = if range_form {
            *width <= RANGE_TOP
        } else {
            *width < RANGE_TOP
        };
        if shift {
            *width = if range_form {
                *width << 8u32
            } else {
                (*width << 8u32) | 0xffu32
            };
            let byte = read_byte(input);
            *numerator = (*numerator << 8u32) | (byte as u32);
        }
        i = i + 1;
    }
}

/// One decoder step against a split of width `split`.
pub(crate) fn decoder_step_exec(
    numerator: &mut u32,
    width: &mut u32,
    input: &mut &[u8],
    split: u32,
    range_form: bool,
) -> (lower: bool)
    requires
        decoder_ok(*old(numerator), *old(width), range_form),
        split_ok(*old(width), split, range_form),
    ensures
        ({
            let r = decoder_step(*old(numerator), *old(width), old(input)@, split, range_form);
            &&& lower == r.0
            &&& *final(numerator) == r.1
            &&& *final(width) == r.2
            &&& final(input)@ == r.3
        }),
        decoder_ok(*final(numerator), *final(width), range_form),
{
    let lower = *numerator < split;
    if lower {
        *width = if range_form {
            split
        } else {
            split - 1
        };
    } else {
        *numerator = *numerator - split;
        *width = *width - split;
    }
    proof {
        lemma_decoder_renormalize(*numerator, *width, input@, 3, range_form);
        lemma_decoder_renormalize_width(*numerator, *width, input@, range_form);
    }
    decoder_renormalize_exec(numerator, width, input, range_form);
    lower
}

} // verus!
