//! Decoding inverts encoding: the range coders' round-trip law.
//!
//! An encoder state `(low, width, pending)` stands for an interval of the
//! number whose digits are the bytes still to be settled: `pending` carry
//! digits (a head byte and `pending - 1` bytes `0xff`) followed by the three
//! bytes of the working window. [`carry_value`] is the interval's lower end
//! in those digits and [`range_of`] its width. Every step keeps the interval
//! inside the digits it spans ([`carry_ok`]), so a carry never reaches a byte
//! already settled, and the decoder, reading the settled bytes, always holds
//! the coded value's offset inside the same interval.
use vstd::prelude::*;

use crate::coder::{
    decoder_renormalize, decoder_step, encoder_choose, encoder_finish, encoder_renormalize,
    encoder_step, head, lemma_decoder_renormalize, lemma_encoder_renormalize, lemma_shift_in,
    lemma_split_q17_bounds, lemma_widen, narrow, range_of, run, shift_low, split_q17, widen, width_ok,
    width_pre, wrap_add, FractionalU16, FULL_RANGE,
};

verus! {

/// `256^k`.
pub open spec fn p256(k: nat) -> nat
    decreases k,
{
    if k == 0 {
        1
    } else {
        256 * p256((k - 1) as nat)
    }
}

/// The value of bytes read as a big-endian number.
pub open spec fn be_value(bytes: Seq<u8>) -> nat
    decreases bytes.len(),
{
    if bytes.len() == 0 {
        0
    } else {
        be_value(bytes.drop_last()) * 256 + bytes.last() as nat
    }
}

proof fn lemma_p256_add(a: nat, b: nat)
    ensures
        p256(a + b) == p256(a) * p256(b),
    decreases b,
{
    if b == 0 {
        assert(p256(0) == 1);
        assert(p256(a) * 1 == p256(a));
    } else {
        lemma_p256_add(a, (b - 1) as nat);
        assert(p256(a + b) == 256 * p256((a + b - 1) as nat));
        assert(p256(b) == 256 * p256((b - 1) as nat));
        assert(256 * (p256(a) * p256((b - 1) as nat)) == p256(a) * (256 * p256((b - 1) as nat)))
            by (nonlinear_arith);
    }
}

proof fn lemma_p256_facts(k: nat)
    ensures
        p256(k) >= 1,
        p256(0) == 1,
        p256(1) == 256,
        p256(2) == 0x1_0000,
        p256(3) == 0x100_0000,
        p256(4) == 0x1_0000_0000,
    decreases k,
{
    reveal_with_fuel(p256, 5);
    if k > 0 {
        lemma_p256_facts((k - 1) as nat);
    }
}

/// Concatenation shifts the first part by the length of the second.
proof fn lemma_be_concat(a: Seq<u8>, b: Seq<u8>)
    ensures
        be_value(a + b) == be_value(a) * p256(b.len()) + be_value(b),
    decreases b.len(),
{
    if b.len() == 0 {
        assert(a + b =~= a);
        assert(p256(0) == 1);
        assert(be_value(b) == 0);
        assert(be_value(a) * 1 == be_value(a));
    } else {
        let init = b.drop_last();
        assert(p256(b.len()) == 256 * p256(init.len()));
        assert((a + b).drop_last() =~= a + init);
        assert((a + b).last() == b.last());
        lemma_be_concat(a, init);
        let x = be_value(a);
        let q = p256(init.len());
        assert((x * q + be_value(init)) * 256 + b.last() == x * (256 * q) + (be_value(init) * 256
            + b.last())) by (nonlinear_arith);
    }
}

proof fn lemma_be_bound(bytes: Seq<u8>)
    ensures
        be_value(bytes) < p256(bytes.len()),
    decreases bytes.len(),
{
    if bytes.len() > 0 {
        lemma_be_bound(bytes.drop_last());
        let x = be_value(bytes.drop_last());
        let q = p256((bytes.len() - 1) as nat);
        assert(x * 256 + bytes.last() < 256 * q) by (nonlinear_arith)
            requires
                x < q,
                bytes.last() < 256,
        ;
    }
}

/// `count` copies of `byte`, read as a number.
proof fn lemma_be_repeat(byte: u8, count: nat)
    ensures
        byte == 0 ==> be_value(Seq::new(count, |_i: int| byte)) == 0,
        byte == 0xff ==> be_value(Seq::new(count, |_i: int| byte)) + 1 == p256(count),
    decreases count,
{
    if count > 0 {
        let s = Seq::new(count, |_i: int| byte);
        assert(s.drop_last() =~= Seq::new((count - 1) as nat, |_i: int| byte));
        lemma_be_repeat(byte, (count - 1) as nat);
    }
}

/// A head byte followed by `count` copies of `0` or `0xff`, read as a number.
proof fn lemma_be_run(first: u8, repeated: u8, count: nat)
    ensures
        repeated == 0 ==> be_value(run(first, repeated, count)) == first * p256(count),
        repeated == 0xff ==> be_value(run(first, repeated, count)) + 1 == (first + 1) * p256(count),
        run(first, repeated, count).len() == count + 1,
{
    let tail = Seq::new(count, |_i: int| repeated);
    lemma_be_concat(seq![first], tail);
    lemma_be_repeat(repeated, count);
    reveal_with_fuel(be_value, 2);
    assert(seq![first].drop_last() =~= Seq::<u8>::empty());
    assert(be_value(seq![first]) == first);
    assert((first + 1) * p256(count) == first * p256(count) + p256(count)) by (nonlinear_arith);
}

/// The lower end of the encoder's interval, in the digits still to be
/// settled: with `pending > 0` the head byte of `low`, then `pending - 1`
/// bytes `0xff`, then the 24-bit window.
pub open spec fn carry_value(pending: nat, low: u32) -> nat {
    if pending == 0 {
        low as nat
    } else {
        ((low / 0x100_0000) as nat * p256(pending + 2) + (p256((pending - 1) as nat) - 1) * 0x100_0000
            + (low % 0x100_0000) as nat) as nat
    }
}

/// The interval `[carry_value, carry_value + range)` fits in the digits it
/// spans, and without carry digits the head byte is clear.
pub open spec fn carry_ok(pending: nat, low: u32, range: nat) -> bool {
    &&& pending == 0 ==> low < 0x100_0000
    &&& carry_value(pending, low) + range <= p256(pending + 3)
    &&& range >= 1
}

/// One byte shift keeps the interval and multiplies it by 256, settling the
/// bytes that no carry can change any more.
proof fn lemma_shift(low: u32, pending: nat, range: nat)
    requires
        carry_ok(pending, low, range),
        range <= 0x1_0000,
    ensures
        ({
            let s = shift_low(low, pending);
            &&& s.2.len() + s.1 == pending + 1
            &&& be_value(s.2) * p256(s.1 + 3) + carry_value(s.1, s.0) == carry_value(pending, low) * 256
            &&& carry_ok(s.1, s.0, range * 256)
            &&& s.1 >= 1
        }),
{
    lemma_p256_facts(0);
    let s = shift_low(low, pending);
    let c = (low / 0x100_0000) as nat;
    let w = (low % 0x100_0000) as nat;
    assert(low == c * 0x100_0000 + w);
    if pending == 0 {
        let l2 = (low << 8u32) as u32;
        assert(low < 0x100_0000 ==> l2 == low * 256) by (bit_vector)
            requires
                l2 == (low << 8u32) as u32,
        ;
        assert(be_value(s.2) == 0);
        assert(carry_value(1, l2) == l2) by {
            assert(l2 == (l2 / 0x100_0000) * 0x100_0000 + l2 % 0x100_0000);
        }
        assert(s.0 == l2 && s.1 == 1 && s.2.len() == 0);
        assert(carry_value(0, low) == low);
        assert(be_value(s.2) * p256(4) == 0);
        assert(carry_ok(1, l2, range * 256));
    } else {
        let next = (low >> 16u32) as u8;
        let pm = (pending - 1) as nat;
        lemma_p256_add(pm, 3);
        lemma_p256_add(pm, 4);
        lemma_p256_add(pm, 1);
        assert(next == (low % 0x100_0000) / 0x1_0000) by (bit_vector)
            requires
                next == (low >> 16u32) as u8,
        ;
        if next == 0xff {
            let l2 = (low & 0xff00_0000u32) | ((low << 8u32) & 0x00ff_ff00u32);
            assert(l2 / 0x100_0000 == low / 0x100_0000 && l2 % 0x100_0000 == (low % 0x1_0000) * 256)
                by (bit_vector)
                requires
                    l2 == (low & 0xff00_0000u32) | ((low << 8u32) & 0x00ff_ff00u32),
            ;
            assert(w == 0xff * 0x1_0000 + low % 0x1_0000);
            let q = p256(pm);
            assert(p256(pending) == 256 * q);
            assert(p256(pending + 3) == 256 * p256(pending + 2));
            assert(carry_value(pending + 1, l2) == c * p256(pending + 3) + (p256(pending) - 1)
                * 0x100_0000 + (low % 0x1_0000) * 256);
            assert(c * p256(pending + 3) + (256 * q - 1) * 0x100_0000 + (low % 0x1_0000) * 256 == (c
                * p256(pending + 2) + (q - 1) * 0x100_0000 + w) * 256) by (nonlinear_arith)
                requires
                    p256(pending + 3) == 256 * p256(pending + 2),
                    w == 0xff * 0x1_0000 + low % 0x1_0000,
                    q >= 1,
            ;
            assert(p256(pending + 4) == 256 * p256(pending + 3));
            assert(s.0 == l2 && s.1 == pending + 1 && s.2.len() == 0);
            assert(be_value(s.2) == 0);
            assert(carry_value(pending + 1, l2) == carry_value(pending, low) * 256);
            assert(carry_value(pending + 1, l2) + range * 256 <= p256(pending + 4));
        } else {
            let l2 = (low << 8u32) as u32;
            assert(l2 == (low % 0x100_0000) * 256) by (bit_vector)
                requires
                    l2 == (low << 8u32) as u32,
            ;
            lemma_head(low);
            lemma_be_run(head(low), 0xff, pm);
            assert(carry_value(1, l2) == l2) by {
                assert(l2 == (l2 / 0x100_0000) * 0x100_0000 + l2 % 0x100_0000);
            }
            let q = p256(pm);
            assert(head(low) == c);
            assert(s.2 == run(head(low), 0xff, pm));
            assert((c + 1) * q == c * q + q) by (nonlinear_arith);
            assert(be_value(s.2) == c * q + q - 1);
            assert((c * q + q - 1) * 0x1_0000_0000 + w * 256 == (c * (q * 0x100_0000) + (q - 1)
                * 0x100_0000 + w) * 256) by (nonlinear_arith)
                requires
                    q >= 1,
            ;
            assert(w < 0xff * 0x1_0000);
            assert(s.0 == l2 && s.1 == 1 && s.2.len() == pending);
            assert(be_value(s.2) * p256(4) + carry_value(1, l2) == carry_value(pending, low) * 256);
            assert(carry_value(1, l2) + range * 256 <= p256(4));
        }
    }
}


/// The head byte of a low word.
proof fn lemma_head(x: u32)
    ensures
        head(x) == x / 0x100_0000,
{
    assert(head(x) == x / 0x100_0000) by (bit_vector);
}

/// Choosing a branch narrows the interval to `[lower end + delta, + chosen
/// range)`, settling the carry digits when the window overflows into them.
#[verifier::spinoff_prover]
#[verifier::rlimit(40)]
proof fn lemma_choose(low: u32, width: u32, pending: nat, split: u32, lower: bool, range_form: bool)
    requires
        width_ok(width, range_form),
        carry_ok(pending, low, range_of(width, range_form)),
        1 <= split < range_of(width, range_form),
    ensures
        ({
            let c = encoder_choose(low, width, pending, split, lower, range_form);
            let delta: nat = if lower {
                0
            } else {
                split as nat
            };
            let chosen: nat = if lower {
                split as nat
            } else {
                (range_of(width, range_form) - split) as nat
            };
            &&& c.3.len() + c.2 == pending
            &&& be_value(c.3) * p256(c.2 + 3) + carry_value(c.2, c.0) == carry_value(pending, low) + delta
            &&& range_of(c.1, range_form) == chosen
            &&& width_pre(c.1, range_form)
            &&& carry_ok(c.2, c.0, chosen)
        }),
{
    lemma_p256_facts(0);
    let r = range_of(width, range_form);
    let c = encoder_choose(low, width, pending, split, lower, range_form);
    let cc = (low / 0x100_0000) as nat;
    let w = (low % 0x100_0000) as nat;
    assert(low == cc * 0x100_0000 + w);
    assert(r <= FULL_RANGE);
    if lower {
        assert(be_value(c.3) == 0);
        assert(c.0 == low && c.2 == pending && c.3.len() == 0);
        assert(range_of(c.1, range_form) == split);
        assert(width_pre(c.1, range_form));
        assert(carry_ok(c.2, c.0, split as nat));
    } else {
        assert(width_pre(c.1, range_form));
        // The sum never passes the top of the head byte.
        if pending > 0 {
            let pm = (pending - 1) as nat;
            lemma_p256_add(pm, 3);
            lemma_p256_add(pm, 4);
            let q = p256(pm);
            assert(p256(pending + 2) == q * 0x100_0000);
            assert(p256(pending + 3) == q * 0x1_0000_0000);
            assert(cc * (q * 0x100_0000) + (q - 1) * 0x100_0000 + w + r <= q * 0x1_0000_0000);
            assert(cc <= 255);
            if cc == 255 {
                assert(w + r <= 0x100_0000) by (nonlinear_arith)
                    requires
                        255 * (q * 0x100_0000) + (q - 1) * 0x100_0000 + w + r <= q * 0x1_0000_0000,
                ;
            }
        }
        assert(low + split <= u32::MAX);
        let moved = (low + split) as u32;
        assert(wrap_add(low, split) == moved);
        lemma_head(moved);
        lemma_head(low);
        let rest = (r - split) as nat;
        assert(range_of(c.1, range_form) == rest);
        if head(moved) == head(low) {
            assert(moved % 0x100_0000 == w + split);
            assert(c.0 == moved && c.2 == pending && c.3.len() == 0);
            assert(be_value(c.3) == 0);
            if pending == 0 {
                assert(moved < 0x100_0000);
            }
            assert(carry_value(pending, moved) == carry_value(pending, low) + split);
            assert(carry_ok(c.2, c.0, rest));
        } else {
            if pending == 0 {
                assert(low + split < 0x100_0000);
                assert(false);
            }
            let pm = (pending - 1) as nat;
            lemma_p256_add(pm, 3);
            let q = p256(pm);
            assert(moved / 0x100_0000 == cc + 1);
            assert(w + split >= 0x100_0000);
            let l2 = moved & 0x00ff_ffffu32;
            assert(l2 == moved % 0x100_0000) by (bit_vector)
                requires
                    l2 == moved & 0x00ff_ffffu32,
            ;
            assert(l2 == w + split - 0x100_0000);
            assert(c.0 == l2 && c.2 == 0 && c.3 == run(head(moved), 0, pm));
            lemma_be_run(head(moved), 0, pm);
            assert(be_value(c.3) == (cc + 1) * q);
            assert(p256(pending + 2) == q * 0x100_0000);
            assert((cc + 1) * q * 0x100_0000 + (w + split - 0x100_0000) == cc * (q * 0x100_0000) + (q
                - 1) * 0x100_0000 + w + split) by (nonlinear_arith)
                requires
                    w + split >= 0x100_0000,
                    q >= 1,
            ;
            assert(carry_value(0, l2) + rest <= p256(3));
            assert(carry_ok(c.2, c.0, rest));
            assert(be_value(c.3) * p256(c.2 + 3) + carry_value(c.2, c.0) == carry_value(pending, low) + split);
            assert(c.3.len() + c.2 == pending);
        }
    }
}

/// The number of byte shifts among `steps` renormalization rounds from
/// `width`.
pub open spec fn rounds(width: u32, steps: nat, range_form: bool) -> nat
    decreases steps,
{
    if steps == 0 {
        0
    } else if narrow(width, range_form) {
        1 + rounds(widen(width, range_form), (steps - 1) as nat, range_form)
    } else {
        rounds(width, (steps - 1) as nat, range_form)
    }
}

/// A narrow width denotes a range of at most `2^16`.
proof fn lemma_narrow_range(width: u32, range_form: bool)
    requires
        width_pre(width, range_form),
        narrow(width, range_form),
    ensures
        range_of(width, range_form) <= 0x1_0000,
{
}

/// Encoder renormalization scales the interval by `256` per shift.
proof fn lemma_encoder_rounds(low: u32, width: u32, pending: nat, steps: nat, range_form: bool)
    requires
        width_pre(width, range_form),
        carry_ok(pending, low, range_of(width, range_form)),
    ensures
        ({
            let r = encoder_renormalize(low, width, pending, steps, range_form);
            let j = rounds(width, steps, range_form);
            &&& r.3.len() + r.2 == pending + j
            &&& be_value(r.3) * p256(r.2 + 3) + carry_value(r.2, r.0) == carry_value(pending, low) * p256(j)
            &&& range_of(r.1, range_form) == range_of(width, range_form) * p256(j)
            &&& width_pre(r.1, range_form)
            &&& carry_ok(r.2, r.0, range_of(r.1, range_form))
            &&& (j > 0 || pending >= 1) ==> r.2 >= 1
        }),
    decreases steps,
{
    lemma_p256_facts(0);
    if steps > 0 {
        if narrow(width, range_form) {
            let s = shift_low(low, pending);
            lemma_narrow_range(width, range_form);
            lemma_shift(low, pending, range_of(width, range_form));
            lemma_widen(width, range_form);
            let w2 = widen(width, range_form);
            let st = (steps - 1) as nat;
            lemma_encoder_rounds(s.0, w2, s.1, st, range_form);
            let r2 = encoder_renormalize(s.0, w2, s.1, st, range_form);
            let j2 = rounds(w2, st, range_form);
            let r = encoder_renormalize(low, width, pending, steps, range_form);
            assert(r == (r2.0, r2.1, r2.2, s.2 + r2.3));
            lemma_be_concat(s.2, r2.3);
            lemma_p256_add(r2.3.len(), r2.2 + 3);
            lemma_p256_add(s.1 + 3, j2);
            assert(r2.3.len() + r2.2 + 3 == s.1 + 3 + j2);
            assert(p256(j2 + 1) == 256 * p256(j2));
            let a = be_value(s.2);
            let b = be_value(r2.3);
            let e = p256(r2.2 + 3);
            let f = p256(r2.3.len());
            let g = p256(j2);
            let cv = carry_value(pending, low);
            let cv1 = carry_value(s.1, s.0);
            let h = p256(s.1 + 3);
            assert((a * f + b) * e + carry_value(r2.2, r2.0) == cv * (256 * g)) by (nonlinear_arith)
                requires
                    f * e == h * g,
                    b * e + carry_value(r2.2, r2.0) == cv1 * g,
                    a * h + cv1 == cv * 256,
            ;
            assert(range_of(width, range_form) * 256 * g == range_of(width, range_form) * (256 * g))
                by (nonlinear_arith);
            assert(r.3.len() + r.2 == pending + (j2 + 1));
            assert(rounds(width, steps, range_form) == j2 + 1);
            assert(be_value(r.3) * p256(r.2 + 3) + carry_value(r.2, r.0) == carry_value(pending, low)
                * p256(j2 + 1));
            assert(range_of(r.1, range_form) == range_of(width, range_form) * p256(j2 + 1));
        } else {
            lemma_encoder_rounds(low, width, pending, (steps - 1) as nat, range_form);
        }
    } else {
        assert(be_value(Seq::<u8>::empty()) == 0);
        assert(carry_value(pending, low) * 1 == carry_value(pending, low));
        assert(range_of(width, range_form) * 1 == range_of(width, range_form));
    }
}

/// Decoder renormalization shifts in the next `rounds` input bytes.
proof fn lemma_decoder_rounds(numerator: u32, width: u32, input: Seq<u8>, steps: nat, range_form: bool)
    requires
        width_pre(width, range_form),
        numerator < range_of(width, range_form),
        input.len() >= rounds(width, steps, range_form),
    ensures
        ({
            let r = decoder_renormalize(numerator, width, input, steps, range_form);
            let j = rounds(width, steps, range_form);
            &&& r.0 == numerator * p256(j) + be_value(input.take(j as int))
            &&& r.2 == input.skip(j as int)
        }),
    decreases steps,
{
    lemma_p256_facts(0);
    if steps > 0 {
        if narrow(width, range_form) {
            let byte = input[0];
            let rest = input.drop_first();
            lemma_shift_in(numerator, byte, width, range_form);
            lemma_widen(width, range_form);
            let n2 = (numerator << 8u32) | (byte as u32);
            let w2 = widen(width, range_form);
            let st = (steps - 1) as nat;
            lemma_decoder_rounds(n2, w2, rest, st, range_form);
            let j2 = rounds(w2, st, range_form);
            assert(input.take(j2 + 1int) =~= seq![byte] + rest.take(j2 as int));
            lemma_be_concat(seq![byte], rest.take(j2 as int));
            reveal_with_fuel(be_value, 2);
            assert(seq![byte].drop_last() =~= Seq::<u8>::empty());
            assert(be_value(seq![byte]) == byte);
            assert(rest.skip(j2 as int) =~= input.skip(j2 + 1int));
            assert(p256(j2 + 1) == 256 * p256(j2));
            let g = p256(j2);
            let t = be_value(rest.take(j2 as int));
            assert((numerator * 256 + byte) * g + t == numerator * (256 * g) + (byte * g + t))
                by (nonlinear_arith);
        } else {
            lemma_decoder_rounds(numerator, width, input, (steps - 1) as nat, range_form);
        }
    } else {
        assert(input.take(0) =~= Seq::<u8>::empty());
        assert(input.skip(0) =~= input);
        assert(be_value(Seq::<u8>::empty()) == 0);
        assert(numerator * 1 == numerator);
    }
}

/// The width an encoder finishes from and a decoder starts from: one below
/// the smallest range.
pub open spec fn empty_width(range_form: bool) -> u32 {
    if range_form {
        1
    } else {
        0
    }
}

/// The encoder's and decoder's first working width: the full range.
pub open spec fn initial_width(range_form: bool) -> u32 {
    if range_form {
        FULL_RANGE
    } else {
        (FULL_RANGE - 1) as u32
    }
}

/// Three rounds from the empty width all shift and reach the full range.
proof fn lemma_empty_width_rounds(range_form: bool)
    ensures
        rounds(empty_width(range_form), 3, range_form) == 3,
        width_pre(empty_width(range_form), range_form),
        range_of(empty_width(range_form), range_form) == 1,
        encoder_renormalize(0, empty_width(range_form), 0, 3, range_form).1 == initial_width(range_form),
{
    let w0 = empty_width(range_form);
    lemma_widen(w0, range_form);
    let w1 = widen(w0, range_form);
    lemma_widen(w1, range_form);
    let w2 = widen(w1, range_form);
    lemma_widen(w2, range_form);
    let w3 = widen(w2, range_form);
    reveal_with_fuel(rounds, 4);
    reveal_with_fuel(encoder_renormalize, 4);
    assert(rounds(w2, 1, range_form) == 1);
    assert(rounds(w1, 2, range_form) == 2);
    assert(encoder_renormalize(0, empty_width(range_form), 0, 3, range_form).1 == w3);
}

/// Finishing settles every remaining digit: the bytes written are the
/// interval's lower end, `pending + 3` digits long.
proof fn lemma_finish(low: u32, pending: nat, range: nat, range_form: bool)
    requires
        carry_ok(pending, low, range),
    ensures
        encoder_finish(low, pending, range_form).len() == pending + 3,
        be_value(encoder_finish(low, pending, range_form)) == carry_value(pending, low),
{
    lemma_p256_facts(0);
    let w0 = empty_width(range_form);
    lemma_empty_width_rounds(range_form);
    lemma_encoder_rounds(low, w0, pending, 3, range_form);
    let r = encoder_renormalize(low, w0, pending, 3, range_form);
    let pp = r.2;
    assert(pp >= 1);
    let pm = (pp - 1) as nat;
    let flush = run(head(r.0), 0xff, pm);
    let out = encoder_finish(low, pending, range_form);
    assert(out == r.3 + flush);
    lemma_be_run(head(r.0), 0xff, pm);
    lemma_be_concat(r.3, flush);
    let cc = (r.0 / 0x100_0000) as nat;
    let w = (r.0 % 0x100_0000) as nat;
    lemma_head(r.0);
    lemma_p256_add(pm, 3);
    lemma_p256_add(pp, 3);
    let q = p256(pm);
    let b = be_value(r.3);
    let cv = carry_value(pending, low);
    assert(p256(pp) == 256 * q);
    assert(p256(pp + 2) == q * 0x100_0000);
    assert(p256(pp + 3) == p256(pp) * 0x100_0000);
    // The window is empty: everything else is a multiple of `2^24`.
    let k: int = cv - b * p256(pp) - cc * q - (q - 1);
    assert(w == 0x100_0000 * k) by (nonlinear_arith)
        requires
            b * (p256(pp) * 0x100_0000) + (cc * (q * 0x100_0000) + (q - 1) * 0x100_0000 + w) == cv
                * 0x100_0000,
            k == cv - b * p256(pp) - cc * q - (q - 1),
    ;
    assert(w == 0) by (nonlinear_arith)
        requires
            w == 0x100_0000 * k,
            0 <= w < 0x100_0000,
    ;
    assert(be_value(flush) == cc * q + q - 1) by (nonlinear_arith)
        requires
            be_value(flush) + 1 == (cc + 1) * q,
    ;
    assert(be_value(out) == cv) by (nonlinear_arith)
        requires
            be_value(out) == b * p256(pp) + be_value(flush),
            be_value(flush) == cc * q + q - 1,
            b * (p256(pp) * 0x100_0000) + (cc * (q * 0x100_0000) + (q - 1) * 0x100_0000) == cv
                * 0x100_0000,
    ;
}

/// The bytes an encoder in state `(low, width, pending)` settles while it
/// codes `lowers[i]` with lower-branch width `split(range, ps[i])`, followed
/// by the bytes of `finish`.
pub open spec fn encode_from<P>(
    low: u32,
    width: u32,
    pending: nat,
    ps: Seq<P>,
    lowers: Seq<bool>,
    split: spec_fn(nat, P) -> u32,
    range_form: bool,
) -> Seq<u8>
    decreases lowers.len(),
{
    if lowers.len() == 0 || ps.len() == 0 {
        encoder_finish(low, pending, range_form)
    } else {
        let r = encoder_step(low, width, pending, split(range_of(width, range_form), ps[0]), lowers[0], range_form);
        r.3 + encode_from(r.0, r.1, r.2, ps.drop_first(), lowers.drop_first(), split, range_form)
    }
}

/// The decisions a decoder in state `(numerator, width, input)` reads under
/// the lower-branch widths `split(range, ps[i])`.
pub open spec fn decode_from<P>(
    numerator: u32,
    width: u32,
    input: Seq<u8>,
    ps: Seq<P>,
    split: spec_fn(nat, P) -> u32,
    range_form: bool,
) -> Seq<bool>
    decreases ps.len(),
{
    if ps.len() == 0 {
        Seq::empty()
    } else {
        let r = decoder_step(numerator, width, input, split(range_of(width, range_form), ps[0]), range_form);
        seq![r.0] + decode_from(r.1, r.2, r.3, ps.drop_first(), split, range_form)
    }
}

/// Every byte a fresh encoder writes while coding `lowers` under `ps`, then
/// finishing.
pub open spec fn encode_all<P>(ps: Seq<P>, lowers: Seq<bool>, split: spec_fn(nat, P) -> u32, range_form: bool) -> Seq<u8> {
    encode_from(0, initial_width(range_form), 0, ps, lowers, split, range_form)
}

/// The decisions a fresh decoder reads from `bytes` under `ps`.
pub open spec fn decode_all<P>(bytes: Seq<u8>, ps: Seq<P>, split: spec_fn(nat, P) -> u32, range_form: bool) -> Seq<bool> {
    let d = decoder_renormalize(0, empty_width(range_form), bytes, 3, range_form);
    decode_from(d.0, d.1, d.2, ps, split, range_form)
}

/// Every split leaves both branches nonempty on every working range.
pub open spec fn splits_fit<P>(ps: Seq<P>, split: spec_fn(nat, P) -> u32, range_form: bool) -> bool {
    forall|i: int, w: u32|
        0 <= i < ps.len() && width_ok(w, range_form) ==> 1 <= #[trigger] split(range_of(w, range_form), ps[i])
            < range_of(w, range_form)
}

/// The digits of a deeper value, with its last digits dropped, stay in the
/// scaled-down interval.
proof fn lemma_nested_digits(x: nat, t: nat, g: nat, y: nat, lo: nat, chosen: nat)
    requires
        y == x * g + t,
        t < g,
        lo * g <= y < lo * g + chosen * g,
    ensures
        lo <= x < lo + chosen,
{
    if x >= lo + chosen {
        assert(x * g >= (lo + chosen) * g) by (nonlinear_arith)
            requires
                x >= lo + chosen,
        ;
        assert((lo + chosen) * g == lo * g + chosen * g) by (nonlinear_arith);
    }
    if x < lo {
        assert(x * g + g <= lo * g) by (nonlinear_arith)
            requires
                x + 1 <= lo,
        ;
    }
}

/// One encoder step: the settled bytes and the new lower end make up the
/// chosen subinterval's lower end, scaled by the shifts of renormalization.
proof fn lemma_step_encoder(low: u32, width: u32, pending: nat, s: u32, lower: bool, range_form: bool)
    requires
        width_ok(width, range_form),
        carry_ok(pending, low, range_of(width, range_form)),
        1 <= s < range_of(width, range_form),
    ensures
        ({
            let step = encoder_step(low, width, pending, s, lower, range_form);
            let c = encoder_choose(low, width, pending, s, lower, range_form);
            let j = rounds(c.1, 3, range_form);
            let delta: nat = if lower {
                0
            } else {
                s as nat
            };
            let chosen: nat = if lower {
                s as nat
            } else {
                (range_of(width, range_form) - s) as nat
            };
            &&& step.3.len() + step.2 == pending + j
            &&& be_value(step.3) * p256(step.2 + 3) + carry_value(step.2, step.0) == (carry_value(
                pending,
                low,
            ) + delta) * p256(j)
            &&& range_of(step.1, range_form) == chosen * p256(j)
            &&& width_ok(step.1, range_form)
            &&& carry_ok(step.2, step.0, range_of(step.1, range_form))
            &&& width_pre(c.1, range_form)
            &&& range_of(c.1, range_form) == chosen
        }),
{
    let c = encoder_choose(low, width, pending, s, lower, range_form);
    lemma_choose(low, width, pending, s, lower, range_form);
    lemma_encoder_rounds(c.0, c.1, c.2, 3, range_form);
    lemma_encoder_renormalize(c.0, c.1, c.2, range_form);
    let r = encoder_renormalize(c.0, c.1, c.2, 3, range_form);
    let j = rounds(c.1, 3, range_form);
    let step = encoder_step(low, width, pending, s, lower, range_form);
    assert(step == (r.0, r.1, r.2, c.3 + r.3));
    lemma_be_concat(c.3, r.3);
    lemma_p256_add(r.3.len(), r.2 + 3);
    lemma_p256_add(c.2 + 3, j);
    let delta: nat = if lower {
        0
    } else {
        s as nat
    };
    let bc = be_value(c.3);
    let br = be_value(r.3);
    let cv = carry_value(pending, low);
    let cvc = carry_value(c.2, c.0);
    let cv2 = carry_value(r.2, r.0);
    let g = p256(j);
    assert(r.3.len() + r.2 + 3 == c.2 + 3 + j);
    assert((bc * p256(r.3.len()) + br) * p256(r.2 + 3) + cv2 == (cv + delta) * g) by (nonlinear_arith)
        requires
            p256(r.3.len()) * p256(r.2 + 3) == p256(c.2 + 3) * g,
            br * p256(r.2 + 3) + cv2 == cvc * g,
            bc * p256(c.2 + 3) + cvc == cv + delta,
    ;
}

/// One decoder step over the bytes that the matching encoder step and the
/// rest of the encoding settle: the decoder follows the encoder's branch and
/// lands on the offset of the next state's value.
#[verifier::spinoff_prover]
#[verifier::rlimit(30)]
proof fn lemma_step_decoder(
    low: u32,
    width: u32,
    pending: nat,
    s: u32,
    lower: bool,
    out2: Seq<u8>,
    range_form: bool,
)
    requires
        width_ok(width, range_form),
        carry_ok(pending, low, range_of(width, range_form)),
        1 <= s < range_of(width, range_form),
        ({
            let step = encoder_step(low, width, pending, s, lower, range_form);
            let x2 = be_value(out2.take(step.2 + 3int));
            let cv2 = carry_value(step.2, step.0);
            &&& out2.len() >= step.2 + 3
            &&& cv2 <= x2 < cv2 + range_of(step.1, range_form)
        }),
    ensures
        ({
            let step = encoder_step(low, width, pending, s, lower, range_form);
            let out = step.3 + out2;
            let x = be_value(out.take(pending + 3int));
            let cv = carry_value(pending, low);
            let x2 = be_value(out2.take(step.2 + 3int));
            let cv2 = carry_value(step.2, step.0);
            let d = decoder_step((x - cv) as u32, width, out.skip(pending + 3int), s, range_form);
            &&& out.len() >= pending + 3
            &&& cv <= x < cv + range_of(width, range_form)
            &&& d.0 == lower
            &&& d.1 == (x2 - cv2) as u32
            &&& d.2 == step.1
            &&& d.3 == out2.skip(step.2 + 3int)
        }),
{
    lemma_step_encoder(low, width, pending, s, lower, range_form);
    let step = encoder_step(low, width, pending, s, lower, range_form);
    let c = encoder_choose(low, width, pending, s, lower, range_form);
    let j = rounds(c.1, 3, range_form);
    let g = p256(j);
    lemma_p256_facts(j);
    let delta: nat = if lower {
        0
    } else {
        s as nat
    };
    let chosen = range_of(c.1, range_form);
    let cv = carry_value(pending, low);
    let cv2 = carry_value(step.2, step.0);
    let b = step.3;
    let out = b + out2;
    let x2 = be_value(out2.take(step.2 + 3int));
    let k = pending + 3 + j;
    assert(out.take(k as int) =~= b + out2.take(step.2 + 3int));
    lemma_be_concat(b, out2.take(step.2 + 3int));
    let y = be_value(out.take(k as int));
    assert(y == be_value(b) * p256(step.2 + 3) + x2);
    let head_part = out.take(pending + 3int);
    let tail_part = out.skip(pending + 3int).take(j as int);
    assert(out.take(k as int) =~= head_part + tail_part);
    lemma_be_concat(head_part, tail_part);
    lemma_be_bound(tail_part);
    let x = be_value(head_part);
    let t = be_value(tail_part);
    assert((cv + delta) * g + chosen * g == be_value(b) * p256(step.2 + 3) + cv2 + range_of(step.1, range_form));
    lemma_nested_digits(x, t, g, y, cv + delta, chosen);
    assert(delta + chosen <= range_of(width, range_form));
    let n = (x - cv) as u32;
    let input = out.skip(pending + 3int);
    let n1 = (n - delta) as u32;
    lemma_decoder_rounds(n1, c.1, input, 3, range_form);
    lemma_widths_agree_here(c.0, c.1, c.2, n1, input, range_form);
    let dr = decoder_renormalize(n1, c.1, input, 3, range_form);
    let d = decoder_step(n, width, input, s, range_form);
    assert(d == (lower, dr.0, dr.1, dr.2));
    assert(input.take(j as int) =~= tail_part);
    assert(n1 * g + t == x2 - cv2) by (nonlinear_arith)
        requires
            n1 == x - cv - delta,
            y == x * g + t,
            y == be_value(b) * p256(step.2 + 3) + x2,
            be_value(b) * p256(step.2 + 3) + cv2 == (cv + delta) * g,
    ;
    assert(input.skip(j as int) =~= out2.skip(step.2 + 3int));
}

/// From any encoder state, the settled bytes hold a value inside the
/// state's interval, and a decoder positioned at that value's offset reads
/// back every decision.
proof fn lemma_round_trip_from<P>(
    low: u32,
    width: u32,
    pending: nat,
    ps: Seq<P>,
    lowers: Seq<bool>,
    split: spec_fn(nat, P) -> u32,
    range_form: bool,
)
    requires
        width_ok(width, range_form),
        carry_ok(pending, low, range_of(width, range_form)),
        ps.len() == lowers.len(),
        splits_fit(ps, split, range_form),
    ensures
        ({
            let out = encode_from(low, width, pending, ps, lowers, split, range_form);
            let x = be_value(out.take(pending + 3int));
            let cv = carry_value(pending, low);
            &&& out.len() >= pending + 3
            &&& cv <= x < cv + range_of(width, range_form)
            &&& decode_from((x - cv) as u32, width, out.skip(pending + 3int), ps, split, range_form) == lowers
        }),
    decreases lowers.len(),
{
    let out = encode_from(low, width, pending, ps, lowers, split, range_form);
    let range = range_of(width, range_form);
    if lowers.len() == 0 {
        lemma_finish(low, pending, range, range_form);
        assert(out.take(pending + 3int) =~= out);
        lemma_p256_facts(0);
    } else {
        let s = split(range, ps[0]);
        assert(1 <= s < range) by {
            assert(0 <= 0 < ps.len() && width_ok(width, range_form));
        }
        let lower = lowers[0];
        lemma_step_encoder(low, width, pending, s, lower, range_form);
        let step = encoder_step(low, width, pending, s, lower, range_form);
        let ps2 = ps.drop_first();
        let lowers2 = lowers.drop_first();
        assert forall|i: int, w: u32|
            0 <= i < ps2.len() && width_ok(w, range_form) implies 1 <= #[trigger] split(
                range_of(w, range_form),
                ps2[i],
            ) < range_of(w, range_form) by {
            assert(ps2[i] == ps[i + 1]);
            assert(0 <= i + 1 < ps.len());
        }
        lemma_round_trip_from(step.0, step.1, step.2, ps2, lowers2, split, range_form);
        let out2 = encode_from(step.0, step.1, step.2, ps2, lowers2, split, range_form);
        assert(out == step.3 + out2);
        lemma_step_decoder(low, width, pending, s, lower, out2, range_form);
        assert(seq![lower] + lowers2 =~= lowers);
    }
}

/// Decoder and encoder renormalization reach the same width.
proof fn lemma_widths_agree_here(low: u32, width: u32, pending: nat, numerator: u32, input: Seq<u8>, range_form: bool)
    ensures
        decoder_renormalize(numerator, width, input, 3, range_form).1 == encoder_renormalize(
            low,
            width,
            pending,
            3,
            range_form,
        ).1,
{
    crate::coder::lemma_renormalize_width_only(numerator, width, input, low, pending, 3, range_form);
}

/// Decoding inverts encoding: a fresh decoder reading every byte that a
/// fresh encoder wrote for `lowers` under `ps`, with the same splits, reads
/// back exactly `lowers`.
pub proof fn lemma_round_trip<P>(ps: Seq<P>, lowers: Seq<bool>, split: spec_fn(nat, P) -> u32, range_form: bool)
    requires
        ps.len() == lowers.len(),
        splits_fit(ps, split, range_form),
    ensures
        decode_all(encode_all(ps, lowers, split, range_form), ps, split, range_form) == lowers,
{
    lemma_p256_facts(0);
    let w = initial_width(range_form);
    assert(carry_value(0, 0) == 0);
    assert(carry_ok(0, 0, range_of(w, range_form)));
    lemma_round_trip_from(0, w, 0, ps, lowers, split, range_form);
    let out = encode_all(ps, lowers, split, range_form);
    lemma_empty_width_rounds(range_form);
    lemma_decoder_rounds(0, empty_width(range_form), out, 3, range_form);
    lemma_widths_agree_here(0, empty_width(range_form), 0, 0, out, range_form);
    let d = decoder_renormalize(0, empty_width(range_form), out, 3, range_form);
    assert(d.0 == be_value(out.take(3)));
}

/// The lower-branch width of the `Q17` coders on a range.
pub open spec fn q17_split() -> spec_fn(nat, FractionalU16) -> u32 {
    |range: nat, p: FractionalU16| split_q17(range, p.0) as u32
}

/// Decoding inverts encoding for the `Q17` coders, whose splits are
/// [`q17_split`]: with a denominator working width (`RangeEncoder` of
/// `legacy_inline`, `BaselineEncoder<Q17>`) and with a range working width
/// (`range_shift`, `branchless`, `range_shift_inline`).
pub proof fn lemma_q17_round_trip(ps: Seq<FractionalU16>, lowers: Seq<bool>, range_form: bool)
    requires
        ps.len() == lowers.len(),
    ensures
        decode_all(encode_all(ps, lowers, q17_split(), range_form), ps, q17_split(), range_form) == lowers,
{
    assert forall|i: int, w: u32| 0 <= i < ps.len() && width_ok(w, range_form) implies 1
        <= #[trigger] q17_split()(range_of(w, range_form), ps[i]) < range_of(w, range_form) by {
        lemma_split_q17_bounds(range_of(w, range_form), ps[i].0);
    }
    lemma_round_trip(ps, lowers, q17_split(), range_form);
}

/// A split that leaves both branches nonempty leaves a width that
/// renormalization can widen.
proof fn lemma_choose_width(low: u32, width: u32, pending: nat, split: u32, lower: bool, range_form: bool)
    requires
        width_ok(width, range_form),
        1 <= split < range_of(width, range_form),
    ensures
        width_pre(encoder_choose(low, width, pending, split, lower, range_form).1, range_form),
{
}

/// Encoders whose splits agree on every working range write the same bytes.
pub proof fn lemma_same_splits_same_bytes<P, Q>(
    low: u32,
    width: u32,
    pending: nat,
    ps1: Seq<P>,
    split1: spec_fn(nat, P) -> u32,
    ps2: Seq<Q>,
    split2: spec_fn(nat, Q) -> u32,
    lowers: Seq<bool>,
    range_form: bool,
)
    requires
        width_ok(width, range_form),
        ps1.len() == ps2.len(),
        splits_fit(ps1, split1, range_form),
        forall|i: int, w: u32|
            0 <= i < ps1.len() && width_ok(w, range_form) ==> #[trigger] split1(range_of(w, range_form), ps1[i])
                == split2(range_of(w, range_form), ps2[i]),
    ensures
        encode_from(low, width, pending, ps1, lowers, split1, range_form) == encode_from(
            low,
            width,
            pending,
            ps2,
            lowers,
            split2,
            range_form,
        ),
    decreases lowers.len(),
{
    if lowers.len() > 0 && ps1.len() > 0 {
        let range = range_of(width, range_form);
        let s = split1(range, ps1[0]);
        assert(1 <= s < range && s == split2(range, ps2[0])) by {
            assert(0 <= 0 < ps1.len() && width_ok(width, range_form));
        }
        let c = encoder_choose(low, width, pending, s, lowers[0], range_form);
        lemma_choose_width(low, width, pending, s, lowers[0], range_form);
        lemma_encoder_renormalize(c.0, c.1, c.2, range_form);
        let step = encoder_step(low, width, pending, s, lowers[0], range_form);
        let a1 = ps1.drop_first();
        let a2 = ps2.drop_first();
        assert forall|i: int, w: u32| 0 <= i < a1.len() && width_ok(w, range_form) implies 1
            <= #[trigger] split1(range_of(w, range_form), a1[i]) < range_of(w, range_form) by {
            assert(a1[i] == ps1[i + 1]);
            assert(0 <= i + 1 < ps1.len());
        }
        assert forall|i: int, w: u32| 0 <= i < a1.len() && width_ok(w, range_form) implies #[trigger] split1(
            range_of(w, range_form),
            a1[i],
        ) == split2(range_of(w, range_form), a2[i]) by {
            assert(a1[i] == ps1[i + 1] && a2[i] == ps2[i + 1]);
            assert(0 <= i + 1 < ps1.len());
        }
        lemma_same_splits_same_bytes(step.0, step.1, step.2, a1, split1, a2, split2, lowers.drop_first(), range_form);
    }
}

/// A denominator `width` and the range `width + 1` shift identically: the
/// same low word, pending count and bytes, with the denominator one below
/// the range at every round.
proof fn lemma_forms_encoder_renormalize(low: u32, width: u32, pending: nat, steps: nat)
    requires
        width_pre(width, false),
    ensures
        ({
            let a = encoder_renormalize(low, width, pending, steps, false);
            let b = encoder_renormalize(low, (width + 1) as u32, pending, steps, true);
            &&& a.0 == b.0
            &&& a.1 + 1 == b.1
            &&& a.2 == b.2
            &&& a.3 == b.3
        }),
    decreases steps,
{
    if steps > 0 && narrow(width, false) {
        lemma_forms_widen(width);
        let s = shift_low(low, pending);
        lemma_forms_encoder_renormalize(s.0, widen(width, false), s.1, (steps - 1) as nat);
    } else if steps > 0 {
        lemma_forms_encoder_renormalize(low, width, pending, (steps - 1) as nat);
    }
}

/// Widening a narrow denominator gives one below the widened range.
proof fn lemma_forms_widen(width: u32)
    requires
        width_pre(width, false),
        narrow(width, false),
    ensures
        width_pre(widen(width, false), false),
        widen(width, false) + 1 == widen((width + 1) as u32, true),
{
    let next = (width + 1) as u32;
    assert(((width << 8u32) | 0xffu32) + 1 == (next << 8u32) && ((width << 8u32) | 0xffu32) < 0x0100_0000)
        by (bit_vector)
        requires
            width < 0x1_0000,
            next == width + 1,
    ;
}

/// The decoder's renormalization from a denominator `width` and from the
/// range `width + 1` reads the same bytes into the same coded value.
proof fn lemma_forms_decoder_renormalize(numerator: u32, width: u32, input: Seq<u8>, steps: nat)
    requires
        width_pre(width, false),
    ensures
        ({
            let a = decoder_renormalize(numerator, width, input, steps, false);
            let b = decoder_renormalize(numerator, (width + 1) as u32, input, steps, true);
            &&& a.0 == b.0
            &&& a.1 + 1 == b.1
            &&& a.2 == b.2
        }),
    decreases steps,
{
    if steps > 0 && narrow(width, false) {
        lemma_forms_widen(width);
        let byte: u8 = if input.len() == 0 {
            0
        } else {
            input[0]
        };
        let rest = if input.len() == 0 {
            input
        } else {
            input.drop_first()
        };
        lemma_forms_decoder_renormalize((numerator << 8u32) | (byte as u32), widen(width, false), rest, (steps - 1) as nat);
    } else if steps > 0 {
        lemma_forms_decoder_renormalize(numerator, width, input, (steps - 1) as nat);
    }
}

/// An encoder that keeps its range as a denominator `width` and one that
/// keeps it as the range `width + 1` write the same bytes for the same
/// decisions and splits.
proof fn lemma_forms_encode_from<P>(
    low: u32,
    width: u32,
    pending: nat,
    ps: Seq<P>,
    lowers: Seq<bool>,
    split: spec_fn(nat, P) -> u32,
)
    requires
        width_ok(width, false),
        splits_fit(ps, split, false),
    ensures
        encode_from(low, width, pending, ps, lowers, split, false) == encode_from(
            low,
            (width + 1) as u32,
            pending,
            ps,
            lowers,
            split,
            true,
        ),
    decreases lowers.len(),
{
    if lowers.len() == 0 || ps.len() == 0 {
        lemma_forms_encoder_renormalize(low, 0, pending, 3);
    } else {
        let range = range_of(width, false);
        let s = split(range, ps[0]);
        assert(1 <= s < range) by {
            assert(0 <= 0 < ps.len() && width_ok(width, false));
        }
        let c = encoder_choose(low, width, pending, s, lowers[0], false);
        lemma_choose_width(low, width, pending, s, lowers[0], false);
        lemma_forms_encoder_renormalize(c.0, c.1, c.2, 3);
        lemma_encoder_renormalize(c.0, c.1, c.2, false);
        let step = encoder_step(low, width, pending, s, lowers[0], false);
        let rest = ps.drop_first();
        assert forall|i: int, w: u32| 0 <= i < rest.len() && width_ok(w, false) implies 1
            <= #[trigger] split(range_of(w, false), rest[i]) < range_of(w, false) by {
            assert(rest[i] == ps[i + 1]);
            assert(0 <= i + 1 < ps.len());
        }
        lemma_forms_encode_from(step.0, step.1, step.2, rest, lowers.drop_first(), split);
    }
}

/// A decoder that keeps its range as a denominator `width` and one that
/// keeps it as the range `width + 1` read the same decisions from the same
/// bytes and splits.
proof fn lemma_forms_decode_from<P>(
    numerator: u32,
    width: u32,
    input: Seq<u8>,
    ps: Seq<P>,
    split: spec_fn(nat, P) -> u32,
)
    requires
        width_ok(width, false),
        splits_fit(ps, split, false),
    ensures
        decode_from(numerator, width, input, ps, split, false) == decode_from(
            numerator,
            (width + 1) as u32,
            input,
            ps,
            split,
            true,
        ),
    decreases ps.len(),
{
    if ps.len() > 0 {
        let range = range_of(width, false);
        let s = split(range, ps[0]);
        assert(1 <= s < range) by {
            assert(0 <= 0 < ps.len() && width_ok(width, false));
        }
        let lower = numerator < s;
        let n1 = if lower {
            numerator
        } else {
            (numerator - s) as u32
        };
        let w1 = if lower {
            (s - 1) as u32
        } else {
            (width - s) as u32
        };
        lemma_forms_decoder_renormalize(n1, w1, input, 3);
        crate::coder::lemma_decoder_renormalize_width(n1, w1, input, false);
        let step = decoder_step(numerator, width, input, s, false);
        let rest = ps.drop_first();
        assert forall|i: int, w: u32| 0 <= i < rest.len() && width_ok(w, false) implies 1
            <= #[trigger] split(range_of(w, false), rest[i]) < range_of(w, false) by {
            assert(rest[i] == ps[i + 1]);
            assert(0 <= i + 1 < ps.len());
        }
        lemma_forms_decode_from(step.1, step.2, step.3, rest, split);
    }
}

/// The two ways of keeping the range agree: for the same decisions and
/// splits, a denominator coder and a range coder write the same bytes, and
/// from the same bytes their decoders read the same decisions.
pub proof fn lemma_forms_agree<P>(ps: Seq<P>, lowers: Seq<bool>, split: spec_fn(nat, P) -> u32, bytes: Seq<u8>)
    requires
        splits_fit(ps, split, false),
    ensures
        encode_all(ps, lowers, split, false) == encode_all(ps, lowers, split, true),
        decode_all(bytes, ps, split, false) == decode_all(bytes, ps, split, true),
{
    lemma_forms_encode_from(0, (FULL_RANGE - 1) as u32, 0, ps, lowers, split);
    lemma_forms_decoder_renormalize(0, 0, bytes, 3);
    crate::coder::lemma_decoder_renormalize_width(0, 0, bytes, false);
    let d = decoder_renormalize(0, 0, bytes, 3, false);
    lemma_forms_decode_from(d.0, d.1, d.2, ps, split);
}

/// Decoders whose splits agree on every working range read the same
/// decisions from the same bytes.
proof fn lemma_same_splits_same_decisions_from<P, Q>(
    numerator: u32,
    width: u32,
    input: Seq<u8>,
    ps1: Seq<P>,
    split1: spec_fn(nat, P) -> u32,
    ps2: Seq<Q>,
    split2: spec_fn(nat, Q) -> u32,
    range_form: bool,
)
    requires
        width_ok(width, range_form),
        ps1.len() == ps2.len(),
        splits_fit(ps1, split1, range_form),
        forall|i: int, w: u32|
            0 <= i < ps1.len() && width_ok(w, range_form) ==> #[trigger] split1(range_of(w, range_form), ps1[i])
                == split2(range_of(w, range_form), ps2[i]),
    ensures
        decode_from(numerator, width, input, ps1, split1, range_form) == decode_from(
            numerator,
            width,
            input,
            ps2,
            split2,
            range_form,
        ),
    decreases ps1.len(),
{
    if ps1.len() > 0 {
        let range = range_of(width, range_form);
        let s = split1(range, ps1[0]);
        assert(1 <= s < range && s == split2(range, ps2[0])) by {
            assert(0 <= 0 < ps1.len() && width_ok(width, range_form));
        }
        let lower = numerator < s;
        let n1 = if lower {
            numerator
        } else {
            (numerator - s) as u32
        };
        let w1 = if lower {
            if range_form {
                s
            } else {
                (s - 1) as u32
            }
        } else {
            (width - s) as u32
        };
        crate::coder::lemma_decoder_renormalize_width(n1, w1, input, range_form);
        let step = decoder_step(numerator, width, input, s, range_form);
        let a1 = ps1.drop_first();
        let a2 = ps2.drop_first();
        assert forall|i: int, w: u32| 0 <= i < a1.len() && width_ok(w, range_form) implies 1
            <= #[trigger] split1(range_of(w, range_form), a1[i]) < range_of(w, range_form) by {
            assert(a1[i] == ps1[i + 1]);
            assert(0 <= i + 1 < ps1.len());
        }
        assert forall|i: int, w: u32| 0 <= i < a1.len() && width_ok(w, range_form) implies #[trigger] split1(
            range_of(w, range_form),
            a1[i],
        ) == split2(range_of(w, range_form), a2[i]) by {
            assert(a1[i] == ps1[i + 1] && a2[i] == ps2[i + 1]);
            assert(0 <= i + 1 < ps1.len());
        }
        lemma_same_splits_same_decisions_from(step.1, step.2, step.3, a1, split1, a2, split2, range_form);
    }
}

/// Fresh decoders whose splits agree on every working range read the same
/// decisions from the same bytes.
pub proof fn lemma_same_splits_same_decisions<P, Q>(
    bytes: Seq<u8>,
    ps1: Seq<P>,
    split1: spec_fn(nat, P) -> u32,
    ps2: Seq<Q>,
    split2: spec_fn(nat, Q) -> u32,
    range_form: bool,
)
    requires
        ps1.len() == ps2.len(),
        splits_fit(ps1, split1, range_form),
        forall|i: int, w: u32|
            0 <= i < ps1.len() && width_ok(w, range_form) ==> #[trigger] split1(range_of(w, range_form), ps1[i])
                == split2(range_of(w, range_form), ps2[i]),
    ensures
        decode_all(bytes, ps1, split1, range_form) == decode_all(bytes, ps2, split2, range_form),
{
    let e: u32 = if range_form {
        1
    } else {
        0
    };
    crate::coder::lemma_decoder_renormalize_width(0, e, bytes, range_form);
    let d = decoder_renormalize(0, e, bytes, 3, range_form);
    lemma_same_splits_same_decisions_from(d.0, d.1, d.2, ps1, split1, ps2, split2, range_form);
}

/// The byte a decoder reads at position `k` of `input`: past the end of the
/// input it reads zero.
pub open spec fn padded_byte(input: Seq<u8>, k: int) -> u8 {
    if 0 <= k < input.len() {
        input[k]
    } else {
        0
    }
}

/// Two inputs that a decoder cannot tell apart: they differ, at most, by
/// trailing zero bytes.
pub open spec fn same_padded(a: Seq<u8>, b: Seq<u8>) -> bool {
    forall|k: int| k >= 0 ==> #[trigger] padded_byte(a, k) == padded_byte(b, k)
}

/// The input left after one read keeps its zero padding.
proof fn lemma_padded_rest(a: Seq<u8>, b: Seq<u8>)
    requires
        same_padded(a, b),
    ensures
        padded_byte(a, 0) == padded_byte(b, 0),
        same_padded(
            if a.len() == 0 {
                a
            } else {
                a.drop_first()
            },
            if b.len() == 0 {
                b
            } else {
                b.drop_first()
            },
        ),
{
    let ra = if a.len() == 0 {
        a
    } else {
        a.drop_first()
    };
    let rb = if b.len() == 0 {
        b
    } else {
        b.drop_first()
    };
    assert(padded_byte(a, 0) == padded_byte(b, 0));
    assert forall|k: int| k >= 0 implies #[trigger] padded_byte(ra, k) == padded_byte(rb, k) by {
        assert(padded_byte(ra, k) == padded_byte(a, k + 1));
        assert(padded_byte(rb, k) == padded_byte(b, k + 1));
    }
}

/// Renormalization reads the same coded value from inputs that differ by
/// trailing zeros, and leaves inputs that still do.
proof fn lemma_padded_renormalize(numerator: u32, width: u32, a: Seq<u8>, b: Seq<u8>, steps: nat, range_form: bool)
    requires
        same_padded(a, b),
    ensures
        decoder_renormalize(numerator, width, a, steps, range_form).0 == decoder_renormalize(
            numerator,
            width,
            b,
            steps,
            range_form,
        ).0,
        decoder_renormalize(numerator, width, a, steps, range_form).1 == decoder_renormalize(
            numerator,
            width,
            b,
            steps,
            range_form,
        ).1,
        same_padded(
            decoder_renormalize(numerator, width, a, steps, range_form).2,
            decoder_renormalize(numerator, width, b, steps, range_form).2,
        ),
    decreases steps,
{
    if steps > 0 {
        if narrow(width, range_form) {
            lemma_padded_rest(a, b);
            let byte: u8 = padded_byte(a, 0);
            let ra = if a.len() == 0 {
                a
            } else {
                a.drop_first()
            };
            let rb = if b.len() == 0 {
                b
            } else {
                b.drop_first()
            };
            lemma_padded_renormalize(
                (numerator << 8u32) | (byte as u32),
                widen(width, range_form),
                ra,
                rb,
                (steps - 1) as nat,
                range_form,
            );
        } else {
            lemma_padded_renormalize(numerator, width, a, b, (steps - 1) as nat, range_form);
        }
    }
}

/// Decoders reading inputs that differ by trailing zeros read the same
/// decisions.
proof fn lemma_padded_decode_from<P>(
    numerator: u32,
    width: u32,
    a: Seq<u8>,
    b: Seq<u8>,
    ps: Seq<P>,
    split: spec_fn(nat, P) -> u32,
    range_form: bool,
)
    requires
        same_padded(a, b),
    ensures
        decode_from(numerator, width, a, ps, split, range_form) == decode_from(
            numerator,
            width,
            b,
            ps,
            split,
            range_form,
        ),
    decreases ps.len(),
{
    if ps.len() > 0 {
        let s = split(range_of(width, range_form), ps[0]);
        let lower = numerator < s;
        let n1 = if lower {
            numerator
        } else {
            (numerator - s) as u32
        };
        let w1 = if lower {
            if range_form {
                s
            } else {
                (s - 1) as u32
            }
        } else {
            (width - s) as u32
        };
        lemma_padded_renormalize(n1, w1, a, b, 3, range_form);
        let ra = decoder_step(numerator, width, a, s, range_form);
        let rb = decoder_step(numerator, width, b, s, range_form);
        lemma_padded_decode_from(ra.1, ra.2, ra.3, rb.3, ps.drop_first(), split, range_form);
    }
}

/// A decoder reads zeros past the end of its input: appending zero bytes to
/// the input changes none of the decisions it reads.
pub proof fn lemma_zero_padding<P>(
    bytes: Seq<u8>,
    zeros: nat,
    ps: Seq<P>,
    split: spec_fn(nat, P) -> u32,
    range_form: bool,
)
    ensures
        decode_all(bytes + Seq::new(zeros, |i: int| 0u8), ps, split, range_form) == decode_all(
            bytes,
            ps,
            split,
            range_form,
        ),
{
    let padded = bytes + Seq::new(zeros, |i: int| 0u8);
    assert forall|k: int| k >= 0 implies #[trigger] padded_byte(padded, k) == padded_byte(bytes, k) by {
        if k < bytes.len() {
            assert(padded[k] == bytes[k]);
        } else if k < padded.len() {
            assert(padded[k] == 0u8);
        }
    }
    let e = empty_width(range_form);
    lemma_padded_renormalize(0, e, padded, bytes, 3, range_form);
    let d = decoder_renormalize(0, e, padded, 3, range_form);
    let d2 = decoder_renormalize(0, e, bytes, 3, range_form);
    lemma_padded_decode_from(d.0, d.1, d.2, d2.2, ps, split, range_form);
}

} // verus!
