//! The exact byte distributions and byte-sized decisions through which a
//! model drives the Serde encoding of a value.
use core::marker::PhantomData;
use vstd::prelude::*;

use crate::partition::prefix_weight;

verus! {

/// The sum of all 256 weights.
pub open spec fn weight_total(weights: Seq<u64>) -> nat {
    prefix_weight(weights, 256)
}

/// `weights` with every weight from `len` on set to zero.
pub open spec fn restrict_weights(weights: Seq<u64>, len: int) -> Seq<u64> {
    Seq::new(weights.len(), |i: int| if i < len { weights[i] } else { 0u64 })
}

/// The exact byte distribution consumed by the entropy coder.
///
/// Its representation is intentionally private. Public prediction types may use
/// logits, fixed-point probabilities, mixtures, products, or anything else; they
/// participate by lowering deterministically to this type.
#[derive(Debug, PartialEq, Eq)]
pub struct ByteCategorical {
    weights: [u64; 256],
    total: u128,
}

/// Number of alternatives in one canonical Serde decision.
///
/// Decisions are always indexed from zero and never have more than 256 choices.
#[derive(Clone, Copy, Debug, PartialEq, Eq)]
pub struct Choices(u16);

#[derive(Debug)]
pub enum Error {
    Message(String),
    ZeroMass { choices: Choices },
    InvalidChoice { choice: u8, choices: Choices },
    ZeroProbabilityChoice(u8),
    UnknownLength(&'static str),
    LengthOverflow,
    InvalidUtf8,
    InvalidChar(u32),
    InvalidEnumVariant(u32),
    Unsupported(&'static str),
}

pub type Result<T> = core::result::Result<T, Error>;

/// The total of 256 weights, summed in 128-bit arithmetic.
fn sum_weights(weights: &[u64; 256]) -> (r: u128)
    ensures
        r == weight_total(weights@),
{
    let mut total: u128 = 0;
    let mut i: usize = 0;
    while i < 256
        invariant
            i <= 256,
            weights@.len() == 256,
            total == prefix_weight(weights@, i as int),
            total <= i * (u64::MAX as nat),
        decreases 256 - i,
    {
        total = total + weights[i] as u128;
        i = i + 1;
    }
    total
}

impl ByteCategorical {
    #[verifier::type_invariant]
    spec fn consistent(self) -> bool {
        &&& self.total == weight_total(self.weights@)
        &&& self.total > 0
    }

    /// The weight of each byte value.
    pub closed spec fn weights_spec(&self) -> Seq<u64> {
        self.weights@
    }

    /// Construct an exact categorical distribution from integer frequencies.
    ///
    /// Multiplying every weight by the same positive constant produces the same
    /// mathematical distribution. Zero-weight bytes are impossible outcomes.
    pub fn from_weights(weights: [u64; 256]) -> (r: Result<Self>)
        ensures
            r is Ok <==> weight_total(weights@) > 0,
            r matches Ok(d) ==> d.weights_spec() == weights@,
            r matches Err(e) ==> e == (Error::ZeroMass { choices: byte_choices() }),
    {
        let total = sum_weights(&weights);
        if total == 0 {
            return Err(Error::ZeroMass { choices: Choices::byte() });
        }
        Ok(ByteCategorical { weights, total })
    }

    /// Uniform distribution over all 256 byte values.
    pub fn uniform() -> (r: Self)
        ensures
            r.weights_spec() == Seq::new(256, |i: int| 1u64),
    {
        let weights = [1u64; 256];
        let total = sum_weights(&weights);
        proof {
            lemma_uniform_total(weights@, 256);
            assert(weights@ =~= Seq::new(256, |i: int| 1u64));
        }
        ByteCategorical { weights, total }
    }

    /// Exact two-outcome distribution on bytes 0 and 1.
    pub fn binary(zero: u64, one: u64) -> (r: Result<Self>)
        ensures
            r is Ok <==> zero + one > 0,
            r matches Ok(d) ==> d.weights_spec() == Seq::new(256, |i: int| if i == 0 {
                zero
            } else if i == 1 {
                one
            } else {
                0u64
            }),
            r matches Err(e) ==> e == (Error::ZeroMass { choices: byte_choices() }),
    {
        let mut weights = [0u64; 256];
        weights[0] = zero;
        weights[1] = one;
        proof {
            assert(weights@ =~= Seq::new(256, |i: int| if i == 0 {
                zero
            } else if i == 1 {
                one
            } else {
                0u64
            }));
            lemma_two_total(weights@, 256);
        }
        Self::from_weights(weights)
    }

    pub fn total(&self) -> (r: u128)
        ensures
            r == weight_total(self.weights_spec()),
            r > 0,
    {
        proof {
            use_type_invariant(self);
        }
        self.total
    }

    pub fn weight(&self, choice: u8) -> (r: u64)
        ensures
            r == self.weights_spec()[choice as int],
    {
        self.weights[choice as usize]
    }

    /// The cumulative interval `[sum(weights[..choice]), sum(weights[..=choice]))`
    /// of `choice`.
    pub fn interval(&self, choice: u8) -> (r: (u128, u128))
        ensures
            r.0 == prefix_weight(self.weights_spec(), choice as int),
            r.1 == prefix_weight(self.weights_spec(), choice as int + 1),
    {
        let index = choice as usize;
        let mut low: u128 = 0;
        let mut i: usize = 0;
        while i < index
            invariant
                i <= index,
                index < 256,
                self.weights@.len() == 256,
                low == prefix_weight(self.weights@, i as int),
                low <= i * (u64::MAX as nat),
            decreases index - i,
        {
            low = low + self.weights[i] as u128;
            i = i + 1;
        }
        (low, low + self.weights[index] as u128)
    }

    /// Condition on the Serde decision domain without approximation.
    ///
    /// Contiguous domains `0..n` are used; invalid byte values are assigned
    /// exact zero mass and the remaining integer frequencies are left
    /// untouched.
    pub fn restricted(&self, choices: Choices) -> (r: Result<Self>)
        ensures
            r is Ok <==> weight_total(restrict_weights(self.weights_spec(), choices.count() as int)) > 0,
            r matches Ok(d) ==> d.weights_spec() == restrict_weights(
                self.weights_spec(),
                choices.count() as int,
            ),
            r matches Err(e) ==> e == (Error::ZeroMass { choices }),
    {
        proof {
            use_type_invariant(choices);
        }
        let mut weights = self.weights;
        let len = choices.len() as usize;
        let mut i: usize = len;
        while i < 256
            invariant
                len <= i <= 256,
                weights@.len() == 256,
                self.weights@.len() == 256,
                forall|j: int|
                    0 <= j < 256 ==> #[trigger] weights@[j] == if j < len || j >= i {
                        self.weights@[j]
                    } else {
                        0u64
                    },
            decreases 256 - i,
        {
            weights[i] = 0;
            i = i + 1;
        }
        proof {
            assert(weights@ =~= restrict_weights(self.weights@, len as int));
        }
        let total = sum_weights(&weights);
        if total == 0 {
            return Err(Error::ZeroMass { choices });
        }
        Ok(ByteCategorical { weights, total })
    }
}

impl Clone for ByteCategorical {
    fn clone(&self) -> (r: Self)
        ensures
            r.weights_spec() == self.weights_spec(),
    {
        proof {
            use_type_invariant(self);
        }
        ByteCategorical { weights: self.weights, total: self.total }
    }
}

proof fn lemma_uniform_total(weights: Seq<u64>, n: int)
    requires
        0 <= n <= weights.len(),
        forall|i: int| 0 <= i < weights.len() ==> weights[i] == 1,
    ensures
        prefix_weight(weights, n) == n,
    decreases n,
{
    if n > 0 {
        lemma_uniform_total(weights, n - 1);
    }
}

proof fn lemma_two_total(weights: Seq<u64>, n: int)
    requires
        2 <= n <= weights.len(),
        forall|i: int| 2 <= i < weights.len() ==> weights[i] == 0,
    ensures
        prefix_weight(weights, n) == weights[0] + weights[1],
    decreases n,
{
    if n > 2 {
        lemma_two_total(weights, n - 1);
    } else {
        assert(prefix_weight(weights, 0) == 0);
        assert(prefix_weight(weights, 1) == weights[0]);
        assert(prefix_weight(weights, 2) == weights[0] + weights[1]);
    }
}

/// Lossless lowering from a user-facing prediction representation to the
/// canonical byte distribution.
///
/// This trait deliberately does not expose raw probabilities as the model ABI.
/// A prediction type owns its representation and decides how it maps to the
/// exact byte frequencies used by the coder.
pub trait IntoByteCategorical {
    /// The byte weights this prediction stands for. Implementations that are
    /// verified against `byte_categorical` define it; the default is for
    /// implementations written in plain Rust.
    closed spec fn categorical_weights(&self) -> Seq<u64> {
        Seq::empty()
    }

    fn byte_categorical(&self) -> (r: ByteCategorical)
        ensures
            r.weights_spec() == self.categorical_weights(),
    ;
}

impl IntoByteCategorical for ByteCategorical {
    open spec fn categorical_weights(&self) -> Seq<u64> {
        self.weights_spec()
    }

    fn byte_categorical(&self) -> (r: ByteCategorical) {
        self.clone()
    }
}

impl<'p, P: IntoByteCategorical> IntoByteCategorical for &'p P {
    open spec fn categorical_weights(&self) -> Seq<u64> {
        (**self).categorical_weights()
    }

    fn byte_categorical(&self) -> (r: ByteCategorical) {
        (**self).byte_categorical()
    }
}

/// Stateful predictor for the canonical representation of `T`.
///
/// All contextual state lives in the model. `predict` is observational;
/// `observe` advances the model after the chosen byte-sized decision is known.
pub trait Model<T: ?Sized> {
    type Prediction<'a>: IntoByteCategorical where Self: 'a;

    /// Every choice the model has observed, in order. Implementations that
    /// are verified against `observe` define it; the default, which records
    /// nothing, is for implementations written in plain Rust.
    closed spec fn observed(&self) -> Seq<u8> {
        Seq::empty()
    }

    /// The byte weights of the model's prediction in its current state.
    /// Implementations that are verified against `predict` define it; the
    /// default is for implementations written in plain Rust.
    closed spec fn predicted(&self) -> Seq<u64> {
        Seq::empty()
    }

    fn predict(&self) -> (r: Self::Prediction<'_>)
        ensures
            r.categorical_weights() == self.predicted(),
    ;

    fn observe(&mut self, choice: u8)
        ensures
            final(self).observed() == old(self).observed().push(choice),
    ;
}

/// The decision among all 256 byte values.
pub closed spec fn byte_choices() -> Choices {
    Choices(256)
}

/// The decision between `0` and `1`.
pub closed spec fn binary_choices() -> Choices {
    Choices(2)
}

impl Choices {
    #[verifier::type_invariant]
    spec fn in_range(self) -> bool {
        1 <= self.0 <= 256
    }

    /// The number of alternatives.
    pub closed spec fn count(self) -> u16 {
        self.0
    }

    /// Two alternatives, `0` and `1`.
    pub fn binary() -> (r: Self)
        ensures
            r.count() == 2,
            r == binary_choices(),
    {
        Choices(2)
    }

    /// All 256 byte values.
    pub fn byte() -> (r: Self)
        ensures
            r.count() == 256,
            r == byte_choices(),
    {
        Choices(256)
    }

    pub fn new(len: u16) -> (r: Option<Self>)
        ensures
            r is Some <==> 1 <= len <= 256,
            r matches Some(c) ==> c.count() == len,
    {
        if len >= 1 && len <= 256 {
            Some(Choices(len))
        } else {
            None
        }
    }

    pub fn len(self) -> (r: u16)
        ensures
            r == self.count(),
            1 <= r <= 256,
    {
        proof {
            use_type_invariant(self);
        }
        self.0
    }

    pub fn is_empty(self) -> (r: bool)
        ensures
            r == (self.count() == 0),
            !r,
    {
        proof {
            use_type_invariant(self);
        }
        false
    }

    pub fn contains(self, choice: u8) -> (r: bool)
        ensures
            r == (choice < self.count()),
    {
        (choice as u16) < self.0
    }
}

/// Entropy-encoder seam. A real range/arithmetic coder implements this trait.
pub trait ChoiceEncoder {
    /// Every call made to `encode` so far, in order: the choice and the
    /// weights of the distribution it came with. Implementations that are
    /// verified against `encode` define it; the default, which records
    /// nothing, is for implementations written in plain Rust.
    closed spec fn received(&self) -> Seq<(u8, Seq<u64>)> {
        Seq::empty()
    }

    fn encode(&mut self, choice: u8, distribution: &ByteCategorical) -> (r: Result<()>)
        ensures
            final(self).received() == old(self).received().push((choice, distribution.weights_spec())),
    ;
}

/// Entropy-decoder seam. It must return one byte from `distribution`.
pub trait ChoiceDecoder {
    /// The weights of the distribution of every call made to `decode` so
    /// far, in order. Implementations that are verified against `decode`
    /// define it; the default, which records nothing, is for implementations
    /// written in plain Rust.
    closed spec fn received(&self) -> Seq<Seq<u64>> {
        Seq::empty()
    }

    fn decode(&mut self, distribution: &ByteCategorical) -> (r: Result<u8>)
        ensures
            final(self).received() == old(self).received().push(distribution.weights_spec()),
    ;
}

/// The distribution under which `choice` among `choices` is encoded, given
/// the model's prediction: the prediction restricted to `choices`, provided
/// `choice` is one of them and has positive weight there.
pub fn encoding_distribution(prediction: &ByteCategorical, choices: Choices, choice: u8) -> (r: Result<
    ByteCategorical,
>)
    ensures
        ({
            let restricted = restrict_weights(prediction.weights_spec(), choices.count() as int);
            &&& choice >= choices.count() ==> r == Err::<ByteCategorical, Error>(
                (Error::InvalidChoice { choice, choices }),
            )
            &&& choice < choices.count() && weight_total(restricted) == 0 ==> r == Err::<
                ByteCategorical,
                Error,
            >((Error::ZeroMass { choices }))
            &&& choice < choices.count() && weight_total(restricted) > 0 && restricted[choice as int]
                == 0 ==> r == Err::<ByteCategorical, Error>(Error::ZeroProbabilityChoice(choice))
            &&& r is Ok <==> choice < choices.count() && restricted[choice as int] > 0
            &&& r matches Ok(d) ==> d.weights_spec() == restricted
        }),
{
    if !choices.contains(choice) {
        return Err(Error::InvalidChoice { choice, choices });
    }
    let distribution = match prediction.restricted(choices) {
        Ok(d) => d,
        Err(e) => {
            proof {
                let restricted = restrict_weights(prediction.weights_spec(), choices.count() as int);
                if restricted[choice as int] > 0 {
                    lemma_positive_weight_total(restricted, choice as int, 256);
                }
            }
            return Err(e);
        },
    };
    if distribution.weight(choice) == 0 {
        return Err(Error::ZeroProbabilityChoice(choice));
    }
    proof {
        lemma_positive_weight_total(distribution.weights_spec(), choice as int, 256);
    }
    Ok(distribution)
}

/// The outcome of decoding `choice` from `distribution` over `choices`: the
/// choice itself, provided it is one of them and has positive weight.
pub fn decoded_choice(distribution: &ByteCategorical, choices: Choices, choice: u8) -> (r: Result<u8>)
    ensures
        choice >= choices.count() ==> r == Err::<u8, Error>((Error::InvalidChoice { choice, choices })),
        choice < choices.count() && distribution.weights_spec()[choice as int] == 0 ==> r == Err::<
            u8,
            Error,
        >(Error::ZeroProbabilityChoice(choice)),
        r is Ok <==> choice < choices.count() && distribution.weights_spec()[choice as int] > 0,
        r matches Ok(c) ==> c == choice,
{
    if !choices.contains(choice) {
        return Err(Error::InvalidChoice { choice, choices });
    }
    if distribution.weight(choice) == 0 {
        return Err(Error::ZeroProbabilityChoice(choice));
    }
    Ok(choice)
}

/// A positive weight makes a positive total.
proof fn lemma_positive_weight_total(weights: Seq<u64>, i: int, n: int)
    requires
        0 <= i < n <= weights.len(),
        weights[i] > 0,
    ensures
        prefix_weight(weights, n) > 0,
    decreases n,
{
    if n > i + 1 {
        lemma_positive_weight_total(weights, i, n - 1);
    }
}

/// The little-endian bytes of `value`.
pub fn le_bytes_u64(value: u64) -> (r: [u8; 8])
    ensures
        forall|i: int| 0 <= i < 8 ==> #[trigger] r@[i] == (value >> (8 * i) as u64) as u8,
{
    let mut bytes = [0u8; 8];
    let mut i: usize = 0;
    while i < 8
        invariant
            i <= 8,
            bytes@.len() == 8,
            forall|j: int| 0 <= j < i ==> #[trigger] bytes@[j] == (value >> (8 * j) as u64) as u8,
        decreases 8 - i,
    {
        bytes[i] = (value >> (8 * i) as u64) as u8;
        i = i + 1;
    }
    bytes
}

/// The value whose little-endian bytes are `bytes`.
pub fn u64_from_le_bytes(bytes: [u8; 8]) -> (r: u64)
    ensures
        le_bytes_u64_spec(r) == bytes@,
{
    let mut value: u64 = 0;
    let mut i: usize = 8;
    while i > 0
        invariant
            i <= 8,
            bytes@.len() == 8,
            value < pow256(8 - i),
            forall|j: int|
                i <= j < 8 ==> #[trigger] bytes@[j] == (value >> (8 * (j - i)) as u64) as u8,
        decreases i,
    {
        i = i - 1;
        let ghost before = value;
        proof {
            lemma_shift_in(before, bytes@[i as int], (8 - i - 1) as nat);
        }
        value = (value << 8u64) | bytes[i] as u64;
        proof {
            assert forall|j: int| i <= j < 8 implies #[trigger] bytes@[j] == (value >> (8 * (j - i)) as u64) as u8 by {
                if j > i {
                    lemma_shifted_byte(before, bytes@[i as int], (j - i) as nat);
                } else {
                    lemma_shifted_byte(before, bytes@[i as int], 0);
                }
            }
        }
    }
    proof {
        assert(le_bytes_u64_spec(value) =~= bytes@);
    }
    value
}

/// The little-endian bytes of `value`, as a sequence.
pub open spec fn le_bytes_u64_spec(value: u64) -> Seq<u8> {
    Seq::new(8, |i: int| (value >> (8 * i) as u64) as u8)
}

/// `256^n`, the bound of an `n`-byte value.
pub open spec fn pow256(n: int) -> nat
    decreases n,
{
    if n <= 0 {
        1
    } else {
        256 * pow256(n - 1)
    }
}

/// Shifting a value of `n < 8` bytes left by a byte and or-ing in `byte`
/// stays below `256^(n + 1)`.
proof fn lemma_shift_in(value: u64, byte: u8, n: nat)
    requires
        n < 8,
        value < pow256(n as int),
    ensures
        ((value << 8u64) | byte as u64) < pow256(n as int + 1),
        value << 8u64 == value * 256,
{
    lemma_pow256_small(n);
    let bound = pow256(n as int) as u64;
    assert(value < bound ==> bound <= 0x100_0000_0000_0000 ==> (value << 8u64) | (byte as u64) < bound * 256 && value << 8u64 == value * 256) by (bit_vector);
}

proof fn lemma_pow256_small(n: nat)
    requires
        n < 8,
    ensures
        pow256(n as int) <= 0x100_0000_0000_0000,
        pow256(n as int) * 256 == pow256(n as int + 1),
{
    assert(pow256(0) == 1);
    assert(pow256(1) == 0x100);
    assert(pow256(2) == 0x1_0000);
    assert(pow256(3) == 0x100_0000);
    assert(pow256(4) == 0x1_0000_0000);
    assert(pow256(5) == 0x100_0000_0000);
    assert(pow256(6) == 0x1_0000_0000_0000);
    assert(pow256(7) == 0x100_0000_0000_0000);
    assert(pow256(8) == 0x1_0000_0000_0000_0000);
}

/// The bytes of `value` reappear one place higher after a byte is shifted in.
proof fn lemma_shifted_byte(value: u64, byte: u8, k: nat)
    requires
        k < 8,
        value < 0x100_0000_0000_0000,
    ensures
        (((value << 8u64) | byte as u64) >> (8 * k) as u64) as u8 == if k == 0 {
            byte
        } else {
            (value >> (8 * (k - 1)) as u64) as u8
        },
{
    let shift = (8 * k) as u64;
    let b = byte as u64;
    if k == 0 {
        assert((((value << 8u64) | b) >> 0u64) as u8 == b as u8) by (bit_vector);
    } else {
        let lower = (8 * (k - 1)) as u64;
        assert(shift == lower + 8);
        assert(((((value << 8u64) | b) >> shift) & 0xff) == ((value >> lower) & 0xff)) by (bit_vector)
            requires
                lower <= 48,
                shift == lower + 8,
                b < 256,
        ;
        let x = ((value << 8u64) | b) >> shift;
        let y = value >> lower;
        assert(x & 0xff == y & 0xff ==> x as u8 == y as u8) by (bit_vector);
    }
}

/// The encoding half of the Serde bridge: it turns each construction choice
/// into a coded decision under the model's prediction.
pub struct Serializer<'a, T: ?Sized, M, C> {
    model: &'a mut M,
    coder: &'a mut C,
    _type: PhantomData<T>,
    encoded: Ghost<Seq<u8>>,
    predictions: Ghost<Seq<Seq<u64>>>,
}

impl<'a, T: ?Sized, M: Model<T>, C: ChoiceEncoder> Serializer<'a, T, M, C> {
    /// The choices encoded so far, in order: each was handed to the coder,
    /// the coder accepted it, and only then did the model observe it.
    pub closed spec fn encoded(&self) -> Seq<u8> {
        self.encoded@
    }

    /// The model being driven.
    pub closed spec fn model(&self) -> M {
        *self.model
    }

    /// The entropy coder being driven.
    pub closed spec fn coder(&self) -> C {
        *self.coder
    }

    /// The byte weights of each prediction consulted so far, in order.
    pub closed spec fn predictions(&self) -> Seq<Seq<u64>> {
        self.predictions@
    }

    pub fn new(model: &'a mut M, coder: &'a mut C) -> (r: Self)
        ensures
            r.encoded() == Seq::<u8>::empty(),
            r.predictions() == Seq::<Seq<u64>>::empty(),
            r.model() == *old(model),
            r.coder() == *old(coder),
    {
        Serializer {
            model,
            coder,
            _type: PhantomData,
            encoded: Ghost(Seq::empty()),
            predictions: Ghost(Seq::empty()),
        }
    }

    /// Encode `choice` among `choices` under the model's prediction, then let
    /// the model observe it.
    pub fn decide(&mut self, choices: Choices, choice: u8) -> (r: Result<()>)
        ensures
            choice >= choices.count() ==> r == Err::<(), Error>((Error::InvalidChoice { choice, choices }))
                && final(self).predictions() == old(self).predictions(),
            choice < choices.count() ==> final(self).predictions().len() == old(self).predictions().len() + 1
                && final(self).predictions().drop_last() == old(self).predictions()
                && final(self).predictions().last() == old(self).model().predicted(),
            ({
                let restricted = restrict_weights(final(self).predictions().last(), choices.count() as int);
                &&& choice < choices.count() && weight_total(restricted) == 0 ==> r == Err::<(), Error>(
                    (Error::ZeroMass { choices }),
                )
                &&& choice < choices.count() && weight_total(restricted) > 0 && restricted[choice as int]
                    == 0 ==> r == Err::<(), Error>(Error::ZeroProbabilityChoice(choice))
                &&& r is Ok ==> choice < choices.count() && restricted[choice as int] > 0
                &&& choice < choices.count() && restricted[choice as int] > 0 ==> final(self).coder().received()
                    == old(self).coder().received().push((choice, restricted))
                &&& !(choice < choices.count() && restricted[choice as int] > 0) ==> final(self).coder().received() == old(self).coder().received()
            }),
            r is Ok ==> final(self).encoded() == old(self).encoded().push(choice),
            r is Err ==> final(self).encoded() == old(self).encoded(),
            r is Ok ==> final(self).model().observed() == old(self).model().observed().push(choice),
            r is Err ==> final(self).model().observed() == old(self).model().observed(),
    {
        if !choices.contains(choice) {
            return Err(Error::InvalidChoice { choice, choices });
        }
        let prediction = self.model.predict().byte_categorical();
        self.predictions = Ghost(self.predictions@.push(prediction.weights_spec()));
        proof {
            assert(self.predictions@.drop_last() =~= old(self).predictions@);
        }
        let distribution = match encoding_distribution(&prediction, choices, choice) {
            Ok(d) => d,
            Err(e) => {
                return Err(e);
            },
        };
        match self.coder.encode(choice, &distribution) {
            Ok(()) => {},
            Err(e) => {
                return Err(e);
            },
        }
        self.model.observe(choice);
        self.encoded = Ghost(self.encoded@.push(choice));
        Ok(())
    }

    /// Encode one byte among all 256 values.
    pub fn byte(&mut self, value: u8) -> (r: Result<()>)
        ensures
            final(self).predictions().len() == old(self).predictions().len() + 1,
            final(self).predictions().drop_last() == old(self).predictions(),
            final(self).predictions().last() == old(self).model().predicted(),
            ({
                let restricted = restrict_weights(final(self).predictions().last(), 256);
                &&& weight_total(restricted) == 0 ==> r == Err::<(), Error>(
                    (Error::ZeroMass { choices: byte_choices() }),
                )
                &&& weight_total(restricted) > 0 && restricted[value as int] == 0 ==> r == Err::<(), Error>(
                    Error::ZeroProbabilityChoice(value),
                )
                &&& r is Ok ==> restricted[value as int] > 0
                &&& restricted[value as int] > 0 ==> final(self).coder().received() == old(self).coder().received().push((value, restricted))
                &&& restricted[value as int] == 0 ==> final(self).coder().received() == old(self).coder().received()
            }),
            r is Ok ==> final(self).model().observed() == old(self).model().observed().push(value),
            r is Err ==> final(self).model().observed() == old(self).model().observed(),
            r is Ok ==> final(self).encoded() == old(self).encoded().push(value),
            r is Err ==> final(self).encoded() == old(self).encoded(),
    {
        self.decide(Choices::byte(), value)
    }

    /// Encode each byte in order, stopping at the first error.
    pub fn bytes(&mut self, bytes: &[u8]) -> (r: Result<()>)
        ensures
            r is Ok ==> final(self).encoded() == old(self).encoded() + bytes@,
            r is Ok ==> final(self).model().observed() == old(self).model().observed() + bytes@,
            r is Err ==> exists|k: int|
                0 <= k < bytes@.len() && final(self).encoded() == old(self).encoded() + #[trigger] bytes@.take(k)
                    && final(self).model().observed() == old(self).model().observed() + bytes@.take(k),
            r is Ok ==> final(self).predictions().len() == old(self).predictions().len() + bytes@.len(),
            r is Err ==> final(self).predictions().len() == old(self).predictions().len() + (final(self).encoded().len()
                - old(self).encoded().len()) + 1,
    {
        let ghost start = self.encoded();
        let ghost seen = self.model().observed();
        let mut i: usize = 0;
        proof {
            assert(bytes@.take(0) =~= Seq::<u8>::empty());
            assert(start + bytes@.take(0) =~= start);
            assert(seen + bytes@.take(0) =~= seen);
        }
        while i < bytes.len()
            invariant
                i <= bytes.len(),
                start == old(self).encoded(),
                seen == old(self).model().observed(),
                self.encoded() == start + bytes@.take(i as int),
                self.model().observed() == seen + bytes@.take(i as int),
                self.predictions().len() == old(self).predictions().len() + i,
            decreases bytes.len() - i,
        {
            match self.byte(bytes[i]) {
                Ok(()) => {},
                Err(e) => {
                    proof {
                        assert(self.encoded() == start + bytes@.take(i as int));
                        assert(self.model().observed() == seen + bytes@.take(i as int));
                    }
                    return Err(e);
                },
            }
            proof {
                assert(bytes@.take(i + 1) =~= bytes@.take(i as int).push(bytes@[i as int]));
                assert(start + bytes@.take(i + 1) =~= (start + bytes@.take(i as int)).push(bytes@[i as int]));
                assert(seen + bytes@.take(i + 1) =~= (seen + bytes@.take(i as int)).push(bytes@[i as int]));
            }
            i = i + 1;
        }
        proof {
            assert(bytes@.take(bytes@.len() as int) =~= bytes@);
        }
        Ok(())
    }

    /// Encode a length as its eight little-endian bytes.
    pub fn length(&mut self, len: usize) -> (r: Result<()>)
        ensures
            r is Ok ==> final(self).encoded() == old(self).encoded() + le_bytes_u64_spec(len as u64),
            final(self).model().observed() == old(self).model().observed() + final(self).encoded().skip(
                old(self).encoded().len() as int,
            ),
            r is Err ==> exists|k: int|
                0 <= k < 8 && final(self).encoded() == old(self).encoded()
                    + #[trigger] le_bytes_u64_spec(len as u64).take(k),
            r is Ok ==> final(self).predictions().len() == old(self).predictions().len() + 8,
            r is Err ==> final(self).predictions().len() == old(self).predictions().len() + (final(self).encoded().len()
                - old(self).encoded().len()) + 1,
    {
        let bytes = le_bytes_u64(len as u64);
        proof {
            assert(bytes@ =~= le_bytes_u64_spec(len as u64));
        }
        let r = self.bytes(&bytes);
        proof {
            if r is Err {
                let k = choose|k: int|
                    0 <= k < bytes@.len() && self.encoded() == old(self).encoded() + #[trigger] bytes@.take(k);
                assert(le_bytes_u64_spec(len as u64).take(k) == bytes@.take(k));
            }
        }
        r
    }
}

/// The decoding half of the Serde bridge: it obtains each construction
/// choice from the entropy decoder under the model's prediction.
pub struct Deserializer<'a, T: ?Sized, M, C> {
    model: &'a mut M,
    coder: &'a mut C,
    _type: PhantomData<T>,
    decoded: Ghost<Seq<u8>>,
    predictions: Ghost<Seq<Seq<u64>>>,
}

impl<'a, T: ?Sized, M: Model<T>, C: ChoiceDecoder> Deserializer<'a, T, M, C> {
    /// The choices decoded so far, in order.
    pub closed spec fn decoded(&self) -> Seq<u8> {
        self.decoded@
    }

    /// The model being driven.
    pub closed spec fn model(&self) -> M {
        *self.model
    }

    /// The entropy decoder being driven.
    pub closed spec fn coder(&self) -> C {
        *self.coder
    }

    /// The byte weights of each prediction consulted so far, in order.
    pub closed spec fn predictions(&self) -> Seq<Seq<u64>> {
        self.predictions@
    }

    pub fn new(model: &'a mut M, coder: &'a mut C) -> (r: Self)
        ensures
            r.decoded() == Seq::<u8>::empty(),
            r.predictions() == Seq::<Seq<u64>>::empty(),
            r.model() == *old(model),
            r.coder() == *old(coder),
    {
        Deserializer {
            model,
            coder,
            _type: PhantomData,
            decoded: Ghost(Seq::empty()),
            predictions: Ghost(Seq::empty()),
        }
    }

    /// Decode one choice among `choices` under the model's prediction, then
    /// let the model observe it.
    pub fn decide(&mut self, choices: Choices) -> (r: Result<u8>)
        ensures
            final(self).predictions().len() == old(self).predictions().len() + 1,
            final(self).predictions().drop_last() == old(self).predictions(),
            final(self).predictions().last() == old(self).model().predicted(),
            ({
                let restricted = restrict_weights(final(self).predictions().last(), choices.count() as int);
                &&& weight_total(restricted) == 0 ==> r == Err::<u8, Error>((Error::ZeroMass { choices }))
                &&& r matches Ok(c) ==> c < choices.count() && restricted[c as int] > 0
                &&& weight_total(restricted) > 0 ==> final(self).coder().received() == old(self).coder().received().push(restricted)
                &&& weight_total(restricted) == 0 ==> final(self).coder().received() == old(self).coder().received()
            }),
            r matches Ok(c) ==> final(self).decoded() == old(self).decoded().push(c),
            r is Err ==> final(self).decoded() == old(self).decoded(),
            r matches Ok(c) ==> final(self).model().observed() == old(self).model().observed().push(c),
            r is Err ==> final(self).model().observed() == old(self).model().observed(),
    {
        let prediction = self.model.predict().byte_categorical();
        self.predictions = Ghost(self.predictions@.push(prediction.weights_spec()));
        proof {
            assert(self.predictions@.drop_last() =~= old(self).predictions@);
        }
        let distribution = match prediction.restricted(choices) {
            Ok(d) => d,
            Err(e) => {
                return Err(e);
            },
        };
        let decoded = match self.coder.decode(&distribution) {
            Ok(c) => c,
            Err(e) => {
                return Err(e);
            },
        };
        let choice = match decoded_choice(&distribution, choices, decoded) {
            Ok(c) => c,
            Err(e) => {
                return Err(e);
            },
        };
        self.model.observe(choice);
        self.decoded = Ghost(self.decoded@.push(choice));
        Ok(choice)
    }

    /// Decode one byte among all 256 values.
    pub fn byte(&mut self) -> (r: Result<u8>)
        ensures
            final(self).predictions().len() == old(self).predictions().len() + 1,
            final(self).predictions().drop_last() == old(self).predictions(),
            final(self).predictions().last() == old(self).model().predicted(),
            ({
                let restricted = restrict_weights(final(self).predictions().last(), 256);
                &&& weight_total(restricted) == 0 ==> r == Err::<u8, Error>(
                    (Error::ZeroMass { choices: byte_choices() }),
                )
                &&& r matches Ok(c) ==> restricted[c as int] > 0
                &&& weight_total(restricted) > 0 ==> final(self).coder().received() == old(self).coder().received().push(restricted)
                &&& weight_total(restricted) == 0 ==> final(self).coder().received() == old(self).coder().received()
            }),
            r matches Ok(c) ==> final(self).model().observed() == old(self).model().observed().push(c),
            r is Err ==> final(self).model().observed() == old(self).model().observed(),
            r matches Ok(c) ==> final(self).decoded() == old(self).decoded().push(c),
            r is Err ==> final(self).decoded() == old(self).decoded(),
    {
        self.decide(Choices::byte())
    }

    /// Decode `N` bytes in order, stopping at the first error.
    pub fn bytes<const N: usize>(&mut self) -> (r: Result<[u8; N]>)
        ensures
            r matches Ok(b) ==> final(self).decoded() == old(self).decoded() + b@,
            final(self).model().observed() == old(self).model().observed() + final(self).decoded().skip(
                old(self).decoded().len() as int,
            ),
            r is Err ==> old(self).decoded().len() <= final(self).decoded().len() < old(self).decoded().len() + N
                && final(self).decoded().take(old(self).decoded().len() as int) == old(self).decoded(),
            r is Ok ==> final(self).predictions().len() == old(self).predictions().len() + N,
            r is Err ==> final(self).predictions().len() == old(self).predictions().len() + (final(self).decoded().len()
                - old(self).decoded().len()) + 1,
    {
        let ghost start = self.decoded();
        let ghost seen = self.model().observed();
        let mut bytes = [0u8; N];
        let mut i: usize = 0;
        proof {
            assert(bytes@.take(0) =~= Seq::<u8>::empty());
            assert(start + bytes@.take(0) =~= start);
            assert(seen + bytes@.take(0) =~= seen);
        }
        while i < N
            invariant
                i <= N,
                bytes@.len() == N,
                start == old(self).decoded(),
                seen == old(self).model().observed(),
                self.decoded() == start + bytes@.take(i as int),
                self.model().observed() == seen + bytes@.take(i as int),
                self.predictions().len() == old(self).predictions().len() + i,
            decreases N - i,
        {
            match self.byte() {
                Ok(b) => {
                    let ghost before = bytes@;
                    bytes[i] = b;
                    proof {
                        assert(bytes@.take(i as int) =~= before.take(i as int));
                        assert(bytes@.take(i + 1) =~= bytes@.take(i as int).push(b));
                        assert(start + bytes@.take(i + 1) =~= (start + bytes@.take(i as int)).push(b));
                        assert(seen + bytes@.take(i + 1) =~= (seen + bytes@.take(i as int)).push(b));
                    }
                },
                Err(e) => {
                    proof {
                        assert(self.decoded() == start + bytes@.take(i as int));
                        assert(bytes@.take(i as int).len() == i);
                        assert((start + bytes@.take(i as int)).take(start.len() as int) =~= start);
                        assert((start + bytes@.take(i as int)).skip(start.len() as int) =~= bytes@.take(i as int));
                    }
                    return Err(e);
                },
            }
            i = i + 1;
        }
        proof {
            assert(bytes@.take(N as int) =~= bytes@);
            assert((start + bytes@).skip(start.len() as int) =~= bytes@);
        }
        Ok(bytes)
    }

    /// Decode a length from its eight little-endian bytes.
    pub fn length(&mut self) -> (r: Result<u64>)
        ensures
            r matches Ok(v) ==> final(self).decoded() == old(self).decoded() + le_bytes_u64_spec(v),
            final(self).model().observed() == old(self).model().observed() + final(self).decoded().skip(
                old(self).decoded().len() as int,
            ),
            r is Err ==> old(self).decoded().len() <= final(self).decoded().len() < old(self).decoded().len() + 8
                && final(self).decoded().take(old(self).decoded().len() as int) == old(self).decoded(),
            r is Ok ==> final(self).predictions().len() == old(self).predictions().len() + 8,
            r is Err ==> final(self).predictions().len() == old(self).predictions().len() + (final(self).decoded().len()
                - old(self).decoded().len()) + 1,
    {
        match self.bytes::<8>() {
            Ok(bytes) => Ok(u64_from_le_bytes(bytes)),
            Err(e) => Err(e),
        }
    }
}

} // verus!
