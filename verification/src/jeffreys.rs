//! A one-byte Bernoulli quantizer, uniform in the Fisher-Rao / Jeffreys
//! coordinate.
use vstd::prelude::*;

verus! {

/// A one-byte quantization of a Bernoulli distribution, uniform in the
/// Fisher-Rao / Jeffreys coordinate.
///
/// For Bernoulli probability `p`, define
///
/// ```text
/// u(p) = (2 / pi) * asin(sqrt(p))
/// ```
///
/// Byte `k` denotes the bucket
///
/// ```text
/// k / 256 <= u(p) < (k + 1) / 256
/// ```
///
/// with the final bucket also containing `p = 1`.
///
/// The byte is a bucket index, not a fixed-point probability. All 256 byte
/// values are valid.
#[derive(Clone, Copy, Debug, PartialEq, Eq, PartialOrd, Ord, Hash)]
pub struct JeffreysU8(u8);

impl JeffreysU8 {
    /// The protocol byte.
    pub closed spec fn raw_spec(self) -> u8 {
        self.0
    }

    /// Construct directly from a protocol byte.
    pub fn from_raw(raw: u8) -> (r: Self)
        ensures
            r.raw_spec() == raw,
    {
        JeffreysU8(raw)
    }

    /// Return the protocol byte.
    pub fn into_raw(self) -> (r: u8)
        ensures
            r == self.raw_spec(),
    {
        self.0
    }

    /// A bucket is determined by its protocol byte.
    pub proof fn lemma_raw_determines(self, other: Self)
        ensures
            self.raw_spec() == other.raw_spec() <==> self == other,
    {
    }

    /// Read protocol bytes as Jeffreys buckets, one bucket per byte.
    pub fn slice_from_bytes(bytes: &[u8]) -> (r: Vec<Self>)
        ensures
            r@.len() == bytes@.len(),
            forall|i: int| 0 <= i < bytes@.len() ==> (#[trigger] r@[i]).raw_spec() == bytes@[i],
    {
        let mut values: Vec<Self> = Vec::with_capacity(bytes.len());
        let mut i: usize = 0;
        while i < bytes.len()
            invariant
                i <= bytes@.len(),
                values@.len() == i,
                forall|j: int| 0 <= j < i ==> (#[trigger] values@[j]).raw_spec() == bytes@[j],
            decreases bytes.len() - i,
        {
            values.push(JeffreysU8(bytes[i]));
            i = i + 1;
        }
        values
    }

    /// Write Jeffreys buckets as protocol bytes, one byte per bucket.
    pub fn slice_as_bytes(values: &[Self]) -> (r: Vec<u8>)
        ensures
            r@.len() == values@.len(),
            forall|i: int| 0 <= i < values@.len() ==> #[trigger] r@[i] == values@[i].raw_spec(),
    {
        let mut bytes: Vec<u8> = Vec::with_capacity(values.len());
        let mut i: usize = 0;
        while i < values.len()
            invariant
                i <= values@.len(),
                bytes@.len() == i,
                forall|j: int| 0 <= j < i ==> #[trigger] bytes@[j] == values@[j].raw_spec(),
            decreases values.len() - i,
        {
            bytes.push(values[i].0);
            i = i + 1;
        }
        bytes
    }
}

impl From<u8> for JeffreysU8 {
    fn from(raw: u8) -> (r: Self) {
        Self::from_raw(raw)
    }
}

impl vstd::std_specs::convert::FromSpecImpl<u8> for JeffreysU8 {
    open spec fn obeys_from_spec() -> bool {
        true
    }

    closed spec fn from_spec(raw: u8) -> Self {
        JeffreysU8(raw)
    }
}

impl From<JeffreysU8> for u8 {
    fn from(value: JeffreysU8) -> (r: Self) {
        value.into_raw()
    }
}

impl vstd::std_specs::convert::FromSpecImpl<JeffreysU8> for u8 {
    open spec fn obeys_from_spec() -> bool {
        true
    }

    closed spec fn from_spec(value: JeffreysU8) -> u8 {
        value.0
    }
}


/// Converting a byte into a `JeffreysU8` keeps it as the raw code, and
/// converting a `JeffreysU8` back gives its raw code: the two `From`
/// conversions undo each other.
pub proof fn lemma_from_round_trip(raw: u8, value: JeffreysU8)
    ensures
        <JeffreysU8 as vstd::std_specs::convert::FromSpec<u8>>::from_spec(raw).raw_spec() == raw,
        <u8 as vstd::std_specs::convert::FromSpec<JeffreysU8>>::from_spec(value) == value.raw_spec(),
        <u8 as vstd::std_specs::convert::FromSpec<JeffreysU8>>::from_spec(
            <JeffreysU8 as vstd::std_specs::convert::FromSpec<u8>>::from_spec(raw),
        ) == raw,
{
}

} // verus!
