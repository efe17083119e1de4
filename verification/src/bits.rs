//! Fixed-width owned bit strings, in either in-memory bit order.
use bitvec::prelude::{BitBox, BitVec, Lsb0, Msb0};
use vstd::prelude::*;

verus! {

/// An owned `bitvec` bit string (`BitBox<u8, Msb0>`); its contents are
/// known to verified code only through [`msb_bits`].
#[verifier::external_body]
#[derive(PartialEq, Eq, Hash, Debug)]
pub struct MsbBits {
    bits: BitBox<u8, Msb0>,
}

impl Clone for MsbBits {
    /// `BitBox::clone`: an owned copy of the same bits.
    #[verifier::external_body]
    fn clone(&self) -> (r: Self)
        ensures
            msb_bits(r) == msb_bits(*self),
    {
        MsbBits { bits: self.bits.clone() }
    }
}

/// The bits held by an [`MsbBits`], in index order.
pub uninterp spec fn msb_bits(bits: MsbBits) -> Seq<bool>;

/// `BitVec::repeat(false, width).into_boxed_bitslice()`: `width` zero bits.
#[verifier::external_body]
pub fn msb_zeros(width: usize) -> (r: MsbBits)
    ensures
        msb_bits(r) == Seq::new(width as nat, |i: int| false),
{
    MsbBits { bits: BitVec::<u8, Msb0>::repeat(false, width).into_boxed_bitslice() }
}

/// `BitSlice::len`.
#[verifier::external_body]
pub fn msb_len(bits: &MsbBits) -> (r: usize)
    ensures
        r == msb_bits(*bits).len(),
{
    bits.bits.len()
}

/// `BitSlice::set(index, value)`.
#[verifier::external_body]
pub fn msb_set(bits: &mut MsbBits, index: usize, value: bool)
    requires
        index < msb_bits(*old(bits)).len(),
    ensures
        msb_bits(*final(bits)) == msb_bits(*old(bits)).update(index as int, value),
{
    bits.bits.set(index, value)
}

/// Indexing a `BitSlice`.
#[verifier::external_body]
pub fn msb_get(bits: &MsbBits, index: usize) -> (r: bool)
    requires
        index < msb_bits(*bits).len(),
    ensures
        r == msb_bits(*bits)[index as int],
{
    bits.bits[index]
}

/// An owned `bitvec` bit string stored least significant bit first within
/// each byte (`BitBox<u8, Lsb0>`); its contents are known to verified code
/// only through [`lsb_bits`].
#[verifier::external_body]
#[derive(Debug)]
pub struct LsbBits {
    bits: BitBox<u8, Lsb0>,
}

impl Clone for LsbBits {
    /// `BitBox::clone`: an owned copy of the same bits.
    #[verifier::external_body]
    fn clone(&self) -> (r: Self)
        ensures
            lsb_bits(r) == lsb_bits(*self),
    {
        LsbBits { bits: self.bits.clone() }
    }
}

/// The bits held by an [`LsbBits`], in index order.
pub uninterp spec fn lsb_bits(bits: LsbBits) -> Seq<bool>;

/// `BitVec::repeat(false, width).into_boxed_bitslice()`: `width` zero bits.
#[verifier::external_body]
pub fn lsb_zeros(width: usize) -> (r: LsbBits)
    ensures
        lsb_bits(r) == Seq::new(width as nat, |i: int| false),
{
    LsbBits { bits: BitVec::<u8, Lsb0>::repeat(false, width).into_boxed_bitslice() }
}

/// `BitSlice::len`.
#[verifier::external_body]
pub fn lsb_len(bits: &LsbBits) -> (r: usize)
    ensures
        r == lsb_bits(*bits).len(),
{
    bits.bits.len()
}

/// `BitSlice::set(index, value)`.
#[verifier::external_body]
pub fn lsb_set(bits: &mut LsbBits, index: usize, value: bool)
    requires
        index < lsb_bits(*old(bits)).len(),
    ensures
        lsb_bits(*final(bits)) == lsb_bits(*old(bits)).update(index as int, value),
{
    bits.bits.set(index, value)
}

/// Indexing a `BitSlice`.
#[verifier::external_body]
pub fn lsb_get(bits: &LsbBits, index: usize) -> (r: bool)
    requires
        index < lsb_bits(*bits).len(),
    ensures
        r == lsb_bits(*bits)[index as int],
{
    bits.bits[index]
}

} // verus!
