//! The bit-vectors of the `bv` crate, as the slot sets of gossip use them.
//!
//! A `BitVec<u8>` is held in `SlotBits` and seen through two names: the bits
//! it holds, and the number of `u8` blocks it has allocated. The contracts
//! below state what `bv` 0.11's source does with both.

use vstd::prelude::*;
use bv::BitVec;

verus! {

/// A `bv::BitVec<u8>`, seen by Verus only through `bitvec_bits` and
/// `bitvec_blocks`.
#[derive(Debug)]
#[verifier::external_body]
pub struct SlotBits {
    bits: BitVec<u8>,
}

/// The bits held by a bit-vector, in order; its length is the vector's `len()`.
pub uninterp spec fn bitvec_bits(v: SlotBits) -> Seq<bool>;

/// The number of `u8` blocks that a bit-vector has allocated.
pub uninterp spec fn bitvec_blocks(v: SlotBits) -> nat;

/// The number of bytes that `bincode::serialized_size` counts for a
/// bit-vector (with the `serde` feature of `bv`).
pub uninterp spec fn bitvec_encoded_len(v: SlotBits) -> nat;

/// The encoded length of a bit-vector made with `blocks` blocks by `bv`'s
/// constructors: the option tag, then the length-prefixed blocks when there
/// are any, then the bit length.
pub open spec fn fresh_encoded_len(blocks: nat) -> nat {
    if blocks == 0 { 9 } else { 17 + blocks }
}

impl SlotBits {
    /// `len` cleared bits, in `ceil(len / 8)` blocks.
    pub fn new_cleared(len: u64) -> (r: SlotBits)
        requires
            len + 7 <= u64::MAX,
            (len + 7) / 8 <= usize::MAX,
        ensures
            bitvec_bits(r) == Seq::new(len as nat, |i: int| false),
            bitvec_blocks(r) == (len as nat + 7) / 8,
    {
        bitvec_new_cleared(len)
    }

    /// No bits, in `ceil(nbits / 8)` blocks.
    pub fn with_capacity(nbits: u64) -> (r: SlotBits)
        requires
            nbits + 7 <= u64::MAX,
            (nbits + 7) / 8 <= usize::MAX,
        ensures
            bitvec_bits(r) == Seq::<bool>::empty(),
            bitvec_blocks(r) == (nbits as nat + 7) / 8,
    {
        bitvec_with_capacity(nbits)
    }

    /// Eight bits per allocated block (modulo `2^64`).
    pub fn capacity(&self) -> (r: u64)
        ensures
            r as int == (8 * bitvec_blocks(*self)) % 0x1_0000_0000_0000_0000,
    {
        bitvec_capacity(self)
    }
}

/// Whether bit `k` (counting from the least significant) of `b` is set.
pub open spec fn byte_bit(b: u8, k: int) -> bool {
    b & (1u8 << (k as u8)) != 0u8
}

/// `BitVec::new_fill(false, len)`: `len` cleared bits in `ceil(len / 8)` blocks.
#[verifier::external_body]
pub(crate) fn bitvec_new_cleared(len: u64) -> (r: SlotBits)
    requires
        len + 7 <= u64::MAX,
        (len + 7) / 8 <= usize::MAX,
    ensures
        bitvec_bits(r) == Seq::new(len as nat, |i: int| false),
        bitvec_blocks(r) == (len as nat + 7) / 8,
        bitvec_encoded_len(r) == fresh_encoded_len((len as nat + 7) / 8),
{
    SlotBits { bits: BitVec::new_fill(false, len) }
}

/// `BitVec::with_capacity(nbits)`: no bits, `ceil(nbits / 8)` blocks.
#[verifier::external_body]
pub(crate) fn bitvec_with_capacity(nbits: u64) -> (r: SlotBits)
    requires
        nbits + 7 <= u64::MAX,
        (nbits + 7) / 8 <= usize::MAX,
    ensures
        bitvec_bits(r) == Seq::<bool>::empty(),
        bitvec_blocks(r) == (nbits as nat + 7) / 8,
        bitvec_encoded_len(r) == fresh_encoded_len((nbits as nat + 7) / 8),
{
    SlotBits { bits: BitVec::with_capacity(nbits) }
}

/// `BitVec::len`: the number of bits.
#[verifier::external_body]
pub(crate) fn bitvec_len(v: &SlotBits) -> (r: u64)
    ensures
        r == bitvec_bits(*v).len(),
{
    v.bits.len()
}

/// `BitVec::capacity`: eight bits per allocated block, computed by a left
/// shift of the block count, which drops the bits shifted out.
#[verifier::external_body]
pub(crate) fn bitvec_capacity(v: &SlotBits) -> (r: u64)
    ensures
        r as int == (8 * bitvec_blocks(*v)) % 0x1_0000_0000_0000_0000,
{
    v.bits.capacity()
}

/// `BitVec::block_capacity`: the number of allocated blocks.
#[verifier::external_body]
pub(crate) fn bitvec_block_capacity(v: &SlotBits) -> (r: usize)
    ensures
        r == bitvec_blocks(*v),
{
    v.bits.block_capacity()
}

/// `BitVec::get`: the bit at `position`; it panics out of bounds.
#[verifier::external_body]
pub(crate) fn bitvec_get(v: &SlotBits, position: u64) -> (r: bool)
    requires
        position < bitvec_bits(*v).len(),
    ensures
        r == bitvec_bits(*v)[position as int],
{
    v.bits.get(position)
}

/// `BitVec::set`: updates the bit at `position`; it panics out of bounds.
#[verifier::external_body]
pub(crate) fn bitvec_set(v: &mut SlotBits, position: u64, value: bool)
    requires
        position < bitvec_bits(*old(v)).len(),
    ensures
        bitvec_bits(*final(v)) == bitvec_bits(*old(v)).update(position as int, value),
        bitvec_blocks(*final(v)) == bitvec_blocks(*old(v)),
        bitvec_encoded_len(*final(v)) == bitvec_encoded_len(*old(v)),
{
    v.bits.set(position, value)
}

/// `bincode::serialized_size` of the bit-vector.
#[verifier::external_body]
pub(crate) fn bitvec_serialized_size(v: &SlotBits) -> (r: u64)
    ensures
        r == bitvec_encoded_len(*v),
{
    bincode::serialized_size(&v.bits).unwrap()
}

/// `BitVec::clone`: the same bits in as many blocks.
#[verifier::external_body]
pub(crate) fn bitvec_clone(v: &SlotBits) -> (r: SlotBits)
    ensures
        bitvec_bits(r) == bitvec_bits(*v),
        bitvec_blocks(r) == bitvec_blocks(*v),
        bitvec_encoded_len(r) == bitvec_encoded_len(*v),
{
    SlotBits { bits: v.bits.clone() }
}

/// `BitVec::shrink_to_fit` followed by `into_boxed_slice`: the blocks that
/// hold the bits, `ceil(len / 8)` of them, bit `i` being bit `i % 8` of block
/// `i / 8`.
#[verifier::external_body]
pub(crate) fn bitvec_into_blocks(v: SlotBits) -> (r: Vec<u8>)
    ensures
        r.len() == (bitvec_bits(v).len() + 7) / 8,
        forall|i: int|
            0 <= i < bitvec_bits(v).len() ==> bitvec_bits(v)[i] == byte_bit(#[trigger] r@[i / 8], i % 8),
{
    let mut bits = v.bits;
    bits.shrink_to_fit();
    bits.into_boxed_slice().into_vec()
}

/// `BitVec::from_bits` on a byte slice: all eight bits of every byte, bit
/// `i` being bit `i % 8` of byte `i / 8`, in as many blocks as bytes. The bit
/// length is computed by a left shift of the byte count, which drops the
/// bits shifted out.
#[verifier::external_body]
pub(crate) fn bitvec_from_bytes(bytes: &[u8]) -> (r: SlotBits)
    ensures
        bitvec_bits(r).len() == (8 * bytes@.len()) % 0x1_0000_0000_0000_0000,
        forall|i: int|
            0 <= i < bitvec_bits(r).len() ==> bitvec_bits(r)[i] == byte_bit(#[trigger] bytes@[i / 8], i % 8),
        bitvec_blocks(r) == bytes@.len(),
        bitvec_encoded_len(r) == 17 + bytes@.len(),
{
    SlotBits { bits: BitVec::from_bits(bytes) }
}

} // verus!
