//! The slots that a node has completed in an epoch, as it gossips them.
//!
//! Slots are kept as bit-vectors relative to a first slot; full bit-vectors
//! are compressed with DEFLATE so that they fit in one gossip value.

use vstd::prelude::*;
use crate::bitvec::{
    SlotBits, bitvec_bits, bitvec_blocks, bitvec_encoded_len, fresh_encoded_len, bitvec_new_cleared,
    bitvec_len, bitvec_get, bitvec_set, bitvec_capacity, bitvec_clone, bitvec_block_capacity,
    bitvec_into_blocks, bitvec_from_bytes, bitvec_serialized_size, byte_bit,
};
use crate::flate::{deflate_raw, inflate_raw, deflated};
use crate::pubkey::Pubkey;
use crate::sanitize::{Sanitize, SanitizeError, sanitize_all};

verus! {

/// The most slots that one entry records.
pub const MAX_SLOTS_PER_ENTRY: usize = 16384;

/// Slots at or above this bound are malformed.
pub const MAX_SLOT: u64 = 1_000_000_000_000_000;

/// Wallclocks at or above this bound are malformed.
pub const MAX_WALLCLOCK: u64 = 1_000_000_000_000_000;

/// The largest serialized size of a gossip value.
pub const MAX_CRDS_OBJECT_SIZE: usize = 928;

/// Slots as a bit-vector: bit `i` set means slot `first_slot + i`; only the
/// first `num` bits are looked at.
pub struct Uncompressed {
    pub first_slot: u64,
    pub num: usize,
    pub slots: SlotBits,
}

/// What an `Uncompressed` holds, as plain values.
pub struct UncompressedView {
    pub first_slot: u64,
    pub num: usize,
    pub bits: Seq<bool>,
    pub blocks: nat,
    pub encoded_bits: nat,
}

impl View for Uncompressed {
    type V = UncompressedView;

    open spec fn view(&self) -> UncompressedView {
        UncompressedView {
            first_slot: self.first_slot,
            num: self.num,
            bits: bitvec_bits(self.slots),
            blocks: bitvec_blocks(self.slots),
            encoded_bits: bitvec_encoded_len(self.slots),
        }
    }
}

/// Adds `slots` in order to `u` as `Uncompressed::add` does: the entry
/// after, and how many slots were taken before the first that did not fit.
///
/// An empty entry takes its first slot from the next slot offered; a slot
/// does not fit when the entry is full, or the slot lies before the first
/// slot or past the end of the bit-vector.
pub open spec fn add_spec(u: UncompressedView, slots: Seq<u64>) -> (UncompressedView, nat)
    decreases slots.len(),
{
    if slots.len() == 0 {
        (u, 0)
    } else {
        let s = slots[0];
        let first = if u.num == 0 { s } else { u.first_slot };
        let u1 = UncompressedView { first_slot: first, ..u };
        if u.num >= MAX_SLOTS_PER_ENTRY || s < first || s - first >= u.bits.len() {
            (u1, 0)
        } else {
            let off = (s - first) as int;
            let num = if u.num >= 1 + off { u.num } else { (1 + off) as usize };
            let u2 = UncompressedView { first_slot: first, num: num, bits: u.bits.update(off, true), ..u };
            let r = add_spec(u2, slots.drop_first());
            (r.0, r.1 + 1)
        }
    }
}

/// The slots of bits `lo .. hi` that are set, in increasing order.
pub open spec fn set_slots(first_slot: u64, bits: Seq<bool>, lo: int, hi: int) -> Seq<u64>
    decreases hi - lo,
{
    if hi <= lo {
        Seq::empty()
    } else {
        set_slots(first_slot, bits, lo, hi - 1) + if bits[hi - 1] {
            seq![(first_slot + hi - 1) as u64]
        } else {
            Seq::empty()
        }
    }
}

/// The bit at which `to_slots(min_slot)` starts to look.
pub open spec fn start_bit(first_slot: u64, min_slot: u64) -> int {
    if min_slot < first_slot { 0 } else { ((min_slot - first_slot) as usize) as int }
}

/// The bit before which `to_slots` stops looking.
pub open spec fn end_bit(u: UncompressedView) -> int {
    if u.num < u.bits.len() { u.num as int } else { u.bits.len() as int }
}

/// The slots at or after `min_slot` (or all, if it precedes the first slot)
/// that the entry records.
pub open spec fn to_slots_spec(u: UncompressedView, min_slot: u64) -> Seq<u64> {
    set_slots(u.first_slot, u.bits, start_bit(u.first_slot, min_slot), end_bit(u))
}

/// Every slot that `to_slots(min_slot)` yields fits in a `u64`.
pub open spec fn slots_fit(u: UncompressedView, min_slot: u64) -> bool {
    forall|i: int|
        start_bit(u.first_slot, min_slot) <= i < end_bit(u) && #[trigger] u.bits[i]
            ==> u.first_slot + i <= u64::MAX
}

impl Uncompressed {
    /// An empty entry with room for `8 * max_size` slots.
    pub fn new(max_size: usize) -> (r: Uncompressed)
        requires
            8 * max_size + 7 <= u64::MAX,
        ensures
            r@.first_slot == 0,
            r@.num == 0,
            r@.bits == Seq::new(8 * max_size as nat, |i: int| false),
            r@.blocks == max_size,
            r@.encoded_bits == fresh_encoded_len(max_size as nat),
    {
        let len: u64 = 8 * (max_size as u64);
        assert((len as nat + 7) / 8 == max_size);
        Uncompressed { num: 0, first_slot: 0, slots: bitvec_new_cleared(len) }
    }

    /// The recorded slots from `min_slot` on, in increasing order.
    pub fn to_slots(&self, min_slot: u64) -> (r: Vec<u64>)
        requires
            slots_fit(self@, min_slot),
        ensures
            r@ == to_slots_spec(self@, min_slot),
    {
        let ghost u = self@;
        let start: usize = if min_slot < self.first_slot {
            0
        } else {
            (min_slot - self.first_slot) as usize
        };
        let len: u64 = bitvec_len(&self.slots);
        let mut rv: Vec<u64> = Vec::new();
        let mut i: usize = start;
        while i < self.num && (i as u64) < len
            invariant
                u == self@,
                start == start_bit(u.first_slot, min_slot),
                len == u.bits.len(),
                slots_fit(u, min_slot),
                start <= i,
                i == start || i <= end_bit(u),
                rv@ == set_slots(u.first_slot, u.bits, start as int, i as int),
            decreases u.num - i,
        {
            if bitvec_get(&self.slots, i as u64) {
                assert(u.bits[i as int]);
                rv.push(self.first_slot + i as u64);
            }
            i += 1;
        }
        rv
    }

    /// Adds `slots` in order, stopping at the first that does not fit (see
    /// `add_spec`); returns how many were added.
    pub fn add(&mut self, slots: &[u64]) -> (r: usize)
        requires
            old(self)@.bits.len() <= usize::MAX,
        ensures
            (final(self)@, r as nat) == add_spec(old(self)@, slots@),
    {
        let mut i: usize = 0;
        assert(slots@.skip(0) =~= slots@);
        while i < slots.len()
            invariant
                i <= slots.len(),
                self@.bits.len() == old(self)@.bits.len(),
                self@.bits.len() <= usize::MAX,
                self@.blocks == old(self)@.blocks,
                self@.encoded_bits == old(self)@.encoded_bits,
                add_spec(old(self)@, slots@) == ({
                    let t = add_spec(self@, slots@.skip(i as int));
                    (t.0, (t.1 + i) as nat)
                }),
            decreases slots.len() - i,
        {
            assert(slots@.skip(i as int).drop_first() =~= slots@.skip(i + 1));
            let s = slots[i];
            if self.num == 0 {
                self.first_slot = s;
            }
            if self.num >= MAX_SLOTS_PER_ENTRY {
                return i;
            }
            if s < self.first_slot {
                return i;
            }
            let off: u64 = s - self.first_slot;
            if off >= bitvec_len(&self.slots) {
                return i;
            }
            bitvec_set(&mut self.slots, off, true);
            let next: usize = 1 + off as usize;
            if self.num < next {
                self.num = next;
            }
            i += 1;
        }
        assert(slots@.skip(i as int) =~= Seq::<u64>::empty());
        slots.len()
    }
}

impl Clone for Uncompressed {
    fn clone(&self) -> (r: Self)
        ensures
            r@ == self@,
    {
        Uncompressed { first_slot: self.first_slot, num: self.num, slots: bitvec_clone(&self.slots) }
    }
}

/// What sanitizing an `Uncompressed` gives: the first slot and the count
/// must be in bounds, and the bit-vector must hold whole blocks with no
/// spare capacity.
pub open spec fn uncompressed_sanitized(u: UncompressedView) -> Result<(), SanitizeError> {
    if u.first_slot >= MAX_SLOT {
        Err(SanitizeError::ValueOutOfBounds)
    } else if u.num >= MAX_SLOTS_PER_ENTRY {
        Err(SanitizeError::ValueOutOfBounds)
    } else if u.bits.len() % 8 != 0 {
        Err(SanitizeError::ValueOutOfBounds)
    } else if u.bits.len() != (8 * u.blocks) % 0x1_0000_0000_0000_0000 {
        Err(SanitizeError::ValueOutOfBounds)
    } else {
        Ok(())
    }
}

impl Sanitize for Uncompressed {
    open spec fn sanitized(&self) -> Result<(), SanitizeError> {
        uncompressed_sanitized(self@)
    }

    fn sanitize(&self) -> (r: Result<(), SanitizeError>) {
        if self.first_slot >= MAX_SLOT {
            return Err(SanitizeError::ValueOutOfBounds);
        }
        if self.num >= MAX_SLOTS_PER_ENTRY {
            return Err(SanitizeError::ValueOutOfBounds);
        }
        let len = bitvec_len(&self.slots);
        if len % 8 != 0 {
            return Err(SanitizeError::ValueOutOfBounds);
        }
        if len != bitvec_capacity(&self.slots) {
            return Err(SanitizeError::ValueOutOfBounds);
        }
        Ok(())
    }
}

/// Slots compressed with DEFLATE: the compressed blocks of an `Uncompressed`
/// with the same first slot and count.
#[derive(Clone, Debug, PartialEq, Eq)]
pub struct Flate2 {
    pub first_slot: u64,
    pub num: usize,
    pub compressed: Vec<u8>,
}

/// What a `Flate2` holds, as plain values.
pub struct Flate2View {
    pub first_slot: u64,
    pub num: usize,
    pub compressed: Seq<u8>,
}

impl View for Flate2 {
    type V = Flate2View;

    open spec fn view(&self) -> Flate2View {
        Flate2View { first_slot: self.first_slot, num: self.num, compressed: self.compressed@ }
    }
}

/// Why slots could not be compressed or decompressed.
#[derive(Debug, PartialEq, Eq, Clone, Copy, Structural)]
pub enum Error {
    CompressError,
    DecompressError,
}

/// The bits of `bytes`, eight to a byte: bit `i` is bit `i % 8` of byte
/// `i / 8`.
pub open spec fn bytes_bits(bytes: Seq<u8>) -> Seq<bool> {
    Seq::new(8 * bytes.len(), |i: int| byte_bit(bytes[i / 8], i % 8))
}

/// `blocks` hold `bits`, eight to a byte, in as few bytes as they need.
pub open spec fn holds_bits(blocks: Seq<u8>, bits: Seq<bool>) -> bool {
    &&& blocks.len() == (bits.len() + 7) / 8
    &&& forall|i: int| 0 <= i < bits.len() ==> bits[i] == byte_bit(#[trigger] blocks[i / 8], i % 8)
}

/// The slots at or after `min_slot` (or all, if it precedes the first slot)
/// that a compressed entry records, when its stream is the compression of
/// `blocks`.
pub open spec fn flate2_slots(f: Flate2View, blocks: Seq<u8>, min_slot: u64) -> Seq<u64> {
    set_slots(f.first_slot, bytes_bits(blocks), start_bit(f.first_slot, min_slot), f.num as int)
}

/// The number of bytes that inflating a compressed entry of `num` slots
/// makes room for.
pub open spec fn inflate_capacity(num: usize) -> int {
    32 + (num + 4) / 8
}

/// The slots of bits `lo .. hi` depend on those bits only.
pub proof fn lemma_set_slots_agree(first_slot: u64, a: Seq<bool>, b: Seq<bool>, lo: int, hi: int)
    requires
        forall|i: int| lo <= i < hi ==> a[i] == b[i],
    ensures
        set_slots(first_slot, a, lo, hi) == set_slots(first_slot, b, lo, hi),
    decreases hi - lo,
{
    if hi > lo {
        lemma_set_slots_agree(first_slot, a, b, lo, hi - 1);
    }
}

/// Compressing an entry keeps its slots: when the blocks that hold its bits
/// compress to the stream of a compressed entry with the same first slot
/// and count, that entry records the same slots.
pub proof fn law_compression_keeps_slots(u: UncompressedView, blocks: Seq<u8>, f: Flate2View, min_slot: u64)
    requires
        u.num <= u.bits.len(),
        holds_bits(blocks, u.bits),
        f.first_slot == u.first_slot,
        f.num == u.num,
    ensures
        flate2_slots(f, blocks, min_slot) == to_slots_spec(u, min_slot),
{
    let bb = bytes_bits(blocks);
    assert forall|i: int| start_bit(u.first_slot, min_slot) <= i < u.num implies bb[i] == u.bits[i] by {
        assert(0 <= i < u.bits.len());
        assert(bb[i] == byte_bit(blocks[i / 8], i % 8));
    }
    lemma_set_slots_agree(u.first_slot, bb, u.bits, start_bit(u.first_slot, min_slot), u.num as int);
}

/// What sanitizing a `Flate2` gives: the first slot and the count must be in
/// bounds.
pub open spec fn flate2_sanitized(f: Flate2View) -> Result<(), SanitizeError> {
    if f.first_slot >= MAX_SLOT {
        Err(SanitizeError::ValueOutOfBounds)
    } else if f.num >= MAX_SLOTS_PER_ENTRY {
        Err(SanitizeError::ValueOutOfBounds)
    } else {
        Ok(())
    }
}

impl Sanitize for Flate2 {
    open spec fn sanitized(&self) -> Result<(), SanitizeError> {
        flate2_sanitized(self@)
    }

    fn sanitize(&self) -> (r: Result<(), SanitizeError>) {
        if self.first_slot >= MAX_SLOT {
            return Err(SanitizeError::ValueOutOfBounds);
        }
        if self.num >= MAX_SLOTS_PER_ENTRY {
            return Err(SanitizeError::ValueOutOfBounds);
        }
        Ok(())
    }
}

/// The blocks of `u` compress into the blocks it has allocated, whatever
/// its unused bits hold.
pub open spec fn compresses_within(u: UncompressedView) -> bool {
    &&& u.blocks > 0
    &&& forall|blocks: Seq<u8>| #[trigger] holds_bits(blocks, u.bits) ==> deflated(blocks).len() <= u.blocks
}

/// An entry that is compressed already, or whose blocks compress into the
/// blocks it has allocated.
pub open spec fn compressible(e: CompressedSlotsView) -> bool {
    e matches CompressedSlotsView::Uncompressed(u) ==> compresses_within(u)
}

impl Flate2 {
    /// Compresses the blocks of `unc`, and checks that the stream is whole
    /// and decompresses. The first slot and the count are kept. It succeeds
    /// when the compressed blocks fit in as many bytes as `unc` has blocks
    /// allocated.
    pub fn deflate(unc: Uncompressed) -> (r: Result<Flate2, Error>)
        requires
            unc.num + 4 <= usize::MAX,
        ensures
            compresses_within(unc@) ==> r is Ok,
            r matches Ok(f) ==> {
                &&& f.first_slot == unc.first_slot
                &&& f.num == unc.num
                &&& exists|blocks: Seq<u8>| #[trigger] holds_bits(blocks, unc@.bits) && f.compressed@ == deflated(blocks)
            },
    {
        let ghost bits0 = unc@.bits;
        let capacity = bitvec_block_capacity(&unc.slots);
        let first_slot = unc.first_slot;
        let num = unc.num;
        let bits = bitvec_into_blocks(unc.slots);
        proof {
            assert(holds_bits(bits@, bits0));
        }
        // A stream cut off at the capacity would lose slots.
        let compressed = match deflate_raw(bits.as_slice(), capacity) {
            Ok((compressed, true)) => compressed,
            Ok((_, false)) => {
                return Err(Error::CompressError);
            },
            Err(_) => {
                return Err(Error::CompressError);
            },
        };
        let rv = Flate2 { first_slot, num, compressed };
        proof {
            assert(holds_bits(bits@, bits0));
        }
        match rv.inflate() {
            Ok(_) => Ok(rv),
            Err(e) => Err(e),
        }
    }

    /// Decompresses the blocks. The first slot and the count are kept, and
    /// the bit-vector holds every bit of the decompressed bytes.
    pub fn inflate(&self) -> (r: Result<Uncompressed, Error>)
        requires
            self.num + 4 <= usize::MAX,
        ensures
            r matches Err(e) ==> e == Error::DecompressError,
            (exists|blocks: Seq<u8>| #[trigger] deflated(blocks) == self.compressed@) ==> r is Ok,
            r matches Ok(u) ==> {
                &&& u.first_slot == self.first_slot
                &&& u.num == self.num
                &&& u@.bits.len() == (8 * u@.blocks) % 0x1_0000_0000_0000_0000
            },
            forall|blocks: Seq<u8>| #[trigger] deflated(blocks) == self.compressed@ && 8 * blocks.len() < 0x1_0000_0000_0000_0000
                ==> (r matches Ok(u) && {
                &&& u@.bits.len() <= 8 * blocks.len()
                &&& u@.bits.len() >= 8 * (if blocks.len() <= inflate_capacity(self.num) { blocks.len() as int } else { inflate_capacity(self.num) })
                &&& forall|i: int| 0 <= i < u@.bits.len() ==> u@.bits[i] == #[trigger] bytes_bits(blocks)[i]
            }),
    {
        let capacity: usize = 32 + (self.num + 4) / 8;
        match inflate_raw(self.compressed.as_slice(), capacity) {
            Ok(uncompressed) => {
                let u = Uncompressed {
                    first_slot: self.first_slot,
                    num: self.num,
                    slots: bitvec_from_bytes(uncompressed.as_slice()),
                };
                proof {
                    assert forall|blocks: Seq<u8>| #[trigger] deflated(blocks) == self.compressed@ && 8 * blocks.len()
                        < 0x1_0000_0000_0000_0000 implies u@.bits.len() <= 8 * blocks.len() && u@.bits.len() >= 8 * (
                        if blocks.len() <= inflate_capacity(self.num) { blocks.len() as int } else { inflate_capacity(self.num) })
                        && forall|i: int| 0 <= i < u@.bits.len() ==> u@.bits[i] == #[trigger] bytes_bits(blocks)[i] by {
                        let out = uncompressed@;
                        assert(out == blocks.take(out.len() as int));
                        assert(u@.bits.len() == 8 * out.len());
                        assert forall|i: int| 0 <= i < u@.bits.len() implies u@.bits[i] == #[trigger] bytes_bits(blocks)[i] by {
                            assert(0 <= i / 8 < out.len()) by (nonlinear_arith)
                                requires
                                    0 <= i < 8 * out.len(),
                            ;
                            assert(out[i / 8] == blocks[i / 8]);
                        }
                    }
                }
                Ok(u)
            },
            Err(_) => Err(Error::DecompressError),
        }
    }
}

/// Slots of one entry, compressed or not.
pub enum CompressedSlots {
    Flate2(Flate2),
    Uncompressed(Uncompressed),
}

/// What a `CompressedSlots` holds, as plain values.
pub enum CompressedSlotsView {
    Flate2(Flate2View),
    Uncompressed(UncompressedView),
}

impl View for CompressedSlots {
    type V = CompressedSlotsView;

    open spec fn view(&self) -> CompressedSlotsView {
        match self {
            CompressedSlots::Flate2(f) => CompressedSlotsView::Flate2(f@),
            CompressedSlots::Uncompressed(u) => CompressedSlotsView::Uncompressed(u@),
        }
    }
}

impl CompressedSlotsView {
    pub open spec fn first_slot(self) -> u64 {
        match self {
            CompressedSlotsView::Flate2(f) => f.first_slot,
            CompressedSlotsView::Uncompressed(u) => u.first_slot,
        }
    }

    pub open spec fn num_slots(self) -> usize {
        match self {
            CompressedSlotsView::Flate2(f) => f.num,
            CompressedSlotsView::Uncompressed(u) => u.num,
        }
    }

    /// Adding slots changes only uncompressed entries (see `add_spec`).
    pub open spec fn add_spec(self, slots: Seq<u64>) -> (CompressedSlotsView, nat) {
        match self {
            CompressedSlotsView::Flate2(f) => (self, 0),
            CompressedSlotsView::Uncompressed(u) => {
                let r = add_spec(u, slots);
                (CompressedSlotsView::Uncompressed(r.0), r.1)
            },
        }
    }

    /// Slots can be added to it without overflowing a `usize`.
    pub open spec fn addable(self) -> bool {
        self matches CompressedSlotsView::Uncompressed(u) ==> u.bits.len() <= usize::MAX
    }

    /// What `to_slots(min_slot)` may be asked of it without an overflow.
    pub open spec fn to_slots_fit(self, min_slot: u64) -> bool {
        match self {
            CompressedSlotsView::Flate2(f) => f.first_slot + f.num <= u64::MAX + 1 && f.num + 4
                <= usize::MAX,
            CompressedSlotsView::Uncompressed(u) => slots_fit(u, min_slot),
        }
    }

    /// The number of bytes that `bincode` writes for the entry: the variant
    /// tag, the first slot, the count, and the length-prefixed bytes or the
    /// bit-vector.
    pub open spec fn encoded_len(self) -> nat {
        match self {
            CompressedSlotsView::Flate2(f) => 28 + f.compressed.len(),
            CompressedSlotsView::Uncompressed(u) => 20 + u.encoded_bits,
        }
    }

    pub open spec fn sanitized(self) -> Result<(), SanitizeError> {
        match self {
            CompressedSlotsView::Flate2(f) => flate2_sanitized(f),
            CompressedSlotsView::Uncompressed(u) => uncompressed_sanitized(u),
        }
    }
}

/// `s` is strictly increasing and lies in `lo .. hi`.
pub open spec fn increasing_within(s: Seq<u64>, lo: int, hi: int) -> bool {
    &&& forall|i: int, j: int| 0 <= i < j < s.len() ==> s[i] < s[j]
    &&& forall|i: int| 0 <= i < s.len() ==> lo <= #[trigger] s[i] < hi
}

/// The slots from bits `lo .. hi` are increasing and lie between the slots
/// of those bits.
pub proof fn lemma_set_slots_increasing(first_slot: u64, bits: Seq<bool>, lo: int, hi: int)
    requires
        0 <= lo,
        hi <= bits.len(),
        forall|i: int| lo <= i < hi && #[trigger] bits[i] ==> first_slot + i <= u64::MAX,
    ensures
        increasing_within(set_slots(first_slot, bits, lo, hi), first_slot + lo, first_slot + hi),
    decreases hi - lo,
{
    if hi > lo {
        lemma_set_slots_increasing(first_slot, bits, lo, hi - 1);
    }
}

impl Sanitize for CompressedSlots {
    open spec fn sanitized(&self) -> Result<(), SanitizeError> {
        self@.sanitized()
    }

    fn sanitize(&self) -> (r: Result<(), SanitizeError>) {
        match self {
            CompressedSlots::Uncompressed(a) => a.sanitize(),
            CompressedSlots::Flate2(b) => b.sanitize(),
        }
    }
}

impl Default for CompressedSlots {
    fn default() -> (r: Self)
        ensures
            r@ matches CompressedSlotsView::Uncompressed(u) && u.first_slot == 0 && u.num == 0
                && u.bits.len() == 0 && u.blocks == 0 && u.encoded_bits == 9,
    {
        CompressedSlots::new(0)
    }
}

impl CompressedSlots {
    /// An empty uncompressed entry with room for `8 * max_size` slots.
    pub fn new(max_size: usize) -> (r: Self)
        requires
            8 * max_size + 7 <= u64::MAX,
        ensures
            r@ matches CompressedSlotsView::Uncompressed(u) && u.first_slot == 0 && u.num == 0
                && u.bits == Seq::new(8 * max_size as nat, |i: int| false) && u.blocks == max_size
                && u.encoded_bits == fresh_encoded_len(max_size as nat),
    {
        CompressedSlots::Uncompressed(Uncompressed::new(max_size))
    }

    pub fn first_slot(&self) -> (r: u64)
        ensures
            r == self@.first_slot(),
    {
        match self {
            CompressedSlots::Uncompressed(a) => a.first_slot,
            CompressedSlots::Flate2(b) => b.first_slot,
        }
    }

    pub fn num_slots(&self) -> (r: usize)
        ensures
            r == self@.num_slots(),
    {
        match self {
            CompressedSlots::Uncompressed(a) => a.num,
            CompressedSlots::Flate2(b) => b.num,
        }
    }

    /// Adds slots to an uncompressed entry; a compressed one takes none.
    pub fn add(&mut self, slots: &[u64]) -> (r: usize)
        requires
            old(self)@.addable(),
        ensures
            (final(self)@, r as nat) == old(self)@.add_spec(slots@),
    {
        match self {
            CompressedSlots::Uncompressed(vals) => vals.add(slots),
            CompressedSlots::Flate2(_) => 0,
        }
    }

    /// The recorded slots from `min_slot` on: exactly those of an
    /// uncompressed entry; for a compressed one, increasing slots within the
    /// entry's range, or the decompression error.
    pub fn to_slots(&self, min_slot: u64) -> (r: Result<Vec<u64>, Error>)
        requires
            self@.to_slots_fit(min_slot),
        ensures
            self@ matches CompressedSlotsView::Uncompressed(u) ==> r matches Ok(v) && v@
                == to_slots_spec(u, min_slot),
            self@ matches CompressedSlotsView::Flate2(f) ==> match r {
                Ok(v) => increasing_within(v@, f.first_slot as int, f.first_slot + f.num),
                Err(e) => e == Error::DecompressError,
            },
            self@ matches CompressedSlotsView::Flate2(f) ==> forall|blocks: Seq<u8>|
                #[trigger] deflated(blocks) == f.compressed && f.num <= 8 * blocks.len() < 0x1_0000_0000_0000_0000
                ==> (r matches Ok(v) && v@ == flate2_slots(f, blocks, min_slot)),
            min_slot < self@.first_slot() + self@.num_slots() ==> (r matches Ok(v) ==> forall|k: int|
                0 <= k < v@.len() ==> min_slot <= #[trigger] v@[k]),
    {
        match self {
            CompressedSlots::Uncompressed(vals) => {
                let r = vals.to_slots(min_slot);
                proof {
                    let u = vals@;
                    if start_bit(u.first_slot, min_slot) < end_bit(u) {
                        lemma_set_slots_increasing(u.first_slot, u.bits, start_bit(u.first_slot, min_slot), end_bit(u));
                    }
                }
                Ok(r)
            },
            CompressedSlots::Flate2(vals) => {
                let unc = match vals.inflate() {
                    Ok(unc) => unc,
                    Err(e) => {
                        return Err(e);
                    },
                };
                let ghost u = unc@;
                let r = unc.to_slots(min_slot);
                proof {
                    lemma_set_slots_increasing(
                        u.first_slot,
                        u.bits,
                        start_bit(u.first_slot, min_slot),
                        end_bit(u),
                    );
                    if start_bit(u.first_slot, min_slot) < 0 {
                        assert(false);
                    }
                    assert forall|blocks: Seq<u8>| #[trigger] deflated(blocks) == vals@.compressed && vals.num <= 8 * blocks.len()
                        < 0x1_0000_0000_0000_0000 implies r@ == flate2_slots(vals@, blocks, min_slot) by {
                        assert(u.bits.len() >= u.num);
                        assert(end_bit(u) == u.num);
                        lemma_set_slots_agree(u.first_slot, u.bits, bytes_bits(blocks), start_bit(u.first_slot, min_slot), u.num as int);
                    }
                }
                Ok(r)
            },
        }
    }

    /// Compresses an uncompressed entry in place; a compressed one is left
    /// as it is. On an error the entry is left as it is. It succeeds when the
    /// entry is compressible (see [`compressible`]).
    pub fn deflate(&mut self) -> (r: Result<(), Error>)
        requires
            old(self)@.num_slots() + 4 <= usize::MAX,
        ensures
            compressible(old(self)@) ==> r is Ok,
            r is Ok ==> final(self)@ is Flate2,
            old(self)@ matches CompressedSlotsView::Uncompressed(u) ==> (r is Ok ==> (final(self)@ matches CompressedSlotsView::Flate2(f)
                && exists|blocks: Seq<u8>| #[trigger] holds_bits(blocks, u.bits) && f.compressed == deflated(blocks))),
            r is Err ==> final(self)@ == old(self)@,
            old(self)@ is Flate2 ==> final(self)@ == old(self)@ && r is Ok,
            final(self)@.first_slot() == old(self)@.first_slot(),
            final(self)@.num_slots() == old(self)@.num_slots(),
    {
        let unc = match &*self {
            CompressedSlots::Uncompressed(vals) => vals.clone(),
            CompressedSlots::Flate2(_) => {
                return Ok(());
            },
        };
        match Flate2::deflate(unc) {
            Ok(compressed) => {
                *self = CompressedSlots::Flate2(compressed);
                Ok(())
            },
            Err(e) => Err(e),
        }
    }
}

/// Bounds on an entry under which slots can be added and it can be
/// compressed without overflowing a `usize`.
pub open spec fn workable(e: CompressedSlotsView) -> bool {
    &&& e.num_slots() + 4 <= usize::MAX
    &&& e matches CompressedSlotsView::Uncompressed(u) ==> u.bits.len() + 8 <= usize::MAX && u.num <= u.bits.len()
}

/// Adding slots to one entry takes at most all of them, and keeps the
/// bit-vector and the bounds of `workable`.
pub proof fn lemma_add_spec_bounds(u: UncompressedView, slots: Seq<u64>)
    ensures
        add_spec(u, slots).1 <= slots.len(),
        add_spec(u, slots).0.bits.len() == u.bits.len(),
        add_spec(u, slots).0.blocks == u.blocks,
        add_spec(u, slots).0.encoded_bits == u.encoded_bits,
        add_spec(u, slots).0.num <= u.num || add_spec(u, slots).0.num <= u.bits.len(),
    decreases slots.len(),
{
    if slots.len() > 0 {
        let s = slots[0];
        let first = if u.num == 0 { s } else { u.first_slot };
        if !(u.num >= MAX_SLOTS_PER_ENTRY || s < first || s - first >= u.bits.len()) {
            let off = (s - first) as int;
            let num = if u.num >= 1 + off { u.num } else { (1 + off) as usize };
            let u2 = UncompressedView { first_slot: first, num: num, bits: u.bits.update(off, true), ..u };
            lemma_add_spec_bounds(u2, slots.drop_first());
        }
    }
}

/// The slots of all entries, as `EpochSlots::add` offers them: each entry in
/// turn takes what it can of the slots not yet taken, and the walk stops once
/// all slots are taken.
pub open spec fn entries_add(entries: Seq<CompressedSlotsView>, slots: Seq<u64>, k: int, num: nat) -> (Seq<CompressedSlotsView>, nat)
    decreases entries.len() - k,
{
    if k >= entries.len() || k < 0 || (k > 0 && num >= slots.len()) {
        (entries, num)
    } else {
        let r = entries[k].add_spec(slots.skip(num as int));
        entries_add(entries.update(k, r.0), slots, k + 1, num + r.1)
    }
}

/// Walking the entries keeps their number, their kinds, first slots of
/// compressed entries, and the bounds of `workable`, and takes no more slots
/// than there are.
pub proof fn lemma_entries_add(entries: Seq<CompressedSlotsView>, slots: Seq<u64>, k: int, num: nat)
    requires
        num <= slots.len(),
        forall|j: int| 0 <= j < entries.len() ==> workable(#[trigger] entries[j]),
    ensures
        entries_add(entries, slots, k, num).0.len() == entries.len(),
        num <= entries_add(entries, slots, k, num).1 <= slots.len(),
        forall|j: int| 0 <= j < entries.len() ==> workable(#[trigger] entries_add(entries, slots, k, num).0[j]),
        forall|j: int| 0 <= j < entries.len() ==> (#[trigger] entries_add(entries, slots, k, num).0[j] is Flate2 <==> entries[j] is Flate2),
        forall|j: int| 0 <= j < entries.len() && entries[j] is Flate2 ==> #[trigger] entries_add(entries, slots, k, num).0[j] == entries[j],
    decreases entries.len() - k,
{
    if !(k >= entries.len() || k < 0 || (k > 0 && num >= slots.len())) {
        let r = entries[k].add_spec(slots.skip(num as int));
        if let CompressedSlotsView::Uncompressed(u) = entries[k] {
            lemma_add_spec_bounds(u, slots.skip(num as int));
        }
        lemma_entries_add(entries.update(k, r.0), slots, k + 1, num + r.1);
    }
}

/// When all entries from `k` on but the last are compressed and the last is
/// empty with room for a slot, the walk takes at least one more slot.
pub proof fn lemma_entries_add_progress(entries: Seq<CompressedSlotsView>, slots: Seq<u64>, k: int, num: nat)
    requires
        0 <= k < entries.len(),
        num < slots.len(),
        forall|j: int| k <= j < entries.len() - 1 ==> #[trigger] entries[j] is Flate2,
        entries.last() matches CompressedSlotsView::Uncompressed(u) && u.num == 0 && u.bits.len() > 0,
    ensures
        entries_add(entries, slots, k, num).1 > num,
    decreases entries.len() - k,
{
    if k < entries.len() - 1 {
        assert(entries.update(k, entries[k]) =~= entries);
        lemma_entries_add_progress(entries, slots, k + 1, num);
        let r = entries[k].add_spec(slots.skip(num as int));
        assert(r == (entries[k], 0nat));
        assert(entries_add(entries, slots, k, num) == entries_add(entries, slots, k + 1, num));
    } else {
        let r = entries[k].add_spec(slots.skip(num as int));
        assert(slots.skip(num as int).len() > 0);
        assert(r.1 >= 1);
        assert(entries_add(entries, slots, k, num) == entries_add(entries.update(k, r.0), slots, k + 1, num + r.1));
    }
}

/// The number of bytes that `bincode` writes for a list of entries, less
/// the length prefix.
pub open spec fn entries_encoded(entries: Seq<CompressedSlotsView>) -> nat
    decreases entries.len(),
{
    if entries.len() == 0 {
        0
    } else {
        entries_encoded(entries.drop_last()) + entries.last().encoded_len()
    }
}

/// Entry `n` is entry `o`, or `o` compressed: the first slot and the count
/// are kept, a compressed entry stays as it is, and an uncompressed one
/// becomes the compression of blocks that hold its bits.
pub open spec fn deflated_from(n: CompressedSlotsView, o: CompressedSlotsView) -> bool {
    &&& n.first_slot() == o.first_slot()
    &&& n.num_slots() == o.num_slots()
    &&& (n == o || n is Flate2)
    &&& (o is Flate2 ==> n == o)
    &&& compressed_bits(n, o)
}

/// When `o` is uncompressed and `n` compressed, `n`'s stream is the
/// compression of blocks that hold `o`'s bits.
pub open spec fn compressed_bits(n: CompressedSlotsView, o: CompressedSlotsView) -> bool {
    match (o, n) {
        (CompressedSlotsView::Uncompressed(u), CompressedSlotsView::Flate2(f)) => exists|blocks: Seq<u8>|
            #[trigger] holds_bits(blocks, u.bits) && f.compressed == deflated(blocks),
        _ => true,
    }
}

/// Whether the uncompressed entry `u` records slot `s`: its bit is set,
/// within the count.
pub open spec fn unc_records(u: UncompressedView, s: u64) -> bool {
    &&& u.first_slot <= s
    &&& s - u.first_slot < u.num
    &&& s - u.first_slot < u.bits.len()
    &&& u.bits[s - u.first_slot]
}

/// Whether entry `e` records slot `s`: an uncompressed entry has its bit
/// set within its count; a compressed entry's stream is the compression of
/// blocks that have it set within the count.
pub open spec fn records(e: CompressedSlotsView, s: u64) -> bool {
    match e {
        CompressedSlotsView::Uncompressed(u) => unc_records(u, s),
        CompressedSlotsView::Flate2(f) => {
            &&& f.first_slot <= s
            &&& s - f.first_slot < f.num
            &&& exists|blocks: Seq<u8>| {
                &&& #[trigger] deflated(blocks) == f.compressed
                &&& f.num <= 8 * blocks.len() < 0x1_0000_0000_0000_0000
                &&& bytes_bits(blocks)[s - f.first_slot]
            }
        },
    }
}

/// Whether some entry records slot `s`.
pub open spec fn recorded_in(entries: Seq<CompressedSlotsView>, s: u64) -> bool {
    exists|j: int| 0 <= j < entries.len() && #[trigger] records(entries[j], s)
}

/// What is filled in comes back: when the entries record the first `r` of
/// `slots` (as `EpochSlots::fill` leaves them), and `out` holds every
/// recorded slot at or above `min_slot` (as `EpochSlots::to_slots` yields
/// them), `out` holds each of those `r` slots that is at or above
/// `min_slot`.
pub proof fn law_filled_slots_come_back(entries: Seq<CompressedSlotsView>, slots: Seq<u64>, r: nat, min_slot: u64, out: Seq<u64>)
    requires
        r <= slots.len(),
        forall|j: int| 0 <= j < r ==> #[trigger] recorded_in(entries, slots[j]),
        forall|s: u64| min_slot <= s && #[trigger] recorded_in(entries, s) ==> out.contains(s),
    ensures
        forall|j: int| 0 <= j < r && min_slot <= slots[j] ==> out.contains(#[trigger] slots[j]),
{
    assert forall|j: int| 0 <= j < r && min_slot <= slots[j] implies out.contains(#[trigger] slots[j]) by {
        assert(recorded_in(entries, slots[j]));
    }
}

/// Compressing an entry keeps what it records.
pub proof fn lemma_deflated_records(n: CompressedSlotsView, o: CompressedSlotsView, s: u64)
    requires
        deflated_from(n, o),
        workable(o),
        records(o, s),
    ensures
        records(n, s),
{
    if n != o {
        if let CompressedSlotsView::Uncompressed(u) = o {
            if let CompressedSlotsView::Flate2(f) = n {
                let blocks = choose|blocks: Seq<u8>| #[trigger] holds_bits(blocks, u.bits) && f.compressed == deflated(blocks);
                let i = s - u.first_slot;
                let len = u.bits.len();
                assert(len <= 8 * ((len + 7) / 8) <= len + 7) by (nonlinear_arith);
                assert(0 <= i < len);
                assert(0 <= i / 8 < blocks.len()) by (nonlinear_arith)
                    requires
                        0 <= i < len,
                        len <= 8 * blocks.len(),
                ;
                assert(u.bits[i] == byte_bit(blocks[i / 8], i % 8));
                assert(bytes_bits(blocks)[i] == byte_bit(blocks[i / 8], i % 8));
                assert(deflated(blocks) == f.compressed);
                assert(8 * blocks.len() < 0x1_0000_0000_0000_0000);
                assert(f.num <= 8 * blocks.len());
            }
        }
    }
}

/// Adding slots to an entry keeps what it recorded, and records each slot
/// it takes.
pub proof fn lemma_add_records(u: UncompressedView, slots: Seq<u64>)
    requires
        u.num <= u.bits.len(),
        u.bits.len() <= usize::MAX,
    ensures
        forall|s: u64| unc_records(u, s) ==> #[trigger] unc_records(add_spec(u, slots).0, s),
        forall|j: int| 0 <= j < add_spec(u, slots).1 ==> unc_records(add_spec(u, slots).0, #[trigger] slots[j]),
    decreases slots.len(),
{
    if slots.len() > 0 {
        let s0 = slots[0];
        let first = if u.num == 0 { s0 } else { u.first_slot };
        if !(u.num >= MAX_SLOTS_PER_ENTRY || s0 < first || s0 - first >= u.bits.len()) {
            let off = (s0 - first) as int;
            let num = if u.num >= 1 + off { u.num } else { (1 + off) as usize };
            let u2 = UncompressedView { first_slot: first, num: num, bits: u.bits.update(off, true), ..u };
            let rest = slots.drop_first();
            lemma_add_records(u2, rest);
            lemma_add_spec_bounds(u2, rest);
            let r = add_spec(u2, rest);
            assert(add_spec(u, slots) == (r.0, r.1 + 1));
            assert(u2.bits[off]);
            assert(unc_records(u2, s0));
            assert forall|s: u64| unc_records(u, s) implies #[trigger] unc_records(u2, s) by {
                assert(u.num > 0);
                assert(u2.bits[s - first] == u.bits[s - first] || s - first == off);
            }
            assert forall|j: int| 0 <= j < add_spec(u, slots).1 implies unc_records(add_spec(u, slots).0, #[trigger] slots[j]) by {
                if j > 0 {
                    assert(slots[j] == rest[j - 1]);
                    assert(unc_records(r.0, rest[j - 1]));
                } else {
                    assert(unc_records(r.0, s0));
                }
            }
        }
    }
}

/// No bit is set at or beyond the count, as in an entry made empty and
/// filled only by adding slots.
pub open spec fn clear_beyond_count(u: UncompressedView) -> bool {
    forall|i: int| u.num <= i < u.bits.len() ==> !#[trigger] u.bits[i]
}

/// Adding slots to an uncompressed entry (see `add_spec`) takes a prefix of
/// them, `n`: it records exactly what it recorded before and those `n`
/// slots; it stops before slot `n` only because that slot precedes the
/// entry's first slot, lies beyond its bits, or the entry is full; an empty
/// entry starts at the first slot offered, and takes it if it has bits;
/// and nothing is set beyond the count afterwards either.
pub proof fn law_uncompressed_add(u: UncompressedView, slots: Seq<u64>)
    requires
        u.num <= u.bits.len(),
        u.bits.len() <= usize::MAX,
        clear_beyond_count(u),
    ensures
        ({
            let (u2, n) = add_spec(u, slots);
            &&& n <= slots.len()
            &&& u2.bits.len() == u.bits.len()
            &&& u2.num <= u2.bits.len()
            &&& clear_beyond_count(u2)
            &&& forall|s: u64| #[trigger] unc_records(u2, s) <==> (unc_records(u, s) || exists|j: int| 0 <= j < n && slots[j] == s)
            &&& (n < slots.len() ==> (slots[n as int] < u2.first_slot || slots[n as int] - u2.first_slot >= u2.bits.len()
                || u2.num >= MAX_SLOTS_PER_ENTRY))
            &&& (u.num == 0 && slots.len() > 0 ==> u2.first_slot == slots[0])
            &&& (u.num == 0 && slots.len() > 0 && u.bits.len() > 0 ==> n >= 1)
            &&& (u.num > 0 ==> u2.first_slot == u.first_slot)
        }),
    decreases slots.len(),
{
    if slots.len() > 0 {
        let s0 = slots[0];
        let first = if u.num == 0 { s0 } else { u.first_slot };
        let u1 = UncompressedView { first_slot: first, ..u };
        if u.num >= MAX_SLOTS_PER_ENTRY || s0 < first || s0 - first >= u.bits.len() {
            assert forall|s: u64| #[trigger] unc_records(u1, s) <==> unc_records(u, s) by {}
        } else {
            let off = (s0 - first) as int;
            let num = if u.num >= 1 + off { u.num } else { (1 + off) as usize };
            let u2 = UncompressedView { first_slot: first, num: num, bits: u.bits.update(off, true), ..u };
            let rest = slots.drop_first();
            law_uncompressed_add(u2, rest);
            let r = add_spec(u2, rest);
            assert(add_spec(u, slots) == (r.0, r.1 + 1));
            assert forall|s: u64| #[trigger] unc_records(u2, s) <==> (unc_records(u, s) || s == s0) by {
                if unc_records(u2, s) && s != s0 {
                    assert(u.num > 0);
                }
                if unc_records(u, s) {
                    assert(u.num > 0);
                }
            }
            assert forall|s: u64| #[trigger] unc_records(r.0, s) <==> (unc_records(u, s) || exists|j: int| 0 <= j < r.1 + 1 && slots[j] == s) by {
                if exists|j: int| 0 <= j < r.1 + 1 && slots[j] == s {
                    let j = choose|j: int| 0 <= j < r.1 + 1 && slots[j] == s;
                    if j > 0 {
                        assert(rest[j - 1] == slots[j]);
                    }
                }
                if exists|j: int| 0 <= j < r.1 && rest[j] == s {
                    let j = choose|j: int| 0 <= j < r.1 && rest[j] == s;
                    assert(slots[j + 1] == rest[j]);
                }
            }
            if r.1 < rest.len() {
                assert(slots[r.1 + 1 as int] == rest[r.1 as int]);
            }
        }
    }
}

/// Walking the entries keeps what each recorded, and each slot taken is
/// recorded by some entry.
pub proof fn lemma_entries_add_records(entries: Seq<CompressedSlotsView>, slots: Seq<u64>, k: int, num: nat)
    requires
        0 <= k,
        num <= slots.len(),
        forall|j: int| 0 <= j < entries.len() ==> workable(#[trigger] entries[j]),
    ensures
        forall|j: int, s: u64| 0 <= j < entries.len() && records(entries[j], s) ==> #[trigger] records(
            entries_add(entries, slots, k, num).0[j],
            s,
        ),
        forall|q: int| num <= q < entries_add(entries, slots, k, num).1 ==> #[trigger] recorded_in(
            entries_add(entries, slots, k, num).0,
            slots[q],
        ),
    decreases entries.len() - k,
{
    lemma_entries_add(entries, slots, k, num);
    if !(k >= entries.len() || (k > 0 && num >= slots.len())) {
        let rest = slots.skip(num as int);
        let r = entries[k].add_spec(rest);
        let e2 = entries.update(k, r.0);
        if let CompressedSlotsView::Uncompressed(u) = entries[k] {
            assert(workable(entries[k]));
            lemma_add_spec_bounds(u, rest);
            lemma_add_records(u, rest);
        }
        assert forall|j: int| 0 <= j < e2.len() implies workable(#[trigger] e2[j]) by {
            if j == k {
                if let CompressedSlotsView::Uncompressed(u) = entries[k] {
                    lemma_add_spec_bounds(u, rest);
                }
            }
        }
        lemma_entries_add_records(e2, slots, k + 1, num + r.1);
        let fin = entries_add(entries, slots, k, num);
        assert(fin == entries_add(e2, slots, k + 1, num + r.1));
        assert forall|j: int, s: u64| 0 <= j < entries.len() && records(entries[j], s) implies #[trigger] records(fin.0[j], s) by {
            if j == k {
                if let CompressedSlotsView::Uncompressed(u) = entries[k] {
                    assert(unc_records(u, s));
                    assert(unc_records(add_spec(u, rest).0, s));
                }
                assert(records(e2[j], s));
            } else {
                assert(e2[j] == entries[j]);
            }
        }
        assert forall|q: int| num <= q < fin.1 implies #[trigger] recorded_in(fin.0, slots[q]) by {
            if q < num + r.1 {
                if let CompressedSlotsView::Uncompressed(u) = entries[k] {
                    assert(r == (CompressedSlotsView::Uncompressed(add_spec(u, rest).0), add_spec(u, rest).1));
                    assert(rest[q - num] == slots[q]);
                    assert(unc_records(add_spec(u, rest).0, rest[q - num]));
                    assert(records(e2[k], slots[q]));
                    assert(records(fin.0[k], slots[q]));
                } else {
                    assert(r.1 == 0);
                }
            } else {
                let ih = entries_add(e2, slots, k + 1, num + r.1);
                assert(num + r.1 <= q < ih.1);
                assert(recorded_in(ih.0, slots[q]));
            }
        }
    } else {
        assert(entries_add(entries, slots, k, num) == (entries, num));
    }
}

/// A slot recorded by an entry, at or above `min_slot`, is in that entry's
/// part of what `to_slots(min_slot)` yields.
pub proof fn lemma_recorded_in_part(e: CompressedSlotsView, min_slot: u64, part: Seq<u64>, s: u64)
    requires
        records(e, s),
        min_slot <= s,
        entry_part(e, min_slot, part),
    ensures
        part.contains(s),
{
    match e {
        CompressedSlotsView::Uncompressed(u) => {
            lemma_set_slots_contains(u.first_slot, u.bits, start_bit(u.first_slot, min_slot), end_bit(u), s - u.first_slot);
        },
        CompressedSlotsView::Flate2(f) => {
            let blocks = choose|blocks: Seq<u8>| {
                &&& #[trigger] deflated(blocks) == f.compressed
                &&& f.num <= 8 * blocks.len() < 0x1_0000_0000_0000_0000
                &&& bytes_bits(blocks)[s - f.first_slot]
            };
            lemma_set_slots_contains(f.first_slot, bytes_bits(blocks), start_bit(f.first_slot, min_slot), f.num as int, s - f.first_slot);
        },
    }
}

/// The slot of a set bit among bits `lo .. hi` is among their slots.
pub proof fn lemma_set_slots_contains(first_slot: u64, bits: Seq<bool>, lo: int, hi: int, i: int)
    requires
        lo <= i < hi,
        bits[i],
        first_slot + i <= u64::MAX,
    ensures
        set_slots(first_slot, bits, lo, hi).contains((first_slot + i) as u64),
    decreases hi - lo,
{
    if i < hi - 1 {
        lemma_set_slots_contains(first_slot, bits, lo, hi - 1, i);
        let a = set_slots(first_slot, bits, lo, hi - 1);
        let k = choose|k: int| 0 <= k < a.len() && a[k] == (first_slot + i) as u64;
        let b = if bits[hi - 1] { seq![(first_slot + hi - 1) as u64] } else { Seq::<u64>::empty() };
        assert((a + b)[k] == a[k]);
    } else {
        let a = set_slots(first_slot, bits, lo, hi - 1);
        let b = seq![(first_slot + hi - 1) as u64];
        assert((a + b)[a.len() as int] == (first_slot + i) as u64);
    }
}

/// A value of one of the parts is in their concatenation.
pub proof fn lemma_flatten_contains(parts: Seq<Seq<u64>>, k: int, s: u64)
    requires
        0 <= k < parts.len(),
        parts[k].contains(s),
    ensures
        parts.flatten().contains(s),
    decreases parts.len(),
{
    parts.drop_last().lemma_flatten_push(parts.last());
    assert(parts.drop_last().push(parts.last()) =~= parts);
    let a = parts.drop_last().flatten();
    let b = parts.last();
    if k == parts.len() - 1 {
        let q = choose|q: int| 0 <= q < b.len() && b[q] == s;
        assert((a + b)[a.len() + q] == s);
    } else {
        lemma_flatten_contains(parts.drop_last(), k, s);
        let q = choose|q: int| 0 <= q < a.len() && a[q] == s;
        assert((a + b)[q] == s);
    }
}

/// Every slot among bits `lo .. hi` comes from a set bit among them.
pub proof fn lemma_set_slots_member(first_slot: u64, bits: Seq<bool>, lo: int, hi: int, k: int)
    requires
        0 <= k < set_slots(first_slot, bits, lo, hi).len(),
    ensures
        exists|i: int| lo <= i < hi && #[trigger] bits[i] && set_slots(first_slot, bits, lo, hi)[k] == (first_slot + i) as u64,
    decreases hi - lo,
{
    let a = set_slots(first_slot, bits, lo, hi - 1);
    let b = if bits[hi - 1] { seq![(first_slot + hi - 1) as u64] } else { Seq::<u64>::empty() };
    assert(set_slots(first_slot, bits, lo, hi) == a + b);
    if k < a.len() {
        lemma_set_slots_member(first_slot, bits, lo, hi - 1, k);
        let i = choose|i: int| lo <= i < hi - 1 && #[trigger] bits[i] && a[k] == (first_slot + i) as u64;
        assert((a + b)[k] == a[k]);
    } else {
        assert((a + b)[k] == b[k - a.len()]);
        assert(bits[hi - 1]);
    }
}

/// A value of the concatenation of the parts is in one of them.
pub proof fn lemma_flatten_member(parts: Seq<Seq<u64>>, s: u64)
    requires
        parts.flatten().contains(s),
    ensures
        exists|j: int| 0 <= j < parts.len() && #[trigger] parts[j].contains(s),
    decreases parts.len(),
{
    if parts.len() == 0 {
        assert(parts.flatten() =~= Seq::<u64>::empty());
    } else {
        parts.drop_last().lemma_flatten_push(parts.last());
        assert(parts.drop_last().push(parts.last()) =~= parts);
        let a = parts.drop_last().flatten();
        let b = parts.last();
        let q = choose|q: int| 0 <= q < (a + b).len() && (a + b)[q] == s;
        if q < a.len() {
            assert(a[q] == s);
            lemma_flatten_member(parts.drop_last(), s);
            let j = choose|j: int| 0 <= j < parts.drop_last().len() && #[trigger] parts.drop_last()[j].contains(s);
            assert(parts[j] == parts.drop_last()[j]);
        } else {
            assert(b[q - a.len()] == s);
            assert(parts[parts.len() - 1].contains(s));
        }
    }
}

/// Whether what entry `e` holds is known: an uncompressed entry always; a
/// compressed one when its stream is the compression of some blocks that
/// can hold its count.
pub open spec fn stream_known(e: CompressedSlotsView) -> bool {
    e matches CompressedSlotsView::Flate2(f) ==> exists|blocks: Seq<u8>|
        #[trigger] deflated(blocks) == f.compressed && f.num <= 8 * blocks.len() < 0x1_0000_0000_0000_0000
}

/// Slot `s` may have been read from entry `e`: it lies within the entry's
/// range, and the entry records it when what it holds is known.
pub open spec fn taken_from(e: CompressedSlotsView, s: u64) -> bool {
    &&& e.first_slot() <= s
    &&& s < e.first_slot() + e.num_slots()
    &&& stream_known(e) ==> records(e, s)
}

/// What `EpochSlots::to_slots(min_slot)` takes from an entry (see
/// `entry_part`) is at or above `min_slot` and taken from that entry.
pub proof fn lemma_entry_part_members(e: CompressedSlotsView, min_slot: u64, part: Seq<u64>)
    requires
        entry_part(e, min_slot, part),
        e.to_slots_fit(min_slot),
        e.first_slot() + e.num_slots() <= u64::MAX,
    ensures
        forall|s: u64| #[trigger] part.contains(s) ==> min_slot <= s && taken_from(e, s),
{
    assert forall|s: u64| #[trigger] part.contains(s) implies min_slot <= s && taken_from(e, s) by {
        let k = choose|k: int| 0 <= k < part.len() && part[k] == s;
        match e {
            CompressedSlotsView::Uncompressed(u) => {
                let lo = start_bit(u.first_slot, min_slot);
                lemma_set_slots_member(u.first_slot, u.bits, lo, end_bit(u), k);
                let i = choose|i: int| lo <= i < end_bit(u) && #[trigger] u.bits[i] && part[k] == (u.first_slot + i) as u64;
                assert(u.first_slot + i <= u64::MAX);
                assert(unc_records(u, s));
            },
            CompressedSlotsView::Flate2(f) => {
                assert(min_slot <= part[k]);
                assert(increasing_within(part, f.first_slot as int, f.first_slot + f.num));
                if stream_known(e) {
                    let blocks = choose|blocks: Seq<u8>|
                        #[trigger] deflated(blocks) == f.compressed && f.num <= 8 * blocks.len() < 0x1_0000_0000_0000_0000;
                    assert(part == flate2_slots(f, blocks, min_slot));
                    let lo = start_bit(f.first_slot, min_slot);
                    lemma_set_slots_member(f.first_slot, bytes_bits(blocks), lo, f.num as int, k);
                    let i = choose|i: int| lo <= i < f.num && #[trigger] bytes_bits(blocks)[i] && part[k] == (f.first_slot + i) as u64;
                    assert(s - f.first_slot == i);
                    assert(bytes_bits(blocks)[s - f.first_slot]);
                    assert(records(e, s));
                }
            },
        }
    }
}

/// The smallest first slot of the entries, if there are any.
pub open spec fn min_first_slot(entries: Seq<CompressedSlotsView>) -> Option<u64>
    decreases entries.len(),
{
    if entries.len() == 0 {
        None
    } else {
        match min_first_slot(entries.drop_last()) {
            None => Some(entries.last().first_slot()),
            Some(m) => Some(if entries.last().first_slot() < m { entries.last().first_slot() } else { m }),
        }
    }
}

/// `part` is what `EpochSlots::to_slots(min_slot)` takes from entry `e`:
/// nothing when the entry ends at or before `min_slot`; else the slots of an
/// uncompressed entry, and, for a compressed one, nothing (when it fails to
/// decompress) or increasing slots within the entry's range.
pub open spec fn entry_part(e: CompressedSlotsView, min_slot: u64, part: Seq<u64>) -> bool {
    if !(min_slot < e.first_slot() + e.num_slots()) {
        part.len() == 0
    } else {
        match e {
            CompressedSlotsView::Uncompressed(u) => part == to_slots_spec(u, min_slot),
            CompressedSlotsView::Flate2(f) => {
                &&& (part.len() == 0 || increasing_within(part, f.first_slot as int, f.first_slot + f.num))
                &&& forall|k: int| 0 <= k < part.len() ==> min_slot <= #[trigger] part[k]
                &&& forall|blocks: Seq<u8>| #[trigger] deflated(blocks) == f.compressed && f.num <= 8 * blocks.len()
                    < 0x1_0000_0000_0000_0000 ==> part == flate2_slots(f, blocks, min_slot)
            },
        }
    }
}

impl CompressedSlots {
    /// The number of bytes that `bincode` writes for the entry, saturated at
    /// `u64::MAX`.
    pub fn encoded_len(&self) -> (r: u64)
        ensures
            r == if self@.encoded_len() <= u64::MAX { self@.encoded_len() } else { u64::MAX as nat },
    {
        match self {
            CompressedSlots::Flate2(f) => (f.compressed.len() as u64).saturating_add(28),
            CompressedSlots::Uncompressed(u) => bitvec_serialized_size(&u.slots).saturating_add(20),
        }
    }
}

/// The slots that a node has completed, as it gossips them.
pub struct EpochSlots {
    pub from: Pubkey,
    pub slots: Vec<CompressedSlots>,
    pub wallclock: u64,
}

/// What an `EpochSlots` holds, as plain values.
pub struct EpochSlotsView {
    pub from: Pubkey,
    pub slots: Seq<CompressedSlotsView>,
    pub wallclock: u64,
}

impl View for EpochSlots {
    type V = EpochSlotsView;

    open spec fn view(&self) -> EpochSlotsView {
        EpochSlotsView {
            from: self.from,
            slots: self.slots@.map_values(|c: CompressedSlots| c@),
            wallclock: self.wallclock,
        }
    }
}

impl EpochSlotsView {
    /// The number of bytes that `bincode` writes for the value: the key, the
    /// length-prefixed entries and the wallclock.
    pub open spec fn encoded_len(self) -> nat {
        48 + entries_encoded(self.slots)
    }

    /// What `max_compressed_slot_size` gives: the room left in a gossip value
    /// for one more empty entry.
    pub open spec fn room(self) -> int {
        let room = MAX_CRDS_OBJECT_SIZE as int - (self.encoded_len() + 29);
        if room < isize::MIN { isize::MIN as int } else { room }
    }

    pub open spec fn sanitized(self) -> Result<(), SanitizeError> {
        if self.wallclock >= MAX_WALLCLOCK {
            Err(SanitizeError::ValueOutOfBounds)
        } else {
            entries_sanitized(self.slots)
        }
    }
}

/// What sanitizing the entries in turn gives: the first error, if any.
pub open spec fn entries_sanitized(entries: Seq<CompressedSlotsView>) -> Result<(), SanitizeError>
    decreases entries.len(),
{
    if entries.len() == 0 {
        Ok(())
    } else {
        match entries[0].sanitized() {
            Ok(()) => entries_sanitized(entries.drop_first()),
            Err(e) => Err(e),
        }
    }
}

impl Sanitize for EpochSlots {
    open spec fn sanitized(&self) -> Result<(), SanitizeError> {
        self@.sanitized()
    }

    fn sanitize(&self) -> (r: Result<(), SanitizeError>) {
        if self.wallclock >= MAX_WALLCLOCK {
            return Err(SanitizeError::ValueOutOfBounds);
        }
        let r = self.slots.sanitize();
        proof {
            lemma_entries_sanitized(self.slots@);
        }
        r
    }
}

/// Sanitizing the list of entries is sanitizing their views in turn.
pub proof fn lemma_entries_sanitized(entries: Seq<CompressedSlots>)
    ensures
        sanitize_all(entries) == entries_sanitized(entries.map_values(|c: CompressedSlots| c@)),
    decreases entries.len(),
{
    if entries.len() > 0 {
        assert(entries.map_values(|c: CompressedSlots| c@).drop_first() =~= entries.drop_first().map_values(
            |c: CompressedSlots| c@,
        ));
        lemma_entries_sanitized(entries.drop_first());
    }
}

impl Default for EpochSlots {
    fn default() -> (r: Self)
        ensures
            r@.from.is_zero(),
            r@.slots.len() == 0,
            r@.wallclock == 0,
    {
        EpochSlots { from: Pubkey::new_default(), slots: Vec::new(), wallclock: 0 }
    }
}

impl EpochSlots {
    /// No slots yet, from node `from` at time `now`.
    pub fn new(from: Pubkey, now: u64) -> (r: Self)
        ensures
            r@.from == from,
            r@.slots.len() == 0,
            r@.wallclock == now,
    {
        EpochSlots { from, wallclock: now, slots: Vec::new() }
    }

    /// Offers `slots` to the entries in turn (see `entries_add`); returns
    /// how many were taken.
    pub fn add(&mut self, slots: &[u64]) -> (r: usize)
        requires
            forall|j: int| 0 <= j < old(self)@.slots.len() ==> workable(#[trigger] old(self)@.slots[j]),
        ensures
            (final(self)@.slots, r as nat) == entries_add(old(self)@.slots, slots@, 0, 0),
            final(self)@.from == old(self)@.from,
            final(self)@.wallclock == old(self)@.wallclock,
    {
        let ghost start = self@.slots;
        let mut num: usize = 0;
        let mut k: usize = 0;
        proof {
            lemma_entries_add(start, slots@, 0, 0);
        }
        while k < self.slots.len() && (k == 0 || num < slots.len())
            invariant
                num <= slots.len(),
                k <= self.slots.len(),
                self@.slots.len() == start.len(),
                self@.from == old(self)@.from,
                self@.wallclock == old(self)@.wallclock,
                forall|j: int| 0 <= j < self@.slots.len() ==> workable(#[trigger] self@.slots[j]),
                entries_add(start, slots@, 0, 0) == entries_add(self@.slots, slots@, k as int, num as nat),
            decreases self.slots.len() - k,
        {
            let ghost before = self@.slots;
            proof {
                if let CompressedSlotsView::Uncompressed(u) = before[k as int] {
                    lemma_add_spec_bounds(u, slots@.skip(num as int));
                }
            }
            let rest = &slots[num..slots.len()];
            assert(rest@ =~= slots@.skip(num as int));
            let c = self.slots[k].add(rest);
            proof {
                assert(self@.slots =~= before.update(k as int, before[k as int].add_spec(slots@.skip(num as int)).0));
            }
            num = num + c;
            k = k + 1;
        }
        num
    }

    /// Compresses the entries in turn; stops at the first that fails. It
    /// succeeds when every entry is compressible (see [`compressible`]).
    pub fn deflate(&mut self) -> (r: Result<(), Error>)
        requires
            forall|j: int| 0 <= j < old(self)@.slots.len() ==> #[trigger] old(self)@.slots[j].num_slots() + 4 <= usize::MAX,
        ensures
            (forall|j: int| 0 <= j < old(self)@.slots.len() ==> #[trigger] compressible(old(self)@.slots[j])) ==> r is Ok,
            r is Err ==> exists|j: int| 0 <= j < final(self)@.slots.len() && #[trigger] final(self)@.slots[j] is Uncompressed
                && !compressible(old(self)@.slots[j]),
            final(self)@.slots.len() == old(self)@.slots.len(),
            final(self)@.from == old(self)@.from,
            final(self)@.wallclock == old(self)@.wallclock,
            r is Ok ==> forall|j: int| 0 <= j < final(self)@.slots.len() ==> #[trigger] final(self)@.slots[j] is Flate2,
            forall|j: int| 0 <= j < final(self)@.slots.len() ==> deflated_from(#[trigger] final(self)@.slots[j], old(self)@.slots[j]),
    {
        let mut k: usize = 0;
        while k < self.slots.len()
            invariant
                k <= self.slots.len(),
                self@.slots.len() == old(self)@.slots.len(),
                self@.from == old(self)@.from,
                self@.wallclock == old(self)@.wallclock,
                forall|j: int| 0 <= j < k ==> #[trigger] self@.slots[j] is Flate2,
                forall|j: int| 0 <= j < self@.slots.len() ==> deflated_from(#[trigger] self@.slots[j], old(self)@.slots[j]),
                forall|j: int| k <= j < self@.slots.len() ==> #[trigger] self@.slots[j] == old(self)@.slots[j],
                forall|j: int| 0 <= j < old(self)@.slots.len() ==> #[trigger] old(self)@.slots[j].num_slots() + 4 <= usize::MAX,
            decreases self.slots.len() - k,
        {
            let ghost before = self@.slots;
            assert(before[k as int] == old(self)@.slots[k as int]);
            assert(self.slots@[k as int]@ == before[k as int]);
            let ghost elem = self.slots@[k as int];
            let r = self.slots[k].deflate();
            proof {
                assert(self.slots@.len() == before.len());
                assert forall|j: int| 0 <= j < self@.slots.len() && j != k implies self@.slots[j] == before[j] by {
                    assert(self@.slots[j] == self.slots@[j]@);
                }
                assert(self@.slots[k as int] == self.slots@[k as int]@);
                assert(elem@ == before[k as int]);
                assert(deflated_from(self@.slots[k as int], before[k as int]));
                assert forall|j: int| 0 <= j < self@.slots.len() implies deflated_from(
                    #[trigger] self@.slots[j],
                    old(self)@.slots[j],
                ) by {
                    if j != k {
                        assert(self@.slots[j] == before[j]);
                        assert(deflated_from(before[j], old(self)@.slots[j]));
                    }
                }
            }
            if r.is_err() {
                proof {
                    assert(self@.slots[k as int] == before[k as int]);
                    assert(self@.slots[k as int] is Uncompressed);
                }
                return r;
            }
            assert forall|j: int| 0 <= j < k + 1 implies #[trigger] self@.slots[j] is Flate2 by {
                if j != k {
                    assert(self@.slots[j] == before[j]);
                }
            }
            assert forall|j: int| k + 1 <= j < self@.slots.len() implies #[trigger] self@.slots[j] == old(self)@.slots[j] by {
                assert(self@.slots[j] == before[j]);
            }
            k += 1;
        }
        Ok(())
    }

    /// The room left for one more empty entry in a gossip value, in bytes
    /// (see `EpochSlotsView::room`).
    pub fn max_compressed_slot_size(&self) -> (r: isize)
        ensures
            r == self@.room(),
    {
        let mut total: u64 = 48;
        let mut k: usize = 0;
        while k < self.slots.len()
            invariant
                k <= self.slots.len(),
                total == if 48 + entries_encoded(self@.slots.take(k as int)) <= u64::MAX {
                    48 + entries_encoded(self@.slots.take(k as int))
                } else {
                    u64::MAX as nat
                },
            decreases self.slots.len() - k,
        {
            let e = self.slots[k].encoded_len();
            assert(self@.slots.take(k + 1).drop_last() =~= self@.slots.take(k as int));
            total = total.saturating_add(e);
            k += 1;
        }
        assert(self@.slots.take(k as int) =~= self@.slots);
        let total = total.saturating_add(29);
        if total <= 928 {
            (928 - total) as isize
        } else {
            let d: u64 = total - 928;
            if d <= isize::MAX as u64 {
                -(d as isize)
            } else {
                isize::MIN
            }
        }
    }

    /// Every slot among bits `lo .. hi` comes from a set bit among them.
pub proof fn lemma_set_slots_member(first_slot: u64, bits: Seq<bool>, lo: int, hi: int, k: int)
    requires
        0 <= k < set_slots(first_slot, bits, lo, hi).len(),
    ensures
        exists|i: int| lo <= i < hi && #[trigger] bits[i] && set_slots(first_slot, bits, lo, hi)[k] == (first_slot + i) as u64,
    decreases hi - lo,
{
    let a = set_slots(first_slot, bits, lo, hi - 1);
    let b = if bits[hi - 1] { seq![(first_slot + hi - 1) as u64] } else { Seq::<u64>::empty() };
    assert(set_slots(first_slot, bits, lo, hi) == a + b);
    if k < a.len() {
        lemma_set_slots_member(first_slot, bits, lo, hi - 1, k);
        let i = choose|i: int| lo <= i < hi - 1 && #[trigger] bits[i] && a[k] == (first_slot + i) as u64;
        assert((a + b)[k] == a[k]);
    } else {
        assert((a + b)[k] == b[k - a.len()]);
        assert(bits[hi - 1]);
    }
}

/// A value of the concatenation of the parts is in one of them.
pub proof fn lemma_flatten_member(parts: Seq<Seq<u64>>, s: u64)
    requires
        parts.flatten().contains(s),
    ensures
        exists|j: int| 0 <= j < parts.len() && #[trigger] parts[j].contains(s),
    decreases parts.len(),
{
    if parts.len() == 0 {
        assert(parts.flatten() =~= Seq::<u64>::empty());
    } else {
        parts.drop_last().lemma_flatten_push(parts.last());
        assert(parts.drop_last().push(parts.last()) =~= parts);
        let a = parts.drop_last().flatten();
        let b = parts.last();
        let q = choose|q: int| 0 <= q < (a + b).len() && (a + b)[q] == s;
        if q < a.len() {
            assert(a[q] == s);
            lemma_flatten_member(parts.drop_last(), s);
            let j = choose|j: int| 0 <= j < parts.drop_last().len() && #[trigger] parts.drop_last()[j].contains(s);
            assert(parts[j] == parts.drop_last()[j]);
        } else {
            assert(b[q - a.len()] == s);
            assert(parts[parts.len() - 1].contains(s));
        }
    }
}

/// Whether what entry `e` holds is known: an uncompressed entry always; a
/// compressed one when its stream is the compression of some blocks that
/// can hold its count.
pub open spec fn stream_known(e: CompressedSlotsView) -> bool {
    e matches CompressedSlotsView::Flate2(f) ==> exists|blocks: Seq<u8>|
        #[trigger] deflated(blocks) == f.compressed && f.num <= 8 * blocks.len() < 0x1_0000_0000_0000_0000
}

/// Slot `s` may have been read from entry `e`: it lies within the entry's
/// range, and the entry records it when what it holds is known.
pub open spec fn taken_from(e: CompressedSlotsView, s: u64) -> bool {
    &&& e.first_slot() <= s
    &&& s < e.first_slot() + e.num_slots()
    &&& stream_known(e) ==> records(e, s)
}

/// What `EpochSlots::to_slots(min_slot)` takes from an entry (see
/// `entry_part`) is at or above `min_slot` and taken from that entry.
pub proof fn lemma_entry_part_members(e: CompressedSlotsView, min_slot: u64, part: Seq<u64>)
    requires
        entry_part(e, min_slot, part),
        e.to_slots_fit(min_slot),
        e.first_slot() + e.num_slots() <= u64::MAX,
    ensures
        forall|s: u64| #[trigger] part.contains(s) ==> min_slot <= s && taken_from(e, s),
{
    assert forall|s: u64| #[trigger] part.contains(s) implies min_slot <= s && taken_from(e, s) by {
        let k = choose|k: int| 0 <= k < part.len() && part[k] == s;
        match e {
            CompressedSlotsView::Uncompressed(u) => {
                let lo = start_bit(u.first_slot, min_slot);
                lemma_set_slots_member(u.first_slot, u.bits, lo, end_bit(u), k);
                let i = choose|i: int| lo <= i < end_bit(u) && #[trigger] u.bits[i] && part[k] == (u.first_slot + i) as u64;
                assert(u.first_slot + i <= u64::MAX);
                assert(unc_records(u, s));
            },
            CompressedSlotsView::Flate2(f) => {
                assert(min_slot <= part[k]);
                assert(increasing_within(part, f.first_slot as int, f.first_slot + f.num));
                if stream_known(e) {
                    let blocks = choose|blocks: Seq<u8>|
                        #[trigger] deflated(blocks) == f.compressed && f.num <= 8 * blocks.len() < 0x1_0000_0000_0000_0000;
                    assert(part == flate2_slots(f, blocks, min_slot));
                    let lo = start_bit(f.first_slot, min_slot);
                    lemma_set_slots_member(f.first_slot, bytes_bits(blocks), lo, f.num as int, k);
                    let i = choose|i: int| lo <= i < f.num && #[trigger] bytes_bits(blocks)[i] && part[k] == (f.first_slot + i) as u64;
                    assert(s - f.first_slot == i);
                    assert(bytes_bits(blocks)[s - f.first_slot]);
                    assert(records(e, s));
                }
            },
        }
    }
}

/// The smallest first slot of the entries, if there are any.
    pub fn first_slot(&self) -> (r: Option<u64>)
        ensures
            r == min_first_slot(self@.slots),
    {
        let mut m: Option<u64> = None;
        let mut k: usize = 0;
        while k < self.slots.len()
            invariant
                k <= self.slots.len(),
                m == min_first_slot(self@.slots.take(k as int)),
            decreases self.slots.len() - k,
        {
            let f = self.slots[k].first_slot();
            assert(self@.slots.take(k + 1).drop_last() =~= self@.slots.take(k as int));
            m = match m {
                None => Some(f),
                Some(x) => Some(if f < x { f } else { x }),
            };
            k += 1;
        }
        assert(self@.slots.take(k as int) =~= self@.slots);
        m
    }

    /// The recorded slots from `min_slot` on, entry by entry (see
    /// `entry_part`); entries that fail to decompress are skipped.
    pub fn to_slots(&self, min_slot: u64) -> (r: Vec<u64>)
        requires
            forall|j: int| 0 <= j < self@.slots.len() ==> {
                &&& #[trigger] self@.slots[j].first_slot() + self@.slots[j].num_slots() <= u64::MAX
                &&& self@.slots[j].to_slots_fit(min_slot)
            },
        ensures
            exists|parts: Seq<Seq<u64>>| {
                &&& parts.len() == self@.slots.len()
                &&& forall|j: int| 0 <= j < parts.len() ==> entry_part(self@.slots[j], min_slot, #[trigger] parts[j])
                &&& r@ == parts.flatten()
            },
            forall|s: u64| min_slot <= s && #[trigger] recorded_in(self@.slots, s) ==> r@.contains(s),
            forall|s: u64| #[trigger] r@.contains(s) ==> min_slot <= s && exists|j: int|
                0 <= j < self@.slots.len() && #[trigger] taken_from(self@.slots[j], s),
            (forall|j: int| 0 <= j < self@.slots.len() ==> stream_known(#[trigger] self@.slots[j])) ==> forall|s: u64|
                #[trigger] r@.contains(s) <==> (min_slot <= s && recorded_in(self@.slots, s)),
    {
        let mut rv: Vec<u64> = Vec::new();
        let ghost mut parts: Seq<Seq<u64>> = Seq::empty();
        let mut k: usize = 0;
        while k < self.slots.len()
            invariant
                k <= self.slots.len(),
                parts.len() == k,
                forall|j: int| 0 <= j < self@.slots.len() ==> {
                    &&& #[trigger] self@.slots[j].first_slot() + self@.slots[j].num_slots() <= u64::MAX
                    &&& self@.slots[j].to_slots_fit(min_slot)
                },
                forall|j: int| 0 <= j < parts.len() ==> entry_part(self@.slots[j], min_slot, #[trigger] parts[j]),
                rv@ == parts.flatten(),
            decreases self.slots.len() - k,
        {
            let e = &self.slots[k];
            assert(self@.slots[k as int] == e@);
            let ghost part: Seq<u64> = Seq::empty();
            if min_slot < e.first_slot() + e.num_slots() as u64 {
                match e.to_slots(min_slot) {
                    Ok(mut v) => {
                        proof {
                            part = v@;
                        }
                        rv.append(&mut v);
                    },
                    Err(_) => {},
                }
            }
            proof {
                parts.lemma_flatten_push(part);
                parts = parts.push(part);
            }
            k += 1;
        }
        proof {
            assert forall|s: u64| min_slot <= s && #[trigger] recorded_in(self@.slots, s) implies rv@.contains(s) by {
                let j = choose|j: int| 0 <= j < self@.slots.len() && #[trigger] records(self@.slots[j], s);
                lemma_recorded_in_part(self@.slots[j], min_slot, parts[j], s);
                lemma_flatten_contains(parts, j, s);
            }
            assert forall|s: u64| #[trigger] rv@.contains(s) implies min_slot <= s && exists|j: int|
                0 <= j < self@.slots.len() && #[trigger] taken_from(self@.slots[j], s) by {
                lemma_flatten_member(parts, s);
                let j = choose|j: int| 0 <= j < parts.len() && #[trigger] parts[j].contains(s);
                lemma_entry_part_members(self@.slots[j], min_slot, parts[j]);
            }
            if forall|j: int| 0 <= j < self@.slots.len() ==> stream_known(#[trigger] self@.slots[j]) {
                assert forall|s: u64| #[trigger] rv@.contains(s) implies recorded_in(self@.slots, s) by {
                    let j = choose|j: int| 0 <= j < self@.slots.len() && #[trigger] taken_from(self@.slots[j], s);
                    assert(stream_known(self@.slots[j]));
                    assert(records(self@.slots[j], s));
                }
            }
        }
        rv
    }
}

/// An empty uncompressed entry of `size` bytes, as `CompressedSlots::new`
/// makes it.
pub open spec fn fresh_entry(size: nat) -> CompressedSlotsView {
    CompressedSlotsView::Uncompressed(UncompressedView {
        first_slot: 0,
        num: 0,
        bits: Seq::new(8 * size, |i: int| false),
        blocks: size,
        encoded_bits: fresh_encoded_len(size),
    })
}

/// One round of filling, from `s` (the value and the number of slots
/// recorded so far) to `t`: the rest of `slots` is offered to the entries
/// (see `entries_add`). When all are taken, filling ends. Otherwise the
/// entries are compressed: when that fails (which it can only at an entry
/// that is not compressible), filling ends; when it succeeds, a new empty
/// entry of the room left is opened, or, with no room left, filling ends.
/// `last` tells whether filling ends with this round.
pub open spec fn fill_step(s: (EpochSlotsView, nat), t: (EpochSlotsView, nat), slots: Seq<u64>, last: bool) -> bool {
    let (added, c) = entries_add(s.0.slots, slots.skip(s.1 as int), 0, 0);
    &&& t.1 == s.1 + c
    &&& t.0.from == s.0.from
    &&& t.0.wallclock == s.0.wallclock
    &&& if s.1 + c >= slots.len() {
        last && t.0.slots == added
    } else {
        exists|d: Seq<CompressedSlotsView>| {
            &&& d.len() == added.len()
            &&& forall|j: int| 0 <= j < d.len() ==> deflated_from(#[trigger] d[j], added[j])
            &&& if forall|j: int| 0 <= j < d.len() ==> #[trigger] d[j] is Flate2 {
                let room = (EpochSlotsView { slots: d, ..s.0 }).room();
                if room > 0 {
                    !last && t.0.slots == d.push(fresh_entry(room as nat))
                } else {
                    last && t.0.slots == d
                }
            } else {
                &&& last
                &&& t.0.slots == d
                &&& exists|j: int| 0 <= j < d.len() && #[trigger] d[j] is Uncompressed && !compressible(added[j])
            }
        }
    }
}

/// Round `i` of the run `trace` (see `fill_step`).
pub open spec fn fill_round(trace: Seq<(EpochSlotsView, nat)>, i: int, slots: Seq<u64>) -> bool {
    fill_step(trace[i], trace[i + 1], slots, i == trace.len() - 2)
}

/// `trace` is a whole run of filling with `slots`: it starts with nothing
/// recorded, each round follows from the one before, only the last round
/// ends filling, and there is no round at all when there are no slots.
pub open spec fn fill_run(trace: Seq<(EpochSlotsView, nat)>, slots: Seq<u64>) -> bool {
    &&& trace.len() >= 1
    &&& trace[0].1 == 0
    &&& (trace.len() == 1 <==> slots.len() == 0)
    &&& forall|i: int| 0 <= i < trace.len() - 1 ==> #[trigger] fill_round(trace, i, slots)
}

/// A trace of rounds that go on, followed by a round that ends filling, is a
/// whole run.
proof fn lemma_fill_run_ends(trace: Seq<(EpochSlotsView, nat)>, t: (EpochSlotsView, nat), slots: Seq<u64>)
    requires
        trace.len() >= 1,
        trace[0].1 == 0,
        slots.len() > 0,
        forall|i: int| 0 <= i < trace.len() - 1 ==> #[trigger] fill_step(trace[i], trace[i + 1], slots, false),
        fill_step(trace.last(), t, slots, true),
    ensures
        fill_run(trace.push(t), slots),
        trace.push(t)[0] == trace[0],
        trace.push(t).last() == t,
{
    let tr = trace.push(t);
    assert forall|i: int| 0 <= i < tr.len() - 1 implies #[trigger] fill_round(tr, i, slots) by {
        if i < trace.len() - 1 {
            assert(tr[i] == trace[i] && tr[i + 1] == trace[i + 1]);
        } else {
            assert(tr[i] == trace.last() && tr[i + 1] == t);
        }
    }
}

impl EpochSlots {
    /// Records `slots`, starting new entries and compressing full ones as
    /// needed, until all are recorded, compression fails, or no entry fits in
    /// a gossip value any more; returns how many were recorded. The wallclock
    /// moves to `now`, or past the last one. The value after, and the count,
    /// are the end of a run of rounds (see `fill_run` and `fill_step`) from
    /// the value with its new wallclock.
    pub fn fill(&mut self, slots: &[u64], now: u64) -> (r: usize)
        requires
            old(self).wallclock < u64::MAX,
            forall|j: int| 0 <= j < old(self)@.slots.len() ==> workable(#[trigger] old(self)@.slots[j]),
        ensures
            exists|trace: Seq<(EpochSlotsView, nat)>| {
                &&& fill_run(trace, slots@)
                &&& trace[0].0 == (EpochSlotsView { wallclock: final(self)@.wallclock, ..old(self)@ })
                &&& trace.last() == (final(self)@, r as nat)
            },
            r <= slots.len(),
            final(self)@.from == old(self)@.from,
            final(self)@.wallclock == if now > old(self).wallclock { now } else { (old(self).wallclock + 1) as u64 },
            final(self)@.slots.len() >= old(self)@.slots.len(),
            forall|s: u64| #[trigger] recorded_in(old(self)@.slots, s) ==> recorded_in(final(self)@.slots, s),
            forall|j: int| 0 <= j < r ==> #[trigger] recorded_in(final(self)@.slots, slots@[j]),
    {
        let mut num: usize = 0;
        self.wallclock = if now > self.wallclock { now } else { self.wallclock + 1 };
        let ghost mut fresh: bool = false;
        let ghost wallclock = self.wallclock;
        let ghost init = self@;
        let ghost mut trace: Seq<(EpochSlotsView, nat)> = seq![(init, 0nat)];
        assert(self@.slots == old(self)@.slots);
        assert(init == (EpochSlotsView { wallclock: wallclock, ..old(self)@ }));
        while num < slots.len()
            invariant
                wallclock == if now > old(self).wallclock { now } else { (old(self).wallclock + 1) as u64 },
                init == (EpochSlotsView { wallclock: wallclock, ..old(self)@ }),
                num <= slots.len(),
                self@.from == old(self)@.from,
                self@.wallclock == wallclock,
                self@.slots.len() >= old(self)@.slots.len(),
                forall|j: int| 0 <= j < self@.slots.len() ==> workable(#[trigger] self@.slots[j]),
                fresh ==> {
                    &&& self@.slots.len() > 0
                    &&& forall|j: int| 0 <= j < self@.slots.len() - 1 ==> #[trigger] self@.slots[j] is Flate2
                    &&& self@.slots.last() matches CompressedSlotsView::Uncompressed(u) && u.num == 0 && u.bits.len() > 0
                },
                forall|s: u64| #[trigger] recorded_in(old(self)@.slots, s) ==> recorded_in(self@.slots, s),
                forall|q: int| 0 <= q < num ==> #[trigger] recorded_in(self@.slots, slots@[q]),
                trace.len() >= 1,
                trace[0] == (init, 0nat),
                trace.last() == (self@, num as nat),
                trace.len() == 1 ==> num == 0,
                trace.len() >= 2 ==> slots@.len() > 0,
                forall|i: int| 0 <= i < trace.len() - 1 ==> #[trigger] fill_step(trace[i], trace[i + 1], slots@, false),
            decreases slots.len() - num, if fresh { 0int } else { 1int },
        {
            let ghost before = self@.slots;
            let ghost s0 = trace.last();
            let rest = &slots[num..slots.len()];
            assert(rest@ =~= slots@.skip(num as int));
            proof {
                lemma_entries_add(before, rest@, 0, 0);
                if fresh {
                    lemma_entries_add_progress(before, rest@, 0, 0);
                }
            }
            let c = self.add(rest);
            let ghost num0 = num;
            num = num + c;
            proof {
                fresh = false;
                lemma_entries_add_records(before, rest@, 0, 0);
                let after = self@.slots;
                assert forall|s: u64| #[trigger] recorded_in(before, s) implies recorded_in(after, s) by {
                    let j = choose|j: int| 0 <= j < before.len() && #[trigger] records(before[j], s);
                    assert(records(after[j], s));
                }
                assert forall|q: int| 0 <= q < num implies #[trigger] recorded_in(after, slots@[q]) by {
                    if q < num0 {
                        assert(recorded_in(before, slots@[q]));
                    } else {
                        assert(rest@[q - num0] == slots@[q]);
                        assert(recorded_in(after, rest@[q - num0]));
                    }
                }
            }
            let ghost added = self@.slots;
            if num < slots.len() {
                let deflate_result = self.deflate();
                let ghost d = self@.slots;
                proof {
                    let now_slots = self@.slots;
                    assert forall|s: u64| #[trigger] recorded_in(added, s) implies recorded_in(now_slots, s) by {
                        let j = choose|j: int| 0 <= j < added.len() && #[trigger] records(added[j], s);
                        assert(workable(added[j]));
                        assert(deflated_from(now_slots[j], added[j]));
                        lemma_deflated_records(now_slots[j], added[j], s);
                    }
                    assert forall|q: int| 0 <= q < num implies #[trigger] recorded_in(now_slots, slots@[q]) by {
                        assert(recorded_in(added, slots@[q]));
                    }
                }
                if deflate_result.is_err() {
                    proof {
                        let t = (self@, num as nat);
                        assert(fill_step(s0, t, slots@, true)) by {
                            let j = choose|j: int| 0 <= j < d.len() && #[trigger] d[j] is Uncompressed && !compressible(added[j]);
                            assert(!(forall|j: int| 0 <= j < d.len() ==> #[trigger] d[j] is Flate2));
                        }
                        lemma_fill_run_ends(trace, t, slots@);
                        trace = trace.push(t);
                    }
                    return num;
                }
                let ghost deflated = self@.slots;
                assert forall|j: int| 0 <= j < deflated.len() implies workable(#[trigger] deflated[j]) by {
                    assert(workable(added[j]));
                    assert(deflated_from(deflated[j], added[j]));
                }
                let space = self.max_compressed_slot_size();
                assert(self@ == (EpochSlotsView { slots: d, ..s0.0 }));
                if space > 0 {
                    assert(space <= 928);
                    let cslot = CompressedSlots::new(space as usize);
                    let ghost cview = cslot@;
                    self.slots.push(cslot);
                    proof {
                        assert(cview == fresh_entry(space as nat));
                        assert(self@.slots =~= deflated.push(cview));
                        fresh = true;
                        assert forall|s: u64| #[trigger] recorded_in(deflated, s) implies recorded_in(self@.slots, s) by {
                            let j = choose|j: int| 0 <= j < deflated.len() && #[trigger] records(deflated[j], s);
                            assert(self@.slots[j] == deflated[j]);
                        }
                        assert forall|q: int| 0 <= q < num implies #[trigger] recorded_in(self@.slots, slots@[q]) by {
                            assert(recorded_in(deflated, slots@[q]));
                        }
                        let t = (self@, num as nat);
                        assert(fill_step(s0, t, slots@, false));
                        let old_trace = trace;
                        trace = trace.push(t);
                        assert forall|i: int| 0 <= i < trace.len() - 1 implies #[trigger] fill_step(trace[i], trace[i + 1], slots@, false) by {
                            if i < old_trace.len() - 1 {
                                assert(trace[i] == old_trace[i] && trace[i + 1] == old_trace[i + 1]);
                            }
                        }
                    }
                } else {
                    proof {
                        let t = (self@, num as nat);
                        assert(fill_step(s0, t, slots@, true));
                        lemma_fill_run_ends(trace, t, slots@);
                        trace = trace.push(t);
                    }
                    return num;
                }
            } else {
                proof {
                    let t = (self@, num as nat);
                    assert(fill_step(s0, t, slots@, true));
                    lemma_fill_run_ends(trace, t, slots@);
                    trace = trace.push(t);
                }
                return num;
            }
        }
        proof {
            if trace.len() >= 2 {
                let i = trace.len() - 2;
                assert(fill_step(trace[i], trace[i + 1], slots@, false));
                assert(trace[i + 1] == trace.last());
            }
            assert(trace.len() == 1);
            assert(fill_run(trace, slots@));
        }
        num
    }
}

} // verus!
