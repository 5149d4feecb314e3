//! The values that gossip replicates, as the crds table sees them: what
//! kind of data each holds, whose it is, when it was made and its hash.

use vstd::prelude::*;
use crate::socket::SocketAddr;
use crate::pubkey::Pubkey;

verus! {

/// A 32-byte hash of a value's serialized form.
#[derive(Clone, Copy, PartialEq, Eq, Debug, Default)]
pub struct ValueHash(pub [u8; 32]);

/// `a` comes strictly before `b` in lexicographic byte order.
pub open spec fn bytes_less(a: Seq<u8>, b: Seq<u8>) -> bool
    decreases a.len(),
{
    if a.len() == 0 || b.len() == 0 {
        a.len() == 0 && b.len() > 0
    } else if a[0] != b[0] {
        a[0] < b[0]
    } else {
        bytes_less(a.drop_first(), b.drop_first())
    }
}

proof fn lemma_bytes_less_suffix(a: Seq<u8>, b: Seq<u8>, i: int)
    requires
        a.len() == b.len(),
        0 <= i <= a.len(),
        forall|j: int| 0 <= j < i ==> a[j] == b[j],
    ensures
        bytes_less(a, b) == bytes_less(a.subrange(i, a.len() as int), b.subrange(i, b.len() as int)),
    decreases i,
{
    if i > 0 {
        lemma_bytes_less_suffix(a.drop_first(), b.drop_first(), i - 1);
        assert(a.drop_first().subrange(i - 1, a.len() - 1) =~= a.subrange(i, a.len() as int));
        assert(b.drop_first().subrange(i - 1, b.len() - 1) =~= b.subrange(i, b.len() as int));
    } else {
        assert(a.subrange(0, a.len() as int) =~= a);
        assert(b.subrange(0, b.len() as int) =~= b);
    }
}

impl ValueHash {
    /// Whether this hash comes strictly before `other` in byte order.
    pub fn less_than(&self, other: &ValueHash) -> (r: bool)
        ensures
            r == bytes_less(self.0@, other.0@),
    {
        let mut i: usize = 0;
        while i < 32
            invariant
                i <= 32,
                self.0@.len() == 32,
                other.0@.len() == 32,
                forall|j: int| 0 <= j < i ==> self.0@[j] == other.0@[j],
            decreases 32 - i,
        {
            if self.0[i] != other.0[i] {
                proof {
                    lemma_bytes_less_suffix(self.0@, other.0@, i as int);
                    let a = self.0@.subrange(i as int, 32);
                    let b = other.0@.subrange(i as int, 32);
                    assert(a[0] == self.0@[i as int]);
                    assert(b[0] == other.0@[i as int]);
                }
                return self.0[i] < other.0[i];
            }
            i += 1;
        }
        proof {
            lemma_bytes_less_suffix(self.0@, other.0@, 32);
        }
        false
    }

    /// Whether two hashes are the same.
    pub fn same_as(&self, other: &ValueHash) -> (r: bool)
        ensures
            r == (self.0@ == other.0@),
            r == (*self == *other),
    {
        let mut i: usize = 0;
        while i < 32
            invariant
                i <= 32,
                self.0@.len() == 32,
                other.0@.len() == 32,
                forall|j: int| 0 <= j < i ==> self.0@[j] == other.0@[j],
            decreases 32 - i,
        {
            if self.0[i] != other.0[i] {
                return false;
            }
            i += 1;
        }
        assert(self.0@ =~= other.0@);
        assert(self.0 == other.0);
        true
    }
}

/// The first eight bytes of `h`, read as a little-endian integer: the hash
/// by which values are sharded and filtered.
pub open spec fn hash_u64(h: ValueHash) -> u64 {
    (h.0[0] as u64) | ((h.0[1] as u64) << 8u64) | ((h.0[2] as u64) << 16u64) | ((h.0[3] as u64)
        << 24u64) | ((h.0[4] as u64) << 32u64) | ((h.0[5] as u64) << 40u64) | ((h.0[6] as u64)
        << 48u64) | ((h.0[7] as u64) << 56u64)
}

/// The first eight bytes of `h`, read as a little-endian integer.
pub fn hash_as_u64(h: &ValueHash) -> (r: u64)
    ensures
        r == hash_u64(*h),
{
    (h.0[0] as u64) | ((h.0[1] as u64) << 8u64) | ((h.0[2] as u64) << 16u64) | ((h.0[3] as u64)
        << 24u64) | ((h.0[4] as u64) << 32u64) | ((h.0[5] as u64) << 40u64) | ((h.0[6] as u64)
        << 48u64) | ((h.0[7] as u64) << 56u64)
}

/// A 16-byte little-endian integer.
pub open spec fn le_u128(b: Seq<u8>) -> int
    decreases b.len(),
{
    if b.len() == 0 {
        0
    } else {
        b[0] as int + 256 * le_u128(b.drop_first())
    }
}

/// `256^n`.
pub open spec fn pow256(n: nat) -> int
    decreases n,
{
    if n == 0 {
        1
    } else {
        256 * pow256((n - 1) as nat)
    }
}

proof fn lemma_pow256_mono(n: nat)
    requires
        n <= 16,
    ensures
        1 <= pow256(n) <= pow256(16),
        pow256(16) == 0x1_0000_0000_0000_0000_0000_0000_0000_0000,
    decreases 16 - n,
{
    assert(pow256(16) == 0x1_0000_0000_0000_0000_0000_0000_0000_0000) by {
        reveal_with_fuel(pow256, 17);
    }
    if n < 16 {
        lemma_pow256_mono(n + 1);
        assert(pow256(n + 1) == 256 * pow256(n));
        if n == 0 {
        } else {
            assert(pow256(n) >= 1) by {
                lemma_pow256_pos(n);
            }
        }
    }
}

proof fn lemma_pow256_pos(n: nat)
    ensures
        pow256(n) >= 1,
    decreases n,
{
    if n > 0 {
        lemma_pow256_pos((n - 1) as nat);
    }
}

proof fn lemma_le_u128_bound(b: Seq<u8>)
    ensures
        0 <= le_u128(b) < pow256(b.len()),
    decreases b.len(),
{
    if b.len() > 0 {
        lemma_le_u128_bound(b.drop_first());
        let x = le_u128(b.drop_first());
        let p = pow256((b.len() - 1) as nat);
        assert(256 * x <= 256 * p - 256) by (nonlinear_arith)
            requires
                x <= p - 1,
        ;
    }
}

/// The pair of integers by which a node's key is looked up: its first and
/// its last sixteen bytes, each read as a little-endian integer.
pub open spec fn pubkey_key(pk: Pubkey) -> (u128, u128) {
    (le_u128(pk.0@.subrange(0, 16)) as u128, le_u128(pk.0@.subrange(16, 32)) as u128)
}

/// Reads `b[from..from + 16]` as a little-endian integer.
fn read_u128(b: &[u8; 32], from: usize) -> (r: u128)
    requires
        from == 0 || from == 16,
    ensures
        r == le_u128(b@.subrange(from as int, from + 16)),
{
    let mut acc: u128 = 0;
    let mut i: usize = 16;
    proof {
        assert(b@.subrange(from + 16, from + 16).len() == 0);
    }
    while i > 0
        invariant
            0 <= i <= 16,
            from == 0 || from == 16,
            b@.len() == 32,
            acc == le_u128(b@.subrange(from + i, from + 16)),
        decreases i,
    {
        let ghost s = b@.subrange(from + i - 1, from + 16);
        proof {
            assert(s.drop_first() =~= b@.subrange(from + i, from + 16));
            assert(s[0] == b@[from + i - 1]);
            lemma_le_u128_bound(s);
            lemma_pow256_mono(s.len());
        }
        acc = acc * 256 + b[from + i - 1] as u128;
        i -= 1;
    }
    acc
}

impl Pubkey {
    /// The pair of integers by which this key is looked up.
    pub fn key(&self) -> (r: (u128, u128))
        ensures
            r == pubkey_key(*self),
    {
        (read_u128(&self.0, 0), read_u128(&self.0, 16))
    }
}

/// A node's contact information: when the node started (`outset`), the
/// shred version it runs, and its gossip address, if it has one.
#[derive(Clone, Copy, PartialEq, Eq, Debug)]
pub struct ContactInfo {
    pub outset: u64,
    pub shred_version: u16,
    pub gossip: Option<SocketAddr>,
}

impl ContactInfo {
    /// Whether this contact information of a node replaces `other`, of the
    /// same node, whatever their wallclocks: the more recent start wins.
    /// `None` when both come from the same start.
    pub open spec fn spec_overrides(&self, other: &ContactInfo) -> Option<bool> {
        if self.outset != other.outset {
            Some(self.outset > other.outset)
        } else {
            None
        }
    }

    pub fn overrides(&self, other: &ContactInfo) -> (r: Option<bool>)
        ensures
            r == self.spec_overrides(other),
    {
        if self.outset != other.outset {
            Some(self.outset > other.outset)
        } else {
            None
        }
    }
}

/// A running instance of a node: when it started and a random token.
#[derive(Clone, Copy, PartialEq, Eq, Debug)]
pub struct NodeInstance {
    pub timestamp: u64,
    pub token: u64,
}

impl NodeInstance {
    /// Whether this instance of a node replaces `other`, of the same node:
    /// the later start wins, and among equal starts the larger token; `None`
    /// for the same token.
    pub open spec fn spec_overrides(&self, other: &NodeInstance) -> Option<bool> {
        if self.token == other.token {
            None
        } else if self.timestamp < other.timestamp {
            Some(false)
        } else if self.timestamp > other.timestamp {
            Some(true)
        } else {
            Some(other.token < self.token)
        }
    }

    pub fn overrides(&self, other: &NodeInstance) -> (r: Option<bool>)
        ensures
            r == self.spec_overrides(other),
    {
        if self.token == other.token {
            None
        } else if self.timestamp < other.timestamp {
            Some(false)
        } else if self.timestamp > other.timestamp {
            Some(true)
        } else {
            Some(other.token < self.token)
        }
    }
}

/// What a value holds, with the index that tells apart several values of
/// one kind from one node.
#[derive(Clone, Copy, PartialEq, Eq, Debug)]
pub enum CrdsData {
    LegacyContactInfo,
    Vote(u8),
    LowestSlot(u8),
    LegacySnapshotHashes,
    AccountsHashes,
    EpochSlots(u8),
    LegacyVersion,
    Version,
    NodeInstance(NodeInstance),
    /// A chunk of a proof that a slot's leader sent two different shreds
    /// for one index: the chunk's index among the node's duplicate shred
    /// values, and the slot.
    DuplicateShred(u16, u64),
    SnapshotHashes,
    ContactInfo(ContactInfo),
    RestartLastVotedForkSlots,
    RestartHeaviestFork,
}

impl CrdsData {
    /// The number of the kind of data, in declaration order.
    pub open spec fn spec_tag(&self) -> u8 {
        match self {
            CrdsData::LegacyContactInfo => 0,
            CrdsData::Vote(_) => 1,
            CrdsData::LowestSlot(_) => 2,
            CrdsData::LegacySnapshotHashes => 3,
            CrdsData::AccountsHashes => 4,
            CrdsData::EpochSlots(_) => 5,
            CrdsData::LegacyVersion => 6,
            CrdsData::Version => 7,
            CrdsData::NodeInstance(_) => 8,
            CrdsData::DuplicateShred(..) => 9,
            CrdsData::SnapshotHashes => 10,
            CrdsData::ContactInfo(_) => 11,
            CrdsData::RestartLastVotedForkSlots => 12,
            CrdsData::RestartHeaviestFork => 13,
        }
    }

    /// The index within the kind that is part of the label: that of a vote,
    /// of epoch slots and of a duplicate shred; zero for the others.
    pub open spec fn spec_label_index(&self) -> u16 {
        match self {
            CrdsData::Vote(ix) => *ix as u16,
            CrdsData::EpochSlots(ix) => *ix as u16,
            CrdsData::DuplicateShred(ix, _) => *ix,
            _ => 0,
        }
    }

    pub fn tag(&self) -> (r: u8)
        ensures
            r == self.spec_tag(),
    {
        match self {
            CrdsData::LegacyContactInfo => 0,
            CrdsData::Vote(_) => 1,
            CrdsData::LowestSlot(_) => 2,
            CrdsData::LegacySnapshotHashes => 3,
            CrdsData::AccountsHashes => 4,
            CrdsData::EpochSlots(_) => 5,
            CrdsData::LegacyVersion => 6,
            CrdsData::Version => 7,
            CrdsData::NodeInstance(_) => 8,
            CrdsData::DuplicateShred(..) => 9,
            CrdsData::SnapshotHashes => 10,
            CrdsData::ContactInfo(_) => 11,
            CrdsData::RestartLastVotedForkSlots => 12,
            CrdsData::RestartHeaviestFork => 13,
        }
    }

    pub fn label_index(&self) -> (r: u16)
        ensures
            r == self.spec_label_index(),
    {
        match self {
            CrdsData::Vote(ix) => *ix as u16,
            CrdsData::EpochSlots(ix) => *ix as u16,
            CrdsData::DuplicateShred(ix, _) => *ix,
            _ => 0,
        }
    }
}

/// The label of a value, as the table is keyed: the kind of data, its
/// index within the kind, and the node's key.
pub type LabelKey = (u8, u16, u128, u128);

/// A value of the replicated store: its data, the node it belongs to, when
/// that node made it and the hash of its serialized form.
#[derive(Clone, Copy, PartialEq, Eq, Debug)]
pub struct CrdsValue {
    pub data: CrdsData,
    pub pubkey: Pubkey,
    pub wallclock: u64,
    pub hash: ValueHash,
}

/// The label under which `v` is stored.
pub open spec fn label_of(v: CrdsValue) -> LabelKey {
    let (hi, lo) = pubkey_key(v.pubkey);
    (v.data.spec_tag(), v.data.spec_label_index(), hi, lo)
}

/// The label of a node's contact information.
pub open spec fn contact_info_label(pk: Pubkey) -> LabelKey {
    let (hi, lo) = pubkey_key(pk);
    (11u8, 0u16, hi, lo)
}

impl CrdsValue {
    /// The label under which this value is stored.
    pub fn label(&self) -> (r: LabelKey)
        ensures
            r == label_of(*self),
    {
        let (hi, lo) = self.pubkey.key();
        (self.data.tag(), self.data.label_index(), hi, lo)
    }
}

/// Whether `value` replaces `other`, a value with the same label: contact
/// information and node instances of the same node compare by when the
/// node started; otherwise the later wallclock wins, and among equal
/// wallclocks the larger hash.
pub open spec fn spec_overrides(value: CrdsValue, other: CrdsValue) -> bool {
    let special = match (value.data, other.data) {
        (CrdsData::ContactInfo(a), CrdsData::ContactInfo(b)) => a.spec_overrides(&b),
        (CrdsData::NodeInstance(a), CrdsData::NodeInstance(b)) => a.spec_overrides(&b),
        _ => None,
    };
    match special {
        Some(out) => out,
        None => if value.wallclock != other.wallclock {
            value.wallclock > other.wallclock
        } else {
            bytes_less(other.hash.0@, value.hash.0@)
        },
    }
}

/// Whether `value` replaces `other`, a value with the same label.
pub fn overrides(value: &CrdsValue, other: &CrdsValue) -> (r: bool)
    requires
        label_of(*value) == label_of(*other),
    ensures
        r == spec_overrides(*value, *other),
{
    let special = match (&value.data, &other.data) {
        (CrdsData::ContactInfo(a), CrdsData::ContactInfo(b)) => a.overrides(b),
        (CrdsData::NodeInstance(a), CrdsData::NodeInstance(b)) => a.overrides(b),
        _ => None,
    };
    match special {
        Some(out) => out,
        None => if value.wallclock != other.wallclock {
            value.wallclock > other.wallclock
        } else {
            other.hash.less_than(&value.hash)
        },
    }
}

/// A label tells apart the values of one node that the table keeps side by
/// side: it carries the kind of data, the node's key, and the index of a
/// vote, of epoch slots and of a duplicate shred chunk. So two votes (or
/// epoch slots, or chunks) of one node with different indices have
/// different labels.
pub proof fn law_label_carries_index(v: CrdsValue, w: CrdsValue)
    ensures
        (label_of(v).2, label_of(v).3) == pubkey_key(v.pubkey),
        v.data matches CrdsData::Vote(i) ==> label_of(v).0 == 1 && label_of(v).1 == i as u16,
        v.data matches CrdsData::EpochSlots(i) ==> label_of(v).0 == 5 && label_of(v).1 == i as u16,
        v.data matches CrdsData::DuplicateShred(i, _) ==> label_of(v).0 == 9 && label_of(v).1 == i,
        v.data is ContactInfo ==> label_of(v) == contact_info_label(v.pubkey),
        (v.data matches CrdsData::Vote(i) && w.data matches CrdsData::Vote(j) && i != j) ==> label_of(v) != label_of(w),
        (v.data matches CrdsData::EpochSlots(i) && w.data matches CrdsData::EpochSlots(j) && i != j) ==> label_of(v)
            != label_of(w),
        (v.data matches CrdsData::DuplicateShred(i, _) && w.data matches CrdsData::DuplicateShred(j, _) && i != j)
            ==> label_of(v) != label_of(w),
        pubkey_key(v.pubkey) != pubkey_key(w.pubkey) ==> label_of(v) != label_of(w),
{
}

} // verus!
