//! The cluster replicated data store: the table of the values that gossip
//! replicates, one per label, with indices by node, by kind and by insert
//! order.
//!
//! A value replaces the one with the same label if it is newer: see
//! [`spec_overrides`]. The table keeps its entries in a sequence, with the
//! labels in an insertion-ordered set at the same positions; removing an
//! entry moves the last one into its place, and every index follows.

use vstd::prelude::*;
use std::collections::{BTreeMap, VecDeque};
use indexmap::IndexSet;
use crate::pubkey::Pubkey;
use crate::crds_shards::{CrdsShards, shard_of};
use crate::index_map::{has_key, distinct_keys, swap_removed};
use crate::index_set::{
    label_items, index_items, swap_removed_at, label_set_new, label_set_index_of, label_set_insert,
    label_set_swap_remove_full, index_set_new, index_set_insert, index_set_swap_remove, index_set_len,
    index_set_to_vec,
};
use crate::crds_value::{
    CrdsValue, CrdsData, ContactInfo, LabelKey, label_of, contact_info_label, pubkey_key, hash_u64,
    hash_as_u64, spec_overrides, overrides,
};

verus! {

broadcast use {vstd::std_specs::btree::group_btree_axioms, vstd::laws_cmp::group_laws_cmp, crate::crds_shards::lemma_table_shard_range};

/// The number of leading hash bits by which values are sharded.
pub const CRDS_SHARDS_BITS: u32 = 12;

/// The tag under which an ordinal index holds every kind of value.
pub const ALL_KINDS: u8 = 255;

/// Why an insert or a trim did not happen.
#[derive(PartialEq, Eq, Debug, Clone, Copy)]
pub enum CrdsError {
    /// The value is already in the table and came again by push; it had
    /// come this many times by push before.
    DuplicatePush(u8),
    /// The value is not newer than the one in the table.
    InsertFailed,
    /// Trimming needs stakes, and all are zero.
    UnknownStakes,
}

/// How a value reached this node.
#[derive(Clone, Copy, PartialEq, Eq, Debug)]
pub enum GossipRoute {
    LocalMessage,
    PullRequest,
    PullResponse,
    /// Pushed by the given node.
    PushMessage(Pubkey),
}

impl GossipRoute {
    /// How many times a value that is new to the table counts as received by
    /// push: `None` for local values and pull requests, zero for pull
    /// responses, and once for push messages.
    pub open spec fn spec_push_count(&self) -> Option<u8> {
        match self {
            GossipRoute::LocalMessage => None,
            GossipRoute::PullRequest => None,
            GossipRoute::PullResponse => Some(0),
            GossipRoute::PushMessage(_) => Some(1),
        }
    }
}

/// A position in insert order: the ordinal of the next value to consume.
#[derive(Clone, Copy, Default, Debug, PartialEq, Eq)]
pub struct Cursor(pub u64);

impl Cursor {
    /// The ordinal of the next value to consume.
    pub fn ordinal(&self) -> (r: u64)
        ensures
            r == self.0,
    {
        self.0
    }

    /// Moves past the value with the given ordinal, if not already past it.
    pub fn consume(&mut self, ordinal: u64)
        requires
            ordinal < u64::MAX,
        ensures
            final(self).0 == (if old(self).0 > ordinal + 1 { old(self).0 } else { (ordinal + 1) as u64 }),
    {
        if self.0 < ordinal + 1 {
            self.0 = ordinal + 1;
        }
    }
}

/// A value in the table, with when and in what order it was stored.
#[derive(PartialEq, Eq, Debug, Clone, Copy)]
pub struct VersionedCrdsValue {
    /// The position of the value in insert order.
    pub ordinal: u64,
    pub value: CrdsValue,
    /// The local time at which the value was stored or last refreshed.
    pub local_timestamp: u64,
    /// `None`: stored from a local message or a pull request; `Some(0)`:
    /// from a pull response; `Some(k)`, `k > 0`: by push, and pushed again
    /// `k - 1` times since.
    pub num_push_recv: Option<u8>,
}

impl VersionedCrdsValue {
    /// `value`, stored at the cursor's ordinal at time `now`, having come
    /// by `route`.
    pub fn new(value: CrdsValue, cursor: Cursor, local_timestamp: u64, route: GossipRoute) -> (r: Self)
        ensures
            r == (VersionedCrdsValue {
                ordinal: cursor.0,
                value,
                local_timestamp,
                num_push_recv: route.spec_push_count(),
            }),
    {
        let num_push_recv = match route {
            GossipRoute::LocalMessage => None,
            GossipRoute::PullRequest => None,
            GossipRoute::PullResponse => Some(0),
            GossipRoute::PushMessage(_) => Some(1),
        };
        VersionedCrdsValue { ordinal: cursor.ordinal(), value, local_timestamp, num_push_recv }
    }
}

// ---------------------------------------------------------------------
// What the indices hold, given the table's entries `v`.

/// The labels sit at the positions of their entries, each once.
pub open spec fn labels_ok(l: Seq<LabelKey>, v: Seq<VersionedCrdsValue>) -> bool {
    &&& l.len() == v.len()
    &&& l.no_duplicates()
    &&& forall|i: int| 0 <= i < v.len() ==> #[trigger] l[i] == label_of(v[i].value)
}

/// Every entry has its own ordinal, below the cursor.
pub open spec fn ordinals_ok(v: Seq<VersionedCrdsValue>, cursor: u64) -> bool {
    &&& forall|i: int| 0 <= i < v.len() ==> (#[trigger] v[i]).ordinal < cursor
    &&& forall|i: int, j: int| 0 <= i < v.len() && 0 <= j < v.len() && i != j ==> (#[trigger] v[i]).ordinal != (#[trigger] v[j]).ordinal
}

/// Whether data `d` belongs in the ordinal index of kind `kind`.
pub open spec fn in_kind(kind: u8, d: CrdsData) -> bool {
    kind == ALL_KINDS || d.spec_tag() == kind
}

/// The ordinal index of kind `kind` maps the ordinal of each entry of that
/// kind to its position, and nothing else.
pub open spec fn ordinal_index_ok(m: Map<u64, usize>, v: Seq<VersionedCrdsValue>, kind: u8) -> bool {
    &&& forall|o: u64| #[trigger] m.contains_key(o) ==> {
        &&& m[o] < v.len()
        &&& v[m[o] as int].ordinal == o
        &&& in_kind(kind, v[m[o] as int].value.data)
    }
    &&& forall|i: int| 0 <= i < v.len() && in_kind(kind, (#[trigger] v[i]).value.data) ==> m.contains_key(v[i].ordinal)
}

/// Whether `d` is a node's contact information.
pub open spec fn is_contact(d: CrdsData) -> bool {
    d is ContactInfo
}

/// The contact information that `d` holds, if it holds one.
pub open spec fn contact_of(d: CrdsData) -> ContactInfo {
    match d {
        CrdsData::ContactInfo(c) => c,
        _ => arbitrary(),
    }
}

/// The node index holds the positions of the contact informations.
pub open spec fn nodes_ok(n: Seq<usize>, v: Seq<VersionedCrdsValue>) -> bool {
    &&& n.no_duplicates()
    &&& forall|x: usize| #[trigger] n.contains(x) <==> (x < v.len() && is_contact(v[x as int].value.data))
}

/// The node whose key the entry at `i` carries.
pub open spec fn key_at(v: Seq<VersionedCrdsValue>, i: int) -> (u128, u128) {
    pubkey_key(v[i].value.pubkey)
}

/// The records map each node's key to the positions of its entries, and
/// holds no node without entries.
pub open spec fn records_ok(r: Map<(u128, u128), IndexSet<usize>>, v: Seq<VersionedCrdsValue>) -> bool {
    &&& forall|pk: (u128, u128)| #[trigger] r.contains_key(pk) ==> {
        &&& index_items(r[pk]).no_duplicates()
        &&& index_items(r[pk]).len() > 0
        &&& forall|x: usize| #[trigger] index_items(r[pk]).contains(x) <==> (x < v.len() && key_at(v, x as int) == pk)
    }
    &&& forall|i: int| 0 <= i < v.len() ==> r.contains_key(#[trigger] key_at(v, i))
}

/// The shred version of each node with contact information is that of its
/// contact information; only nodes with entries are there.
pub open spec fn shred_versions_ok(s: Map<(u128, u128), u16>, r: Map<(u128, u128), IndexSet<usize>>, v: Seq<VersionedCrdsValue>) -> bool {
    &&& forall|i: int| 0 <= i < v.len() ==> match (#[trigger] v[i]).value.data {
        CrdsData::ContactInfo(c) => s.contains_key(key_at(v, i)) && s[key_at(v, i)] == c.shred_version,
        _ => true,
    }
    &&& forall|pk: (u128, u128)| #[trigger] s.contains_key(pk) ==> r.contains_key(pk)
}

/// The shards hold each position with the hash of its entry, once.
pub open spec fn shards_ok(s: Seq<Seq<(usize, u64)>>, v: Seq<VersionedCrdsValue>) -> bool {
    &&& forall|k: int, j: int| 0 <= k < s.len() && 0 <= j < s[k].len() ==> {
        &&& (#[trigger] s[k][j]).0 < v.len()
        &&& s[k][j].1 == hash_u64(v[s[k][j].0 as int].value.hash)
    }
    &&& forall|i: int| 0 <= i < v.len() ==> has_key(
        s[shard_of(hash_u64((#[trigger] v[i]).value.hash), CRDS_SHARDS_BITS)],
        i as usize,
    )
}

/// The position of the entry labeled `key`, if there is one.
pub open spec fn position_of(v: Seq<VersionedCrdsValue>, key: LabelKey) -> Option<int> {
    if exists|i: int| 0 <= i < v.len() && label_of(v[i].value) == key {
        Some(choose|i: int| 0 <= i < v.len() && label_of(v[i].value) == key)
    } else {
        None
    }
}

/// No two entries share a label.
pub open spec fn labels_distinct(v: Seq<VersionedCrdsValue>) -> bool {
    forall|i: int, j: int| 0 <= i < v.len() && 0 <= j < v.len() && i != j ==> label_of((#[trigger] v[i]).value) != label_of(
        (#[trigger] v[j]).value,
    )
}

/// The entry labeled `key`, if there is one.
pub open spec fn lookup(v: Seq<VersionedCrdsValue>, key: LabelKey) -> Option<VersionedCrdsValue> {
    match position_of(v, key) {
        Some(i) => Some(v[i]),
        None => None,
    }
}

// ---------------------------------------------------------------------
// How the indices follow the table when an entry is added at the end, or
// replaced by a newer one with the same label.

pub proof fn lemma_push_contains<T>(s: Seq<T>, x: T, y: T)
    ensures
        s.push(x).contains(y) <==> (s.contains(y) || y == x),
{
    if s.contains(y) {
        let p = choose|p: int| 0 <= p < s.len() && s[p] == y;
        assert(s.push(x)[p] == y);
    }
    if y == x {
        assert(s.push(x)[s.len() as int] == y);
    }
    if s.push(x).contains(y) {
        let p = choose|p: int| 0 <= p < s.push(x).len() && s.push(x)[p] == y;
        if p < s.len() {
            assert(s[p] == y);
        }
    }
}

proof fn lemma_swap_removed_contains<T>(s: Seq<T>, p: int, y: T)
    requires
        s.no_duplicates(),
        0 <= p < s.len(),
    ensures
        swap_removed_at(s, p).contains(y) <==> (s.contains(y) && y != s[p]),
{
    let t = swap_removed_at(s, p);
    let last = s.len() - 1;
    if t.contains(y) {
        let q = choose|q: int| 0 <= q < t.len() && t[q] == y;
        if q == p {
            assert(s[last] == y);
            assert(last != p);
        } else {
            assert(s[q] == y);
        }
    }
    if s.contains(y) && y != s[p] {
        let q = choose|q: int| 0 <= q < s.len() && s[q] == y;
        assert(q != p);
        if q == last {
            assert(t[p] == y);
        } else {
            assert(t[q] == y);
        }
    }
}

/// Adds the entry `e`, which goes at position `n`, to the ordinal index of
/// kind `kind`.
fn ordinal_index_push(
    m: &mut BTreeMap<u64, usize>,
    Ghost(v): Ghost<Seq<VersionedCrdsValue>>,
    kind: u8,
    e: &VersionedCrdsValue,
    n: usize,
)
    requires
        ordinal_index_ok(old(m)@, v, kind),
        n == v.len(),
        forall|i: int| 0 <= i < v.len() ==> (#[trigger] v[i]).ordinal < e.ordinal,
    ensures
        ordinal_index_ok(final(m)@, v.push(*e), kind),
{
    let ghost w = v.push(*e);
    if kind == ALL_KINDS || e.value.data.tag() == kind {
        m.insert(e.ordinal, n);
        assert forall|o: u64| #[trigger] m@.contains_key(o) implies {
            &&& m@[o] < w.len()
            &&& w[m@[o] as int].ordinal == o
            &&& in_kind(kind, w[m@[o] as int].value.data)
        } by {
            if o != e.ordinal {
                assert(old(m)@.contains_key(o));
                assert(w[old(m)@[o] as int] == v[old(m)@[o] as int]);
            }
        }
        assert forall|i: int| 0 <= i < w.len() && in_kind(kind, (#[trigger] w[i]).value.data) implies m@.contains_key(
            w[i].ordinal,
        ) by {
            if i < v.len() {
                assert(w[i] == v[i]);
            }
        }
    } else {
        assert forall|o: u64| #[trigger] m@.contains_key(o) implies {
            &&& m@[o] < w.len()
            &&& w[m@[o] as int].ordinal == o
            &&& in_kind(kind, w[m@[o] as int].value.data)
        } by {
            assert(w[m@[o] as int] == v[m@[o] as int]);
        }
        assert forall|i: int| 0 <= i < w.len() && in_kind(kind, (#[trigger] w[i]).value.data) implies m@.contains_key(
            w[i].ordinal,
        ) by {
            if i < v.len() {
                assert(w[i] == v[i]);
            }
        }
    }
}

/// Replaces, in the ordinal index of kind `kind`, the entry at position `i`
/// with `e`, of the same kind and with a new ordinal.
fn ordinal_index_replace(
    m: &mut BTreeMap<u64, usize>,
    Ghost(v): Ghost<Seq<VersionedCrdsValue>>,
    kind: u8,
    i: usize,
    old_ordinal: u64,
    e: &VersionedCrdsValue,
)
    requires
        ordinal_index_ok(old(m)@, v, kind),
        ordinals_ok(v, e.ordinal),
        i < v.len(),
        v[i as int].ordinal == old_ordinal,
        v[i as int].value.data.spec_tag() == e.value.data.spec_tag(),
    ensures
        ordinal_index_ok(final(m)@, v.update(i as int, *e), kind),
{
    let ghost w = v.update(i as int, *e);
    if kind == ALL_KINDS || e.value.data.tag() == kind {
        m.remove(&old_ordinal);
        m.insert(e.ordinal, i);
        assert forall|o: u64| #[trigger] m@.contains_key(o) implies {
            &&& m@[o] < w.len()
            &&& w[m@[o] as int].ordinal == o
            &&& in_kind(kind, w[m@[o] as int].value.data)
        } by {
            if o != e.ordinal {
                assert(old(m)@.contains_key(o));
                assert(o != old_ordinal);
                let j = old(m)@[o] as int;
                assert(v[j].ordinal == o);
                assert(j != i);
                assert(w[j] == v[j]);
            }
        }
        assert forall|j: int| 0 <= j < w.len() && in_kind(kind, (#[trigger] w[j]).value.data) implies m@.contains_key(
            w[j].ordinal,
        ) by {
            if j != i {
                assert(w[j] == v[j]);
                assert(v[j].ordinal != v[i as int].ordinal);
            }
        }
    } else {
        assert(!in_kind(kind, v[i as int].value.data));
        assert forall|o: u64| #[trigger] m@.contains_key(o) implies {
            &&& m@[o] < w.len()
            &&& w[m@[o] as int].ordinal == o
            &&& in_kind(kind, w[m@[o] as int].value.data)
        } by {
            let j = m@[o] as int;
            assert(j != i);
            assert(w[j] == v[j]);
        }
        assert forall|j: int| 0 <= j < w.len() && in_kind(kind, (#[trigger] w[j]).value.data) implies m@.contains_key(
            w[j].ordinal,
        ) by {
            assert(j != i);
            assert(w[j] == v[j]);
        }
    }
}

proof fn lemma_has_key_push(s: Seq<(usize, u64)>, x: (usize, u64), y: usize)
    ensures
        has_key(s.push(x), y) <==> (has_key(s, y) || x.0 == y),
{
    if has_key(s, y) {
        let p = choose|p: int| 0 <= p < s.len() && s[p].0 == y;
        assert(s.push(x)[p].0 == y);
    }
    if x.0 == y {
        assert(s.push(x)[s.len() as int].0 == y);
    }
    if has_key(s.push(x), y) {
        let p = choose|p: int| 0 <= p < s.push(x).len() && s.push(x)[p].0 == y;
        if p < s.len() {
            assert(s[p].0 == y);
        }
    }
}

proof fn lemma_has_key_swap_removed(s: Seq<(usize, u64)>, p: int, y: usize)
    requires
        distinct_keys(s),
        0 <= p < s.len(),
    ensures
        has_key(swap_removed(s, p), y) <==> (has_key(s, y) && y != s[p].0),
        forall|q: int| 0 <= q < swap_removed(s, p).len() ==> exists|r: int|
            0 <= r < s.len() && r != p && #[trigger] swap_removed(s, p)[q] == s[r],
{
    let t = swap_removed(s, p);
    let last = s.len() - 1;
    if has_key(t, y) {
        let q = choose|q: int| 0 <= q < t.len() && t[q].0 == y;
        if q == p {
            assert(t[q] == s[last]);
            assert(last != p);
        } else {
            assert(t[q] == s[q]);
        }
    }
    if has_key(s, y) && y != s[p].0 {
        let q = choose|q: int| 0 <= q < s.len() && s[q].0 == y;
        if q == last {
            assert(t[p] == s[q]);
        } else {
            assert(t[q] == s[q]);
        }
    }
    assert forall|q: int| 0 <= q < t.len() implies exists|r: int| 0 <= r < s.len() && r != p && #[trigger] t[q] == s[r] by {
        if q == p {
            assert(t[q] == s[last]);
        } else {
            assert(t[q] == s[q]);
        }
    }
}

/// In consistent shards, position `i` sits only in the shard of its hash.
proof fn lemma_shards_unique(s: Seq<Seq<(usize, u64)>>, v: Seq<VersionedCrdsValue>, i: usize, k: int)
    requires
        crate::crds_shards::shards_wf(s, CRDS_SHARDS_BITS),
        shards_ok(s, v),
        i < v.len(),
        0 <= k < s.len(),
        k != shard_of(hash_u64(v[i as int].value.hash), CRDS_SHARDS_BITS),
    ensures
        !has_key(s[k], i),
{
    if has_key(s[k], i) {
        let j = choose|j: int| 0 <= j < s[k].len() && s[k][j].0 == i;
        assert(s[k][j].1 == hash_u64(v[i as int].value.hash));
        assert(shard_of(s[k][j].1, CRDS_SHARDS_BITS) == k);
    }
}

/// Adds the entry `e`, which goes at position `n`, to the shards.
fn shards_push(shards: &mut CrdsShards, Ghost(v): Ghost<Seq<VersionedCrdsValue>>, e: &VersionedCrdsValue, n: usize)
    requires
        old(shards).wf(),
        old(shards).bits() == CRDS_SHARDS_BITS,
        shards_ok(old(shards)@, v),
        n == v.len(),
    ensures
        final(shards).wf(),
        final(shards).bits() == CRDS_SHARDS_BITS,
        shards_ok(final(shards)@, v.push(*e)),
{
    let ghost s = shards@;
    let ghost w = v.push(*e);
    let h = hash_as_u64(&e.value.hash);
    let ghost k = shard_of(h, CRDS_SHARDS_BITS);
    proof {
        if has_key(s[k], n) {
            let j = choose|j: int| 0 <= j < s[k].len() && s[k][j].0 == n;
            assert(s[k][j].0 < v.len());
        }
    }
    let fresh = shards.insert(n, h);
    assert(fresh);
    let ghost t = shards@;
    assert(t == s.update(k, s[k].push((n, h))));
    assert forall|a: int, b: int| 0 <= a < t.len() && 0 <= b < t[a].len() implies {
        &&& (#[trigger] t[a][b]).0 < w.len()
        &&& t[a][b].1 == hash_u64(w[t[a][b].0 as int].value.hash)
    } by {
        if a == k && b == s[k].len() {
            assert(t[a][b] == (n, h));
        } else {
            assert(t[a][b] == s[a][b]);
            assert(w[s[a][b].0 as int] == v[s[a][b].0 as int]);
        }
    }
    assert forall|i: int| 0 <= i < w.len() implies has_key(
        t[shard_of(hash_u64((#[trigger] w[i]).value.hash), CRDS_SHARDS_BITS)],
        i as usize,
    ) by {
        let ki = shard_of(hash_u64(w[i].value.hash), CRDS_SHARDS_BITS);
        if i < v.len() {
            assert(w[i] == v[i]);
            if ki == k {
                lemma_has_key_push(s[k], (n, h), i as usize);
            }
        } else {
            lemma_has_key_push(s[k], (n, h), i as usize);
        }
    }
}

/// Replaces, in the shards, the entry at position `i`, whose hash is
/// `old_hash`, with `e`.
fn shards_replace(
    shards: &mut CrdsShards,
    Ghost(v): Ghost<Seq<VersionedCrdsValue>>,
    i: usize,
    old_hash: u64,
    e: &VersionedCrdsValue,
)
    requires
        old(shards).wf(),
        old(shards).bits() == CRDS_SHARDS_BITS,
        shards_ok(old(shards)@, v),
        i < v.len(),
        v.len() <= usize::MAX,
        old_hash == hash_u64(v[i as int].value.hash),
    ensures
        final(shards).wf(),
        final(shards).bits() == CRDS_SHARDS_BITS,
        shards_ok(final(shards)@, v.update(i as int, *e)),
{
    let ghost s = shards@;
    let ghost w = v.update(i as int, *e);
    let ghost k0 = shard_of(old_hash, CRDS_SHARDS_BITS);
    let removed = shards.remove(i, old_hash);
    assert(removed);
    let ghost s1 = shards@;
    let ghost p = choose|p: int|
        0 <= p < s[k0].len() && s[k0][p].0 == i && s1 == s.update(k0, swap_removed(s[k0], p));
    proof {
        lemma_has_key_swap_removed(s[k0], p, i);
        assert forall|k: int| 0 <= k < s1.len() implies !has_key(#[trigger] s1[k], i) by {
            if k != k0 {
                lemma_shards_unique(s, v, i, k);
            }
        }
    }
    let h = hash_as_u64(&e.value.hash);
    let ghost k1 = shard_of(h, CRDS_SHARDS_BITS);
    let fresh = shards.insert(i, h);
    assert(fresh);
    let ghost t = shards@;
    assert(t == s1.update(k1, s1[k1].push((i, h))));
    assert forall|a: int, b: int| 0 <= a < t.len() && 0 <= b < t[a].len() implies {
        &&& (#[trigger] t[a][b]).0 < w.len()
        &&& t[a][b].1 == hash_u64(w[t[a][b].0 as int].value.hash)
    } by {
        if a == k1 && b == s1[k1].len() {
            assert(t[a][b] == (i, h));
        } else {
            assert(t[a][b] == s1[a][b]);
            if a == k0 {
                lemma_has_key_swap_removed(s[k0], p, i);
                let r = choose|r: int| 0 <= r < s[k0].len() && r != p && swap_removed(s[k0], p)[b] == s[k0][r];
                assert(s1[a][b] == s[k0][r]);
                assert(s[k0][r].0 != i) by {
                    assert(distinct_keys(s[k0]));
                }
            } else {
                assert(s1[a][b] == s[a][b]);
                assert(s[a][b].0 != i) by {
                    if s[a][b].0 == i {
                        assert(has_key(s1[a], i));
                    }
                }
            }
            assert(w[t[a][b].0 as int] == v[t[a][b].0 as int]);
        }
    }
    assert forall|j: int| 0 <= j < w.len() implies has_key(
        t[shard_of(hash_u64((#[trigger] w[j]).value.hash), CRDS_SHARDS_BITS)],
        j as usize,
    ) by {
        let kj = shard_of(hash_u64(w[j].value.hash), CRDS_SHARDS_BITS);
        if j == i {
            lemma_has_key_push(s1[k1], (i, h), i);
        } else {
            assert(w[j] == v[j]);
            assert(has_key(s[kj], j as usize));
            if kj == k0 {
                lemma_has_key_swap_removed(s[k0], p, j as usize);
            }
            assert(has_key(s1[kj], j as usize));
            if kj == k1 {
                lemma_has_key_push(s1[k1], (i, h), j as usize);
            }
        }
    }
}

/// Adds the entry `e`, which goes at position `n`, to the node index.
fn nodes_push(nodes: &mut IndexSet<usize>, Ghost(v): Ghost<Seq<VersionedCrdsValue>>, e: &VersionedCrdsValue, n: usize)
    requires
        nodes_ok(index_items(*old(nodes)), v),
        n == v.len(),
    ensures
        nodes_ok(index_items(*final(nodes)), v.push(*e)),
{
    let ghost w = v.push(*e);
    let ghost before = index_items(*nodes);
    if let CrdsData::ContactInfo(_) = e.value.data {
        index_set_insert(nodes, n);
        assert forall|x: usize| #[trigger] index_items(*nodes).contains(x) <==> (x < w.len() && is_contact(
            w[x as int].value.data,
        )) by {
            lemma_push_contains(before, n, x);
            if x < n {
                assert(w[x as int] == v[x as int]);
            }
        }
    } else {
        assert forall|x: usize| #[trigger] index_items(*nodes).contains(x) <==> (x < w.len() && is_contact(
            w[x as int].value.data,
        )) by {
            if x < n {
                assert(w[x as int] == v[x as int]);
            }
        }
    }
}

proof fn lemma_nodes_replace(nodes: Seq<usize>, v: Seq<VersionedCrdsValue>, i: int, e: VersionedCrdsValue)
    requires
        nodes_ok(nodes, v),
        0 <= i < v.len(),
        is_contact(v[i].value.data) == is_contact(e.value.data),
    ensures
        nodes_ok(nodes, v.update(i, e)),
{
    let w = v.update(i, e);
    assert forall|x: usize| #[trigger] nodes.contains(x) <==> (x < w.len() && is_contact(w[x as int].value.data)) by {
        if x < w.len() && x != i {
            assert(w[x as int] == v[x as int]);
        }
    }
}

/// Adds position `n`, of the entry `e`, to the records of `e`'s node.
fn records_push(
    records: &mut BTreeMap<(u128, u128), IndexSet<usize>>,
    Ghost(v): Ghost<Seq<VersionedCrdsValue>>,
    e: &VersionedCrdsValue,
    pk: (u128, u128),
    n: usize,
)
    requires
        records_ok(old(records)@, v),
        n == v.len(),
        pk == pubkey_key(e.value.pubkey),
    ensures
        records_ok(final(records)@, v.push(*e)),
        final(records)@.dom() == old(records)@.dom().insert(pk),
{
    let ghost w = v.push(*e);
    let ghost r0 = records@;
    let set = match records.remove(&pk) {
        Some(set) => {
            let mut set = set;
            proof {
                assert(!index_items(set).contains(n)) by {
                    if index_items(set).contains(n) {
                        assert(n < v.len());
                    }
                }
            }
            index_set_insert(&mut set, n);
            set
        },
        None => {
            let mut set = index_set_new();
            index_set_insert(&mut set, n);
            set
        },
    };
    let ghost items = index_items(set);
    proof {
        assert forall|x: usize| #[trigger] items.contains(x) <==> (x < w.len() && key_at(w, x as int) == pk) by {
            if r0.contains_key(pk) {
                lemma_push_contains(index_items(r0[pk]), n, x);
            } else {
                lemma_push_contains(Seq::<usize>::empty(), n, x);
                if x < v.len() && key_at(v, x as int) == pk {
                    assert(r0.contains_key(key_at(v, x as int)));
                }
            }
            if x < n {
                assert(w[x as int] == v[x as int]);
            }
        }
        assert(items.contains(n)) by {
            assert(key_at(w, n as int) == pk);
        }
    }
    records.insert(pk, set);
    assert(records@ == r0.insert(pk, set));
    assert forall|q: (u128, u128)| #[trigger] records@.contains_key(q) implies {
        &&& index_items(records@[q]).no_duplicates()
        &&& index_items(records@[q]).len() > 0
        &&& forall|x: usize| #[trigger] index_items(records@[q]).contains(x) <==> (x < w.len() && key_at(w, x as int) == q)
    } by {
        if q != pk {
            assert(r0.contains_key(q));
            assert forall|x: usize| #[trigger] index_items(records@[q]).contains(x) <==> (x < w.len() && key_at(w, x as int) == q) by {
                if x < n {
                    assert(w[x as int] == v[x as int]);
                }
            }
        } else {
            assert(index_items(records@[q]).contains(n));
        }
    }
    assert forall|i: int| 0 <= i < w.len() implies records@.contains_key(#[trigger] key_at(w, i)) by {
        if i < v.len() {
            assert(w[i] == v[i]);
            assert(r0.contains_key(key_at(v, i)));
        }
    }
    assert(records@.dom() =~= r0.dom().insert(pk));
}

proof fn lemma_records_replace(r: Map<(u128, u128), IndexSet<usize>>, v: Seq<VersionedCrdsValue>, i: int, e: VersionedCrdsValue)
    requires
        records_ok(r, v),
        0 <= i < v.len(),
        key_at(v, i) == pubkey_key(e.value.pubkey),
    ensures
        records_ok(r, v.update(i, e)),
{
    let w = v.update(i, e);
    assert forall|q: (u128, u128)| #[trigger] r.contains_key(q) implies {
        &&& index_items(r[q]).no_duplicates()
        &&& index_items(r[q]).len() > 0
        &&& forall|x: usize| #[trigger] index_items(r[q]).contains(x) <==> (x < w.len() && key_at(w, x as int) == q)
    } by {
        assert forall|x: usize| #[trigger] index_items(r[q]).contains(x) <==> (x < w.len() && key_at(w, x as int) == q) by {
            if x < w.len() && x != i {
                assert(w[x as int] == v[x as int]);
            }
        }
    }
    assert forall|j: int| 0 <= j < w.len() implies r.contains_key(#[trigger] key_at(w, j)) by {
        if j != i {
            assert(w[j] == v[j]);
        }
        assert(r.contains_key(key_at(v, j)));
    }
}

/// Two contact informations with the same node key have the same label.
proof fn lemma_contact_label(v: Seq<VersionedCrdsValue>, j: int, e: CrdsValue)
    requires
        0 <= j < v.len(),
        is_contact(v[j].value.data),
        is_contact(e.data),
        key_at(v, j) == pubkey_key(e.pubkey),
    ensures
        label_of(v[j].value) == label_of(e),
{
}

/// Records the shred version of `e`, which goes at position `n`, if it is
/// contact information.
fn shred_versions_push(
    sv: &mut BTreeMap<(u128, u128), u16>,
    Ghost(r0): Ghost<Map<(u128, u128), IndexSet<usize>>>,
    Ghost(r1): Ghost<Map<(u128, u128), IndexSet<usize>>>,
    Ghost(v): Ghost<Seq<VersionedCrdsValue>>,
    e: &VersionedCrdsValue,
    pk: (u128, u128),
)
    requires
        shred_versions_ok(old(sv)@, r0, v),
        r1.dom() == r0.dom().insert(pk),
        pk == pubkey_key(e.value.pubkey),
        forall|j: int| 0 <= j < v.len() ==> label_of((#[trigger] v[j]).value) != label_of(e.value),
    ensures
        shred_versions_ok(final(sv)@, r1, v.push(*e)),
        final(sv)@ == (match e.value.data {
            CrdsData::ContactInfo(c) => old(sv)@.insert(pk, c.shred_version),
            _ => old(sv)@,
        }),
{
    let ghost w = v.push(*e);
    let ghost s0 = sv@;
    if let CrdsData::ContactInfo(node) = e.value.data {
        sv.insert(pk, node.shred_version);
        assert forall|i: int| 0 <= i < w.len() implies match (#[trigger] w[i]).value.data {
            CrdsData::ContactInfo(c) => sv@.contains_key(key_at(w, i)) && sv@[key_at(w, i)] == c.shred_version,
            _ => true,
        } by {
            if i < v.len() {
                assert(w[i] == v[i]);
                if is_contact(v[i].value.data) && key_at(v, i) == pk {
                    lemma_contact_label(v, i, e.value);
                }
            }
        }
        assert forall|q: (u128, u128)| #[trigger] sv@.contains_key(q) implies r1.contains_key(q) by {
            if q != pk {
                assert(s0.contains_key(q));
                assert(r0.contains_key(q));
            }
        }
    } else {
        assert forall|i: int| 0 <= i < w.len() implies match (#[trigger] w[i]).value.data {
            CrdsData::ContactInfo(c) => sv@.contains_key(key_at(w, i)) && sv@[key_at(w, i)] == c.shred_version,
            _ => true,
        } by {
            if i < v.len() {
                assert(w[i] == v[i]);
            }
        }
        assert forall|q: (u128, u128)| #[trigger] sv@.contains_key(q) implies r1.contains_key(q) by {
            assert(r0.contains_key(q));
        }
    }
}

/// Records the shred version of `e`, which replaces the entry at position
/// `i`, if it is contact information.
fn shred_versions_replace(
    sv: &mut BTreeMap<(u128, u128), u16>,
    Ghost(r): Ghost<Map<(u128, u128), IndexSet<usize>>>,
    Ghost(v): Ghost<Seq<VersionedCrdsValue>>,
    i: usize,
    e: &VersionedCrdsValue,
    pk: (u128, u128),
)
    requires
        shred_versions_ok(old(sv)@, r, v),
        records_ok(r, v),
        i < v.len(),
        pk == pubkey_key(e.value.pubkey),
        label_of(v[i as int].value) == label_of(e.value),
        labels_distinct(v),
    ensures
        shred_versions_ok(final(sv)@, r, v.update(i as int, *e)),
        final(sv)@ == (match e.value.data {
            CrdsData::ContactInfo(c) => old(sv)@.insert(pk, c.shred_version),
            _ => old(sv)@,
        }),
{
    let ghost w = v.update(i as int, *e);
    let ghost s0 = sv@;
    assert(key_at(v, i as int) == pk);
    assert(r.contains_key(key_at(v, i as int)));
    if let CrdsData::ContactInfo(node) = e.value.data {
        sv.insert(pk, node.shred_version);
        assert forall|j: int| 0 <= j < w.len() implies match (#[trigger] w[j]).value.data {
            CrdsData::ContactInfo(c) => sv@.contains_key(key_at(w, j)) && sv@[key_at(w, j)] == c.shred_version,
            _ => true,
        } by {
            if j != i {
                assert(w[j] == v[j]);
                if is_contact(v[j].value.data) && key_at(v, j) == pk {
                    lemma_contact_label(v, j, e.value);
                    assert(label_of(v[j].value) != label_of(v[i as int].value));
                }
            }
        }
    } else {
        assert forall|j: int| 0 <= j < w.len() implies match (#[trigger] w[j]).value.data {
            CrdsData::ContactInfo(c) => sv@.contains_key(key_at(w, j)) && sv@[key_at(w, j)] == c.shred_version,
            _ => true,
        } by {
            if j != i {
                assert(w[j] == v[j]);
            }
        }
    }
}

/// The entry that inserting `value` at time `now`, by `route`, stores when
/// the cursor stands at `cursor`.
pub open spec fn new_entry(cursor: u64, value: CrdsValue, now: u64, route: GossipRoute) -> VersionedCrdsValue {
    VersionedCrdsValue { ordinal: cursor, value, local_timestamp: now, num_push_recv: route.spec_push_count() }
}

/// The shred versions after `value` is stored.
pub open spec fn shred_versions_after(sv: Map<(u128, u128), u16>, value: CrdsValue) -> Map<(u128, u128), u16> {
    match value.data {
        CrdsData::ContactInfo(c) => sv.insert(pubkey_key(value.pubkey), c.shred_version),
        _ => sv,
    }
}

/// How many times a stored entry counts as pushed.
pub open spec fn push_count(e: VersionedCrdsValue) -> u8 {
    match e.num_push_recv {
        Some(k) => k,
        None => 0,
    }
}

/// `k + 1`, or `k` at the maximum.
pub open spec fn saturating_inc(k: u8) -> u8 {
    if k == u8::MAX { k } else { (k + 1) as u8 }
}

proof fn lemma_position_of(v: Seq<VersionedCrdsValue>, key: LabelKey, i: int)
    requires
        labels_distinct(v),
        0 <= i < v.len(),
        label_of(v[i].value) == key,
    ensures
        position_of(v, key) == Some(i),
{
    let j = choose|j: int| 0 <= j < v.len() && label_of(v[j].value) == key;
    if j != i {
        assert(label_of(v[i].value) != label_of(v[j].value));
    }
}

/// Changing only the push count of the entry at `i` leaves every index
/// consistent.
proof fn lemma_same_entry_indices(
    shards: Seq<Seq<(usize, u64)>>,
    votes: Map<u64, usize>,
    epoch_slots: Map<u64, usize>,
    duplicate_shreds: Map<u64, usize>,
    entries: Map<u64, usize>,
    sv: Map<(u128, u128), u16>,
    records: Map<(u128, u128), IndexSet<usize>>,
    v: Seq<VersionedCrdsValue>,
    i: int,
    e: VersionedCrdsValue,
)
    requires
        0 <= i < v.len(),
        e.value == v[i].value,
        e.ordinal == v[i].ordinal,
        shards_ok(shards, v),
        ordinal_index_ok(votes, v, VOTE_TAG),
        ordinal_index_ok(epoch_slots, v, EPOCH_SLOTS_TAG),
        ordinal_index_ok(duplicate_shreds, v, DUPLICATE_SHRED_TAG),
        ordinal_index_ok(entries, v, ALL_KINDS),
        shred_versions_ok(sv, records, v),
    ensures
        shards_ok(shards, v.update(i, e)),
        ordinal_index_ok(votes, v.update(i, e), VOTE_TAG),
        ordinal_index_ok(epoch_slots, v.update(i, e), EPOCH_SLOTS_TAG),
        ordinal_index_ok(duplicate_shreds, v.update(i, e), DUPLICATE_SHRED_TAG),
        ordinal_index_ok(entries, v.update(i, e), ALL_KINDS),
        shred_versions_ok(sv, records, v.update(i, e)),
{
    let w = v.update(i, e);
    assert forall|j: int| 0 <= j < w.len() implies (#[trigger] w[j]).value == v[j].value && w[j].ordinal == v[j].ordinal by {
        if j != i {
            assert(w[j] == v[j]);
        }
    }
    assert forall|k: int, j: int| 0 <= k < shards.len() && 0 <= j < shards[k].len() implies {
        &&& (#[trigger] shards[k][j]).0 < w.len()
        &&& shards[k][j].1 == hash_u64(w[shards[k][j].0 as int].value.hash)
    } by {
        assert(w[shards[k][j].0 as int].value == v[shards[k][j].0 as int].value);
    }
    assert forall|j: int| 0 <= j < w.len() implies has_key(
        shards[shard_of(hash_u64((#[trigger] w[j]).value.hash), CRDS_SHARDS_BITS)],
        j as usize,
    ) by {
        assert(w[j].value == v[j].value);
        assert(has_key(shards[shard_of(hash_u64(v[j].value.hash), CRDS_SHARDS_BITS)], j as usize));
    }
    lemma_ordinal_index_same(votes, v, VOTE_TAG, i, e);
    lemma_ordinal_index_same(epoch_slots, v, EPOCH_SLOTS_TAG, i, e);
    lemma_ordinal_index_same(duplicate_shreds, v, DUPLICATE_SHRED_TAG, i, e);
    lemma_ordinal_index_same(entries, v, ALL_KINDS, i, e);
    assert forall|j: int| 0 <= j < w.len() implies match (#[trigger] w[j]).value.data {
        CrdsData::ContactInfo(c) => sv.contains_key(key_at(w, j)) && sv[key_at(w, j)] == c.shred_version,
        _ => true,
    } by {
        assert(w[j].value == v[j].value);
        assert(key_at(w, j) == key_at(v, j));
        let _ = v[j];
    }
}

proof fn lemma_ordinal_index_same(m: Map<u64, usize>, v: Seq<VersionedCrdsValue>, kind: u8, i: int, e: VersionedCrdsValue)
    requires
        0 <= i < v.len(),
        e.value == v[i].value,
        e.ordinal == v[i].ordinal,
        ordinal_index_ok(m, v, kind),
    ensures
        ordinal_index_ok(m, v.update(i, e), kind),
{
    let w = v.update(i, e);
    assert forall|o: u64| #[trigger] m.contains_key(o) implies {
        &&& m[o] < w.len()
        &&& w[m[o] as int].ordinal == o
        &&& in_kind(kind, w[m[o] as int].value.data)
    } by {
        let j = m[o] as int;
        if j != i {
            assert(w[j] == v[j]);
        }
    }
    assert forall|j: int| 0 <= j < w.len() && in_kind(kind, (#[trigger] w[j]).value.data) implies m.contains_key(w[j].ordinal) by {
        if j != i {
            assert(w[j] == v[j]);
        }
        let _ = v[j];
    }
}

// ---------------------------------------------------------------------
// How the indices follow the table when the entry at `index` is removed
// and the last entry moves into its place.

/// Drops the entry at `index` from the ordinal index of kind `kind`, and
/// moves the last entry to `index`.
fn ordinal_index_swap_remove(
    m: &mut BTreeMap<u64, usize>,
    Ghost(v): Ghost<Seq<VersionedCrdsValue>>,
    Ghost(c): Ghost<u64>,
    kind: u8,
    index: usize,
    removed: &VersionedCrdsValue,
    moved: &VersionedCrdsValue,
    n: usize,
)
    requires
        ordinal_index_ok(old(m)@, v, kind),
        ordinals_ok(v, c),
        n == v.len(),
        index < n,
        *removed == v[index as int],
        *moved == v[n - 1],
    ensures
        ordinal_index_ok(final(m)@, swap_removed_at(v, index as int), kind),
{
    let ghost w = swap_removed_at(v, index as int);
    let ghost m0 = m@;
    let last = n - 1;
    let rem_in = kind == ALL_KINDS || removed.value.data.tag() == kind;
    let mov_in = kind == ALL_KINDS || moved.value.data.tag() == kind;
    if rem_in {
        m.remove(&removed.ordinal);
    }
    let ghost m1 = m@;
    if index < last && mov_in {
        m.insert(moved.ordinal, index);
    }
    let ghost m2 = m@;
    assert forall|o: u64| #[trigger] m2.contains_key(o) implies {
        &&& m2[o] < w.len()
        &&& w[m2[o] as int].ordinal == o
        &&& in_kind(kind, w[m2[o] as int].value.data)
    } by {
        if index < last && mov_in && o == moved.ordinal {
            assert(w[index as int] == v[last as int]);
        } else {
            assert(m0.contains_key(o));
            let j = m0[o] as int;
            assert(v[j].ordinal == o);
            if j == index {
                assert(false);
            }
            if j == last {
                assert(false);
            }
            assert(w[j] == v[j]);
        }
    }
    assert forall|j: int| 0 <= j < w.len() && in_kind(kind, (#[trigger] w[j]).value.data) implies m2.contains_key(w[j].ordinal) by {
        if j == index {
            assert(w[j] == v[last as int]);
        } else {
            assert(w[j] == v[j]);
            assert(m0.contains_key(v[j].ordinal));
            assert(v[j].ordinal != v[index as int].ordinal);
        }
    }
}

/// Drops the entry at `index` from the node index, and moves the last
/// entry to `index`.
fn nodes_swap_remove(
    nodes: &mut IndexSet<usize>,
    Ghost(v): Ghost<Seq<VersionedCrdsValue>>,
    index: usize,
    removed: &VersionedCrdsValue,
    moved: &VersionedCrdsValue,
    n: usize,
)
    requires
        nodes_ok(index_items(*old(nodes)), v),
        n == v.len(),
        index < n,
        *removed == v[index as int],
        *moved == v[n - 1],
    ensures
        nodes_ok(index_items(*final(nodes)), swap_removed_at(v, index as int)),
{
    let ghost w = swap_removed_at(v, index as int);
    let ghost n0 = index_items(*nodes);
    let last = n - 1;
    if let CrdsData::ContactInfo(_) = removed.value.data {
        index_set_swap_remove(nodes, index);
    }
    let ghost n1 = index_items(*nodes);
    assert forall|x: usize| #[trigger] n1.contains(x) <==> (n0.contains(x) && x != index) by {
        if is_contact(removed.value.data) {
            let p = choose|p: int| 0 <= p < n0.len() && n0[p] == index && n1 == swap_removed_at(n0, p);
            lemma_swap_removed_contains(n0, p, x);
        } else {
            if x == index {
                assert(!n0.contains(x));
            }
        }
    }
    if index < last {
        if let CrdsData::ContactInfo(_) = moved.value.data {
            index_set_swap_remove(nodes, last);
            let ghost n2 = index_items(*nodes);
            index_set_insert(nodes, index);
            proof {
                let p = choose|p: int| 0 <= p < n1.len() && n1[p] == last && n2 == swap_removed_at(n1, p);
                assert forall|x: usize| #[trigger] index_items(*nodes).contains(x) <==> (x < w.len() && is_contact(w[x as int].value.data)) by {
                    lemma_swap_removed_contains(n1, p, x);
                    lemma_swap_removed_contains(n1, p, index);
                    lemma_push_contains(n2, index, x);
                    if x < w.len() && x != index {
                        assert(w[x as int] == v[x as int]);
                    }
                    if x == index {
                        assert(w[x as int] == v[last as int]);
                    }
                }
            }
        } else {
            assert forall|x: usize| #[trigger] index_items(*nodes).contains(x) <==> (x < w.len() && is_contact(w[x as int].value.data)) by {
                if x < w.len() && x != index {
                    assert(w[x as int] == v[x as int]);
                }
                if x == index {
                    assert(w[x as int] == v[last as int]);
                }
            }
        }
    } else {
        assert forall|x: usize| #[trigger] index_items(*nodes).contains(x) <==> (x < w.len() && is_contact(w[x as int].value.data)) by {
            if x < w.len() {
                assert(w[x as int] == v[x as int]);
            }
        }
    }
}

/// Drops the entry at `index` from the shards, and moves the last entry to
/// `index`.
#[verifier::rlimit(60)]
#[verifier::spinoff_prover]
fn shards_swap_remove(
    shards: &mut CrdsShards,
    Ghost(v): Ghost<Seq<VersionedCrdsValue>>,
    index: usize,
    removed: &VersionedCrdsValue,
    moved: &VersionedCrdsValue,
    n: usize,
)
    requires
        old(shards).wf(),
        old(shards).bits() == CRDS_SHARDS_BITS,
        shards_ok(old(shards)@, v),
        n == v.len(),
        index < n,
        *removed == v[index as int],
        *moved == v[n - 1],
    ensures
        final(shards).wf(),
        final(shards).bits() == CRDS_SHARDS_BITS,
        shards_ok(final(shards)@, swap_removed_at(v, index as int)),
{
    let ghost w = swap_removed_at(v, index as int);
    let ghost s = shards@;
    let last = n - 1;
    let h0 = hash_as_u64(&removed.value.hash);
    let ghost k0 = shard_of(h0, CRDS_SHARDS_BITS);
    let r0 = shards.remove(index, h0);
    assert(r0);
    let ghost s1 = shards@;
    let ghost p0 = choose|p: int|
        0 <= p < s[k0].len() && s[k0][p].0 == index && s1 == s.update(k0, swap_removed(s[k0], p));
    // Elements of `s1` are elements of `s` other than `index`'s.
    proof {
        lemma_has_key_swap_removed(s[k0], p0, index);
        assert forall|k: int, j: int| 0 <= k < s1.len() && 0 <= j < s1[k].len() implies exists|jj: int|
            0 <= jj < s[k].len() && #[trigger] s1[k][j] == s[k][jj] && s[k][jj].0 != index by {
            if k == k0 {
                let r = choose|r: int| 0 <= r < s[k0].len() && r != p0 && swap_removed(s[k0], p0)[j] == s[k0][r];
                assert(s[k0][r].0 != s[k0][p0].0);
            } else {
                assert(s1[k][j] == s[k][j]);
                if s[k][j].0 == index {
                    lemma_shards_unique(s, v, index, k);
                    assert(has_key(s[k], index));
                }
            }
        }
        assert forall|j: int| 0 <= j < v.len() && j != index implies has_key(
            s1[shard_of(hash_u64((#[trigger] v[j]).value.hash), CRDS_SHARDS_BITS)],
            j as usize,
        ) by {
            let kj = shard_of(hash_u64(v[j].value.hash), CRDS_SHARDS_BITS);
            if kj == k0 {
                lemma_has_key_swap_removed(s[k0], p0, j as usize);
            }
        }
    }
    if index < last {
        let h1 = hash_as_u64(&moved.value.hash);
        let ghost k1 = shard_of(h1, CRDS_SHARDS_BITS);
        let r1 = shards.remove(last, h1);
        proof {
            assert(has_key(s1[k1], last));
        }
        assert(r1);
        let ghost s2 = shards@;
        let ghost p1 = choose|p: int|
            0 <= p < s1[k1].len() && s1[k1][p].0 == last && s2 == s1.update(k1, swap_removed(s1[k1], p));
        proof {
            lemma_has_key_swap_removed(s1[k1], p1, last);
            assert forall|k: int| 0 <= k < s2.len() implies !has_key(#[trigger] s2[k], index) by {
                if has_key(s2[k], index) {
                    let j = choose|j: int| 0 <= j < s2[k].len() && s2[k][j].0 == index;
                    if k == k1 {
                        let r = choose|r: int| 0 <= r < s1[k1].len() && r != p1 && swap_removed(s1[k1], p1)[j] == s1[k1][r];
                        let jj = choose|jj: int| 0 <= jj < s[k].len() && s1[k][r] == s[k][jj] && s[k][jj].0 != index;
                    } else {
                        assert(s2[k][j] == s1[k][j]);
                        let jj = choose|jj: int| 0 <= jj < s[k].len() && s1[k][j] == s[k][jj] && s[k][jj].0 != index;
                    }
                }
            }
        }
        let r2 = shards.insert(index, h1);
        assert(r2);
        let ghost s3 = shards@;
        assert(s3 == s2.update(k1, s2[k1].push((index, h1))));
        assert forall|a: int, b: int| 0 <= a < s3.len() && 0 <= b < s3[a].len() implies {
            &&& (#[trigger] s3[a][b]).0 < w.len()
            &&& s3[a][b].1 == hash_u64(w[s3[a][b].0 as int].value.hash)
        } by {
            if a == k1 && b == s2[k1].len() {
                assert(w[index as int] == v[last as int]);
            } else {
                assert(s3[a][b] == s2[a][b]);
                let b1 = if a == k1 {
                    choose|r: int| 0 <= r < s1[k1].len() && r != p1 && swap_removed(s1[k1], p1)[b] == s1[k1][r]
                } else {
                    b
                };
                assert(s2[a][b] == s1[a][b1]);
                assert(s1[a][b1].0 != last) by {
                    if a == k1 {
                        assert(s1[k1][b1].0 != s1[k1][p1].0);
                    } else {
                        if s1[a][b1].0 == last {
                            lemma_shards_unique(s, v, last, a);
                            let jj = choose|jj: int| 0 <= jj < s[a].len() && s1[a][b1] == s[a][jj] && s[a][jj].0 != index;
                            assert(has_key(s[a], last));
                        }
                    }
                }
                let jj = choose|jj: int| 0 <= jj < s[a].len() && s1[a][b1] == s[a][jj] && s[a][jj].0 != index;
                let x = s[a][jj].0 as int;
                assert(x < v.len());
                assert(w[x] == v[x]);
            }
        }
        assert forall|j: int| 0 <= j < w.len() implies has_key(
            s3[shard_of(hash_u64((#[trigger] w[j]).value.hash), CRDS_SHARDS_BITS)],
            j as usize,
        ) by {
            let kj = shard_of(hash_u64(w[j].value.hash), CRDS_SHARDS_BITS);
            if j == index {
                assert(w[j] == v[last as int]);
                lemma_has_key_push(s2[k1], (index, h1), index);
            } else {
                assert(w[j] == v[j]);
                assert(has_key(s1[kj], j as usize));
                if kj == k1 {
                    lemma_has_key_swap_removed(s1[k1], p1, j as usize);
                }
                assert(has_key(s2[kj], j as usize));
                if kj == k1 {
                    lemma_has_key_push(s2[k1], (index, h1), j as usize);
                }
            }
        }
    } else {
        assert forall|a: int, b: int| 0 <= a < s1.len() && 0 <= b < s1[a].len() implies {
            &&& (#[trigger] s1[a][b]).0 < w.len()
            &&& s1[a][b].1 == hash_u64(w[s1[a][b].0 as int].value.hash)
        } by {
            let jj = choose|jj: int| 0 <= jj < s[a].len() && s1[a][b] == s[a][jj] && s[a][jj].0 != index;
            let x = s[a][jj].0 as int;
            assert(w[x] == v[x]);
        }
        assert forall|j: int| 0 <= j < w.len() implies has_key(
            s1[shard_of(hash_u64((#[trigger] w[j]).value.hash), CRDS_SHARDS_BITS)],
            j as usize,
        ) by {
            assert(w[j] == v[j]);
        }
    }
}

/// Whether an entry other than the one at `index` belongs to the node of
/// the entry at `index`.
pub open spec fn node_keeps_entries(v: Seq<VersionedCrdsValue>, index: int) -> bool {
    exists|j: int| 0 <= j < v.len() && j != index && #[trigger] key_at(v, j) == key_at(v, index)
}

/// Drops the entry at `index` from its node's records, and the node's
/// shred version with its last entry; then moves the last entry to
/// `index`.
fn records_swap_remove(
    records: &mut BTreeMap<(u128, u128), IndexSet<usize>>,
    sv: &mut BTreeMap<(u128, u128), u16>,
    Ghost(v): Ghost<Seq<VersionedCrdsValue>>,
    index: usize,
    removed: &VersionedCrdsValue,
    moved: &VersionedCrdsValue,
    n: usize,
)
    requires
        records_ok(old(records)@, v),
        shred_versions_ok(old(sv)@, old(records)@, v),
        n == v.len(),
        index < n,
        *removed == v[index as int],
        *moved == v[n - 1],
    ensures
        records_ok(final(records)@, swap_removed_at(v, index as int)),
        shred_versions_ok(final(sv)@, final(records)@, swap_removed_at(v, index as int)),
        final(sv)@ == (if node_keeps_entries(v, index as int) {
            old(sv)@
        } else {
            old(sv)@.remove(key_at(v, index as int))
        }),
{
    let ghost w = swap_removed_at(v, index as int);
    let ghost r0 = records@;
    let ghost sv0 = sv@;
    let last = n - 1;
    let pk = removed.value.pubkey.key();
    assert(r0.contains_key(key_at(v, index as int)));
    let set_opt = records.remove(&pk);
    let mut set = match set_opt {
        Some(set) => set,
        None => {
            assert(false);
            index_set_new()
        },
    };
    let ghost items0 = index_items(set);
    assert(items0.contains(index));
    index_set_swap_remove(&mut set, index);
    let ghost items1 = index_items(set);
    assert forall|x: usize| #[trigger] items1.contains(x) <==> (x < v.len() && key_at(v, x as int) == pk && x != index) by {
        let p = choose|p: int| 0 <= p < items0.len() && items0[p] == index && items1 == swap_removed_at(items0, p);
        lemma_swap_removed_contains(items0, p, x);
    }
    let len1 = index_set_len(&set);
    if len1 == 0 {
        proof {
            assert(!node_keeps_entries(v, index as int)) by {
                if node_keeps_entries(v, index as int) {
                    let j = choose|j: int| 0 <= j < v.len() && j != index && #[trigger] key_at(v, j) == key_at(v, index as int);
                    assert(items1.contains(j as usize));
                }
            }
        }
        sv.remove(&pk);
    } else {
        proof {
            let x = items1[0];
            assert(items1.contains(x));
            assert(node_keeps_entries(v, index as int)) by {
                assert(key_at(v, x as int) == key_at(v, index as int));
            }
        }
        records.insert(pk, set);
    }
    let ghost r1 = records@;
    let ghost sv1 = sv@;
    // Where things stand once the entry at `index` is dropped.
    assert forall|q: (u128, u128)| #[trigger] r1.contains_key(q) implies {
        &&& index_items(r1[q]).no_duplicates()
        &&& index_items(r1[q]).len() > 0
        &&& forall|x: usize| #[trigger] index_items(r1[q]).contains(x) <==> (x < v.len() && key_at(v, x as int) == q && x != index)
    } by {
        if q != pk {
            assert(r0.contains_key(q));
            assert(r1[q] == r0[q]);
            assert forall|x: usize| #[trigger] index_items(r1[q]).contains(x) <==> (x < v.len() && key_at(v, x as int) == q && x != index) by {
            }
        } else {
            assert(r1[q] == set);
            assert(len1 > 0);
        }
    }
    assert forall|j: int| 0 <= j < v.len() && j != index implies r1.contains_key(#[trigger] key_at(v, j)) by {
        assert(r0.contains_key(key_at(v, j)));
        if key_at(v, j) == pk {
            assert(items1.contains(j as usize));
            if len1 == 0 {
                assert(items1.len() == 0);
            }
        }
    }
    if index < last {
        let mk = moved.value.pubkey.key();
        assert(key_at(v, last as int) == mk);
        assert(r1.contains_key(mk));
        let mset_opt = records.remove(&mk);
        let mut mset = match mset_opt {
            Some(m) => m,
            None => {
                assert(false);
                index_set_new()
            },
        };
        let ghost m0 = index_items(mset);
        assert(m0.contains(last));
        index_set_swap_remove(&mut mset, last);
        let ghost m1 = index_items(mset);
        proof {
            let p = choose|p: int| 0 <= p < m0.len() && m0[p] == last && m1 == swap_removed_at(m0, p);
            assert forall|x: usize| #[trigger] m1.contains(x) <==> (m0.contains(x) && x != last) by {
                lemma_swap_removed_contains(m0, p, x);
            }
            assert(!m1.contains(index));
        }
        index_set_insert(&mut mset, index);
        let ghost m2 = index_items(mset);
        records.insert(mk, mset);
        let ghost r2 = records@;
        assert forall|q: (u128, u128)| #[trigger] r2.contains_key(q) implies {
            &&& index_items(r2[q]).no_duplicates()
            &&& index_items(r2[q]).len() > 0
            &&& forall|x: usize| #[trigger] index_items(r2[q]).contains(x) <==> (x < w.len() && key_at(w, x as int) == q)
        } by {
            assert forall|x: usize| #[trigger] index_items(r2[q]).contains(x) <==> (x < w.len() && key_at(w, x as int) == q) by {
                if x < w.len() && x != index {
                    assert(w[x as int] == v[x as int]);
                }
                if x == index {
                    assert(w[x as int] == v[last as int]);
                }
                if q == mk {
                    assert(r2[q] == mset);
                    lemma_push_contains(m1, index, x);
                } else {
                    assert(r1.contains_key(q));
                    assert(r2[q] == r1[q]);
                }
            }
            if q == mk {
                lemma_push_contains(m1, index, index);
            }
        }
        assert forall|j: int| 0 <= j < w.len() implies r2.contains_key(#[trigger] key_at(w, j)) by {
            if j == index {
                assert(w[j] == v[last as int]);
            } else {
                assert(w[j] == v[j]);
                assert(r1.contains_key(key_at(v, j)));
            }
        }
        assert forall|j: int| 0 <= j < w.len() implies match (#[trigger] w[j]).value.data {
            CrdsData::ContactInfo(c) => sv1.contains_key(key_at(w, j)) && sv1[key_at(w, j)] == c.shred_version,
            _ => true,
        } by {
            let jj = if j == index { last as int } else { j };
            assert(w[j] == v[jj]);
            assert(key_at(w, j) == key_at(v, jj));
            let _ = v[jj];
            if len1 == 0 && key_at(v, jj) == pk {
                assert(items1.contains(jj as usize));
            }
        }
        assert forall|q: (u128, u128)| #[trigger] sv1.contains_key(q) implies r2.contains_key(q) by {
            assert(sv0.contains_key(q));
            assert(r0.contains_key(q));
            if q == pk && len1 == 0 {
                assert(false);
            }
            assert(r1.contains_key(q));
        }
    } else {
        assert forall|q: (u128, u128)| #[trigger] r1.contains_key(q) implies {
            &&& index_items(r1[q]).no_duplicates()
            &&& index_items(r1[q]).len() > 0
            &&& forall|x: usize| #[trigger] index_items(r1[q]).contains(x) <==> (x < w.len() && key_at(w, x as int) == q)
        } by {
            assert forall|x: usize| #[trigger] index_items(r1[q]).contains(x) <==> (x < w.len() && key_at(w, x as int) == q) by {
                if x < w.len() {
                    assert(w[x as int] == v[x as int]);
                }
            }
        }
        assert forall|j: int| 0 <= j < w.len() implies r1.contains_key(#[trigger] key_at(w, j)) by {
            assert(w[j] == v[j]);
            assert(j != index);
            assert(key_at(w, j) == key_at(v, j));
            assert(r1.contains_key(key_at(v, j)));
        }
        assert forall|j: int| 0 <= j < w.len() implies match (#[trigger] w[j]).value.data {
            CrdsData::ContactInfo(c) => sv1.contains_key(key_at(w, j)) && sv1[key_at(w, j)] == c.shred_version,
            _ => true,
        } by {
            assert(w[j] == v[j]);
            let _ = v[j];
            if len1 == 0 && key_at(v, j) == pk {
                assert(items1.contains(j as usize));
            }
        }
        assert forall|q: (u128, u128)| #[trigger] sv1.contains_key(q) implies r1.contains_key(q) by {
            assert(sv0.contains_key(q));
            assert(r0.contains_key(q));
            if q == pk && len1 == 0 {
                assert(false);
            }
        }
    }
}

/// `BTreeMap::range` from `start` on: the entries whose key is at least
/// `start`, in increasing key order (copied).
#[verifier::external_body]
fn btree_range_from(m: &BTreeMap<u64, usize>, start: u64) -> (r: Vec<(u64, usize)>)
    ensures
        forall|j: int, k: int| 0 <= j < k < r@.len() ==> r@[j].0 < r@[k].0,
        forall|o: u64, x: usize| #[trigger] r@.contains((o, x)) <==> (o >= start && m@.contains_key(o) && m@[o] == x),
{
    m.range(start..).map(|(k, v)| (*k, *v)).collect()
}

/// The positions of contact informations.
pub open spec fn contact_positions(v: Seq<VersionedCrdsValue>) -> Set<usize> {
    Set::new(|x: usize| x < v.len() && is_contact(v[x as int].value.data))
}

/// The keys of the nodes that have entries.
pub open spec fn node_keys(v: Seq<VersionedCrdsValue>) -> Set<(u128, u128)> {
    Set::new(|q: (u128, u128)| exists|i: int| 0 <= i < v.len() && key_at(v, i) == q)
}

/// The entries of kind `kind` stored at or after ordinal `from`, as a
/// cursor would consume them: in insert order.
pub open spec fn consumed_since(r: Seq<VersionedCrdsValue>, v: Seq<VersionedCrdsValue>, kind: u8, from: u64) -> bool {
    &&& forall|j: int, k: int| 0 <= j < k < r.len() ==> (#[trigger] r[j]).ordinal < (#[trigger] r[k]).ordinal
    &&& forall|e: VersionedCrdsValue| #[trigger] r.contains(e) <==> (exists|i: int|
        0 <= i < v.len() && v[i] == e && in_kind(kind, e.value.data) && e.ordinal >= from)
}

/// Where a cursor stands after consuming `r`.
pub open spec fn cursor_after(from: u64, r: Seq<VersionedCrdsValue>) -> u64 {
    if r.len() == 0 { from } else { (r.last().ordinal + 1) as u64 }
}

/// `e` with its local timestamp moved up to `now`, if earlier.
pub open spec fn refreshed(e: VersionedCrdsValue, now: u64) -> VersionedCrdsValue {
    if e.local_timestamp < now {
        VersionedCrdsValue { local_timestamp: now, ..e }
    } else {
        e
    }
}

/// The timeout of a node: its own, or the default.
pub open spec fn timeout_of(timeouts: Map<(u128, u128), u64>, default_timeout: u64, pk: (u128, u128)) -> u64 {
    if timeouts.contains_key(pk) { timeouts[pk] } else { default_timeout }
}

/// `a + b`, or `u64::MAX` when that overflows.
pub open spec fn saturating_add(a: u64, b: u64) -> u64 {
    if a + b > u64::MAX { u64::MAX } else { (a + b) as u64 }
}

/// Whether the entry has expired by `now` under timeout `t`: the earlier of
/// its wallclock and its local timestamp, plus `t`, is not after `now`.
pub open spec fn expired(e: VersionedCrdsValue, t: u64, now: u64) -> bool {
    let start = if e.value.wallclock < e.local_timestamp { e.value.wallclock } else { e.local_timestamp };
    saturating_add(start, t) <= now
}

/// Whether the node with key `pk` has contact information that has not
/// expired.
pub open spec fn node_alive(v: Seq<VersionedCrdsValue>, pk: (u128, u128), t: u64, now: u64) -> bool {
    exists|i: int| 0 <= i < v.len() && label_of(v[i].value) == (11u8, 0u16, pk.0, pk.1) && !expired(#[trigger] v[i], t, now)
}

/// Whether the entry at `i` is to be evicted: its node's contact
/// information is gone or expired, and the entry itself has expired.
pub open spec fn evicted(v: Seq<VersionedCrdsValue>, timeouts: Map<(u128, u128), u64>, default_timeout: u64, now: u64, i: int) -> bool {
    let t = timeout_of(timeouts, default_timeout, key_at(v, i));
    !node_alive(v, key_at(v, i), t, now) && expired(v[i], t, now)
}

/// What the table shows of itself: its entries in table order, the
/// cursor, the purged hashes and the shred versions.
pub struct CrdsState {
    pub table: Seq<VersionedCrdsValue>,
    pub cursor: u64,
    pub purged: Seq<(crate::crds_value::ValueHash, u64)>,
    pub shred_versions: Map<(u128, u128), u16>,
}

/// What inserting `value` at time `now` by `route` gives, from state `s`:
/// the new state and the outcome.
pub open spec fn spec_insert(s: CrdsState, value: CrdsValue, now: u64, route: GossipRoute) -> (CrdsState, Result<(), CrdsError>) {
    let v = s.table;
    let entry = new_entry(s.cursor, value, now, route);
    match position_of(v, label_of(value)) {
        None => (
            CrdsState {
                table: v.push(entry),
                cursor: (s.cursor + 1) as u64,
                purged: s.purged,
                shred_versions: shred_versions_after(s.shred_versions, value),
            },
            Ok(()),
        ),
        Some(i) => if spec_overrides(value, v[i].value) {
            (
                CrdsState {
                    table: v.update(i, entry),
                    cursor: (s.cursor + 1) as u64,
                    purged: s.purged.push((v[i].value.hash, now)),
                    shred_versions: shred_versions_after(s.shred_versions, value),
                },
                Ok(()),
            )
        } else if v[i].value.hash != value.hash {
            (CrdsState { purged: s.purged.push((value.hash, now)), ..s }, Err(CrdsError::InsertFailed))
        } else if route is PushMessage {
            (
                CrdsState {
                    table: v.update(
                        i,
                        VersionedCrdsValue { num_push_recv: Some(saturating_inc(push_count(v[i]))), ..v[i] },
                    ),
                    ..s
                },
                Err(CrdsError::DuplicatePush(push_count(v[i]))),
            )
        } else {
            (s, Err(CrdsError::InsertFailed))
        },
    }
}

/// The stakes, copied, in key order.
fn stake_values(m: &BTreeMap<(u128, u128), u64>) -> (r: Vec<u64>)
    ensures
        forall|x: u64| #[trigger] r@.contains(x) <==> (exists|k: (u128, u128)| m@.contains_key(k) && m@[k] == x),
{
    let mut r: Vec<u64> = Vec::new();
    let ghost vals = vstd::std_specs::iter::IteratorSpec::remaining(&vstd::std_specs::btree::spec_values_iter(m));
    for x in it: m.values()
        invariant
            it.seq() == vals,
            r@.len() == it.index(),
            forall|i: int| 0 <= i < r@.len() ==> r@[i] == *vals[i],
    {
        r.push(*x);
    }
    proof {
        assert(r@ =~= vals.unref());
        assert(vals.unref().to_set() == m@.values());
        assert forall|x: u64| #[trigger] r@.contains(x) <==> (exists|k: (u128, u128)| m@.contains_key(k) && m@[k] == x) by {
            assert(r@.contains(x) <==> r@.to_set().contains(x));
        }
    }
    r
}

/// The node keys of the records, copied, in key order.
fn record_keys(m: &BTreeMap<(u128, u128), IndexSet<usize>>) -> (r: Vec<(u128, u128)>)
    ensures
        r@.no_duplicates(),
        forall|k: (u128, u128)| #[trigger] r@.contains(k) <==> m@.contains_key(k),
{
    let mut r: Vec<(u128, u128)> = Vec::new();
    let ghost keys = vstd::std_specs::iter::IteratorSpec::remaining(&vstd::std_specs::btree::spec_keys_iter(m));
    for k in it: m.keys()
        invariant
            it.seq() == keys,
            r@.len() == it.index(),
            forall|i: int| 0 <= i < r@.len() ==> r@[i] == *keys[i],
    {
        r.push(*k);
    }
    proof {
        assert(r@ =~= keys.unref());
    }
    r
}

/// Whether no node is known to have stake: all stakes are zero, or none
/// is given.
pub open spec fn stakes_unknown(stakes: Map<(u128, u128), u64>) -> bool {
    forall|k: (u128, u128)| #[trigger] stakes.contains_key(k) ==> stakes[k] == 0
}

/// The stake of a node: its own, or zero.
pub open spec fn stake_of(stakes: Map<(u128, u128), u64>, k: (u128, u128)) -> u64 {
    if stakes.contains_key(k) { stakes[k] } else { 0 }
}

/// A node competing to be kept: its stake, its key as bytes, and its key as
/// the records index it.
pub type Candidate = (u64, Pubkey, (u128, u128));

/// `a` comes before `b`: lower stake first, then the smaller key in byte
/// order.
pub open spec fn candidate_less(a: Candidate, b: Candidate) -> bool {
    a.0 < b.0 || (a.0 == b.0 && crate::crds_value::bytes_less(a.1.0@, b.1.0@))
}

/// Whether `a` comes before `b`.
fn candidate_before(a: &Candidate, b: &Candidate) -> (r: bool)
    ensures
        r == candidate_less(*a, *b),
{
    if a.0 != b.0 {
        a.0 < b.0
    } else {
        crate::crds_value::ValueHash(a.1.0).less_than(&crate::crds_value::ValueHash(b.1.0))
    }
}

/// Whether some candidate is the node with key `q`.
pub open spec fn has_candidate(c: Seq<Candidate>, q: (u128, u128)) -> bool {
    exists|j: int| 0 <= j < c.len() && (#[trigger] c[j]).2 == q
}

/// The candidates of the table: one per node with entries, with its stake.
pub open spec fn candidates_of(c: Seq<Candidate>, v: Seq<VersionedCrdsValue>, stakes: Map<(u128, u128), u64>) -> bool {
    &&& forall|j: int| 0 <= j < c.len() ==> {
        &&& (#[trigger] c[j]).0 == stake_of(stakes, c[j].2)
        &&& pubkey_key(c[j].1) == c[j].2
        &&& exists|i: int| 0 <= i < v.len() && key_at(v, i) == c[j].2 && v[i].value.pubkey == c[j].1
    }
    &&& forall|i: int| 0 <= i < v.len() ==> has_candidate(c, #[trigger] key_at(v, i))
    &&& forall|a: int, b: int| 0 <= a < c.len() && 0 <= b < c.len() && a != b ==> (#[trigger] c[a]).2 != (#[trigger] c[b]).2
}

/// `chosen` are the first `size` of the candidates `c` (all of them, when
/// fewer): no other candidate comes before one of them.
pub open spec fn lowest(chosen: Seq<Candidate>, rest: Seq<Candidate>, c: Seq<Candidate>, size: nat) -> bool {
    &&& chosen.len() == (if size < c.len() { size } else { c.len() })
    &&& chosen.len() + rest.len() == c.len()
    &&& forall|x: Candidate| (#[trigger] chosen.contains(x) || #[trigger] rest.contains(x)) <==> c.contains(x)
    &&& forall|x: Candidate| #[trigger] chosen.contains(x) ==> !rest.contains(x)
    &&& forall|a: int, b: int| 0 <= a < chosen.len() && 0 <= b < rest.len() ==> !candidate_less(#[trigger] rest[b], #[trigger] chosen[a])
}

/// Picks the first `size` candidates: the chosen ones, in order, and the
/// rest.
fn pick_lowest(c: Vec<Candidate>, size: usize) -> (r: (Vec<Candidate>, Vec<Candidate>))
    requires
        c@.no_duplicates(),
    ensures
        lowest(r.0@, r.1@, c@, size as nat),
        r.0@.no_duplicates(),
{
    let ghost all = c@;
    let mut rest = c;
    let mut chosen: Vec<Candidate> = Vec::new();
    let n = rest.len();
    let target = if size < n { size } else { n };
    while chosen.len() < target
        invariant
            target == (if (size as nat) < all.len() { size as nat } else { all.len() }),
            n == all.len(),
            chosen@.len() + rest@.len() == all.len(),
            chosen@.len() <= target,
            rest@.no_duplicates(),
            chosen@.no_duplicates(),
            forall|x: Candidate| (#[trigger] chosen@.contains(x) || #[trigger] rest@.contains(x)) <==> all.contains(x),
            forall|x: Candidate| #[trigger] chosen@.contains(x) ==> !rest@.contains(x),
            forall|a: int, b: int| 0 <= a < chosen@.len() && 0 <= b < rest@.len() ==> !candidate_less(#[trigger] rest@[b], #[trigger] chosen@[a]),
        decreases target - chosen@.len(),
    {
        // The first of the rest.
        let mut m: usize = 0;
        let mut j: usize = 1;
        proof {
            lemma_bytes_less_irreflexive(rest@[0].1.0@);
        }
        while j < rest.len()
            invariant
                rest@.len() > 0,
                m < rest@.len(),
                m < j <= rest@.len(),
                forall|b: int| 0 <= b < j ==> !candidate_less(#[trigger] rest@[b], rest@[m as int]),
            decreases rest@.len() - j,
        {
            if candidate_before(&rest[j], &rest[m]) {
                proof {
                    lemma_candidate_less_transitive_bound(rest@, m as int, j as int);
                }
                m = j;
            }
            j += 1;
        }
        let ghost before_rest = rest@;
        let ghost before_chosen = chosen@;
        let x = rest.remove(m);
        chosen.push(x);
        proof {
            assert(rest@ == before_rest.remove(m as int));
            assert forall|y: Candidate| #[trigger] rest@.contains(y) <==> (before_rest.contains(y) && y != x) by {
                if rest@.contains(y) {
                    let q = choose|q: int| 0 <= q < rest@.len() && rest@[q] == y;
                    if q < m {
                        assert(before_rest[q] == y);
                    } else {
                        assert(before_rest[q + 1] == y);
                    }
                }
                if before_rest.contains(y) && y != x {
                    let q = choose|q: int| 0 <= q < before_rest.len() && before_rest[q] == y;
                    assert(q != m);
                    if q < m {
                        assert(rest@[q] == y);
                    } else {
                        assert(rest@[q - 1] == y);
                    }
                }
            }
            assert forall|y: Candidate| #[trigger] chosen@.contains(y) <==> (before_chosen.contains(y) || y == x) by {
                lemma_push_contains(before_chosen, x, y);
            }
            assert forall|a: int, b: int| 0 <= a < rest@.len() && 0 <= b < rest@.len() && a != b implies rest@[a] != rest@[b] by {
                let aa = if a < m { a } else { a + 1 };
                let bb = if b < m { b } else { b + 1 };
                assert(rest@[a] == before_rest[aa]);
                assert(rest@[b] == before_rest[bb]);
            }
            assert(before_rest.contains(x));
            assert(!before_chosen.contains(x));
            assert forall|a: int, b: int| 0 <= a < chosen@.len() && 0 <= b < chosen@.len() && a != b implies chosen@[a] != chosen@[b] by {
                if a == before_chosen.len() {
                    assert(before_chosen.contains(chosen@[b]));
                } else if b == before_chosen.len() {
                    assert(before_chosen.contains(chosen@[a]));
                }
            }
            assert forall|a: int, b: int| 0 <= a < chosen@.len() && 0 <= b < rest@.len() implies !candidate_less(#[trigger] rest@[b], #[trigger] chosen@[a]) by {
                let bb = if b < m { b } else { b + 1 };
                assert(rest@[b] == before_rest[bb]);
                if a < before_chosen.len() {
                    assert(chosen@[a] == before_chosen[a]);
                } else {
                    assert(chosen@[a] == x);
                }
            }
        }
    }
    (chosen, rest)
}

proof fn lemma_candidate_less_transitive_bound(s: Seq<Candidate>, m: int, j: int)
    requires
        0 <= m < j < s.len(),
        candidate_less(s[j], s[m]),
        forall|b: int| 0 <= b < j ==> !candidate_less(#[trigger] s[b], s[m]),
    ensures
        forall|b: int| 0 <= b < j + 1 ==> !candidate_less(#[trigger] s[b], s[j]),
{
    assert forall|b: int| 0 <= b < j + 1 implies !candidate_less(#[trigger] s[b], s[j]) by {
        if b == j {
            lemma_bytes_less_irreflexive(s[j].1.0@);
        } else if candidate_less(s[b], s[j]) {
            lemma_candidate_transitive(s[b], s[j], s[m]);
        }
    }
}

proof fn lemma_bytes_less_transitive(a: Seq<u8>, b: Seq<u8>, c: Seq<u8>)
    requires
        crate::crds_value::bytes_less(a, b),
        crate::crds_value::bytes_less(b, c),
    ensures
        crate::crds_value::bytes_less(a, c),
    decreases a.len(),
{
    if a.len() > 0 && b.len() > 0 && c.len() > 0 && a[0] == b[0] && b[0] == c[0] {
        lemma_bytes_less_transitive(a.drop_first(), b.drop_first(), c.drop_first());
    }
}

proof fn lemma_candidate_transitive(a: Candidate, b: Candidate, c: Candidate)
    requires
        candidate_less(a, b),
        candidate_less(b, c),
    ensures
        candidate_less(a, c),
{
    if a.0 == b.0 && b.0 == c.0 {
        lemma_bytes_less_transitive(a.1.0@, b.1.0@, c.1.0@);
    }
}

/// Whether the node with key `q` is among the chosen and not kept.
pub open spec fn dropped_key(chosen: Seq<Candidate>, keep: Seq<Pubkey>, q: (u128, u128)) -> bool {
    exists|a: int| 0 <= a < chosen.len() && (#[trigger] chosen[a]).2 == q && !keep.contains(chosen[a].1)
}

/// `after` is `before` without the entries of the nodes that come first
/// among its candidates, `size` of them (all, when fewer), unless kept.
pub open spec fn dropped_lowest(
    before: Seq<VersionedCrdsValue>,
    after: Seq<VersionedCrdsValue>,
    stakes: Map<(u128, u128), u64>,
    keep: Seq<Pubkey>,
    size: nat,
) -> bool {
    exists|chosen: Seq<Candidate>, rest: Seq<Candidate>, c: Seq<Candidate>| {
        &&& #[trigger] candidates_of(c, before, stakes)
        &&& #[trigger] lowest(chosen, rest, c, size)
        &&& forall|e: VersionedCrdsValue| #[trigger] after.contains(e) <==> (before.contains(e)
            && !dropped_key(chosen, keep, pubkey_key(e.value.pubkey)))
    }
}

proof fn lemma_candidates_cover(
    c: Seq<Candidate>,
    keys: Seq<(u128, u128)>,
    r: Map<(u128, u128), IndexSet<usize>>,
    v: Seq<VersionedCrdsValue>,
)
    requires
        records_ok(r, v),
        keys.no_duplicates(),
        forall|k: (u128, u128)| #[trigger] keys.contains(k) <==> r.contains_key(k),
        c.len() == keys.len(),
        forall|a: int| 0 <= a < c.len() ==> (#[trigger] c[a]).2 == keys[a],
    ensures
        forall|i: int| 0 <= i < v.len() ==> has_candidate(c, #[trigger] key_at(v, i)),
        forall|a: int, b: int| 0 <= a < c.len() && 0 <= b < c.len() && a != b ==> (#[trigger] c[a]).2 != (#[trigger] c[b]).2,
        c.no_duplicates(),
{
    assert forall|i: int| 0 <= i < v.len() implies has_candidate(c, #[trigger] key_at(v, i)) by {
        assert(r.contains_key(key_at(v, i)));
        assert(keys.contains(key_at(v, i)));
        let a = choose|a: int| 0 <= a < keys.len() && keys[a] == key_at(v, i);
        assert(c[a].2 == key_at(v, i));
    }
    assert forall|a: int, b: int| 0 <= a < c.len() && 0 <= b < c.len() && a != b implies (#[trigger] c[a]).2 != (#[trigger] c[b]).2 by {
        assert(keys[a] != keys[b]);
    }
    assert forall|a: int, b: int| 0 <= a < c.len() && 0 <= b < c.len() && a != b implies c[a] != c[b] by {
        assert(c[a].2 != c[b].2);
    }
}

/// Whether every stake given is zero.
fn stakes_all_zero(stakes: &BTreeMap<(u128, u128), u64>) -> (r: bool)
    ensures
        r == stakes_unknown(stakes@),
{
    let vals = stake_values(stakes);
    let mut all_zero = true;
    let mut i: usize = 0;
    while i < vals.len()
        invariant
            i <= vals@.len(),
            all_zero == (forall|j: int| 0 <= j < i ==> vals@[j] == 0),
        decreases vals@.len() - i,
    {
        if vals[i] != 0 {
            all_zero = false;
        }
        i += 1;
    }
    proof {
        if all_zero {
            assert forall|k: (u128, u128)| #[trigger] stakes@.contains_key(k) implies stakes@[k] == 0 by {
                assert(vals@.contains(stakes@[k]));
            }
        } else {
            let j = choose|j: int| 0 <= j < vals@.len() && vals@[j] != 0;
            assert(vals@.contains(vals@[j]));
        }
    }
    all_zero
}

/// The chosen candidates are distinct nodes of the table.
proof fn lemma_chosen_nodes(
    chosen: Seq<Candidate>,
    rest: Seq<Candidate>,
    c: Seq<Candidate>,
    v: Seq<VersionedCrdsValue>,
    stakes: Map<(u128, u128), u64>,
    size: nat,
)
    requires
        candidates_of(c, v, stakes),
        lowest(chosen, rest, c, size),
        chosen.no_duplicates(),
    ensures
        forall|x: int, y: int| 0 <= x < chosen.len() && 0 <= y < chosen.len() && x != y ==> (#[trigger] chosen[x]).2 != (#[trigger] chosen[y]).2,
        forall|x: int| 0 <= x < chosen.len() ==> node_keys(v).contains((#[trigger] chosen[x]).2),
{
    assert forall|x: int| 0 <= x < chosen.len() implies c.contains(#[trigger] chosen[x]) by {
        assert(chosen.contains(chosen[x]));
    }
    assert forall|x: int, y: int| 0 <= x < chosen.len() && 0 <= y < chosen.len() && x != y implies (#[trigger] chosen[x]).2 != (#[trigger] chosen[y]).2 by {
        assert(c.contains(chosen[x]));
        assert(c.contains(chosen[y]));
        let a = choose|a: int| 0 <= a < c.len() && c[a] == chosen[x];
        let b = choose|b: int| 0 <= b < c.len() && c[b] == chosen[y];
        assert(chosen[x] != chosen[y]);
        assert(a != b);
    }
    assert forall|x: int| 0 <= x < chosen.len() implies node_keys(v).contains((#[trigger] chosen[x]).2) by {
        assert(c.contains(chosen[x]));
        let a = choose|a: int| 0 <= a < c.len() && c[a] == chosen[x];
        assert(c[a] == c[a]);
        let i = choose|i: int| 0 <= i < v.len() && key_at(v, i) == c[a].2 && v[i].value.pubkey == c[a].1;
    }
}

/// The most duplicate shred values a node keeps in the table.
pub const MAX_DUPLICATE_SHREDS: u16 = 512;

/// Whether the entry at `i` is a duplicate shred value of the node with
/// key `k`.
pub open spec fn dup_shred_at(v: Seq<VersionedCrdsValue>, k: (u128, u128), i: int) -> bool {
    &&& 0 <= i < v.len()
    &&& key_at(v, i) == k
    &&& v[i].value.data is DuplicateShred
}

/// The positions of the duplicate shred values of the node with key `k`.
pub open spec fn dup_shred_positions(v: Seq<VersionedCrdsValue>, k: (u128, u128)) -> Set<int> {
    Set::new(|i: int| dup_shred_at(v, k, i))
}

/// The slot of a duplicate shred value.
pub open spec fn dup_slot(d: CrdsData) -> u64 {
    match d {
        CrdsData::DuplicateShred(_, slot) => slot,
        _ => 0,
    }
}

/// How old a duplicate shred value is: its wallclock, then its index.
pub open spec fn dup_age(e: VersionedCrdsValue) -> (u64, u16) {
    (e.value.wallclock, e.value.data.spec_label_index())
}

/// `a` is older than `b`, or the same.
pub open spec fn not_younger(a: (u64, u16), b: (u64, u16)) -> bool {
    a.0 < b.0 || (a.0 == b.0 && a.1 <= b.1)
}

/// Where the node with key `k` puts the next duplicate shred values, for
/// `slot`: nowhere when it holds one for that slot already; else after the
/// ones it holds while they are fewer than the most it keeps; else over
/// the oldest.
pub open spec fn duplicate_shred_offset_of(v: Seq<VersionedCrdsValue>, k: (u128, u128), slot: u64, r: Option<u16>) -> bool {
    match r {
        None => exists|i: int| dup_shred_at(v, k, i) && dup_slot(v[i].value.data) == slot,
        Some(offset) => {
            &&& forall|i: int| #[trigger] dup_shred_at(v, k, i) ==> dup_slot(v[i].value.data) != slot
            &&& dup_shred_positions(v, k).finite()
            &&& if dup_shred_positions(v, k).len() < MAX_DUPLICATE_SHREDS {
                offset == dup_shred_positions(v, k).len()
            } else {
                exists|i: int| {
                    &&& dup_shred_at(v, k, i)
                    &&& offset == v[i].value.data.spec_label_index()
                    &&& forall|j: int| #[trigger] dup_shred_at(v, k, j) ==> not_younger(dup_age(v[i]), dup_age(v[j]))
                }
            }
        },
    }
}

/// Whether `pk` is one of `keys`.
pub(crate) fn contains_pubkey(keys: &[Pubkey], pk: &Pubkey) -> (r: bool)
    ensures
        r == keys@.contains(*pk),
{
    let mut i: usize = 0;
    while i < keys.len()
        invariant
            i <= keys@.len(),
            forall|j: int| 0 <= j < i ==> keys@[j] != *pk,
        decreases keys@.len() - i,
    {
        if keys[i].same_as(pk) {
            assert(keys@[i as int] == *pk);
            return true;
        }
        i += 1;
    }
    false
}

/// The replicated data store.
pub struct Crds {
    /// The labels, at the positions of their entries.
    labels: IndexSet<LabelKey>,
    /// The entries.
    values: Vec<VersionedCrdsValue>,
    /// The ordinal of the next insert.
    cursor: Cursor,
    /// Positions by hash.
    shards: CrdsShards,
    /// Positions of contact informations.
    nodes: IndexSet<usize>,
    /// Positions of votes by ordinal.
    votes: BTreeMap<u64, usize>,
    /// Positions of epoch slots by ordinal.
    epoch_slots: BTreeMap<u64, usize>,
    /// Positions of duplicate shreds by ordinal.
    duplicate_shreds: BTreeMap<u64, usize>,
    /// Positions of each node's entries, by the node's key.
    records: BTreeMap<(u128, u128), IndexSet<usize>>,
    /// Positions of all entries by ordinal.
    entries: BTreeMap<u64, usize>,
    /// Hashes of values recently replaced, removed or refused, with the time.
    purged: VecDeque<(crate::crds_value::ValueHash, u64)>,
    /// The shred version of each node, by the node's key.
    shred_versions: BTreeMap<(u128, u128), u16>,
}

pub const VOTE_TAG: u8 = 1;
pub const EPOCH_SLOTS_TAG: u8 = 5;
pub const DUPLICATE_SHRED_TAG: u8 = 9;

impl View for Crds {
    type V = Seq<VersionedCrdsValue>;

    /// The entries of the table, in table order.
    closed spec fn view(&self) -> Seq<VersionedCrdsValue> {
        self.values@
    }
}

impl Crds {
    /// The ordinal that the next insert gets.
    pub closed spec fn spec_cursor(&self) -> u64 {
        self.cursor.0
    }

    /// The hashes of values replaced, removed or refused, with the time, in
    /// the order it happened (oldest first), as far as not trimmed.
    pub closed spec fn spec_purged(&self) -> Seq<(crate::crds_value::ValueHash, u64)> {
        self.purged@
    }

    /// The shred version last seen in each node's contact information, by
    /// the node's key, for the nodes that have entries.
    pub closed spec fn spec_shred_versions(&self) -> Map<(u128, u128), u16> {
        self.shred_versions@
    }

    /// The table with its cursor, purged hashes and shred versions.
    pub open spec fn state(&self) -> CrdsState {
        CrdsState {
            table: self@,
            cursor: self.spec_cursor(),
            purged: self.spec_purged(),
            shred_versions: self.spec_shred_versions(),
        }
    }

    /// The table and all its indices agree.
    pub closed spec fn wf(&self) -> bool {
        let v = self.values@;
        &&& labels_ok(label_items(self.labels), v)
        &&& ordinals_ok(v, self.cursor.0)
        &&& self.shards.wf()
        &&& self.shards.bits() == CRDS_SHARDS_BITS
        &&& shards_ok(self.shards@, v)
        &&& nodes_ok(index_items(self.nodes), v)
        &&& ordinal_index_ok(self.votes@, v, VOTE_TAG)
        &&& ordinal_index_ok(self.epoch_slots@, v, EPOCH_SLOTS_TAG)
        &&& ordinal_index_ok(self.duplicate_shreds@, v, DUPLICATE_SHRED_TAG)
        &&& ordinal_index_ok(self.entries@, v, ALL_KINDS)
        &&& records_ok(self.records@, v)
        &&& shred_versions_ok(self.shred_versions@, self.records@, v)
    }

    /// What a well-formed table guarantees of its entries: distinct labels,
    /// and distinct ordinals below the cursor.
    pub proof fn lemma_wf(&self)
        requires
            self.wf(),
        ensures
            labels_distinct(self@),
            forall|i: int| 0 <= i < self@.len() ==> (#[trigger] self@[i]).ordinal < self.spec_cursor(),
            forall|i: int, j: int|
                0 <= i < self@.len() && 0 <= j < self@.len() && i != j ==> (#[trigger] self@[i]).ordinal
                    != (#[trigger] self@[j]).ordinal,
    {
        let l = label_items(self.labels);
        assert forall|i: int, j: int| 0 <= i < self@.len() && 0 <= j < self@.len() && i != j implies label_of(
            (#[trigger] self@[i]).value,
        ) != label_of((#[trigger] self@[j]).value) by {
            assert(l[i] == label_of(self@[i].value));
            assert(l[j] == label_of(self@[j].value));
        }
    }

    /// The positions of the entries by shard, with their hashes.
    pub closed spec fn spec_shards(&self) -> Seq<Seq<(usize, u64)>> {
        self.shards@
    }

    /// The positions of the contact informations.
    pub closed spec fn spec_nodes(&self) -> Seq<usize> {
        index_items(self.nodes)
    }

    /// The positions of each node's entries, by the node's key.
    pub closed spec fn spec_records(&self) -> Map<(u128, u128), IndexSet<usize>> {
        self.records@
    }

    /// The positions of the entries of kind `kind` (or of all entries, for
    /// `ALL_KINDS`), by ordinal; empty for another kind.
    pub closed spec fn spec_ordinal_index(&self, kind: u8) -> Map<u64, usize> {
        if kind == VOTE_TAG {
            self.votes@
        } else if kind == EPOCH_SLOTS_TAG {
            self.epoch_slots@
        } else if kind == DUPLICATE_SHRED_TAG {
            self.duplicate_shreds@
        } else if kind == ALL_KINDS {
            self.entries@
        } else {
            Map::empty()
        }
    }

    /// What a well-formed table's indexes hold: the shards hold each
    /// position once, under the hash of its entry; the node index holds
    /// the positions of the contact informations; the records hold, for
    /// each node with entries, the positions of its entries; the ordinal
    /// indexes map the ordinal of each entry of their kind to its position;
    /// each node with contact information has that shred version.
    pub proof fn lemma_wf_indexes(&self)
        requires
            self.wf(),
        ensures
            crate::crds_shards::shards_wf(self.spec_shards(), CRDS_SHARDS_BITS),
            shards_ok(self.spec_shards(), self@),
            crate::crds_shards::held_once(self.spec_shards()),
            nodes_ok(self.spec_nodes(), self@),
            records_ok(self.spec_records(), self@),
            ordinal_index_ok(self.spec_ordinal_index(VOTE_TAG), self@, VOTE_TAG),
            ordinal_index_ok(self.spec_ordinal_index(EPOCH_SLOTS_TAG), self@, EPOCH_SLOTS_TAG),
            ordinal_index_ok(self.spec_ordinal_index(DUPLICATE_SHRED_TAG), self@, DUPLICATE_SHRED_TAG),
            ordinal_index_ok(self.spec_ordinal_index(ALL_KINDS), self@, ALL_KINDS),
            shred_versions_ok(self.spec_shred_versions(), self.spec_records(), self@),
    {
        let sh = self.shards@;
        let v = self.values@;
        assert forall|k1: int, j1: int, k2: int, j2: int|
            0 <= k1 < sh.len() && 0 <= j1 < sh[k1].len() && 0 <= k2 < sh.len() && 0 <= j2 < sh[k2].len()
                && (#[trigger] sh[k1][j1]).0 == (#[trigger] sh[k2][j2]).0 implies k1 == k2 by {
            let i = sh[k1][j1].0;
            assert(shard_of(sh[k1][j1].1, CRDS_SHARDS_BITS) == k1);
            assert(shard_of(sh[k2][j2].1, CRDS_SHARDS_BITS) == k2);
            assert(sh[k1][j1].1 == hash_u64(v[i as int].value.hash));
            assert(sh[k2][j2].1 == hash_u64(v[i as int].value.hash));
        }
    }

    /// An empty table.
    pub fn new() -> (r: Self)
        ensures
            r.wf(),
            r@ == Seq::<VersionedCrdsValue>::empty(),
            r.spec_cursor() == 0,
            r.spec_purged() == Seq::<(crate::crds_value::ValueHash, u64)>::empty(),
            r.spec_shred_versions() == Map::<(u128, u128), u16>::empty(),
    {
        let r = Crds {
            labels: label_set_new(),
            values: Vec::new(),
            cursor: Cursor(0),
            shards: CrdsShards::new(CRDS_SHARDS_BITS),
            nodes: index_set_new(),
            votes: BTreeMap::new(),
            epoch_slots: BTreeMap::new(),
            duplicate_shreds: BTreeMap::new(),
            records: BTreeMap::new(),
            entries: BTreeMap::new(),
            purged: VecDeque::new(),
            shred_versions: BTreeMap::new(),
        };
        assert(label_items(r.labels).no_duplicates());
        assert(index_items(r.nodes).no_duplicates());
        r
    }

    /// The number of entries.
    pub fn len(&self) -> (r: usize)
        ensures
            r == self@.len(),
    {
        self.values.len()
    }

    /// Whether the table is empty.
    pub fn is_empty(&self) -> (r: bool)
        ensures
            r == (self@.len() == 0),
    {
        self.values.len() == 0
    }

    /// Whether `value` would change the table: it is new, or newer than the
    /// value with its label.
    pub fn upserts(&self, value: &CrdsValue) -> (r: bool)
        requires
            self.wf(),
        ensures
            r == match position_of(self@, label_of(*value)) {
                Some(i) => spec_overrides(*value, self@[i].value),
                None => true,
            },
    {
        proof {
            self.lemma_wf();
        }
        let label = value.label();
        match label_set_index_of(&self.labels, &label) {
            Some(i) => {
                proof {
                    lemma_position_of(self@, label, i as int);
                }
                overrides(value, &self.values[i].value)
            },
            None => {
                assert(position_of(self@, label) is None) by {
                    if exists|j: int| 0 <= j < self@.len() && label_of(self@[j].value) == label {
                        let j = choose|j: int| 0 <= j < self@.len() && label_of(self@[j].value) == label;
                        assert(label_items(self.labels)[j] == label);
                    }
                }
                true
            },
        }
    }

    /// Removes the entry labeled `key`, if there is one: its hash is purged
    /// at time `now`, the last entry moves into its place, and a node left
    /// without entries loses its shred version.
    #[verifier::spinoff_prover]
    #[verifier::rlimit(40)]
    pub fn remove(&mut self, key: &LabelKey, now: u64)
        requires
            old(self).wf(),
        ensures
            final(self).wf(),
            final(self).spec_cursor() == old(self).spec_cursor(),
            ({
                let v = old(self)@;
                match position_of(v, *key) {
                    None => {
                        &&& final(self)@ == v
                        &&& final(self).spec_purged() == old(self).spec_purged()
                        &&& final(self).spec_shred_versions() == old(self).spec_shred_versions()
                    },
                    Some(i) => {
                        &&& final(self)@ == swap_removed_at(v, i)
                        &&& final(self).spec_purged() == old(self).spec_purged().push((v[i].value.hash, now))
                        &&& final(self).spec_shred_versions() == (if node_keeps_entries(v, i) {
                            old(self).spec_shred_versions()
                        } else {
                            old(self).spec_shred_versions().remove(key_at(v, i))
                        })
                    },
                }
            }),
    {
        proof {
            self.lemma_wf();
        }
        let ghost v = self.values@;
        let ghost l0 = label_items(self.labels);
        let removed_at = label_set_swap_remove_full(&mut self.labels, key);
        let index = match removed_at {
            Some((index, _)) => index,
            None => {
                assert(position_of(v, *key) is None) by {
                    if exists|j: int| 0 <= j < v.len() && label_of(v[j].value) == *key {
                        let j = choose|j: int| 0 <= j < v.len() && label_of(v[j].value) == *key;
                        assert(l0[j] == *key);
                    }
                }
                return;
            },
        };
        proof {
            lemma_position_of(v, *key, index as int);
        }
        let n = self.values.len();
        let last = n - 1;
        let removed = self.values[index];
        let moved = self.values[last];
        let ghost c = self.cursor.0;
        self.values.swap_remove(index);
        self.purged.push_back((removed.value.hash, now));
        shards_swap_remove(&mut self.shards, Ghost(v), index, &removed, &moved, n);
        nodes_swap_remove(&mut self.nodes, Ghost(v), index, &removed, &moved, n);
        ordinal_index_swap_remove(&mut self.votes, Ghost(v), Ghost(c), VOTE_TAG, index, &removed, &moved, n);
        ordinal_index_swap_remove(
            &mut self.epoch_slots,
            Ghost(v),
            Ghost(c),
            EPOCH_SLOTS_TAG,
            index,
            &removed,
            &moved,
            n,
        );
        ordinal_index_swap_remove(
            &mut self.duplicate_shreds,
            Ghost(v),
            Ghost(c),
            DUPLICATE_SHRED_TAG,
            index,
            &removed,
            &moved,
            n,
        );
        ordinal_index_swap_remove(&mut self.entries, Ghost(v), Ghost(c), ALL_KINDS, index, &removed, &moved, n);
        records_swap_remove(&mut self.records, &mut self.shred_versions, Ghost(v), index, &removed, &moved, n);
        proof {
            let w = self.values@;
            assert(w == swap_removed_at(v, index as int));
            let l1 = label_items(self.labels);
            assert(l1 == swap_removed_at(l0, index as int));
            assert forall|j: int| 0 <= j < w.len() implies #[trigger] l1[j] == label_of(w[j].value) by {
                if j == index {
                    assert(l1[j] == l0[last as int]);
                    assert(w[j] == v[last as int]);
                } else {
                    assert(l1[j] == l0[j]);
                    assert(w[j] == v[j]);
                }
            }
            assert forall|j: int| 0 <= j < w.len() implies (#[trigger] w[j]).ordinal < c by {
                if j == index {
                    assert(w[j] == v[last as int]);
                } else {
                    assert(w[j] == v[j]);
                }
            }
            assert forall|a: int, b: int| 0 <= a < w.len() && 0 <= b < w.len() && a != b implies (#[trigger] w[a]).ordinal
                != (#[trigger] w[b]).ordinal by {
                let aa = if a == index { last as int } else { a };
                let bb = if b == index { last as int } else { b };
                assert(w[a] == v[aa]);
                assert(w[b] == v[bb]);
                assert(aa != bb);
            }
        }
    }

    /// The entries of kind `kind` (per index `m`) stored since the cursor,
    /// in insert order; the cursor moves past them.
    fn consume_since(&self, m: &BTreeMap<u64, usize>, Ghost(kind): Ghost<u8>, cursor: &mut Cursor) -> (r: Vec<VersionedCrdsValue>)
        requires
            self.wf(),
            ordinal_index_ok(m@, self@, kind),
        ensures
            consumed_since(r@, self@, kind, old(cursor).0),
            final(cursor).0 == cursor_after(old(cursor).0, r@),
    {
        proof {
            self.lemma_wf();
        }
        let ghost v = self.values@;
        let ghost c0 = cursor.0;
        let pairs = btree_range_from(m, cursor.0);
        let mut out: Vec<VersionedCrdsValue> = Vec::new();
        let mut j: usize = 0;
        while j < pairs.len()
            invariant
                self.wf(),
                v == self.values@,
                ordinal_index_ok(m@, v, kind),
                j <= pairs@.len(),
                forall|a: int, b: int| 0 <= a < b < pairs@.len() ==> pairs@[a].0 < pairs@[b].0,
                forall|o: u64, x: usize| #[trigger] pairs@.contains((o, x)) <==> (o >= c0 && m@.contains_key(o) && m@[o] == x),
                out@.len() == j,
                forall|a: int| 0 <= a < j ==> #[trigger] out@[a] == v[pairs@[a].1 as int] && out@[a].ordinal == pairs@[a].0,
                cursor.0 == (if j == 0 { c0 } else { (pairs@[j - 1].0 + 1) as u64 }),
                forall|i: int| 0 <= i < v.len() ==> (#[trigger] v[i]).ordinal < self.cursor.0,
            decreases pairs@.len() - j,
        {
            let (o, x) = pairs[j];
            assert(pairs@.contains((o, x))) by {
                assert(pairs@[j as int] == (o, x));
            }
            let e = self.values[x];
            assert(e.ordinal == o);
            assert(o < u64::MAX) by {
                assert(v[x as int].ordinal < self.cursor.0);
            }
            out.push(e);
            if j > 0 {
                assert(pairs@[j - 1].0 < pairs@[j as int].0);
            }
            cursor.consume(o);
            j += 1;
        }
        proof {
            assert forall|a: int, b: int| 0 <= a < b < out@.len() implies (#[trigger] out@[a]).ordinal < (#[trigger] out@[b]).ordinal by {
            }
            assert forall|e: VersionedCrdsValue| #[trigger] out@.contains(e) <==> (exists|i: int|
                0 <= i < v.len() && v[i] == e && in_kind(kind, e.value.data) && e.ordinal >= c0) by {
                if out@.contains(e) {
                    let a = choose|a: int| 0 <= a < out@.len() && out@[a] == e;
                    let (o, x) = pairs@[a];
                    assert(pairs@.contains((o, x)));
                    assert(m@.contains_key(o));
                    assert(v[x as int] == e);
                }
                if exists|i: int| 0 <= i < v.len() && v[i] == e && in_kind(kind, e.value.data) && e.ordinal >= c0 {
                    let i = choose|i: int| 0 <= i < v.len() && v[i] == e && in_kind(kind, e.value.data) && e.ordinal >= c0;
                    assert(m@.contains_key(v[i].ordinal));
                    let x = m@[v[i].ordinal];
                    assert(v[x as int].ordinal == v[i].ordinal);
                    assert(x as int == i);
                    assert(pairs@.contains((e.ordinal, x)));
                    let a = choose|a: int| 0 <= a < pairs@.len() && pairs@[a] == (e.ordinal, x);
                    assert(out@[a] == e);
                }
            }
            if out@.len() > 0 {
                assert(out@.last().ordinal == pairs@[out@.len() - 1].0);
            }
        }
        out
    }

    /// The votes stored since the cursor, in insert order; the cursor moves
    /// past them.
    pub fn get_votes(&self, cursor: &mut Cursor) -> (r: Vec<VersionedCrdsValue>)
        requires
            self.wf(),
        ensures
            consumed_since(r@, self@, VOTE_TAG, old(cursor).0),
            final(cursor).0 == cursor_after(old(cursor).0, r@),
    {
        self.consume_since(&self.votes, Ghost(VOTE_TAG), cursor)
    }

    /// The epoch slots stored since the cursor, in insert order; the cursor
    /// moves past them.
    pub fn get_epoch_slots(&self, cursor: &mut Cursor) -> (r: Vec<VersionedCrdsValue>)
        requires
            self.wf(),
        ensures
            consumed_since(r@, self@, EPOCH_SLOTS_TAG, old(cursor).0),
            final(cursor).0 == cursor_after(old(cursor).0, r@),
    {
        self.consume_since(&self.epoch_slots, Ghost(EPOCH_SLOTS_TAG), cursor)
    }

    /// The duplicate shreds stored since the cursor, in insert order; the
    /// cursor moves past them.
    pub fn get_duplicate_shreds(&self, cursor: &mut Cursor) -> (r: Vec<VersionedCrdsValue>)
        requires
            self.wf(),
        ensures
            consumed_since(r@, self@, DUPLICATE_SHRED_TAG, old(cursor).0),
            final(cursor).0 == cursor_after(old(cursor).0, r@),
    {
        self.consume_since(&self.duplicate_shreds, Ghost(DUPLICATE_SHRED_TAG), cursor)
    }

    /// All entries stored since the cursor, in insert order; the cursor
    /// moves past them.
    pub fn get_entries(&self, cursor: &mut Cursor) -> (r: Vec<VersionedCrdsValue>)
        requires
            self.wf(),
        ensures
            consumed_since(r@, self@, ALL_KINDS, old(cursor).0),
            final(cursor).0 == cursor_after(old(cursor).0, r@),
    {
        self.consume_since(&self.entries, Ghost(ALL_KINDS), cursor)
    }

    /// The entry labeled `key`, if there is one.
    pub fn get(&self, key: &LabelKey) -> (r: Option<VersionedCrdsValue>)
        requires
            self.wf(),
        ensures
            r == lookup(self@, *key),
    {
        proof {
            self.lemma_wf();
        }
        match label_set_index_of(&self.labels, key) {
            Some(i) => {
                proof {
                    lemma_position_of(self@, *key, i as int);
                }
                Some(self.values[i])
            },
            None => {
                assert(position_of(self@, *key) is None) by {
                    if exists|j: int| 0 <= j < self@.len() && label_of(self@[j].value) == *key {
                        let j = choose|j: int| 0 <= j < self@.len() && label_of(self@[j].value) == *key;
                        assert(label_items(self.labels)[j] == *key);
                    }
                }
                None
            },
        }
    }

    /// Where `pubkey`'s node puts the chunks of a new duplicate shred proof
    /// for `slot` (see [`duplicate_shred_offset_of`]): `None` when it holds
    /// one for that slot already.
    pub fn duplicate_shred_offset(&self, pubkey: &Pubkey, slot: u64) -> (r: Option<u16>)
        requires
            self.wf(),
        ensures
            duplicate_shred_offset_of(self@, pubkey_key(*pubkey), slot, r),
    {
        let ghost v = self.values@;
        assert(records_ok(self.records@, v));
        let k = pubkey.key();
        let idx: Vec<usize> = match self.records.get(&k) {
            Some(set) => index_set_to_vec(set),
            None => Vec::new(),
        };
        proof {
            assert forall|x: usize| #[trigger] idx@.contains(x) <==> (x < v.len() && key_at(v, x as int) == k) by {
                if x < v.len() && key_at(v, x as int) == k {
                    assert(self.records@.contains_key(key_at(v, x as int)));
                }
            }
        }
        let mut count: usize = 0;
        let ghost mut seen: Set<int> = Set::empty();
        let mut oldest: Option<(u64, u16)> = None;
        let mut j: usize = 0;
        while j < idx.len()
            invariant
                v == self.values@,
                k == pubkey_key(*pubkey),
                idx@.no_duplicates(),
                forall|x: usize| #[trigger] idx@.contains(x) <==> (x < v.len() && key_at(v, x as int) == k),
                j <= idx@.len(),
                count <= j,
                seen.finite(),
                count == seen.len(),
                forall|i: int| #[trigger] seen.contains(i) <==> (exists|y: int| 0 <= y < j && idx@[y] as int == i) && dup_shred_at(v, k, i),
                forall|i: int| #[trigger] seen.contains(i) ==> dup_slot(v[i].value.data) != slot,
                match oldest {
                    None => seen.is_empty(),
                    Some(o) => exists|i: int| {
                        &&& seen.contains(i)
                        &&& o == dup_age(v[i])
                        &&& forall|m: int| #[trigger] seen.contains(m) ==> not_younger(o, dup_age(v[m]))
                    },
                },
            decreases idx@.len() - j,
        {
            let x = idx[j];
            assert(idx@.contains(x)) by {
                assert(idx@[j as int] == x);
            }
            let e = &self.values[x];
            let ghost before = seen;
            match e.value.data {
                CrdsData::DuplicateShred(ix, s) => {
                    if s == slot {
                        proof {
                            assert(v[x as int].value.data == CrdsData::DuplicateShred(ix, s));
                            assert(dup_shred_at(v, k, x as int));
                            assert(dup_slot(v[x as int].value.data) == slot);
                        }
                        return None;
                    }
                    proof {
                        assert(!before.contains(x as int)) by {
                            if before.contains(x as int) {
                                let y = choose|y: int| 0 <= y < j && idx@[y] as int == x as int;
                                assert(idx@[y] == idx@[j as int]);
                            }
                        }
                        seen = before.insert(x as int);
                    }
                    count = count + 1;
                    let age = (e.value.wallclock, ix);
                    let ghost prev = oldest;
                    oldest = match oldest {
                        None => Some(age),
                        Some(o) => if age.0 < o.0 || (age.0 == o.0 && age.1 < o.1) {
                            Some(age)
                        } else {
                            Some(o)
                        },
                    };
                    proof {
                        assert(dup_age(v[x as int]) == age);
                        assert(seen.contains(x as int));
                        match prev {
                            None => {
                                assert forall|m: int| #[trigger] seen.contains(m) implies not_younger(age, dup_age(v[m])) by {
                                    assert(!before.contains(m));
                                }
                            },
                            Some(o) => {
                                let i = choose|i: int| {
                                    &&& before.contains(i)
                                    &&& o == dup_age(v[i])
                                    &&& forall|m: int| #[trigger] before.contains(m) ==> not_younger(o, dup_age(v[m]))
                                };
                                assert(seen.contains(i));
                                assert forall|m: int| #[trigger] seen.contains(m) implies not_younger(oldest->0, dup_age(v[m])) by {
                                    if m != x as int {
                                        assert(before.contains(m));
                                    }
                                }
                            },
                        }
                        assert forall|i: int| #[trigger] seen.contains(i) <==> (exists|y: int| 0 <= y < j + 1 && idx@[y] as int == i) && dup_shred_at(v, k, i) by {
                            if i == x as int {
                                assert(idx@[j as int] as int == i);
                            }
                            if (exists|y: int| 0 <= y < j + 1 && idx@[y] as int == i) && i != x as int {
                                let y = choose|y: int| 0 <= y < j + 1 && idx@[y] as int == i;
                                assert(y != j);
                            }
                        }
                    }
                },
                _ => {
                    proof {
                        assert forall|i: int| #[trigger] seen.contains(i) <==> (exists|y: int| 0 <= y < j + 1 && idx@[y] as int == i) && dup_shred_at(v, k, i) by {
                            if (exists|y: int| 0 <= y < j + 1 && idx@[y] as int == i) && dup_shred_at(v, k, i) {
                                let y = choose|y: int| 0 <= y < j + 1 && idx@[y] as int == i;
                                if y == j {
                                    assert(i == x as int);
                                }
                            }
                        }
                    }
                },
            }
            j += 1;
        }
        proof {
            assert(seen =~= dup_shred_positions(v, k)) by {
                assert forall|i: int| #[trigger] seen.contains(i) <==> dup_shred_at(v, k, i) by {
                    if dup_shred_at(v, k, i) {
                        assert(idx@.contains(i as usize));
                        let y = choose|y: int| 0 <= y < idx@.len() && idx@[y] == i as usize;
                    }
                }
            }
        }
        proof {
            let p = dup_shred_positions(v, k);
            assert forall|i: int| #[trigger] dup_shred_at(v, k, i) implies dup_slot(v[i].value.data) != slot by {
                assert(seen.contains(i));
            }
            if let Some(o) = oldest {
                let i = choose|i: int| {
                    &&& seen.contains(i)
                    &&& o == dup_age(v[i])
                    &&& forall|m: int| #[trigger] seen.contains(m) ==> not_younger(o, dup_age(v[m]))
                };
                assert(dup_shred_at(v, k, i));
                assert forall|m: int| #[trigger] dup_shred_at(v, k, m) implies not_younger(dup_age(v[i]), dup_age(v[m])) by {
                    assert(seen.contains(m));
                }
            }
        }
        if count < 512 {
            Some(count as u16)
        } else {
            match oldest {
                Some(o) => Some(o.1),
                None => {
                    assert(false);
                    None
                },
            }
        }
    }

    /// The shred version of `pubkey`'s node, if known.
    pub fn get_shred_version(&self, pubkey: &Pubkey) -> (r: Option<u16>)
        requires
            self.wf(),
        ensures
            r == (if self.spec_shred_versions().contains_key(pubkey_key(*pubkey)) {
                Some(self.spec_shred_versions()[pubkey_key(*pubkey)])
            } else {
                None
            }),
    {
        let k = pubkey.key();
        match self.shred_versions.get(&k) {
            Some(v) => Some(*v),
            None => None,
        }
    }

    /// The contact information of the nodes, in the order of
    /// [`Crds::get_nodes`].
    pub fn get_nodes_contact_info(&self) -> (r: Vec<ContactInfo>)
        requires
            self.wf(),
        ensures
            exists|nodes: Seq<VersionedCrdsValue>| {
                &&& nodes.no_duplicates()
                &&& forall|e: VersionedCrdsValue| #[trigger] nodes.contains(e) <==> (exists|i: int|
                    0 <= i < self@.len() && self@[i] == e && is_contact(e.value.data))
                &&& r@.len() == nodes.len()
                &&& forall|a: int| 0 <= a < nodes.len() ==> r@[a] == contact_of((#[trigger] nodes[a]).value.data)
            },
    {
        let nodes = self.get_nodes();
        proof {
            assert forall|q: int| 0 <= q < nodes@.len() implies is_contact((#[trigger] nodes@[q]).value.data) by {
                assert(nodes@.contains(nodes@[q]));
            }
        }
        let mut out: Vec<ContactInfo> = Vec::new();
        let mut a: usize = 0;
        while a < nodes.len()
            invariant
                a <= nodes@.len(),
                out@.len() == a,
                forall|q: int| 0 <= q < a ==> out@[q] == contact_of((#[trigger] nodes@[q]).value.data),
                forall|q: int| 0 <= q < nodes@.len() ==> is_contact((#[trigger] nodes@[q]).value.data),
            decreases nodes@.len() - a,
        {
            match nodes[a].value.data {
                CrdsData::ContactInfo(c) => out.push(c),
                _ => {
                    assert(false);
                },
            }
            a += 1;
        }
        out
    }

    /// The entries holding contact information.
    pub fn get_nodes(&self) -> (r: Vec<VersionedCrdsValue>)
        requires
            self.wf(),
        ensures
            r@.no_duplicates(),
            forall|e: VersionedCrdsValue| #[trigger] r@.contains(e) <==> (exists|i: int|
                0 <= i < self@.len() && self@[i] == e && is_contact(e.value.data)),
    {
        proof {
            self.lemma_wf();
        }
        let ghost v = self.values@;
        let idx = index_set_to_vec(&self.nodes);
        let mut out: Vec<VersionedCrdsValue> = Vec::new();
        let mut j: usize = 0;
        while j < idx.len()
            invariant
                self.wf(),
                v == self.values@,
                labels_distinct(v),
                idx@ == index_items(self.nodes),
                j <= idx@.len(),
                out@.len() == j,
                forall|a: int| 0 <= a < j ==> #[trigger] out@[a] == v[idx@[a] as int],
            decreases idx@.len() - j,
        {
            let x = idx[j];
            assert(idx@.contains(x)) by {
                assert(idx@[j as int] == x);
            }
            out.push(self.values[x]);
            j += 1;
        }
        proof {
            assert forall|a: int, b: int| 0 <= a < out@.len() && 0 <= b < out@.len() && a != b implies out@[a] != out@[b] by {
                assert(idx@[a] != idx@[b]);
                assert(idx@.contains(idx@[a])) by {
                    assert(idx@[a] == idx@[a]);
                }
                assert(idx@.contains(idx@[b]));
                assert(label_of(v[idx@[a] as int].value) != label_of(v[idx@[b] as int].value));
            }
            assert forall|e: VersionedCrdsValue| #[trigger] out@.contains(e) <==> (exists|i: int|
                0 <= i < v.len() && v[i] == e && is_contact(e.value.data)) by {
                if out@.contains(e) {
                    let a = choose|a: int| 0 <= a < out@.len() && out@[a] == e;
                    assert(idx@.contains(idx@[a]));
                }
                if exists|i: int| 0 <= i < v.len() && v[i] == e && is_contact(e.value.data) {
                    let i = choose|i: int| 0 <= i < v.len() && v[i] == e && is_contact(e.value.data);
                    assert(idx@.contains(i as usize));
                    let a = choose|a: int| 0 <= a < idx@.len() && idx@[a] == i as usize;
                    assert(out@[a] == e);
                }
            }
        }
        out
    }

    /// The entries of `pubkey`'s node.
    pub fn get_records(&self, pubkey: &Pubkey) -> (r: Vec<VersionedCrdsValue>)
        requires
            self.wf(),
        ensures
            r@.no_duplicates(),
            forall|e: VersionedCrdsValue| #[trigger] r@.contains(e) <==> (exists|i: int|
                0 <= i < self@.len() && self@[i] == e && pubkey_key(e.value.pubkey) == pubkey_key(*pubkey)),
    {
        proof {
            self.lemma_wf();
        }
        let ghost v = self.values@;
        let k = pubkey.key();
        let mut out: Vec<VersionedCrdsValue> = Vec::new();
        match self.records.get(&k) {
            None => {
                proof {
                    assert forall|e: VersionedCrdsValue| #[trigger] out@.contains(e) <==> (exists|i: int|
                        0 <= i < v.len() && v[i] == e && pubkey_key(e.value.pubkey) == k) by {
                        if exists|i: int| 0 <= i < v.len() && v[i] == e && pubkey_key(e.value.pubkey) == k {
                            let i = choose|i: int| 0 <= i < v.len() && v[i] == e && pubkey_key(e.value.pubkey) == k;
                            assert(self.records@.contains_key(key_at(v, i)));
                        }
                    }
                }
            },
            Some(set) => {
                let idx = index_set_to_vec(set);
                let mut j: usize = 0;
                while j < idx.len()
                    invariant
                        self.wf(),
                        v == self.values@,
                        labels_distinct(v),
                        self.records@.contains_key(k),
                        idx@ == index_items(self.records@[k]),
                        j <= idx@.len(),
                        out@.len() == j,
                        forall|a: int| 0 <= a < j ==> #[trigger] out@[a] == v[idx@[a] as int],
                    decreases idx@.len() - j,
                {
                    let x = idx[j];
                    assert(idx@.contains(x)) by {
                        assert(idx@[j as int] == x);
                    }
                    out.push(self.values[x]);
                    j += 1;
                }
                proof {
                    assert forall|a: int, b: int| 0 <= a < out@.len() && 0 <= b < out@.len() && a != b implies out@[a] != out@[b] by {
                        assert(idx@.contains(idx@[a]));
                        assert(idx@.contains(idx@[b]));
                        assert(label_of(v[idx@[a] as int].value) != label_of(v[idx@[b] as int].value));
                    }
                    assert forall|e: VersionedCrdsValue| #[trigger] out@.contains(e) <==> (exists|i: int|
                        0 <= i < v.len() && v[i] == e && pubkey_key(e.value.pubkey) == k) by {
                        if out@.contains(e) {
                            let a = choose|a: int| 0 <= a < out@.len() && out@[a] == e;
                            assert(idx@.contains(idx@[a]));
                        }
                        if exists|i: int| 0 <= i < v.len() && v[i] == e && pubkey_key(e.value.pubkey) == k {
                            let i = choose|i: int| 0 <= i < v.len() && v[i] == e && pubkey_key(e.value.pubkey) == k;
                            assert(idx@.contains(i as usize));
                            let a = choose|a: int| 0 <= a < idx@.len() && idx@[a] == i as usize;
                            assert(out@[a] == e);
                        }
                    }
                }
            },
        }
        out
    }

    /// The number of entries holding contact information: the size of the
    /// network as known.
    pub fn num_nodes(&self) -> (r: usize)
        requires
            self.wf(),
        ensures
            r == contact_positions(self@).len(),
    {
        let r = index_set_len(&self.nodes);
        proof {
            let n = index_items(self.nodes);
            assert(n.to_set() =~= contact_positions(self@));
            n.unique_seq_to_set();
        }
        r
    }

    /// The number of nodes that have entries.
    pub fn num_pubkeys(&self) -> (r: usize)
        requires
            self.wf(),
        ensures
            r == node_keys(self@).len(),
    {
        let r = self.records.len();
        proof {
            assert(self.records@.dom() =~= node_keys(self@)) by {
                assert forall|q: (u128, u128)| self.records@.dom().contains(q) implies node_keys(self@).contains(q) by {
                    let items = index_items(self.records@[q]);
                    let x = items[0];
                    assert(items.contains(x));
                }
                assert forall|q: (u128, u128)| node_keys(self@).contains(q) implies self.records@.dom().contains(q) by {
                    let i = choose|i: int| 0 <= i < self@.len() && key_at(self@, i) == q;
                    assert(self.records@.contains_key(key_at(self@, i)));
                }
            }
        }
        r
    }

    /// The number of purged hashes held.
    pub fn num_purged(&self) -> (r: usize)
        ensures
            r == self.spec_purged().len(),
    {
        self.purged.len()
    }

    /// The purged hashes held, oldest first.
    pub fn purged(&self) -> (r: Vec<crate::crds_value::ValueHash>)
        ensures
            r@.len() == self.spec_purged().len(),
            forall|i: int| 0 <= i < r@.len() ==> #[trigger] r@[i] == self.spec_purged()[i].0,
    {
        let mut out: Vec<crate::crds_value::ValueHash> = Vec::new();
        let mut i: usize = 0;
        while i < self.purged.len()
            invariant
                i <= self.purged@.len(),
                out@.len() == i,
                forall|j: int| 0 <= j < i ==> #[trigger] out@[j] == self.purged@[j].0,
            decreases self.purged@.len() - i,
        {
            out.push(self.purged[i].0);
            i += 1;
        }
        out
    }

    /// Drops the purged hashes older than `timestamp` from the front.
    pub fn trim_purged(&mut self, timestamp: u64)
        requires
            old(self).wf(),
        ensures
            final(self).wf(),
            final(self)@ == old(self)@,
            final(self).spec_cursor() == old(self).spec_cursor(),
            final(self).spec_shred_versions() == old(self).spec_shred_versions(),
            exists|k: int| {
                &&& 0 <= k <= old(self).spec_purged().len()
                &&& final(self).spec_purged() == old(self).spec_purged().skip(k)
                &&& forall|j: int| 0 <= j < k ==> (#[trigger] old(self).spec_purged()[j]).1 < timestamp
                &&& (k < old(self).spec_purged().len() ==> old(self).spec_purged()[k].1 >= timestamp)
            },
    {
        let ghost p0 = self.purged@;
        let ghost mut k: int = 0;
        assert(p0.skip(0) =~= p0);
        while self.purged.len() > 0 && self.purged[0].1 < timestamp
            invariant
                self.wf(),
                self@ == old(self)@,
                self.spec_cursor() == old(self).spec_cursor(),
                self.spec_shred_versions() == old(self).spec_shred_versions(),
                0 <= k <= p0.len(),
                self.purged@ == p0.skip(k),
                forall|j: int| 0 <= j < k ==> (#[trigger] p0[j]).1 < timestamp,
            decreases self.purged@.len(),
        {
            proof {
                assert(p0[k].1 < timestamp) by {
                    assert(self.purged@[0] == p0[k]);
                }
            }
            self.purged.pop_front();
            proof {
                k = k + 1;
                assert(self.purged@ =~= p0.skip(k));
            }
        }
        proof {
            if k < p0.len() {
                assert(self.purged@[0] == p0[k]);
            }
            assert(self.spec_purged() == old(self).spec_purged().skip(k));
            assert(forall|j: int| 0 <= j < k ==> (#[trigger] old(self).spec_purged()[j]).1 < timestamp);
        }
    }

    /// Whether the number of nodes exceeds `cap` by more than a tenth, so
    /// that trimming is due.
    pub fn should_trim(&self, cap: usize) -> (r: bool)
        requires
            self.wf(),
        ensures
            r == (10 * node_keys(self@).len() > 11 * cap),
    {
        let n = self.num_pubkeys();
        (10 * (n as u128)) > 11 * (cap as u128)
    }

    /// Refreshes the local timestamps of `pubkey`'s node to `now`: only
    /// that of its contact information if there is one, since eviction goes
    /// by it; otherwise those of all its entries.
    pub fn update_record_timestamp(&mut self, pubkey: &Pubkey, now: u64)
        requires
            old(self).wf(),
        ensures
            final(self).wf(),
            final(self).spec_cursor() == old(self).spec_cursor(),
            final(self).spec_purged() == old(self).spec_purged(),
            final(self).spec_shred_versions() == old(self).spec_shred_versions(),
            ({
                let v = old(self)@;
                match position_of(v, contact_info_label(*pubkey)) {
                    Some(i) => final(self)@ == v.update(i, refreshed(v[i], now)),
                    None => final(self)@ == Seq::new(
                        v.len(),
                        |j: int| if key_at(v, j) == pubkey_key(*pubkey) { refreshed(v[j], now) } else { v[j] },
                    ),
                }
            }),
    {
        proof {
            self.lemma_wf();
        }
        let ghost v = self.values@;
        let k = pubkey.key();
        let origin: LabelKey = (11u8, 0u16, k.0, k.1);
        match label_set_index_of(&self.labels, &origin) {
            Some(i) => {
                proof {
                    lemma_position_of(v, origin, i as int);
                }
                let e = self.values[i];
                if e.local_timestamp < now {
                    self.refresh_at(i, now);
                } else {
                    assert(v.update(i as int, refreshed(v[i as int], now)) =~= v);
                }
            },
            None => {
                assert(position_of(v, origin) is None) by {
                    if exists|j: int| 0 <= j < v.len() && label_of(v[j].value) == origin {
                        let j = choose|j: int| 0 <= j < v.len() && label_of(v[j].value) == origin;
                        assert(label_items(self.labels)[j] == origin);
                    }
                }
                let ghost target = Seq::new(
                    v.len(),
                    |j: int| if key_at(v, j) == k { refreshed(v[j], now) } else { v[j] },
                );
                let idx = match self.records.get(&k) {
                    Some(set) => index_set_to_vec(set),
                    None => Vec::new(),
                };
                proof {
                    if !self.records@.contains_key(k) {
                        assert forall|j: int| 0 <= j < v.len() implies key_at(v, j) != k by {
                            assert(self.records@.contains_key(key_at(v, j)));
                        }
                        assert(target =~= v);
                    }
                }
                let mut a: usize = 0;
                while a < idx.len()
                    invariant
                        self.wf(),
                        self.spec_cursor() == old(self).spec_cursor(),
                        self.spec_purged() == old(self).spec_purged(),
                        self.spec_shred_versions() == old(self).spec_shred_versions(),
                        self@.len() == v.len(),
                        target == Seq::new(
                            v.len(),
                            |j: int| if key_at(v, j) == k { refreshed(v[j], now) } else { v[j] },
                        ),
                        idx@.no_duplicates(),
                        forall|x: usize| #[trigger] idx@.contains(x) <==> (x < v.len() && key_at(v, x as int) == k),
                        a <= idx@.len(),
                        forall|j: int| 0 <= j < v.len() ==> #[trigger] self@[j] == (if (exists|b: int| 0 <= b < a && idx@[b] == j as usize) {
                            target[j]
                        } else {
                            v[j]
                        }),
                    decreases idx@.len() - a,
                {
                    let x = idx[a];
                    assert(idx@.contains(x)) by {
                        assert(idx@[a as int] == x);
                    }
                    proof {
                        assert(!(exists|b: int| 0 <= b < a && idx@[b] == x)) by {
                            if exists|b: int| 0 <= b < a && idx@[b] == x {
                                let b = choose|b: int| 0 <= b < a && idx@[b] == x;
                                assert(idx@[b] == idx@[a as int]);
                            }
                        }
                        assert(self@[x as int] == v[x as int]);
                    }
                    let e = self.values[x];
                    let ghost before = self@;
                    if e.local_timestamp < now {
                        self.refresh_at(x, now);
                    }
                    proof {
                        assert forall|j: int| 0 <= j < v.len() implies #[trigger] self@[j] == (if (exists|b: int|
                            0 <= b < a + 1 && idx@[b] == j as usize) {
                            target[j]
                        } else {
                            v[j]
                        }) by {
                            if j == x {
                                assert(idx@[a as int] == j as usize);
                                assert(target[j] == refreshed(v[j], now));
                                assert(before[j] == v[j]);
                                assert(key_at(v, j) == k);
                            } else {
                                assert(self@[j] == before[j]);
                                if exists|b: int| 0 <= b < a + 1 && idx@[b] == j as usize {
                                    let b = choose|b: int| 0 <= b < a + 1 && idx@[b] == j as usize;
                                    assert(b != a);
                                }
                            }
                        }
                    }
                    a += 1;
                }
                proof {
                    assert forall|j: int| 0 <= j < v.len() implies #[trigger] self@[j] == target[j] by {
                        if key_at(v, j) == k {
                            assert(idx@.contains(j as usize));
                            let b = choose|b: int| 0 <= b < idx@.len() && idx@[b] == j as usize;
                        } else {
                            if exists|b: int| 0 <= b < idx@.len() && idx@[b] == j as usize {
                                let b = choose|b: int| 0 <= b < idx@.len() && idx@[b] == j as usize;
                                assert(idx@.contains(j as usize));
                            }
                        }
                    }
                    assert(self@ =~= target);
                }
            },
        }
    }

    /// Moves the local timestamp of the entry at `i` up to `now`.
    fn refresh_at(&mut self, i: usize, now: u64)
        requires
            old(self).wf(),
            i < old(self)@.len(),
        ensures
            final(self).wf(),
            final(self)@ == old(self)@.update(i as int, refreshed(old(self)@[i as int], now)),
            final(self).spec_cursor() == old(self).spec_cursor(),
            final(self).spec_purged() == old(self).spec_purged(),
            final(self).spec_shred_versions() == old(self).spec_shred_versions(),
    {
        let ghost v = self.values@;
        let e = self.values[i];
        let updated = if e.local_timestamp < now { VersionedCrdsValue { local_timestamp: now, ..e } } else { e };
        proof {
            lemma_nodes_replace(index_items(self.nodes), v, i as int, updated);
            lemma_records_replace(self.records@, v, i as int, updated);
            lemma_same_entry_indices(
                self.shards@,
                self.votes@,
                self.epoch_slots@,
                self.duplicate_shreds@,
                self.entries@,
                self.shred_versions@,
                self.records@,
                v,
                i as int,
                updated,
            );
        }
        self.values.set(i, updated);
        proof {
            let w = self.values@;
            assert forall|j: int| 0 <= j < w.len() implies #[trigger] label_items(self.labels)[j] == label_of(w[j].value) by {
                if j != i {
                    assert(w[j] == v[j]);
                }
            }
            assert forall|j: int| 0 <= j < w.len() implies (#[trigger] w[j]).ordinal < self.cursor.0 by {
                if j != i {
                    assert(w[j] == v[j]);
                }
            }
            assert forall|a: int, b: int| 0 <= a < w.len() && 0 <= b < w.len() && a != b implies (#[trigger] w[a]).ordinal
                != (#[trigger] w[b]).ordinal by {
                if a != i {
                    assert(w[a] == v[a]);
                }
                if b != i {
                    assert(w[b] == v[b]);
                }
            }
        }
    }

    /// The labels of the entries to evict at time `now`: for each node, with
    /// its own timeout or the default, nothing while its contact
    /// information has not expired, and otherwise each of its entries that
    /// has expired.
    pub fn find_old_labels(&self, now: u64, timeouts: &BTreeMap<(u128, u128), u64>, default_timeout: u64) -> (r: Vec<LabelKey>)
        requires
            self.wf(),
        ensures
            r@.no_duplicates(),
            forall|l: LabelKey| #[trigger] r@.contains(l) <==> (exists|i: int|
                0 <= i < self@.len() && label_of(self@[i].value) == l && evicted(self@, timeouts@, default_timeout, now, i)),
    {
        proof {
            self.lemma_wf();
        }
        let ghost v = self.values@;
        let mut out: Vec<LabelKey> = Vec::new();
        let mut i: usize = 0;
        while i < self.values.len()
            invariant
                self.wf(),
                v == self.values@,
                labels_distinct(v),
                i <= v.len(),
                out@.no_duplicates(),
                forall|l: LabelKey| #[trigger] out@.contains(l) <==> (exists|j: int|
                    0 <= j < i && label_of(v[j].value) == l && evicted(v, timeouts@, default_timeout, now, j)),
            decreases v.len() - i,
        {
            let e = self.values[i];
            let k = e.value.pubkey.key();
            let t = match timeouts.get(&k) {
                Some(t) => *t,
                None => default_timeout,
            };
            assert(t == timeout_of(timeouts@, default_timeout, key_at(v, i as int)));
            let origin: LabelKey = (11u8, 0u16, k.0, k.1);
            let alive = match label_set_index_of(&self.labels, &origin) {
                Some(c) => {
                    let ce = self.values[c];
                    let start = if ce.value.wallclock < ce.local_timestamp { ce.value.wallclock } else { ce.local_timestamp };
                    let alive = start.saturating_add(t) > now;
                    proof {
                        assert(label_items(self.labels)[c as int] == origin);
                        if !alive {
                            assert forall|j: int| 0 <= j < v.len() && label_of(v[j].value) == origin implies expired(#[trigger] v[j], t, now) by {
                                if j != c {
                                    assert(label_of(v[j].value) != label_of(v[c as int].value));
                                }
                            }
                        }
                    }
                    alive
                },
                None => {
                    proof {
                        assert forall|j: int| 0 <= j < v.len() implies label_of((#[trigger] v[j]).value) != origin by {
                            assert(label_items(self.labels)[j] == label_of(v[j].value));
                        }
                    }
                    false
                },
            };
            assert(alive == node_alive(v, key_at(v, i as int), t, now));
            let start = if e.value.wallclock < e.local_timestamp { e.value.wallclock } else { e.local_timestamp };
            let old_entry = start.saturating_add(t) <= now;
            assert(e == v[i as int]);
            assert(old_entry == expired(v[i as int], t, now));
            assert(evicted(v, timeouts@, default_timeout, now, i as int) == (!alive && old_entry));
            let ghost before = out@;
            if !alive && old_entry {
                let l = e.value.label();
                proof {
                    assert(!before.contains(l)) by {
                        if before.contains(l) {
                            let j = choose|j: int| 0 <= j < i && label_of(v[j].value) == l && evicted(v, timeouts@, default_timeout, now, j);
                            assert(label_of(v[j].value) != label_of(v[i as int].value));
                        }
                    }
                }
                out.push(l);
                proof {
                    assert forall|l2: LabelKey| #[trigger] out@.contains(l2) <==> (exists|j: int|
                        0 <= j < i + 1 && label_of(v[j].value) == l2 && evicted(v, timeouts@, default_timeout, now, j)) by {
                        lemma_push_contains(before, l, l2);
                        if exists|j: int| 0 <= j < i + 1 && label_of(v[j].value) == l2 && evicted(v, timeouts@, default_timeout, now, j) {
                            let j = choose|j: int| 0 <= j < i + 1 && label_of(v[j].value) == l2 && evicted(v, timeouts@, default_timeout, now, j);
                            if j < i {
                                assert(before.contains(l2));
                            }
                        }
                    }
                }
            } else {
                proof {
                    assert(!evicted(v, timeouts@, default_timeout, now, i as int));
                    assert forall|l2: LabelKey| #[trigger] out@.contains(l2) <==> (exists|j: int|
                        0 <= j < i + 1 && label_of(v[j].value) == l2 && evicted(v, timeouts@, default_timeout, now, j)) by {
                        if exists|j: int| 0 <= j < i + 1 && label_of(v[j].value) == l2 && evicted(v, timeouts@, default_timeout, now, j) {
                            let j = choose|j: int| 0 <= j < i + 1 && label_of(v[j].value) == l2 && evicted(v, timeouts@, default_timeout, now, j);
                            assert(j != i);
                        }
                    }
                }
            }
            i += 1;
        }
        out
    }

    /// The candidates to trim: one per node with entries, with its stake.
    fn candidates(&self, stakes: &BTreeMap<(u128, u128), u64>) -> (r: Vec<Candidate>)
        requires
            self.wf(),
        ensures
            candidates_of(r@, self@, stakes@),
            r@.no_duplicates(),
    {
        let ghost v = self.values@;
        assert(records_ok(self.records@, v));
        let keys = record_keys(&self.records);
        let mut out: Vec<Candidate> = Vec::new();
        let mut j: usize = 0;
        while j < keys.len()
            invariant
                records_ok(self.records@, v),
                v == self.values@,
                j <= keys@.len(),
                keys@.no_duplicates(),
                forall|k: (u128, u128)| #[trigger] keys@.contains(k) <==> self.records@.contains_key(k),
                out@.len() == j,
                forall|a: int| 0 <= a < j ==> (#[trigger] out@[a]).2 == keys@[a],
                forall|a: int| 0 <= a < out@.len() ==> {
                    &&& (#[trigger] out@[a]).0 == stake_of(stakes@, out@[a].2)
                    &&& pubkey_key(out@[a].1) == out@[a].2
                    &&& exists|i: int| 0 <= i < v.len() && key_at(v, i) == out@[a].2 && v[i].value.pubkey == out@[a].1
                },
            decreases keys@.len() - j,
        {
            let q = keys[j];
            assert(keys@.contains(q)) by {
                assert(keys@[j as int] == q);
            }
            let stake: u64 = match stakes.get(&q) {
                Some(s) => *s,
                None => 0,
            };
            let set = match self.records.get(&q) {
                Some(set) => set,
                None => {
                    assert(false);
                    return out;
                },
            };
            let idx = index_set_to_vec(set);
            assert(idx@.len() > 0);
            let x = idx[0];
            assert(idx@.contains(x)) by {
                assert(idx@[0] == x);
            }
            let pk = self.values[x].value.pubkey;
            proof {
                assert(key_at(v, x as int) == q);
            }
            out.push((stake, pk, q));
            j += 1;
        }
        proof {
            lemma_candidates_cover(out@, keys@, self.records@, v);
        }
        out
    }

    /// The labels of the entries of the `chosen` nodes that are not kept.
    fn labels_to_drop(&self, chosen: &Vec<Candidate>, keep: &[Pubkey]) -> (labels: Vec<LabelKey>)
        requires
            self.wf(),
            chosen@.no_duplicates(),
            forall|x: int, y: int| 0 <= x < chosen@.len() && 0 <= y < chosen@.len() && x != y ==> (#[trigger] chosen@[x]).2 != (#[trigger] chosen@[y]).2,
            forall|x: int| 0 <= x < chosen@.len() ==> node_keys(self@).contains((#[trigger] chosen@[x]).2),
        ensures
            labels@.no_duplicates(),
            forall|l: LabelKey| #[trigger] labels@.contains(l) <==> (exists|i: int|
                0 <= i < self@.len() && label_of(self@[i].value) == l && dropped_key(chosen@, keep@, key_at(self@, i))),
    {
        proof {
            self.lemma_wf();
        }
        let ghost v0 = self.values@;
        assert(records_ok(self.records@, v0));
        // The labels of the entries of the nodes to drop.
        let mut labels: Vec<LabelKey> = Vec::new();
        let mut a: usize = 0;
        while a < chosen.len()
            invariant
                records_ok(self.records@, v0),
                v0 == self.values@,
                labels_distinct(v0),
                a <= chosen@.len(),
                forall|x: int| 0 <= x < chosen@.len() ==> node_keys(v0).contains((#[trigger] chosen@[x]).2),
                labels@.no_duplicates(),
                forall|l: LabelKey| #[trigger] labels@.contains(l) <==> (exists|i: int|
                    0 <= i < v0.len() && label_of(v0[i].value) == l && dropped_key(chosen@.take(a as int), keep@, key_at(v0, i))),
                chosen@.no_duplicates(),
                forall|x: int, y: int| 0 <= x < chosen@.len() && 0 <= y < chosen@.len() && x != y ==> (#[trigger] chosen@[x]).2 != (#[trigger] chosen@[y]).2,
            decreases chosen@.len() - a,
        {
            let (_, pk, q) = chosen[a];
            let kept = contains_pubkey(keep, &pk);
            let ghost before = labels@;
            let ghost ta = chosen@.take(a as int);
            let ghost tb = chosen@.take(a + 1);
            proof {
                assert forall|k: (u128, u128)| dropped_key(tb, keep@, k) <==> (dropped_key(ta, keep@, k) || (k == q && !kept)) by {
                    if dropped_key(tb, keep@, k) {
                        let x = choose|x: int| 0 <= x < tb.len() && (#[trigger] tb[x]).2 == k && !keep@.contains(tb[x].1);
                        if x < a {
                            assert(ta[x] == tb[x]);
                        }
                    }
                    if dropped_key(ta, keep@, k) {
                        let x = choose|x: int| 0 <= x < ta.len() && (#[trigger] ta[x]).2 == k && !keep@.contains(ta[x].1);
                        assert(tb[x] == ta[x]);
                    }
                    if k == q && !kept {
                        assert(tb[a as int] == chosen@[a as int]);
                    }
                }
                assert(!dropped_key(ta, keep@, q)) by {
                    if dropped_key(ta, keep@, q) {
                        let x = choose|x: int| 0 <= x < ta.len() && (#[trigger] ta[x]).2 == q && !keep@.contains(ta[x].1);
                        assert(chosen@[x].2 == chosen@[a as int].2);
                    }
                }
            }
            if !kept {
                match self.records.get(&q) {
                    Some(set) => {
                        let idx = index_set_to_vec(set);
                        let mut b: usize = 0;
                        while b < idx.len()
                            invariant
                                records_ok(self.records@, v0),
                                v0 == self.values@,
                                labels_distinct(v0),
                                self.records@.contains_key(q),
                                idx@ == index_items(self.records@[q]),
                                b <= idx@.len(),
                                labels@.no_duplicates(),
                                !dropped_key(ta, keep@, q),
                                forall|l: LabelKey| #[trigger] labels@.contains(l) <==> (
                                    before.contains(l) || exists|y: int| 0 <= y < b && l == label_of(v0[idx@[y] as int].value)),
                                forall|l: LabelKey| #[trigger] before.contains(l) <==> (exists|i: int|
                                    0 <= i < v0.len() && label_of(v0[i].value) == l && dropped_key(ta, keep@, key_at(v0, i))),
                            decreases idx@.len() - b,
                        {
                            let x = idx[b];
                            assert(idx@.contains(x)) by {
                                assert(idx@[b as int] == x);
                            }
                            let l = self.values[x].value.label();
                            proof {
                                assert(!labels@.contains(l)) by {
                                    if labels@.contains(l) {
                                        if before.contains(l) {
                                            let i = choose|i: int| 0 <= i < v0.len() && label_of(v0[i].value) == l && dropped_key(ta, keep@, key_at(v0, i));
                                            if i != x {
                                                assert(label_of(v0[i].value) != label_of(v0[x as int].value));
                                            }
                                        } else {
                                            let y = choose|y: int| 0 <= y < b && l == label_of(v0[idx@[y] as int].value);
                                            assert(idx@[y] != idx@[b as int]);
                                            assert(idx@.contains(idx@[y]));
                                            assert(label_of(v0[idx@[y] as int].value) != label_of(v0[x as int].value));
                                        }
                                    }
                                }
                            }
                            let ghost lb = labels@;
                            labels.push(l);
                            proof {
                                assert forall|l2: LabelKey| #[trigger] labels@.contains(l2) <==> (
                                    before.contains(l2) || exists|y: int| 0 <= y < b + 1 && l2 == label_of(v0[idx@[y] as int].value)) by {
                                    lemma_push_contains(lb, l, l2);
                                    if exists|y: int| 0 <= y < b + 1 && l2 == label_of(v0[idx@[y] as int].value) {
                                        let y = choose|y: int| 0 <= y < b + 1 && l2 == label_of(v0[idx@[y] as int].value);
                                        if y < b {
                                            assert(lb.contains(l2));
                                        }
                                    }
                                }
                            }
                            b += 1;
                        }
                        proof {
                            assert forall|l2: LabelKey| #[trigger] labels@.contains(l2) <==> (exists|i: int|
                                0 <= i < v0.len() && label_of(v0[i].value) == l2 && dropped_key(tb, keep@, key_at(v0, i))) by {
                                if labels@.contains(l2) && !before.contains(l2) {
                                    let y = choose|y: int| 0 <= y < b && l2 == label_of(v0[idx@[y] as int].value);
                                    assert(idx@.contains(idx@[y]));
                                    assert(key_at(v0, idx@[y] as int) == q);
                                }
                                if exists|i: int| 0 <= i < v0.len() && label_of(v0[i].value) == l2 && dropped_key(tb, keep@, key_at(v0, i)) {
                                    let i = choose|i: int| 0 <= i < v0.len() && label_of(v0[i].value) == l2 && dropped_key(tb, keep@, key_at(v0, i));
                                    if !dropped_key(ta, keep@, key_at(v0, i)) {
                                        assert(key_at(v0, i) == q);
                                        assert(v0.len() == self.values.len());
                                        assert(idx@.contains(i as usize));
                                        let y = choose|y: int| 0 <= y < idx@.len() && idx@[y] == i as usize;
                                    }
                                }
                            }
                        }
                    },
                    None => {
                        proof {
                            assert(node_keys(v0).contains(chosen@[a as int].2));
                            let i = choose|i: int| 0 <= i < v0.len() && key_at(v0, i) == chosen@[a as int].2;
                            assert(self.records@.contains_key(key_at(v0, i)));
                        }
                    },
                }
            } else {
                proof {
                    assert forall|l2: LabelKey| #[trigger] labels@.contains(l2) <==> (exists|i: int|
                        0 <= i < v0.len() && label_of(v0[i].value) == l2 && dropped_key(tb, keep@, key_at(v0, i))) by {
                    }
                }
            }
            a += 1;
        }
        proof {
            assert(chosen@.take(chosen@.len() as int) =~= chosen@);
        }
        labels
    }

    /// Removes the entries with the given labels, one by one.
    fn remove_labels(&mut self, labels: &Vec<LabelKey>, now: u64)
        requires
            old(self).wf(),
            labels@.no_duplicates(),
            forall|l: LabelKey| #[trigger] labels@.contains(l) ==> exists|i: int| 0 <= i < old(self)@.len() && label_of(old(self)@[i].value) == l,
        ensures
            final(self).wf(),
            final(self).spec_cursor() == old(self).spec_cursor(),
            forall|e: VersionedCrdsValue| #[trigger] final(self)@.contains(e) <==> (old(self)@.contains(e) && !labels@.contains(label_of(e.value))),
            final(self)@.len() + labels@.len() == old(self)@.len(),
    {
        proof {
            self.lemma_wf();
        }
        let ghost v0 = self.values@;
        proof {
            assert forall|e: VersionedCrdsValue| #[trigger] self@.contains(e) <==> (v0.contains(e) && !labels@.take(0).contains(label_of(e.value))) by {
            }
        }
        // Remove them one by one.
        let mut k: usize = 0;
        while k < labels.len()
            invariant
                self.wf(),
                self.spec_cursor() == old(self).spec_cursor(),
                labels@.no_duplicates(),
                k <= labels@.len(),
                labels_distinct(v0),
                forall|l: LabelKey| #[trigger] labels@.contains(l) ==> exists|i: int| 0 <= i < v0.len() && label_of(v0[i].value) == l,
                forall|e: VersionedCrdsValue| #[trigger] self@.contains(e) <==> (v0.contains(e) && !labels@.take(k as int).contains(label_of(e.value))),
                self@.len() + k == v0.len(),
            decreases labels@.len() - k,
        {
            let l = labels[k];
            let ghost w0 = self@;
            proof {
                self.lemma_wf();
                assert(labels@.contains(l)) by {
                    assert(labels@[k as int] == l);
                }
                let i0 = choose|i: int| 0 <= i < v0.len() && label_of(v0[i].value) == l;
                assert(!labels@.take(k as int).contains(l)) by {
                    if labels@.take(k as int).contains(l) {
                        let y = choose|y: int| 0 <= y < k && labels@.take(k as int)[y] == l;
                        assert(labels@[y] == labels@[k as int]);
                    }
                }
                assert(v0.contains(v0[i0]));
                assert(w0.contains(v0[i0]));
            }
            self.remove(&l, now);
            proof {
                let i0 = choose|i: int| 0 <= i < v0.len() && label_of(v0[i].value) == l;
                let p = position_of(w0, l);
                assert(w0.contains(v0[i0]));
                let q0 = choose|q0: int| 0 <= q0 < w0.len() && w0[q0] == v0[i0];
                lemma_position_of(w0, l, q0);
                let tk = labels@.take(k as int);
                let tk1 = labels@.take(k + 1);
                assert(tk1 =~= tk.push(l));
                assert forall|e: VersionedCrdsValue| #[trigger] self@.contains(e) <==> (v0.contains(e) && !tk1.contains(label_of(e.value))) by {
                    lemma_swap_removed_contains(w0, q0, e);
                    lemma_push_contains(tk, l, label_of(e.value));
                    if w0.contains(e) && e != w0[q0] {
                        let z = choose|z: int| 0 <= z < w0.len() && w0[z] == e;
                        assert(label_of(w0[z].value) != label_of(w0[q0].value));
                    }
                    if w0.contains(e) && label_of(e.value) != l {
                        assert(e != w0[q0]);
                    }
                }
            }
            k += 1;
        }
        proof {
            assert(labels@.take(labels@.len() as int) =~= labels@);
        }
    }

    /// Drops every entry of the `size` nodes that come first by stake
    /// (lowest first, ties by key), except those of the nodes in `keep`;
    /// returns how many entries were dropped. Fails when no node is known
    /// to have stake.
    pub fn drop(&mut self, size: usize, keep: &[Pubkey], stakes: &BTreeMap<(u128, u128), u64>, now: u64) -> (r: Result<usize, CrdsError>)
        requires
            old(self).wf(),
        ensures
            final(self).wf(),
            final(self).spec_cursor() == old(self).spec_cursor(),
            stakes_unknown(stakes@) ==> r == Err::<usize, CrdsError>(CrdsError::UnknownStakes) && final(self).state() == old(self).state(),
            !stakes_unknown(stakes@) ==> {
                &&& dropped_lowest(old(self)@, final(self)@, stakes@, keep@, size as nat)
                &&& r == Ok::<usize, CrdsError>((old(self)@.len() - final(self)@.len()) as usize)
            },
    {
        if stakes_all_zero(stakes) {
            return Err(CrdsError::UnknownStakes);
        }
        proof {
            self.lemma_wf();
        }
        let ghost v0 = self@;
        let c = self.candidates(stakes);
        let ghost cs = c@;
        let (chosen, rest) = pick_lowest(c, size);
        proof {
            lemma_chosen_nodes(chosen@, rest@, cs, v0, stakes@, size as nat);
        }
        let labels = self.labels_to_drop(&chosen, keep);
        self.remove_labels(&labels, now);
        proof {
            assert forall|e: VersionedCrdsValue| #[trigger] self@.contains(e) <==> (v0.contains(e)
                && !dropped_key(chosen@, keep@, pubkey_key(e.value.pubkey))) by {
                if v0.contains(e) {
                    let i = choose|i: int| 0 <= i < v0.len() && v0[i] == e;
                    assert(key_at(v0, i) == pubkey_key(e.value.pubkey));
                    if labels@.contains(label_of(e.value)) {
                        let j = choose|j: int| 0 <= j < v0.len() && label_of(v0[j].value) == label_of(e.value) && dropped_key(chosen@, keep@, key_at(v0, j));
                        if j != i {
                            assert(label_of(v0[j].value) != label_of(v0[i].value));
                        }
                    }
                }
            }
            assert(candidates_of(cs, v0, stakes@));
            assert(lowest(chosen@, rest@, cs, size as nat));
        }
        Ok(labels.len())
    }

    /// When the table holds more than `cap` nodes by over a tenth, drops
    /// the entries of the lowest staked nodes (see [`Crds::drop`]) down to
    /// `cap` nodes, except those in `keep`; returns how many entries were
    /// dropped.
    pub fn trim(&mut self, cap: usize, keep: &[Pubkey], stakes: &BTreeMap<(u128, u128), u64>, now: u64) -> (r: Result<usize, CrdsError>)
        requires
            old(self).wf(),
        ensures
            final(self).wf(),
            !(10 * node_keys(old(self)@).len() > 11 * cap) ==> r == Ok::<usize, CrdsError>(0) && final(self).state() == old(self).state(),
            10 * node_keys(old(self)@).len() > 11 * cap && stakes_unknown(stakes@) ==> r == Err::<usize, CrdsError>(
                CrdsError::UnknownStakes,
            ) && final(self).state() == old(self).state(),
            10 * node_keys(old(self)@).len() > 11 * cap && !stakes_unknown(stakes@) ==> {
                &&& dropped_lowest(old(self)@, final(self)@, stakes@, keep@, (node_keys(old(self)@).len() - cap) as nat)
                &&& r == Ok::<usize, CrdsError>((old(self)@.len() - final(self)@.len()) as usize)
            },
    {
        if self.should_trim(cap) {
            let n = self.num_pubkeys();
            let size = n.saturating_sub(cap);
            self.drop(size, keep, stakes, now)
        } else {
            Ok(0)
        }
    }

    /// Stores `value`, received at time `now` by `route`, if its label is
    /// new or it is newer than the value with its label (see
    /// [`spec_overrides`]). A new label goes last; a newer value takes the
    /// place of the older one, whose hash is then purged. Either way the
    /// value gets the cursor's ordinal and the cursor moves on.
    ///
    /// A value that is not newer is refused: if it differs from the stored
    /// one its hash is purged, and if it is the stored one coming again by
    /// push, the push is counted and reported.
    pub fn insert(&mut self, value: CrdsValue, now: u64, route: GossipRoute) -> (r: Result<(), CrdsError>)
        requires
            old(self).wf(),
            old(self).spec_cursor() < u64::MAX,
        ensures
            final(self).wf(),
            (final(self).state(), r) == spec_insert(old(self).state(), value, now, route),
            ({
                let v = old(self)@;
                let c = old(self).spec_cursor();
                let p = old(self).spec_purged();
                let sv = old(self).spec_shred_versions();
                let entry = new_entry(c, value, now, route);
                match position_of(v, label_of(value)) {
                    None => {
                        &&& r == Ok::<(), CrdsError>(())
                        &&& final(self)@ == v.push(entry)
                        &&& final(self).spec_cursor() == c + 1
                        &&& final(self).spec_purged() == p
                        &&& final(self).spec_shred_versions() == shred_versions_after(sv, value)
                    },
                    Some(i) => if spec_overrides(value, v[i].value) {
                        &&& r == Ok::<(), CrdsError>(())
                        &&& final(self)@ == v.update(i, entry)
                        &&& final(self).spec_cursor() == c + 1
                        &&& final(self).spec_purged() == p.push((v[i].value.hash, now))
                        &&& final(self).spec_shred_versions() == shred_versions_after(sv, value)
                    } else if v[i].value.hash != value.hash {
                        &&& r == Err::<(), CrdsError>(CrdsError::InsertFailed)
                        &&& final(self)@ == v
                        &&& final(self).spec_cursor() == c
                        &&& final(self).spec_purged() == p.push((value.hash, now))
                        &&& final(self).spec_shred_versions() == sv
                    } else if route is PushMessage {
                        &&& r == Err::<(), CrdsError>(CrdsError::DuplicatePush(push_count(v[i])))
                        &&& final(self)@ == v.update(
                            i,
                            VersionedCrdsValue { num_push_recv: Some(saturating_inc(push_count(v[i]))), ..v[i] },
                        )
                        &&& final(self).spec_cursor() == c
                        &&& final(self).spec_purged() == p
                        &&& final(self).spec_shred_versions() == sv
                    } else {
                        &&& r == Err::<(), CrdsError>(CrdsError::InsertFailed)
                        &&& final(self)@ == v
                        &&& final(self).spec_cursor() == c
                        &&& final(self).spec_purged() == p
                        &&& final(self).spec_shred_versions() == sv
                    },
                }
            }),
    {
        proof {
            self.lemma_wf();
        }
        let ghost v = self.values@;
        let label = value.label();
        let pk = value.pubkey.key();
        let ordinal = self.cursor.ordinal();
        let entry = VersionedCrdsValue::new(value, self.cursor, now, route);
        match label_set_index_of(&self.labels, &label) {
            None => {
                assert(position_of(v, label) is None) by {
                    if exists|j: int| 0 <= j < v.len() && label_of(v[j].value) == label {
                        let j = choose|j: int| 0 <= j < v.len() && label_of(v[j].value) == label;
                        assert(label_items(self.labels)[j] == label);
                    }
                }
                assert forall|j: int| 0 <= j < v.len() implies label_of((#[trigger] v[j]).value) != label_of(value) by {
                    assert(label_items(self.labels)[j] == label_of(v[j].value));
                }
                let n = self.values.len();
                shards_push(&mut self.shards, Ghost(v), &entry, n);
                nodes_push(&mut self.nodes, Ghost(v), &entry, n);
                ordinal_index_push(&mut self.votes, Ghost(v), VOTE_TAG, &entry, n);
                ordinal_index_push(&mut self.epoch_slots, Ghost(v), EPOCH_SLOTS_TAG, &entry, n);
                ordinal_index_push(&mut self.duplicate_shreds, Ghost(v), DUPLICATE_SHRED_TAG, &entry, n);
                ordinal_index_push(&mut self.entries, Ghost(v), ALL_KINDS, &entry, n);
                let ghost r0 = self.records@;
                records_push(&mut self.records, Ghost(v), &entry, pk, n);
                shred_versions_push(&mut self.shred_versions, Ghost(r0), Ghost(self.records@), Ghost(v), &entry, pk);
                self.cursor.consume(ordinal);
                let ghost l0 = label_items(self.labels);
                label_set_insert(&mut self.labels, label);
                self.values.push(entry);
                proof {
                    let w = self.values@;
                    assert(w == v.push(entry));
                    assert(label_items(self.labels) == l0.push(label));
                    assert forall|i: int| 0 <= i < w.len() implies #[trigger] label_items(self.labels)[i] == label_of(w[i].value) by {
                        if i < v.len() {
                            assert(w[i] == v[i]);
                        }
                    }
                    assert forall|i: int| 0 <= i < w.len() implies (#[trigger] w[i]).ordinal < self.cursor.0 by {
                        if i < v.len() {
                            assert(w[i] == v[i]);
                        }
                    }
                    assert forall|i: int, j: int| 0 <= i < w.len() && 0 <= j < w.len() && i != j implies (#[trigger] w[i]).ordinal
                        != (#[trigger] w[j]).ordinal by {
                        if i < v.len() {
                            assert(w[i] == v[i]);
                        }
                        if j < v.len() {
                            assert(w[j] == v[j]);
                        }
                    }
                }
                Ok(())
            },
            Some(i) => {
                proof {
                    lemma_position_of(v, label, i as int);
                }
                let other = self.values[i];
                let n = self.values.len();
                assert(v.len() == n);
                if overrides(&entry.value, &other.value) {
                    shards_replace(&mut self.shards, Ghost(v), i, hash_as_u64(&other.value.hash), &entry);
                    proof {
                        lemma_nodes_replace(index_items(self.nodes), v, i as int, entry);
                        lemma_records_replace(self.records@, v, i as int, entry);
                    }
                    ordinal_index_replace(&mut self.votes, Ghost(v), VOTE_TAG, i, other.ordinal, &entry);
                    ordinal_index_replace(&mut self.epoch_slots, Ghost(v), EPOCH_SLOTS_TAG, i, other.ordinal, &entry);
                    ordinal_index_replace(
                        &mut self.duplicate_shreds,
                        Ghost(v),
                        DUPLICATE_SHRED_TAG,
                        i,
                        other.ordinal,
                        &entry,
                    );
                    ordinal_index_replace(&mut self.entries, Ghost(v), ALL_KINDS, i, other.ordinal, &entry);
                    shred_versions_replace(&mut self.shred_versions, Ghost(self.records@), Ghost(v), i, &entry, pk);
                    self.cursor.consume(ordinal);
                    self.purged.push_back((other.value.hash, now));
                    self.values.set(i, entry);
                    proof {
                        let w = self.values@;
                        assert(w == v.update(i as int, entry));
                        assert forall|j: int| 0 <= j < w.len() implies #[trigger] label_items(self.labels)[j] == label_of(w[j].value) by {
                            if j != i {
                                assert(w[j] == v[j]);
                            }
                        }
                        assert forall|j: int| 0 <= j < w.len() implies (#[trigger] w[j]).ordinal < self.cursor.0 by {
                            if j != i {
                                assert(w[j] == v[j]);
                            }
                        }
                        assert forall|a: int, b: int| 0 <= a < w.len() && 0 <= b < w.len() && a != b implies (#[trigger] w[a]).ordinal
                            != (#[trigger] w[b]).ordinal by {
                            if a != i {
                                assert(w[a] == v[a]);
                            }
                            if b != i {
                                assert(w[b] == v[b]);
                            }
                        }
                    }
                    Ok(())
                } else if !other.value.hash.same_as(&entry.value.hash) {
                    self.purged.push_back((entry.value.hash, now));
                    Err(CrdsError::InsertFailed)
                } else if let GossipRoute::PushMessage(_) = route {
                    let num_push_dups = match other.num_push_recv {
                        Some(k) => k,
                        None => 0,
                    };
                    let bumped = if num_push_dups == u8::MAX { num_push_dups } else { num_push_dups + 1 };
                    let updated = VersionedCrdsValue { num_push_recv: Some(bumped), ..other };
                    proof {
                        lemma_nodes_replace(index_items(self.nodes), v, i as int, updated);
                        lemma_records_replace(self.records@, v, i as int, updated);
                        lemma_same_entry_indices(self.shards@, self.votes@, self.epoch_slots@, self.duplicate_shreds@, self.entries@, self.shred_versions@, self.records@, v, i as int, updated);
                    }
                    self.values.set(i, updated);
                    proof {
                        let w = self.values@;
                        assert forall|j: int| 0 <= j < w.len() implies #[trigger] label_items(self.labels)[j] == label_of(w[j].value) by {
                            if j != i {
                                assert(w[j] == v[j]);
                            }
                        }
                        assert forall|j: int| 0 <= j < w.len() implies (#[trigger] w[j]).ordinal < self.cursor.0 by {
                            if j != i {
                                assert(w[j] == v[j]);
                            }
                        }
                        assert forall|a: int, b: int| 0 <= a < w.len() && 0 <= b < w.len() && a != b implies (#[trigger] w[a]).ordinal
                            != (#[trigger] w[b]).ordinal by {
                            if a != i {
                                assert(w[a] == v[a]);
                            }
                            if b != i {
                                assert(w[b] == v[b]);
                            }
                        }
                    }
                    Err(CrdsError::DuplicatePush(num_push_dups))
                } else {
                    Err(CrdsError::InsertFailed)
                }
            },
        }
    }
}

// ---------------------------------------------------------------------
// Laws of the table.

/// In a table with distinct labels, the entry found under a label is the
/// one that carries it, and nothing is found when none does.
pub proof fn lemma_lookup(v: Seq<VersionedCrdsValue>, key: LabelKey)
    requires
        labels_distinct(v),
    ensures
        lookup(v, key) is None <==> (forall|i: int| 0 <= i < v.len() ==> label_of((#[trigger] v[i]).value) != key),
        forall|i: int| 0 <= i < v.len() && label_of((#[trigger] v[i]).value) == key ==> lookup(v, key) == Some(v[i]),
{
    assert forall|i: int| 0 <= i < v.len() && label_of((#[trigger] v[i]).value) == key implies lookup(v, key) == Some(v[i]) by {
        lemma_position_of(v, key, i);
    }
}

/// Adding an entry with a new label keeps the labels distinct.
proof fn lemma_push_distinct(v: Seq<VersionedCrdsValue>, e: VersionedCrdsValue)
    requires
        labels_distinct(v),
        forall|i: int| 0 <= i < v.len() ==> label_of((#[trigger] v[i]).value) != label_of(e.value),
    ensures
        labels_distinct(v.push(e)),
{
    let w = v.push(e);
    assert forall|i: int, j: int| 0 <= i < w.len() && 0 <= j < w.len() && i != j implies label_of((#[trigger] w[i]).value)
        != label_of((#[trigger] w[j]).value) by {
        if i < v.len() {
            assert(w[i] == v[i]);
        }
        if j < v.len() {
            assert(w[j] == v[j]);
        }
    }
}

/// Replacing an entry by one with the same label keeps the labels
/// distinct.
proof fn lemma_update_distinct(v: Seq<VersionedCrdsValue>, i: int, e: VersionedCrdsValue)
    requires
        labels_distinct(v),
        0 <= i < v.len(),
        label_of(v[i].value) == label_of(e.value),
    ensures
        labels_distinct(v.update(i, e)),
{
    let w = v.update(i, e);
    assert forall|a: int, b: int| 0 <= a < w.len() && 0 <= b < w.len() && a != b implies label_of((#[trigger] w[a]).value)
        != label_of((#[trigger] w[b]).value) by {
        assert(label_of(w[a].value) == label_of(v[a].value));
        assert(label_of(w[b].value) == label_of(v[b].value));
    }
}

/// Inserting into a table with distinct labels keeps them distinct, and
/// after a successful insert the value is found under its label, as the
/// newest entry: stored at the cursor's ordinal, at time `now`.
pub proof fn law_insert_then_get(s: CrdsState, value: CrdsValue, now: u64, route: GossipRoute)
    requires
        labels_distinct(s.table),
    ensures
        labels_distinct(spec_insert(s, value, now, route).0.table),
        spec_insert(s, value, now, route).1 is Ok ==> lookup(spec_insert(s, value, now, route).0.table, label_of(value))
            == Some(new_entry(s.cursor, value, now, route)),
{
    let v = s.table;
    let (t, r) = spec_insert(s, value, now, route);
    let e = new_entry(s.cursor, value, now, route);
    match position_of(v, label_of(value)) {
        None => {
            lemma_lookup(v, label_of(value));
            lemma_push_distinct(v, e);
            lemma_position_of(v.push(e), label_of(value), v.len() as int);
        },
        Some(i) => {
            let c = choose|i: int| 0 <= i < v.len() && label_of(v[i].value) == label_of(value);
            assert(label_of(v[i].value) == label_of(value));
            if spec_overrides(value, v[i].value) {
                lemma_update_distinct(v, i, e);
                lemma_position_of(v.update(i, e), label_of(value), i);
            } else if v[i].value.hash != value.hash {
            } else if route is PushMessage {
                let u = VersionedCrdsValue { num_push_recv: Some(saturating_inc(push_count(v[i]))), ..v[i] };
                lemma_update_distinct(v, i, u);
            }
        },
    }
}

/// Inserting a value leaves what is found under every other label as it
/// was.
pub proof fn law_insert_keeps_other_labels(s: CrdsState, value: CrdsValue, now: u64, route: GossipRoute, key: LabelKey)
    requires
        labels_distinct(s.table),
        key != label_of(value),
    ensures
        lookup(spec_insert(s, value, now, route).0.table, key) == lookup(s.table, key),
{
    law_insert_then_get(s, value, now, route);
    let v = s.table;
    let w = spec_insert(s, value, now, route).0.table;
    lemma_lookup(v, key);
    lemma_lookup(w, key);
    // The entries other than the one labeled like `value` stay in place.
    assert(w.len() >= v.len());
    assert forall|j: int| 0 <= j < v.len() && label_of(v[j].value) != label_of(value) implies #[trigger] w[j] == v[j] by {
        match position_of(v, label_of(value)) {
            None => {},
            Some(i) => {
                let c = choose|i: int| 0 <= i < v.len() && label_of(v[i].value) == label_of(value);
                assert(label_of(v[i].value) == label_of(value));
                assert(j != i);
            },
        }
    }
    assert forall|j: int| 0 <= j < w.len() && label_of((#[trigger] w[j]).value) == key implies j < v.len() && w[j] == v[j] by {
        match position_of(v, label_of(value)) {
            None => {
                if j == v.len() {
                    assert(w[j] == new_entry(s.cursor, value, now, route));
                }
            },
            Some(i) => {
                let c = choose|i: int| 0 <= i < v.len() && label_of(v[i].value) == label_of(value);
                assert(label_of(v[i].value) == label_of(value));
                if j == i {
                    assert(label_of(w[j].value) == label_of(value));
                }
            },
        }
    }
    if lookup(v, key) is Some {
        let j = choose|j: int| 0 <= j < v.len() && label_of(v[j].value) == key;
        assert(w[j] == v[j]);
    }
}

/// Once a value is stored, inserting it again is refused: it is not newer
/// than itself.
pub proof fn law_reinsert_refused(s: CrdsState, value: CrdsValue, now: u64, route: GossipRoute, later: u64, route2: GossipRoute)
    requires
        labels_distinct(s.table),
        spec_insert(s, value, now, route).1 is Ok,
    ensures
        spec_insert(spec_insert(s, value, now, route).0, value, later, route2).1 is Err,
{
    law_insert_then_get(s, value, now, route);
    let t = spec_insert(s, value, now, route).0;
    lemma_lookup(t.table, label_of(value));
    let i = choose|i: int| 0 <= i < t.table.len() && label_of(t.table[i].value) == label_of(value);
    lemma_position_of(t.table, label_of(value), i);
    assert(t.table[i].value == value);
    lemma_overrides_irreflexive(value);
}

proof fn lemma_bytes_less_irreflexive(a: Seq<u8>)
    ensures
        !crate::crds_value::bytes_less(a, a),
    decreases a.len(),
{
    if a.len() > 0 {
        lemma_bytes_less_irreflexive(a.drop_first());
    }
}

proof fn lemma_bytes_less_asymmetric(a: Seq<u8>, b: Seq<u8>)
    ensures
        !(crate::crds_value::bytes_less(a, b) && crate::crds_value::bytes_less(b, a)),
    decreases a.len(),
{
    if a.len() > 0 && b.len() > 0 && a[0] == b[0] {
        lemma_bytes_less_asymmetric(a.drop_first(), b.drop_first());
    }
}

/// No value replaces itself.
proof fn lemma_overrides_irreflexive(value: CrdsValue)
    ensures
        !spec_overrides(value, value),
{
    lemma_bytes_less_irreflexive(value.hash.0@);
}

/// Inserting a value whose hash no stored value has counts it once: the
/// entries and the purged hashes together grow by exactly one (a new label
/// adds an entry; an override purges the old hash; a refused value has its
/// own hash purged), and the cursor moves on exactly when the insert
/// succeeds.
pub proof fn law_insert_counts_once(s: CrdsState, value: CrdsValue, now: u64, route: GossipRoute)
    requires
        forall|i: int| 0 <= i < s.table.len() ==> (#[trigger] s.table[i]).value.hash != value.hash,
        s.cursor < u64::MAX,
    ensures
        ({
            let (t, r) = spec_insert(s, value, now, route);
            &&& t.table.len() + t.purged.len() == s.table.len() + s.purged.len() + 1
            &&& (t.cursor == s.cursor + 1) == (r is Ok)
            &&& (r is Err ==> t.cursor == s.cursor)
        }),
{
    if let Some(i) = position_of(s.table, label_of(value)) {
        assert(0 <= i < s.table.len());
        assert(s.table[i].value.hash != value.hash);
    }
}

/// A value is upserted exactly when inserting it succeeds: its label is
/// new, or it overrides the value stored under its label.
pub proof fn law_upserts_iff_insert_succeeds(s: CrdsState, value: CrdsValue, now: u64, route: GossipRoute)
    ensures
        (match position_of(s.table, label_of(value)) {
            Some(i) => spec_overrides(value, s.table[i].value),
            None => true,
        }) == (spec_insert(s, value, now, route).1 is Ok),
{
}

/// A cursor yields each entry once: reading again from where a read left
/// the cursor, with nothing inserted in between, yields nothing.
pub proof fn law_cursor_reads_once(v: Seq<VersionedCrdsValue>, kind: u8, from: u64, first: Seq<VersionedCrdsValue>, second: Seq<VersionedCrdsValue>)
    requires
        forall|i: int| 0 <= i < v.len() ==> (#[trigger] v[i]).ordinal < u64::MAX,
        consumed_since(first, v, kind, from),
        consumed_since(second, v, kind, cursor_after(from, first)),
    ensures
        second.len() == 0,
{
    if second.len() > 0 {
        let e = second[0];
        assert(second.contains(e));
        let i = choose|i: int| 0 <= i < v.len() && v[i] == e && in_kind(kind, e.value.data) && e.ordinal >= cursor_after(from, first);
        if first.len() > 0 {
            assert(first.contains(first.last()));
            let i2 = choose|i2: int| 0 <= i2 < v.len() && v[i2] == first.last() && in_kind(kind, first.last().value.data) && first.last().ordinal >= from;
            assert(first.last().ordinal < u64::MAX);
            assert(e.ordinal >= from);
            assert(first.contains(e));
            let k = choose|k: int| 0 <= k < first.len() && first[k] == e;
            if k < first.len() - 1 {
                assert(first[k].ordinal < first[first.len() - 1].ordinal);
            }
        } else {
            assert(first.contains(e));
        }
    }
}

/// Of two values with the same label, at most one replaces the other: the
/// merge never flip-flops.
pub proof fn law_overrides_asymmetric(a: CrdsValue, b: CrdsValue)
    requires
        label_of(a) == label_of(b),
    ensures
        !(spec_overrides(a, b) && spec_overrides(b, a)),
{
    lemma_bytes_less_asymmetric(a.hash.0@, b.hash.0@);
}

/// After removing a label, nothing is found under it, and every other
/// label finds what it found before.
pub proof fn law_remove_then_get(v: Seq<VersionedCrdsValue>, key: LabelKey, other: LabelKey)
    requires
        labels_distinct(v),
        other != key,
    ensures
        ({
            let w = match position_of(v, key) {
                Some(i) => swap_removed_at(v, i),
                None => v,
            };
            &&& labels_distinct(w)
            &&& lookup(w, key) is None
            &&& lookup(w, other) == lookup(v, other)
        }),
{
    lemma_lookup(v, key);
    lemma_lookup(v, other);
    match position_of(v, key) {
        None => {},
        Some(i) => {
            let c = choose|i: int| 0 <= i < v.len() && label_of(v[i].value) == key;
            assert(label_of(v[i].value) == key);
            let w = swap_removed_at(v, i);
            let last = v.len() - 1;
            assert forall|j: int| 0 <= j < w.len() implies #[trigger] w[j] == (if j == i { v[last] } else { v[j] }) by {
            }
            assert forall|a: int, b: int| 0 <= a < w.len() && 0 <= b < w.len() && a != b implies label_of((#[trigger] w[a]).value)
                != label_of((#[trigger] w[b]).value) by {
                let aa = if a == i { last } else { a };
                let bb = if b == i { last } else { b };
                assert(w[a] == v[aa]);
                assert(w[b] == v[bb]);
            }
            lemma_lookup(w, key);
            lemma_lookup(w, other);
            assert forall|j: int| 0 <= j < w.len() implies label_of((#[trigger] w[j]).value) != key by {
                let jj = if j == i { last } else { j };
                assert(w[j] == v[jj]);
                assert(jj != i);
            }
            if lookup(v, other) is Some {
                let j = choose|j: int| 0 <= j < v.len() && label_of(v[j].value) == other;
                assert(j != i);
                let jj = if j == last { i } else { j };
                assert(w[jj] == v[j]);
            } else {
                assert forall|j: int| 0 <= j < w.len() implies label_of((#[trigger] w[j]).value) != other by {
                    let jj = if j == i { last } else { j };
                    assert(w[j] == v[jj]);
                }
            }
        },
    }
}

/// An entry ages out when the earlier of its wallclock and its local
/// timestamp, plus its node's timeout (the node's own, or the default), is
/// not after `now` (the sum saturating, so at `now == u64::MAX` every entry
/// has aged out). `find_old_labels` evicts exactly the entries that have
/// aged out while every contact information of their node has aged out by
/// the same measure, or the node has none.
pub proof fn law_evicted_by_age(
    v: Seq<VersionedCrdsValue>,
    timeouts: Map<(u128, u128), u64>,
    default_timeout: u64,
    now: u64,
    i: int,
)
    requires
        0 <= i < v.len(),
    ensures
        evicted(v, timeouts, default_timeout, now, i) <==> ({
            let pk = pubkey_key(v[i].value.pubkey);
            let t = if timeouts.contains_key(pk) { timeouts[pk] } else { default_timeout };
            &&& (v[i].value.wallclock + t <= now || v[i].local_timestamp + t <= now || now == u64::MAX)
            &&& forall|j: int|
                0 <= j < v.len() && (#[trigger] v[j]).value.data is ContactInfo && pubkey_key(v[j].value.pubkey) == pk
                    ==> (v[j].value.wallclock + t <= now || v[j].local_timestamp + t <= now || now == u64::MAX)
        }),
{
    let pk = key_at(v, i);
    let t = timeout_of(timeouts, default_timeout, pk);
    assert forall|e: VersionedCrdsValue| #[trigger] expired(e, t, now) <==> (e.value.wallclock + t <= now
        || e.local_timestamp + t <= now || now == u64::MAX) by {}
    assert forall|j: int| 0 <= j < v.len() implies (label_of((#[trigger] v[j]).value) == (11u8, 0u16, pk.0, pk.1) <==> (
    v[j].value.data is ContactInfo && pubkey_key(v[j].value.pubkey) == pk)) by {}
}

/// Votes of one node with different indices are kept side by side: once a
/// vote is stored, inserting another vote of that node with another index
/// leaves the first found under its label, whatever comes of that insert;
/// and that insert succeeds when nothing was stored under its own label.
pub proof fn law_votes_coexist(
    s: CrdsState,
    a: CrdsValue,
    b: CrdsValue,
    now: u64,
    later: u64,
    route: GossipRoute,
    route2: GossipRoute,
)
    requires
        labels_distinct(s.table),
        a.data matches CrdsData::Vote(i) && b.data matches CrdsData::Vote(j) && i != j,
        a.pubkey == b.pubkey,
        spec_insert(s, a, now, route).1 is Ok,
    ensures
        lookup(spec_insert(spec_insert(s, a, now, route).0, b, later, route2).0.table, label_of(a)) == Some(
            new_entry(s.cursor, a, now, route),
        ),
        lookup(s.table, label_of(b)) is None ==> spec_insert(spec_insert(s, a, now, route).0, b, later, route2).1 is Ok,
{
    crate::crds_value::law_label_carries_index(a, b);
    let t = spec_insert(s, a, now, route).0;
    law_insert_then_get(s, a, now, route);
    law_insert_keeps_other_labels(t, b, later, route2, label_of(a));
    law_insert_keeps_other_labels(s, a, now, route, label_of(b));
}

} // verus!
