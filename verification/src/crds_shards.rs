//! Crds values grouped by the leading bits of their hashes, so that the
//! values whose hashes start with given bits are found without a scan.

use vstd::prelude::*;
use indexmap::IndexMap;
use crate::index_map::{
    map_entries, distinct_keys, has_key, swap_removed, index_map_new, index_map_insert,
    index_map_swap_remove, index_map_entries,
};

verus! {

/// The bits below the first `mask_bits` bits of a hash.
pub open spec fn low_ones(mask_bits: u32) -> u64 {
    if mask_bits >= 64 { 0u64 } else { !0u64 >> mask_bits }
}

/// The first `mask_bits` bits of `hash` are those of `mask`.
pub open spec fn matches_mask(hash: u64, mask: u64, mask_bits: u32) -> bool {
    (hash | low_ones(mask_bits)) == (mask | low_ones(mask_bits))
}

/// The shard of a hash: its first `shard_bits` bits.
pub open spec fn shard_of(hash: u64, shard_bits: u32) -> int {
    if shard_bits == 0 { 0 } else { (hash >> ((64 - shard_bits) as u64)) as int }
}

proof fn lemma_shift_bounds(h: u64, sb: u32)
    requires
        1 <= sb <= 32,
    ensures
        (h >> ((64 - sb) as u64)) < (1u64 << (sb as u64)),
        (1u64 << (sb as u64)) <= 0x1_0000_0000,
{
    let s: u64 = sb as u64;
    let t: u64 = (64 - s) as u64;
    assert((h >> t) < (1u64 << s)) by (bit_vector)
        requires
            1 <= s <= 32,
            t == 64 - s,
    ;
    assert((1u64 << s) <= 0x1_0000_0000) by (bit_vector)
        requires
            s <= 32,
    ;
}

/// A shard lies among the `2^shard_bits` shards.
pub proof fn lemma_shard_in_range(h: u64, sb: u32)
    requires
        1 <= sb <= 32,
    ensures
        0 <= shard_of(h, sb) < (1u64 << (sb as u64)),
{
    lemma_shift_bounds(h, sb);
}

/// With the twelve shard bits of the crds table, every hash falls in one
/// of its 4096 shards.
pub broadcast proof fn lemma_table_shard_range(h: u64)
    ensures
        0 <= #[trigger] shard_of(h, 12) < 4096,
        (1u64 << 12u64) == 4096,
{
    lemma_shard_in_range(h, 12);
    assert((1u64 << 12u64) == 4096) by (bit_vector);
}

proof fn lemma_one_shard()
    ensures
        (1u64 << 0u64) == 1,
{
    assert((1u64 << 0u64) == 1) by (bit_vector);
}

/// A hash that matches a mask of at least `sb` bits lies in the mask's shard.
proof fn lemma_match_same_shard(h: u64, m: u64, sb: u32, mb: u32)
    requires
        1 <= sb <= mb,
        sb <= 32,
        mb < 64,
        (h | (!0u64 >> (mb as u64))) == (m | (!0u64 >> (mb as u64))),
    ensures
        (h >> ((64 - sb) as u64)) == (m >> ((64 - sb) as u64)),
{
    let s: u64 = sb as u64;
    let b: u64 = mb as u64;
    let t: u64 = (64 - s) as u64;
    assert((h >> t) == (m >> t)) by (bit_vector)
        requires
            t == 64 - s,
            1 <= s <= b,
            s <= 32,
            b < 64,
            (h | (!0u64 >> b)) == (m | (!0u64 >> b)),
    ;
}

/// Two hashes in the same shard match each other's first `sb` bits.
proof fn lemma_same_shard_match(h: u64, m: u64, sb: u32)
    requires
        1 <= sb <= 32,
        (h >> ((64 - sb) as u64)) == (m >> ((64 - sb) as u64)),
    ensures
        (h | (!0u64 >> (sb as u64))) == (m | (!0u64 >> (sb as u64))),
{
    let s: u64 = sb as u64;
    let t: u64 = (64 - s) as u64;
    assert((h | (!0u64 >> s)) == (m | (!0u64 >> s))) by (bit_vector)
        requires
            1 <= s <= 32,
            t == 64 - s,
            (h >> t) == (m >> t),
    ;
}

/// With fewer mask bits than shard bits, the hashes that match the mask
/// are those in a run of `2^(sb - mb)` shards ending at the mask's shard.
proof fn lemma_match_shard_range(h: u64, m: u64, sb: u32, mb: u32)
    requires
        mb < sb <= 32,
        m == m | (!0u64 >> (mb as u64)),
    ensures
        ((h | (!0u64 >> (mb as u64))) == m) <==> (
            (m >> ((64 - sb) as u64)) + 1 - (1u64 << ((sb - mb) as u64)) <= (h >> ((64 - sb) as u64))
            && (h >> ((64 - sb) as u64)) < (m >> ((64 - sb) as u64)) + 1),
        (1u64 << ((sb - mb) as u64)) <= (m >> ((64 - sb) as u64)) + 1,
        (m >> ((64 - sb) as u64)) < (1u64 << (sb as u64)),
{
    let s: u64 = sb as u64;
    let b: u64 = mb as u64;
    let t: u64 = (64 - s) as u64;
    let d: u64 = (s - b) as u64;
    assert(((h | (!0u64 >> b)) == m) <==> (
        (m >> t) + 1 - (1u64 << d) <= (h >> t)
        && (h >> t) < (m >> t) + 1)) by (bit_vector)
        requires
            b < s <= 32,
            t == 64 - s,
            d == s - b,
            m == m | (!0u64 >> b),
    ;
    assert((1u64 << d) <= (m >> t) + 1) by (bit_vector)
        requires
            b < s <= 32,
            t == 64 - s,
            d == s - b,
            m == m | (!0u64 >> b),
    ;
    assert((m >> t) < (1u64 << s)) by (bit_vector)
        requires
            1 <= s <= 32,
            t == 64 - s,
    ;
}

proof fn lemma_push_contains(s: Seq<usize>, x: usize, i: usize)
    ensures
        s.push(x).contains(i) <==> (s.contains(i) || x == i),
{
    if s.contains(i) {
        let w = choose|w: int| 0 <= w < s.len() && s[w] == i;
        assert(s.push(x)[w] == i);
    }
    if x == i {
        assert(s.push(x)[s.len() as int] == x);
    }
    if s.push(x).contains(i) {
        let w = choose|w: int| 0 <= w < s.len() + 1 && s.push(x)[w] == i;
        if w < s.len() {
            assert(s[w] == i);
        }
    }
}

/// Indices of crds values, with their hashes, grouped by the first
/// `shard_bits` bits of the hash: `shards[k]` holds the values whose hash
/// starts with the bits of `k`.
pub struct CrdsShards {
    shards: Vec<IndexMap<usize, u64>>,
    shard_bits: u32,
}

/// The shards are `2^shard_bits` maps, each holding only hashes of its own
/// shard, with distinct indices.
pub open spec fn shards_wf(v: Seq<Seq<(usize, u64)>>, shard_bits: u32) -> bool {
    &&& shard_bits <= 32
    &&& v.len() == (1u64 << (shard_bits as u64))
    &&& forall|k: int, j: int| 0 <= k < v.len() && 0 <= j < v[k].len() ==> shard_of(#[trigger] v[k][j].1, shard_bits) == k
    &&& forall|k: int| 0 <= k < v.len() ==> distinct_keys(#[trigger] v[k])
}

/// No index is held in two shards.
pub open spec fn held_once(v: Seq<Seq<(usize, u64)>>) -> bool {
    forall|k1: int, j1: int, k2: int, j2: int|
        0 <= k1 < v.len() && 0 <= j1 < v[k1].len() && 0 <= k2 < v.len() && 0 <= j2 < v[k2].len()
            && (#[trigger] v[k1][j1]).0 == (#[trigger] v[k2][j2]).0 ==> k1 == k2
}

/// Index `i` is held, with a hash whose first `mask_bits` bits are those of
/// `mask`.
pub open spec fn found(v: Seq<Seq<(usize, u64)>>, mask: u64, mask_bits: u32, i: usize) -> bool {
    exists|k: int, j: int|
        0 <= k < v.len() && 0 <= j < v[k].len() && (#[trigger] v[k][j]).0 == i && matches_mask(v[k][j].1, mask, mask_bits)
}

/// The shards after index `index` is put in with `hash`, as
/// [`CrdsShards::insert`] leaves them: in the hash's shard, the index's
/// entry takes the new hash, or the index is added last.
pub open spec fn inserted(v: Seq<Seq<(usize, u64)>>, bits: u32, index: usize, hash: u64, w: Seq<Seq<(usize, u64)>>) -> bool {
    let k = shard_of(hash, bits);
    let s = v[k];
    ||| (!has_key(s, index) && w == v.update(k, s.push((index, hash))))
    ||| exists|p: int| 0 <= p < s.len() && s[p].0 == index && w == v.update(k, s.update(p, (index, hash)))
}

proof fn lemma_shard_index(bits: u32, hash: u64)
    requires
        bits <= 32,
    ensures
        0 <= shard_of(hash, bits) < (1u64 << (bits as u64)),
{
    if bits == 0 {
        lemma_one_shard();
    } else {
        lemma_shard_in_range(hash, bits);
    }
}

/// An index put in with a hash is found by every mask that the hash
/// matches.
pub proof fn law_insert_then_find(
    v: Seq<Seq<(usize, u64)>>,
    bits: u32,
    index: usize,
    hash: u64,
    w: Seq<Seq<(usize, u64)>>,
    mask: u64,
    mask_bits: u32,
)
    requires
        shards_wf(v, bits),
        inserted(v, bits, index, hash, w),
        matches_mask(hash, mask, mask_bits),
    ensures
        found(w, mask, mask_bits, index),
{
    lemma_shard_index(bits, hash);
    let k = shard_of(hash, bits);
    let s = v[k];
    if !has_key(s, index) && w == v.update(k, s.push((index, hash))) {
        assert(w[k][s.len() as int] == (index, hash));
    } else {
        let p = choose|p: int| 0 <= p < s.len() && s[p].0 == index && w == v.update(k, s.update(p, (index, hash)));
        assert(w[k][p] == (index, hash));
    }
}

/// An index taken out, that was held only with that hash, is found by no
/// mask.
pub proof fn law_remove_then_not_found(
    v: Seq<Seq<(usize, u64)>>,
    bits: u32,
    index: usize,
    hash: u64,
    p: int,
    mask: u64,
    mask_bits: u32,
)
    requires
        shards_wf(v, bits),
        forall|k: int, j: int| 0 <= k < v.len() && 0 <= j < v[k].len() && (#[trigger] v[k][j]).0 == index ==> v[k][j].1 == hash,
        0 <= p < v[shard_of(hash, bits)].len(),
        v[shard_of(hash, bits)][p].0 == index,
    ensures
        !found(v.update(shard_of(hash, bits), swap_removed(v[shard_of(hash, bits)], p)), mask, mask_bits, index),
{
    lemma_shard_index(bits, hash);
    let k0 = shard_of(hash, bits);
    let s = v[k0];
    let w = v.update(k0, swap_removed(s, p));
    if found(w, mask, mask_bits, index) {
        let (k, j) = choose|k: int, j: int|
            0 <= k < w.len() && 0 <= j < w[k].len() && (#[trigger] w[k][j]).0 == index && matches_mask(w[k][j].1, mask, mask_bits);
        if k == k0 {
            let q = if j == p { s.len() - 1 } else { j };
            assert(w[k][j] == s[q]);
            assert(distinct_keys(s));
            assert(q != p);
        } else {
            assert(w[k][j] == v[k][j]);
            assert(shard_of(v[k][j].1, bits) == k);
        }
    }
}

impl View for CrdsShards {
    type V = Seq<Seq<(usize, u64)>>;

    closed spec fn view(&self) -> Seq<Seq<(usize, u64)>> {
        self.shards@.map_values(|m: IndexMap<usize, u64>| map_entries(m))
    }
}

impl CrdsShards {
    /// The number of leading hash bits that select a shard.
    pub closed spec fn bits(&self) -> u32 {
        self.shard_bits
    }

    pub open spec fn wf(&self) -> bool {
        shards_wf(self@, self.bits())
    }

    /// `2^shard_bits` empty shards.
    pub fn new(shard_bits: u32) -> (r: Self)
        requires
            shard_bits <= 32,
        ensures
            r.wf(),
            r.bits() == shard_bits,
            r@ == Seq::new((1u64 << (shard_bits as u64)) as nat, |k: int| Seq::<(usize, u64)>::empty()),
    {
        let n: u64 = 1u64 << (shard_bits as u64);
        assert(n <= 0x1_0000_0000) by (bit_vector)
            requires
                n == 1u64 << (shard_bits as u64),
                shard_bits <= 32,
        ;
        let mut shards: Vec<IndexMap<usize, u64>> = Vec::new();
        while (shards.len() as u64) < n
            invariant
                shards.len() <= n,
                n <= 0x1_0000_0000,
                forall|k: int| 0 <= k < shards.len() ==> map_entries(#[trigger] shards@[k]) == Seq::<(usize, u64)>::empty(),
            decreases n - shards.len(),
        {
            shards.push(index_map_new());
        }
        let r = CrdsShards { shards, shard_bits };
        assert(r@ =~= Seq::new(n as nat, |k: int| Seq::<(usize, u64)>::empty()));
        r
    }

    /// The shard of `hash`.
    fn shard_index(&self, hash: u64) -> (r: usize)
        requires
            self.wf(),
        ensures
            r == shard_of(hash, self.bits()),
            r < self@.len(),
    {
        if self.shard_bits == 0 {
            proof {
                lemma_one_shard();
            }
            0
        } else {
            proof {
                lemma_shift_bounds(hash, self.shard_bits);
            }
            let t: u64 = (64 - self.shard_bits) as u64;
            let k: u64 = hash >> t;
            assert(k == hash >> ((64 - self.shard_bits) as u64));
            assert(k < (1u64 << (self.shard_bits as u64)));
            assert((1u64 << (self.shard_bits as u64)) <= 0x1_0000_0000);
            assert(k < 0x1_0000_0000);
            k as usize
        }
    }

    /// Records index `index` with hash `hash` in its shard; returns whether
    /// the index was new to that shard (else its hash is replaced in place).
    pub fn insert(&mut self, index: usize, hash: u64) -> (r: bool)
        requires
            old(self).wf(),
        ensures
            final(self).wf(),
            final(self).bits() == old(self).bits(),
            ({
                let k = shard_of(hash, old(self).bits());
                let s = old(self)@[k];
                &&& r == !has_key(s, index)
                &&& r ==> final(self)@ == old(self)@.update(k, s.push((index, hash)))
                &&& !r ==> exists|p: int|
                    0 <= p < s.len() && s[p].0 == index && final(self)@ == old(self)@.update(k, s.update(p, (index, hash)))
            }),
    {
        let k = self.shard_index(hash);
        let ghost before = self@;
        let ghost vbefore = self.shards@;
        let r = index_map_insert(&mut self.shards[k], index, hash);
        proof {
            assert(self.shards@ == vbefore.update(k as int, self.shards@[k as int]));
            assert(self@ =~= before.update(k as int, map_entries(self.shards@[k as int])));
            if let Some(v) = r {
                let p = choose|p: int|
                    0 <= p < before[k as int].len() && before[k as int][p] == (index, v)
                        && map_entries(self.shards@[k as int]) == before[k as int].update(p, (index, hash));
                assert(before[k as int][p].0 == index);
            }
        }
        r.is_none()
    }

    /// Drops index `index`, whose hash is `hash`, from its shard; returns
    /// whether it was there. The last entry of the shard takes its place.
    pub fn remove(&mut self, index: usize, hash: u64) -> (r: bool)
        requires
            old(self).wf(),
        ensures
            final(self).wf(),
            final(self).bits() == old(self).bits(),
            ({
                let k = shard_of(hash, old(self).bits());
                let s = old(self)@[k];
                &&& r == has_key(s, index)
                &&& r ==> exists|p: int|
                    0 <= p < s.len() && s[p].0 == index && final(self)@ == old(self)@.update(k, swap_removed(s, p))
                &&& !r ==> final(self)@ == old(self)@
            }),
    {
        let k = self.shard_index(hash);
        let ghost before = self@;
        let ghost vbefore = self.shards@;
        let r = index_map_swap_remove(&mut self.shards[k], index);
        proof {
            assert(self.shards@ == vbefore.update(k as int, self.shards@[k as int]));
            assert(self@ =~= before.update(k as int, map_entries(self.shards@[k as int])));
            if let Some(v) = r {
                let p = choose|p: int|
                    0 <= p < before[k as int].len() && before[k as int][p] == (index, v)
                        && map_entries(self.shards@[k as int]) == swap_removed(before[k as int], p);
                assert(before[k as int][p].0 == index);
                let s = before[k as int];
                assert forall|j: int| 0 <= j < swap_removed(s, p).len() implies shard_of(
                    #[trigger] swap_removed(s, p)[j].1,
                    self.shard_bits,
                ) == k by {
                    if j == p {
                        assert(swap_removed(s, p)[j] == s[s.len() - 1]);
                    } else {
                        assert(swap_removed(s, p)[j] == s[j]);
                    }
                }
            } else {
                assert(self@ =~= before);
            }
        }
        r.is_some()
    }

    /// The indices in shard `k` whose hashes match `mask` in its first
    /// `mask_bits` bits (all of them, when `all`), appended to `out`.
    fn collect_shard(&self, k: usize, mask: u64, ones: u64, all: bool, out: &mut Vec<usize>)
        requires
            self.wf(),
            k < self@.len(),
        ensures
            forall|i: usize| #[trigger] final(out)@.contains(i) <==> (old(out)@.contains(i) || exists|j: int|
                0 <= j < self@[k as int].len() && (#[trigger] self@[k as int][j]).0 == i && (all
                    || (self@[k as int][j].1 | ones) == mask)),
            old(out)@.no_duplicates() && (forall|i: usize| #[trigger] old(out)@.contains(i) ==> !has_key(self@[k as int], i))
                ==> final(out)@.no_duplicates(),
    {
        let entries = index_map_entries(&self.shards[k]);
        assert(entries@ == self@[k as int]);
        let mut j: usize = 0;
        while j < entries.len()
            invariant
                j <= entries.len(),
                entries@ == self@[k as int],
                forall|i: usize| #[trigger] out@.contains(i) <==> (old(out)@.contains(i) || exists|q: int|
                    0 <= q < j && (#[trigger] entries@[q]).0 == i && (all || (entries@[q].1 | ones) == mask)),
                distinct_keys(entries@),
                old(out)@.no_duplicates() && (forall|i: usize| #[trigger] old(out)@.contains(i) ==> !has_key(self@[k as int], i))
                    ==> out@.no_duplicates(),
            decreases entries.len() - j,
        {
            let (index, hash) = entries[j];
            let ghost prev = out@;
            let take = all || (hash | ones) == mask;
            if take {
                proof {
                    if old(out)@.no_duplicates() && (forall|i: usize| #[trigger] old(out)@.contains(i) ==> !has_key(self@[k as int], i)) {
                        if prev.contains(index) {
                            if !old(out)@.contains(index) {
                                let q = choose|q: int| 0 <= q < j && (#[trigger] entries@[q]).0 == index && (all || (entries@[q].1 | ones) == mask);
                                assert(entries@[q].0 == entries@[j as int].0);
                            } else {
                                assert(has_key(self@[k as int], index)) by {
                                    assert(self@[k as int][j as int].0 == index);
                                }
                            }
                        }
                    }
                }
                out.push(index);
            }
            proof {
                if take {
                    assert forall|i: usize| #[trigger] out@.contains(i) <==> (prev.contains(i) || index == i) by {
                        lemma_push_contains(prev, index, i);
                    }
                } else {
                    assert(out@ == prev);
                }
                assert forall|i: usize| #[trigger] out@.contains(i) <==> (old(out)@.contains(i) || exists|q: int|
                    0 <= q < j + 1 && (#[trigger] entries@[q]).0 == i && (all || (entries@[q].1 | ones) == mask)) by {
                    if exists|q: int| 0 <= q < j + 1 && (#[trigger] entries@[q]).0 == i && (all || (entries@[q].1
                        | ones) == mask) {
                        let q = choose|q: int| 0 <= q < j + 1 && (#[trigger] entries@[q]).0 == i && (all || (
                        entries@[q].1 | ones) == mask);
                        if q < j {
                            assert(prev.contains(i));
                        }
                    }
                }
            }
            j += 1;
        }
    }

    /// The indices whose hashes start with the first `mask_bits` bits of
    /// `mask`.
    pub fn find(&self, mask: u64, mask_bits: u32) -> (r: Vec<usize>)
        requires
            self.wf(),
        ensures
            forall|i: usize| #[trigger] r@.contains(i) <==> found(self@, mask, mask_bits, i),
            held_once(self@) ==> r@.no_duplicates(),
    {
        let ones: u64 = if mask_bits >= 64 { 0 } else { !0u64 >> (mask_bits as u64) };
        assert(ones == low_ones(mask_bits));
        let full_mask = mask | ones;
        let ghost m = full_mask;
        assert(m | ones == m) by (bit_vector)
            requires
                m == mask | ones,
        ;
        let mut out: Vec<usize> = Vec::new();
        if self.shard_bits <= mask_bits {
            let k = self.shard_index(full_mask);
            self.collect_shard(k, full_mask, ones, self.shard_bits == mask_bits, &mut out);
            proof {
                assert forall|i: usize| #[trigger] out@.contains(i) <==> found(self@, mask, mask_bits, i) by {
                    if found(self@, mask, mask_bits, i) {
                        let (k2, j) = choose|k2: int, j: int|
                            0 <= k2 < self@.len() && 0 <= j < self@[k2].len() && (#[trigger] self@[k2][j]).0 == i
                                && matches_mask(self@[k2][j].1, mask, mask_bits);
                        let h = self@[k2][j].1;
                        assert(shard_of(h, self.shard_bits) == k2);
                        if mask_bits >= 64 {
                            assert(h | 0u64 == h) by (bit_vector);
                            assert(mask | 0u64 == mask) by (bit_vector);
                            assert(h == m);
                        } else if self.shard_bits >= 1 {
                            lemma_match_same_shard(h, m, self.shard_bits, mask_bits);
                        }
                        assert(k2 == k);
                    }
                    if out@.contains(i) {
                        let j = choose|j: int|
                            0 <= j < self@[k as int].len() && (#[trigger] self@[k as int][j]).0 == i && (
                            self.shard_bits == mask_bits || (self@[k as int][j].1 | ones) == full_mask);
                        let h = self@[k as int][j].1;
                        if self.shard_bits == mask_bits {
                            assert(shard_of(h, self.shard_bits) == k);
                            if self.shard_bits >= 1 {
                                lemma_same_shard_match(h, m, self.shard_bits);
                            } else {
                                assert(ones == !0u64 >> 0u64);
                                assert(h | (!0u64 >> 0u64) == m | (!0u64 >> 0u64)) by (bit_vector);
                            }
                        }
                        assert(matches_mask(h, mask, mask_bits));
                    }
                }
            }
        } else {
            let count: u64 = 1u64 << ((self.shard_bits - mask_bits) as u64);
            proof {
                lemma_match_shard_range(0, m, self.shard_bits, mask_bits);
            }
            proof {
                lemma_shift_bounds(0, self.shard_bits);
                assert(self@.len() <= 0x1_0000_0000);
            }
            let end: u64 = self.shard_index(full_mask) as u64 + 1;
            let start: u64 = end - count;
            let mut k: u64 = start;
            while k < end
                invariant
                    self.wf(),
                    start <= k <= end,
                    end <= self@.len(),
                    self@.len() == self.shards.len(),
                    forall|i: usize| #[trigger] out@.contains(i) <==> exists|k2: int, j: int|
                        start <= k2 < k && 0 <= j < self@[k2].len() && (#[trigger] self@[k2][j]).0 == i,
                    held_once(self@) ==> out@.no_duplicates(),
                decreases end - k,
            {
                let ghost prev = out@;
                let ku: usize = k as usize;
                assert(ku as int == k as int);
                proof {
                    if held_once(self@) {
                        assert forall|i: usize| #[trigger] prev.contains(i) implies !has_key(self@[ku as int], i) by {
                            let (k2, j) = choose|k2: int, j: int|
                                start <= k2 < k && 0 <= j < self@[k2].len() && (#[trigger] self@[k2][j]).0 == i;
                            if has_key(self@[ku as int], i) {
                                let p = choose|p: int| 0 <= p < self@[ku as int].len() && self@[ku as int][p].0 == i;
                                assert(self@[k2][j].0 == self@[ku as int][p].0);
                            }
                        }
                    }
                }
                self.collect_shard(ku, full_mask, ones, true, &mut out);
                assert forall|i: usize| #[trigger] out@.contains(i) <==> exists|k2: int, j: int|
                    start <= k2 < k + 1 && 0 <= j < self@[k2].len() && (#[trigger] self@[k2][j]).0 == i by {
                    if out@.contains(i) {
                        if !prev.contains(i) {
                            let j = choose|j: int|
                                0 <= j < self@[ku as int].len() && (#[trigger] self@[ku as int][j]).0 == i && (true
                                    || (self@[ku as int][j].1 | ones) == full_mask);
                            assert(self@[ku as int][j].0 == i);
                        }
                    }
                    if exists|k2: int, j: int|
                        start <= k2 < k + 1 && 0 <= j < self@[k2].len() && (#[trigger] self@[k2][j]).0 == i {
                        let (k2, j) = choose|k2: int, j: int|
                            start <= k2 < k + 1 && 0 <= j < self@[k2].len() && (#[trigger] self@[k2][j]).0 == i;
                        if k2 < k {
                            assert(prev.contains(i));
                        } else {
                            assert(k2 == ku as int);
                            assert(self@[ku as int][j].0 == i);
                        }
                    }
                }
                k += 1;
            }
            proof {
                assert forall|i: usize| #[trigger] out@.contains(i) <==> found(self@, mask, mask_bits, i) by {
                    if found(self@, mask, mask_bits, i) {
                        let (k2, j) = choose|k2: int, j: int|
                            0 <= k2 < self@.len() && 0 <= j < self@[k2].len() && (#[trigger] self@[k2][j]).0 == i
                                && matches_mask(self@[k2][j].1, mask, mask_bits);
                        let h = self@[k2][j].1;
                        lemma_match_shard_range(h, m, self.shard_bits, mask_bits);
                        assert(shard_of(h, self.shard_bits) == k2);
                        assert(self@[k2][j].0 == i);
                    }
                    if out@.contains(i) {
                        let (k2, j) = choose|k2: int, j: int|
                            start <= k2 < end && 0 <= j < self@[k2].len() && (#[trigger] self@[k2][j]).0 == i;
                        let h = self@[k2][j].1;
                        lemma_match_shard_range(h, m, self.shard_bits, mask_bits);
                        assert(shard_of(h, self.shard_bits) == k2);
                        assert(matches_mask(h, mask, mask_bits));
                    }
                }
            }
        }
        out
    }
}

} // verus!
