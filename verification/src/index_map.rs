//! Insertion-ordered maps of the `indexmap` crate, from indices to hashes.
//!
//! An `IndexMap<usize, u64>` is seen through the sequence of its entries in
//! iteration order. The contracts below state what `indexmap` 2's
//! documentation says of its operations; its keys are always distinct.

use vstd::prelude::*;
use indexmap::IndexMap;

verus! {

#[verifier::external_type_specification]
#[verifier::external_body]
#[verifier::reject_recursive_types(K)]
#[verifier::reject_recursive_types(V)]
#[verifier::reject_recursive_types(S)]
pub struct ExIndexMap<K, V, S>(IndexMap<K, V, S>);

/// The entries of a map, in iteration order.
pub uninterp spec fn map_entries(m: IndexMap<usize, u64>) -> Seq<(usize, u64)>;

/// No key occurs twice.
pub open spec fn distinct_keys(s: Seq<(usize, u64)>) -> bool {
    forall|i: int, j: int| 0 <= i < s.len() && 0 <= j < s.len() && i != j ==> s[i].0 != s[j].0
}

/// Whether `key` is one of the keys.
pub open spec fn has_key(s: Seq<(usize, u64)>, key: usize) -> bool {
    exists|p: int| 0 <= p < s.len() && s[p].0 == key
}

/// The entries after the one at `p` is removed by moving the last one into
/// its place.
pub open spec fn swap_removed(s: Seq<(usize, u64)>, p: int) -> Seq<(usize, u64)> {
    s.update(p, s.last()).drop_last()
}

/// `IndexMap::new`: no entries.
#[verifier::external_body]
pub(crate) fn index_map_new() -> (r: IndexMap<usize, u64>)
    ensures
        map_entries(r) == Seq::<(usize, u64)>::empty(),
{
    IndexMap::new()
}

/// `IndexMap::insert`: an existing key keeps its place and takes the new
/// value, and the old value comes back; a new key goes last.
#[verifier::external_body]
pub(crate) fn index_map_insert(m: &mut IndexMap<usize, u64>, key: usize, value: u64) -> (r: Option<u64>)
    ensures
        distinct_keys(map_entries(*final(m))),
        match r {
            Some(v) => exists|p: int|
                0 <= p < map_entries(*old(m)).len() && map_entries(*old(m))[p] == (key, v)
                    && map_entries(*final(m)) == map_entries(*old(m)).update(p, (key, value)),
            None => !has_key(map_entries(*old(m)), key) && map_entries(*final(m)) == map_entries(
                *old(m),
            ).push((key, value)),
        },
{
    m.insert(key, value)
}

/// `IndexMap::swap_remove`: the entry of `key` is replaced by the last
/// entry, and its value comes back; an absent key changes nothing.
#[verifier::external_body]
pub(crate) fn index_map_swap_remove(m: &mut IndexMap<usize, u64>, key: usize) -> (r: Option<u64>)
    ensures
        distinct_keys(map_entries(*final(m))),
        match r {
            Some(v) => exists|p: int|
                0 <= p < map_entries(*old(m)).len() && map_entries(*old(m))[p] == (key, v)
                    && map_entries(*final(m)) == swap_removed(map_entries(*old(m)), p),
            None => !has_key(map_entries(*old(m)), key) && map_entries(*final(m)) == map_entries(
                *old(m),
            ),
        },
{
    m.swap_remove(&key)
}

/// The entries in iteration order (`IndexMap::iter`, copied).
#[verifier::external_body]
pub(crate) fn index_map_entries(m: &IndexMap<usize, u64>) -> (r: Vec<(usize, u64)>)
    ensures
        r@ == map_entries(*m),
        distinct_keys(r@),
{
    m.iter().map(|(k, v)| (*k, *v)).collect()
}

} // verus!
