//! Insertion-ordered sets of the `indexmap` crate: of labels, and of table
//! indices.
//!
//! A set is seen through the sequence of its items in iteration order,
//! which never holds an item twice. The contracts state what `indexmap` 2's
//! documentation says of each operation.

use vstd::prelude::*;
use indexmap::IndexSet;
use crate::crds_value::LabelKey;

verus! {

#[verifier::external_type_specification]
#[verifier::external_body]
#[verifier::reject_recursive_types(T)]
#[verifier::reject_recursive_types(S)]
pub struct ExIndexSet<T, S>(IndexSet<T, S>);

/// The labels of a set, in iteration order.
pub uninterp spec fn label_items(s: IndexSet<LabelKey>) -> Seq<LabelKey>;

/// The indices of a set, in iteration order.
pub uninterp spec fn index_items(s: IndexSet<usize>) -> Seq<usize>;

/// The sequence with the item at `p` replaced by the last one, and the last
/// one dropped.
pub open spec fn swap_removed_at<T>(s: Seq<T>, p: int) -> Seq<T> {
    s.update(p, s.last()).drop_last()
}

/// `IndexSet::new`: no labels.
#[verifier::external_body]
pub(crate) fn label_set_new() -> (r: IndexSet<LabelKey>)
    ensures
        label_items(r) == Seq::<LabelKey>::empty(),
{
    IndexSet::new()
}

/// `IndexSet::get_index_of`: the position of `key`, if it is held.
#[verifier::external_body]
pub(crate) fn label_set_index_of(s: &IndexSet<LabelKey>, key: &LabelKey) -> (r: Option<usize>)
    ensures
        match r {
            Some(i) => i < label_items(*s).len() && label_items(*s)[i as int] == *key,
            None => !label_items(*s).contains(*key),
        },
{
    s.get_index_of(key)
}

/// `IndexSet::insert`: a new label goes last; one already held changes
/// nothing.
#[verifier::external_body]
pub(crate) fn label_set_insert(s: &mut IndexSet<LabelKey>, key: LabelKey) -> (r: bool)
    ensures
        label_items(*final(s)).no_duplicates(),
        r == !label_items(*old(s)).contains(key),
        r ==> label_items(*final(s)) == label_items(*old(s)).push(key),
        !r ==> label_items(*final(s)) == label_items(*old(s)),
{
    s.insert(key)
}

/// `IndexSet::swap_remove_full`: the position of `key`, whose place the last
/// label takes; `None`, and no change, when it is not held.
#[verifier::external_body]
pub(crate) fn label_set_swap_remove_full(s: &mut IndexSet<LabelKey>, key: &LabelKey) -> (r: Option<(usize, LabelKey)>)
    ensures
        label_items(*final(s)).no_duplicates(),
        match r {
            Some((i, k)) => i < label_items(*old(s)).len() && label_items(*old(s))[i as int] == *key
                && k == *key && label_items(*final(s)) == swap_removed_at(label_items(*old(s)), i as int),
            None => !label_items(*old(s)).contains(*key) && label_items(*final(s)) == label_items(*old(s)),
        },
{
    s.swap_remove_full(key)
}

/// `IndexSet::new`: no indices.
#[verifier::external_body]
pub(crate) fn index_set_new() -> (r: IndexSet<usize>)
    ensures
        index_items(r) == Seq::<usize>::empty(),
{
    IndexSet::new()
}

/// `IndexSet::insert`: a new index goes last; one already held changes
/// nothing.
#[verifier::external_body]
pub(crate) fn index_set_insert(s: &mut IndexSet<usize>, x: usize) -> (r: bool)
    ensures
        index_items(*final(s)).no_duplicates(),
        r == !index_items(*old(s)).contains(x),
        r ==> index_items(*final(s)) == index_items(*old(s)).push(x),
        !r ==> index_items(*final(s)) == index_items(*old(s)),
{
    s.insert(x)
}

/// `IndexSet::swap_remove`: `x`'s place is taken by the last index; `false`,
/// and no change, when it is not held.
#[verifier::external_body]
pub(crate) fn index_set_swap_remove(s: &mut IndexSet<usize>, x: usize) -> (r: bool)
    ensures
        index_items(*final(s)).no_duplicates(),
        r == index_items(*old(s)).contains(x),
        r ==> exists|p: int|
            0 <= p < index_items(*old(s)).len() && index_items(*old(s))[p] == x && index_items(*final(s))
                == swap_removed_at(index_items(*old(s)), p),
        !r ==> index_items(*final(s)) == index_items(*old(s)),
{
    s.swap_remove(&x)
}

/// `IndexSet::len`: the number of indices.
#[verifier::external_body]
pub(crate) fn index_set_len(s: &IndexSet<usize>) -> (r: usize)
    ensures
        r == index_items(*s).len(),
{
    s.len()
}

/// The indices in iteration order (`IndexSet::iter`, copied).
#[verifier::external_body]
pub(crate) fn index_set_to_vec(s: &IndexSet<usize>) -> (r: Vec<usize>)
    ensures
        r@ == index_items(*s),
        r@.no_duplicates(),
{
    s.iter().copied().collect()
}

} // verus!
