//! The index of addressable items: an `IndexMap` from an item's identifier to
//! the node that holds it, in the order in which the items were added.
//!
//! Verus does not look inside the map. What it knows of one is the sequence of
//! its entries, and of each operation what is declared here.

use indexmap::IndexMap;
use std::hash::RandomState;
use vstd::prelude::*;

verus! {

/// `indexmap::IndexMap`, which Verus carries as it is.
#[verifier::external_type_specification]
#[verifier::external_body]
#[verifier::reject_recursive_types(K)]
#[verifier::reject_recursive_types(V)]
#[verifier::reject_recursive_types(S)]
pub struct ExIndexMap<K, V, S>(IndexMap<K, V, S>);

/// The entries of the map, `(key, value)`, in the map's order.
pub uninterp spec fn index_entries(m: IndexMap<u128, usize, RandomState>) -> Seq<(u128, usize)>;

/// No entry has this key.
pub open spec fn lacks_key(entries: Seq<(u128, usize)>, key: u128) -> bool {
    forall|i: int| 0 <= i < entries.len() ==> (#[trigger] entries[i]).0 != key
}

/// `IndexMap::new`: a map without entries.
#[verifier::external_body]
pub(crate) fn index_new() -> (m: IndexMap<u128, usize, RandomState>)
    ensures
        index_entries(m) == Seq::<(u128, usize)>::empty(),
{
    IndexMap::new()
}

/// `IndexMap::get`: the value of an entry with this key, or `None` where no
/// entry has it.
#[verifier::external_body]
pub(crate) fn index_get(m: &IndexMap<u128, usize, RandomState>, key: u128) -> (value: Option<usize>)
    ensures
        match value {
            Some(v) => exists|i: int|
                0 <= i < index_entries(*m).len() && #[trigger] index_entries(*m)[i] == (key, v),
            None => lacks_key(index_entries(*m), key),
        },
{
    m.get(&key).copied()
}

/// `IndexMap::insert` of a key that the map lacks: the new entry comes last and
/// nothing is handed back.
#[verifier::external_body]
pub(crate) fn index_insert(m: &mut IndexMap<u128, usize, RandomState>, key: u128, value: usize) -> (before:
    Option<usize>)
    requires
        lacks_key(index_entries(*old(m)), key),
    ensures
        before is None,
        index_entries(*final(m)) == index_entries(*old(m)).push((key, value)),
{
    m.insert(key, value)
}

/// `IndexMap::shift_remove`: an entry with this key leaves, the entries behind
/// it move up by one place, and the result is its value; or, where no entry has
/// the key, nothing changes.
#[verifier::external_body]
pub(crate) fn index_shift_remove(m: &mut IndexMap<u128, usize, RandomState>, key: u128) -> (value:
    Option<usize>)
    ensures
        match value {
            Some(v) => exists|i: int|
                0 <= i < index_entries(*old(m)).len() && #[trigger] index_entries(*old(m))[i] == (
                    key,
                    v,
                ) && index_entries(*final(m)) == index_entries(*old(m)).remove(i),
            None => lacks_key(index_entries(*old(m)), key) && index_entries(*final(m))
                == index_entries(*old(m)),
        },
{
    m.shift_remove(&key)
}

/// `IndexMap::values`: the values of the entries, in the map's order.
#[verifier::external_body]
pub(crate) fn index_values(m: &IndexMap<u128, usize, RandomState>) -> (values: Vec<usize>)
    ensures
        values@.len() == index_entries(*m).len(),
        forall|i: int| 0 <= i < values@.len() ==> #[trigger] values@[i] == index_entries(*m)[i].1,
{
    m.values().copied().collect()
}

/// `Clone::clone` of a map: the same entries in the same order.
#[verifier::external_body]
pub(crate) fn index_clone(m: &IndexMap<u128, usize, RandomState>) -> (copy: IndexMap<
    u128,
    usize,
    RandomState,
>)
    ensures
        index_entries(copy) == index_entries(*m),
{
    m.clone()
}

} // verus!
