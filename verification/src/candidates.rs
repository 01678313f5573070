//! The states met under one first word, kept in the order in which they came.

use indexmap::IndexSet;
use std::collections::hash_map::RandomState;
use vstd::prelude::*;

verus! {

/// `indexmap::IndexSet`, a hash set that keeps its items in insertion order.
#[verifier::external_type_specification]
#[verifier::external_body]
#[verifier::reject_recursive_types(T)]
#[verifier::reject_recursive_types(S)]
pub struct ExIndexSet<T, S>(IndexSet<T, S>);

/// The items of an index set, first inserted first. The set walks its items
/// in the order of a vector that it keeps beside its hash table, so the order
/// does not depend on the hasher.
pub uninterp spec fn index_set_items(s: IndexSet<u32, RandomState>) -> Seq<u32>;

/// `IndexSet::new`: a set without items.
#[verifier::external_body]
pub(crate) fn candidates_new() -> (s: IndexSet<u32, RandomState>)
    ensures
        index_set_items(s) == Seq::<u32>::empty(),
{
    IndexSet::new()
}

/// `IndexSet::insert`: an item that the set does not hold yet goes to the end
/// and the call returns `true`; one that it holds leaves the set as it was and
/// the call returns `false`.
#[verifier::external_body]
pub(crate) fn candidates_insert(s: &mut IndexSet<u32, RandomState>, value: u32) -> (fresh: bool)
    ensures
        fresh == !index_set_items(*old(s)).contains(value),
        index_set_items(*final(s)) == if fresh {
            index_set_items(*old(s)).push(value)
        } else {
            index_set_items(*old(s))
        },
{
    s.insert(value)
}

/// `IndexSet::drain` over the full range: hands out every item in order and
/// leaves the set without items.
#[verifier::external_body]
pub(crate) fn candidates_drain(s: &mut IndexSet<u32, RandomState>) -> (items: Vec<u32>)
    ensures
        items@ == index_set_items(*old(s)),
        index_set_items(*final(s)) == Seq::<u32>::empty(),
{
    s.drain(..).collect()
}

/// `IndexSet::clear`: leaves the set without items.
#[verifier::external_body]
pub(crate) fn candidates_clear(s: &mut IndexSet<u32, RandomState>)
    ensures
        index_set_items(*final(s)) == Seq::<u32>::empty(),
{
    s.clear()
}

} // verus!
