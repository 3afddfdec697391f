//! Shared ownership: the parts of `std::sync::Arc` that the kernels use, and
//! the capacity of collections.
use std::collections::HashMap;
use std::sync::Arc;
use vstd::prelude::*;

verus! {

/// `Arc::clone`: another handle to the same value.
#[verifier::external_body]
pub(crate) fn share<T>(handle: &Arc<T>) -> (result: Arc<T>)
    ensures
        result == *handle,
{
    Arc::clone(handle)
}

/// `Arc::ptr_eq`: whether both handles point to the same allocation. Handles
/// that do hold equal values; nothing is claimed of handles that do not.
#[verifier::external_body]
pub(crate) fn same_allocation<T>(left: &Arc<T>, right: &Arc<T>) -> (result: bool)
    ensures
        result ==> *left == *right,
{
    Arc::ptr_eq(left, right)
}

/// `Vec::capacity`: the elements that the allocation has room for, at least as
/// many as it holds. How many more is the allocator's choice.
#[verifier::external_body]
pub(crate) fn capacity<T>(elements: &Vec<T>) -> (result: usize)
    ensures
        result >= elements@.len(),
{
    elements.capacity()
}

/// `HashMap::capacity`: the entries that the map has room for. How many there are beyond
/// those that it holds is the allocator's choice, and nothing is claimed of them.
#[verifier::external_body]
pub(crate) fn map_capacity<K, V>(entries: &HashMap<K, V>) -> usize {
    entries.capacity()
}

/// `Vec::shrink_to`: gives memory back and keeps the elements.
#[verifier::external_body]
pub(crate) fn shrink_to<T>(elements: &mut Vec<T>, capacity: usize)
    ensures
        final(elements)@ == old(elements)@,
{
    elements.shrink_to(capacity)
}

/// The same elements, and whether there is memory for `additional` more of them.
pub(crate) fn reserved<T>(elements: Vec<T>, additional: usize) -> (result: (Vec<T>, bool))
    ensures
        result.0@ == elements@,
{
    let mut elements: Vec<T> = elements;
    let enough: bool = elements.try_reserve(additional).is_ok();
    (elements, enough)
}

} // verus!
