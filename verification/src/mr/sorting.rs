//! Sorting records by key.

use crate::mr::records::{compare_keys, is_stable_sort_of, key_sign, views};
use crate::mr::worker::KeyValue;
use std::cmp::Ordering;
use vstd::prelude::*;

verus! {

/// The order of two records by their keys.
pub fn key_order(a: &KeyValue, b: &KeyValue) -> (order: Ordering)
    ensures
        match order {
            Ordering::Less => key_sign(a@.0, b@.0) == -1,
            Ordering::Equal => key_sign(a@.0, b@.0) == 0,
            Ordering::Greater => key_sign(a@.0, b@.0) == 1,
        },
{
    let sign = compare_keys(a, b);
    if sign < 0 {
        Ordering::Less
    } else if sign == 0 {
        Ordering::Equal
    } else {
        Ordering::Greater
    }
}

/// Calls `slice::sort_by` with `key_order`. That sort is stable, and
/// `key_order` orders the records by the bytes of their keys: afterwards
/// the keys ascend, and the records of one key stand in the order they had.
#[verifier::external_body]
pub(crate) fn sort_by_key(records: &mut Vec<KeyValue>)
    ensures
        is_stable_sort_of(views(final(records)@), views(old(records)@)),
{
    records.sort_by(|lhs, rhs| key_order(lhs, rhs));
}

} // verus!
