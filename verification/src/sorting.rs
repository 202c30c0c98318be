//! Sorting entries by their keys.

use crate::order::{is_sorted, key_less, key_lt};
use crate::surface_form::pairs;
use std::cmp::Ordering;
use vstd::prelude::*;

verus! {

/// How the key `a` stands to the key `b`.
pub fn key_order(a: &str, b: &str) -> (o: Ordering)
    ensures
        o == Ordering::Less <==> key_lt(a@, b@),
        o == Ordering::Greater <==> !key_lt(a@, b@) && key_lt(b@, a@),
{
    if key_less(a, b) {
        Ordering::Less
    } else if key_less(b, a) {
        Ordering::Greater
    } else {
        Ordering::Equal
    }
}

/// Sorts the entries by their keys.
///
/// Calls `slice::sort_by`, which the standard library documents as sorting
/// the slice by the given comparison: afterwards the slice holds the same
/// elements, and none compares less than one before it. The comparison is
/// `key_order`, a total order.
#[verifier::external_body]
pub(crate) fn sort_by_key(entries: &mut Vec<(String, u64)>)
    ensures
        final(entries)@.to_multiset() == old(entries)@.to_multiset(),
        is_sorted(pairs(final(entries)@)),
{
    entries.sort_by(|a, b| key_order(a.0.as_str(), b.0.as_str()))
}

} // verus!
