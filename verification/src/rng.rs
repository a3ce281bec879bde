//! The one random draw the scenarios make: a uniformly chosen id used to
//! vary generated names and filters.

use vstd::prelude::*;

verus! {

/// Relies on rand::random_range over an inclusive integer range: the
/// sample lies between the two bounds.  An empty range panics there and
/// is excluded here.
#[verifier::external_body]
pub(crate) fn random_in_range_u32(first: u32, last: u32) -> (r: u32)
    requires
        first <= last,
    ensures
        first <= r <= last,
{
    rand::random_range(first..=last)
}

} // verus!
