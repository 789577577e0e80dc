//! What the producers of this crate rely on in the iterators they pull from.

use vstd::prelude::*;
use vstd::std_specs::iter::IteratorSpec;

verus! {

/// `after` is the iterator `before` some pulls later: it follows the
/// iteration laws if `before` did, and has a termination measure if `before`
/// had one.
pub open spec fn same_protocol<I: Iterator>(before: I, after: I) -> bool {
    &&& after.obeys_prophetic_iter_laws() == before.obeys_prophetic_iter_laws()
    &&& before.obeys_prophetic_iter_laws() ==> (before.decrease() is Some
        <==> after.decrease() is Some)
}

/// The first of the items still to come.
pub open spec fn first_of<T>(pending: Seq<T>) -> Option<T> {
    if pending.len() > 0 {
        Some(pending[0])
    } else {
        None
    }
}

} // verus!
