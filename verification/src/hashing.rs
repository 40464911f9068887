//! Feeding values to a hasher.

use core::hash::{Hash, Hasher};
use vstd::prelude::*;

verus! {

/// `Hash::hash`: feeds `value` to the hasher `state`. What the hasher makes
/// of it is its own matter, so nothing is said of the state after the call.
#[verifier::external_body]
pub(crate) fn feed<X: Hash, H: Hasher>(value: &X, state: &mut H) {
    value.hash(state)
}

} // verus!
