//! Shared ownership.

use std::sync::Arc;

use vstd::prelude::*;

verus! {

/// Another handle to the same value, by `Arc::clone`: the new handle points at
/// what the old one points at.
#[verifier::external_body]
pub(crate) fn share<T>(a: &Arc<T>) -> (r: Arc<T>)
    ensures
        r == *a,
{
    Arc::clone(a)
}

} // verus!
