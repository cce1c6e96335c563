//! Shared, immutable data.

use vstd::prelude::*;
use std::rc::Rc;

verus! {

/// `Rc::clone`: a new pointer to the same allocation, so it holds the
/// same value.
#[verifier::external_body]
pub fn share<T: ?Sized>(rc: &Rc<T>) -> (res: Rc<T>)
    ensures
        res == *rc,
{
    Rc::clone(rc)
}

} // verus!
