//! Sharing of immutable terms.
//!
//! Terms are reference-counted: a term is built once and then shared by every
//! obligation that mentions it, and it is freed when the last of them is gone.

use std::rc::Rc;
use vstd::prelude::*;

verus! {

/// Another handle to the same term. Calls `Rc::clone`, which copies the pointer
/// and leaves the term alone: the new handle holds the value that `term` holds.
#[verifier::external_body]
pub(crate) fn share<T>(term: &Rc<T>) -> (r: Rc<T>)
    ensures
        r == *term,
{
    Rc::clone(term)
}

/// Whether two handles point at the same allocation. Calls `Rc::ptr_eq`. Two
/// handles to one allocation hold one value; of two allocations nothing is claimed.
#[verifier::external_body]
pub(crate) fn identical<T>(a: &Rc<T>, b: &Rc<T>) -> (r: bool)
    ensures
        r ==> *a == *b,
{
    Rc::ptr_eq(a, b)
}

} // verus!
