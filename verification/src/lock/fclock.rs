//! Flat combining: threads publish requests, and the one that holds the lock
//! applies them all to the shared sequential structure.
use vstd::prelude::*;

verus! {

/// A sequential structure that applies requests of type `T` and answers
/// each with a response of the same type.
pub trait FlatCombining<T>: Sized {
    /// The invariant of the structure.
    spec fn inv(&self) -> bool;

    /// Whether an operation is a request (and not a response).
    spec fn is_request(operation: T) -> bool;

    fn apply(&mut self, operation: T) -> (response: T)
        requires
            old(self).inv(),
            Self::is_request(operation),
        ensures
            final(self).inv(),
    ;
}

} // verus!
