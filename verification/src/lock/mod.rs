//! Locks.
pub mod fclock;

use vstd::prelude::*;

verus! {

/// A lock that guards no data of its own.
pub trait RawSimpleLock: Sized {
    fn new() -> Self;

    /// Non-blocking: tries to take the lock and says whether it did.
    fn try_lock(&self) -> bool;

    /// Blocking: takes the lock, waiting until it can.
    fn lock(&self);

    /// Releases the lock.
    fn unlock(&self);
}

} // verus!
