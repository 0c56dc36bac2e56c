//! A map interface with `delete` in place of `remove`, for maps that one
//! thread owns.
use vstd::prelude::*;

verus! {

/// A map from keys to values that one thread owns; `entries` is what it
/// holds and `wf` the invariant of the implementing type.
pub trait SequentialMap<K, V>: Sized {
    spec fn entries(&self) -> Map<K, V>;

    spec fn wf(&self) -> bool;

    /// Inserts `key` with `value`; hands `value` back, leaving the map as it
    /// is, where `key` is there already.
    fn insert(&mut self, key: &K, value: V) -> (result: Result<(), V>)
        requires
            old(self).wf(),
            old(self).entries().contains_key(*key) || old(self).entries().len() < usize::MAX,
        ensures
            final(self).wf(),
            old(self).entries().contains_key(*key) ==> result == Err::<(), V>(value)
                && final(self).entries() == old(self).entries(),
            !old(self).entries().contains_key(*key) ==> result == Ok::<(), V>(())
                && final(self).entries() == old(self).entries().insert(*key, value),
    ;

    /// The value of `key`, if the map holds it.
    fn lookup(&self, key: &K) -> (result: Option<&V>)
        requires
            self.wf(),
        ensures
            result == (if self.entries().contains_key(*key) {
                Some(&self.entries()[*key])
            } else {
                None
            }),
    ;

    /// Removes `key` and returns its value; `Err(())`, leaving the map as it
    /// is, where `key` is not there.
    fn delete(&mut self, key: &K) -> (result: Result<V, ()>)
        requires
            old(self).wf(),
        ensures
            final(self).wf(),
            old(self).entries().contains_key(*key) ==> result == Ok::<V, ()>(old(self).entries()[*key])
                && final(self).entries() == old(self).entries().remove(*key),
            !old(self).entries().contains_key(*key) ==> result == Err::<V, ()>(())
                && final(self).entries() == old(self).entries(),
    ;
}

} // verus!
