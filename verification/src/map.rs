use vstd::prelude::*;

verus! {

/// A map from keys to values that one thread owns.
///
/// `entries` is what the map holds; `wf` is the internal invariant of the
/// implementing type, which `new` establishes and every operation keeps.
pub trait SequentialMap<K, V>: Sized {
    spec fn entries(&self) -> Map<K, V>;

    spec fn wf(&self) -> bool;

    fn new() -> (map: Self)
        ensures
            map.wf(),
            map.entries() == Map::<K, V>::empty(),
    ;

    /// Insert (key, value) into the map.
    ///
    /// If success, return Ok(()).
    /// If fail (the key is already there), return Err(value) that you tried
    /// to insert, and the map is unchanged.
    fn insert(&mut self, key: &K, value: V) -> (result: Result<(), V>)
        requires
            old(self).wf(),
            old(self).entries().contains_key(*key) || old(self).entries().len() < usize::MAX,
        ensures
            final(self).wf(),
            final(self).entries().dom().finite(),
            old(self).entries().contains_key(*key) ==> result == Err::<(), V>(value)
                && final(self).entries() == old(self).entries(),
            !old(self).entries().contains_key(*key) ==> result == Ok::<(), V>(())
                && final(self).entries() == old(self).entries().insert(*key, value),
    ;

    /// Lookup (key, value) from the map with the key.
    ///
    /// If success, return the reference of the value.
    /// If fail, return None.
    fn lookup(&self, key: &K) -> (result: Option<&V>)
        requires
            self.wf(),
        ensures
            result == (if self.entries().contains_key(*key) {
                Some(&self.entries()[*key])
            } else {
                None
            }),
    ;

    /// Remove (key, value) from the map with the key.
    ///
    /// If success, return Ok(value) which is inserted before.
    /// If fail (the key is not there), return Err(()) and the map is
    /// unchanged.
    fn remove(&mut self, key: &K) -> (result: Result<V, ()>)
        requires
            old(self).wf(),
        ensures
            final(self).wf(),
            final(self).entries().dom().finite(),
            old(self).entries().contains_key(*key) ==> result == Ok::<V, ()>(
                old(self).entries()[*key],
            ) && final(self).entries() == old(self).entries().remove(*key),
            !old(self).entries().contains_key(*key) ==> result == Err::<V, ()>(())
                && final(self).entries() == old(self).entries(),
    ;
}

} // verus!
