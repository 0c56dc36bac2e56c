use vstd::prelude::*;

pub mod random;

verus! {

/// Inserts `value` at `index` into a slice whose last place is spare: the
/// elements from `index` on move one place to the right, and the last one
/// falls off the end, so the length stays the same.
///
/// ex) insert C at 1 into [A, B, spare] => [A, C, B]
pub fn slice_insert<T>(slice: &mut Vec<T>, index: usize, value: T)
    requires
        index < old(slice)@.len(),
    ensures
        final(slice)@ == old(slice)@.insert(index as int, value).drop_last(),
{
    slice.insert(index, value);
    let _ = slice.pop();
}

/// Removes and returns the element at `index`: the elements after it move
/// one place to the left. The place at the end that this frees is given up
/// rather than left holding a stale element, so the live elements are those
/// that remain.
///
/// ex) remove at 1 from [A, B, C] => returns B, leaves [A, C]
pub fn slice_remove<T>(slice: &mut Vec<T>, index: usize) -> (value: T)
    requires
        index < old(slice)@.len(),
    ensures
        value == old(slice)@[index as int],
        final(slice)@ == old(slice)@.remove(index as int),
{
    slice.remove(index)
}

/// Removing at the place just inserted at gives back the inserted element
/// and the live elements from before the insert, all but the last one,
/// which the insert pushed out.
pub proof fn law_remove_undoes_insert<T>(s0: Seq<T>, inserted: Seq<T>, removed: Seq<T>, index: int, value: T, out: T)
    requires
        0 <= index < s0.len(),
        inserted == s0.insert(index, value).drop_last(),
        out == inserted[index],
        removed == inserted.remove(index),
    ensures
        out == value,
        removed == s0.take(s0.len() - 1),
{
    assert(removed =~= s0.take(s0.len() - 1));
}

} // verus!
