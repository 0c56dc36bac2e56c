//! What holds across the operations of the maps, stacks and queues of this
//! crate, stated over the models that their contracts speak of.
use vstd::prelude::*;
use crate::map::SequentialMap;
use crate::queue::SequentialQueue;
use crate::art::{ART, Encodable};
use crate::art::node::lemma_terminated_prefix;
use crate::stack::Stack;
use vstd::utf8::{encode_utf8, encode_utf8_decode_utf8};

verus! {

/// After `key` was inserted with `value`, a lookup of `key` finds `value`,
/// and a lookup of any other key finds what it found before.
pub proof fn law_lookup_after_insert<K, V, M: SequentialMap<K, V>>(before: M, after: M, key: K, value: V, other: K)
    requires
        after.entries() == before.entries().insert(key, value),
        other != key,
    ensures
        after.entries().contains_key(key),
        after.entries()[key] == value,
        after.entries().contains_key(other) == before.entries().contains_key(other),
        before.entries().contains_key(other) ==> after.entries()[other] == before.entries()[other],
{
}

/// Removing a key that an insert has just added gives back the inserted
/// value and leaves the map as it was before the insert.
pub proof fn law_remove_undoes_insert<K, V, M: SequentialMap<K, V>>(
    before: M,
    inserted: M,
    removed: M,
    key: K,
    value: V,
)
    requires
        !before.entries().contains_key(key),
        inserted.entries() == before.entries().insert(key, value),
        removed.entries() == inserted.entries().remove(key),
    ensures
        inserted.entries()[key] == value,
        removed.entries() == before.entries(),
{
    assert(removed.entries() =~= before.entries());
}

/// After `key` was removed, a lookup of `key` finds nothing, and the map
/// holds one entry fewer.
pub proof fn law_lookup_after_remove<K, V, M: SequentialMap<K, V>>(before: M, after: M, key: K)
    requires
        before.entries().dom().finite(),
        before.entries().contains_key(key),
        after.entries() == before.entries().remove(key),
    ensures
        !after.entries().contains_key(key),
        after.entries().len() + 1 == before.entries().len(),
{
}

/// An insert of a new key adds one entry.
pub proof fn law_insert_grows<K, V, M: SequentialMap<K, V>>(before: M, after: M, key: K, value: V)
    requires
        before.entries().dom().finite(),
        !before.entries().contains_key(key),
        after.entries() == before.entries().insert(key, value),
    ensures
        after.entries().len() == before.entries().len() + 1,
{
}

/// A queue gives its values back in the order they were pushed: a pop after
/// a push takes the oldest value, which is the pushed one only where the
/// queue was empty.
pub proof fn law_queue_first_in_first_out<V, Q: SequentialQueue<V>>(before: Q, pushed: Q, popped: Q, value: V, out: V)
    requires
        pushed.items() == before.items().push(value),
        pushed.items().len() > 0,
        out == pushed.items()[0],
        popped.items() == pushed.items().drop_first(),
    ensures
        before.items().len() == 0 ==> out == value && popped.items() == before.items(),
        before.items().len() > 0 ==> out == before.items()[0] && popped.items() == before.items().drop_first().push(
            value,
        ),
{
    if before.items().len() > 0 {
        assert(popped.items() =~= before.items().drop_first().push(value));
    } else {
        assert(popped.items() =~= before.items());
    }
}

/// A stack gives back last what it took first: a pop right after a push
/// takes the pushed value and leaves the stack as it was.
pub proof fn law_stack_last_in_first_out<V>(before: Stack<V>, pushed: Stack<V>, popped: Stack<V>, value: V, out: V)
    requires
        pushed.items() == seq![value] + before.items(),
        out == pushed.items()[0],
        popped.items() == pushed.items().drop_first(),
    ensures
        out == value,
        popped.items() == before.items(),
{
    assert(popped.items() =~= before.items());
}

/// No encoding of a key starts another: the tree never has to tell apart a
/// key from a longer one that it begins.
pub proof fn law_encodings_prefix_free<K: Encodable>(a: &K, b: &K)
    requires
        a.encoded().len() <= b.encoded().len(),
        b.encoded().take(a.encoded().len() as int) == a.encoded(),
    ensures
        a.encoded() == b.encoded(),
{
    a.lemma_encoded_terminated();
    b.lemma_encoded_terminated();
    lemma_terminated_prefix(a.encoded(), b.encoded());
}

/// After `key` was inserted into a tree with `value`, a lookup of `key`
/// finds `value`, and removing it again gives back `value` and the tree's
/// earlier contents.
pub proof fn law_tree_remove_undoes_insert<K: Encodable, V>(
    before: ART<K, V>,
    inserted: ART<K, V>,
    removed: ART<K, V>,
    key: K,
    value: V,
)
    requires
        !before@.contains_key(key.encoded()),
        inserted@ == before@.insert(key.encoded(), value),
        removed@ == inserted@.remove(key.encoded()),
    ensures
        inserted@.contains_key(key.encoded()),
        inserted@[key.encoded()] == value,
        removed@ == before@,
        !removed@.contains_key(key.encoded()),
{
    assert(removed@ =~= before@);
}

/// Two strings with different characters have different encodings, and
/// neither encoding starts the other.
pub proof fn law_string_encodings_distinct(a: String, b: String)
    requires
        a@ != b@,
    ensures
        a.encoded() != b.encoded(),
        !(a.encoded().len() <= b.encoded().len() && b.encoded().take(a.encoded().len() as int)
            == a.encoded()),
{
    if a.encoded() == b.encoded() {
        assert(encode_utf8(a@) =~= a.encoded().drop_last());
        assert(encode_utf8(b@) =~= b.encoded().drop_last());
        encode_utf8_decode_utf8(a@);
        encode_utf8_decode_utf8(b@);
    }
    if a.encoded().len() <= b.encoded().len() && b.encoded().take(a.encoded().len() as int) == a.encoded() {
        law_encodings_prefix_free(&a, &b);
    }
}

} // verus!
