//! A sequential sorted singly linked list used as a map.
use crate::btree::order::{
    has_key, lemma_sorted_concat, lemma_to_map_at, lemma_to_map_insert, lemma_to_map_len,
    lemma_to_map_remove, sorted, to_map,
};
use crate::map::SequentialMap;
use vstd::prelude::*;

verus! {

struct Node<K, V> {
    key: K,
    value: V,
    next: Option<Box<Node<K, V>>>,
}

impl<K, V> Node<K, V> {
    fn new(key: K, value: V) -> (node: Node<K, V>)
        ensures
            node.key == key,
            node.value == value,
            node.next is None,
    {
        Node { key, value, next: None }
    }
}

/// The pairs of a list, from its first node on.
spec fn list_pairs<K, V>(link: Option<Box<Node<K, V>>>) -> Seq<(K, V)>
    decreases link,
{
    match link {
        None => Seq::empty(),
        Some(node) => seq![(node.key, node.value)] + list_pairs(node.next),
    }
}

/// A simple sequential sorted linked list: its keys strictly increase from
/// the first node on.
pub struct SortedList<K, V> {
    head: Option<Box<Node<K, V>>>,
}

impl<K, V> SortedList<K, V> {
    /// The pairs of the list, in order.
    pub closed spec fn pairs(&self) -> Seq<(K, V)> {
        list_pairs(self.head)
    }

}

impl<V> SortedList<u64, V> {
    /// The keys of the list, in order: in a well-formed list they strictly
    /// increase and are exactly the keys of the map.
    pub fn keys(&self) -> (result: Vec<&u64>)
        ensures
            result@.len() == self.pairs().len(),
            forall|i: int| 0 <= i < result@.len() ==> *result@[i] == #[trigger] self.pairs()[i].0,
            self.wf() ==> forall|i: int, j: int| 0 <= i < j < result@.len() ==> *result@[i] < *result@[j],
            self.wf() ==> forall|k: u64|
                self.entries().contains_key(k) <==> exists|i: int| 0 <= i < result@.len() && *result@[i] == k,
    {
        let mut result: Vec<&u64> = Vec::new();
        let mut node = &self.head;
        loop
            invariant
                result@.len() + list_pairs(*node).len() == self.pairs().len(),
                forall|i: int| 0 <= i < result@.len() ==> *result@[i] == #[trigger] self.pairs()[i].0,
                forall|i: int|
                    0 <= i < list_pairs(*node).len() ==> #[trigger] list_pairs(*node)[i] == self.pairs()[result@.len() + i],
            decreases list_pairs(*node).len(),
        {
            match node {
                Some(inner) => {
                    proof {
                        assert(list_pairs(*node)[0] == (inner.key, inner.value));
                        assert forall|i: int| 0 <= i < list_pairs(inner.next).len() implies #[trigger] list_pairs(
                            inner.next,
                        )[i] == self.pairs()[result@.len() + 1 + i] by {
                            assert(list_pairs(inner.next)[i] == list_pairs(*node)[i + 1]);
                        }
                    }
                    result.push(&inner.key);
                    node = &inner.next;
                },
                None => {
                    proof {
                        if self.wf() {
                            law_sorted_list_keys(*self);
                            assert forall|i: int, j: int| 0 <= i < j < result@.len() implies *result@[i]
                                < *result@[j] by {
                                assert(*result@[i] == self.pairs()[i].0);
                                assert(*result@[j] == self.pairs()[j].0);
                            }
                            assert forall|k: u64|
                                self.entries().contains_key(k) implies exists|i: int|
                                0 <= i < result@.len() && *result@[i] == k by {
                                let i = choose|i: int| 0 <= i < self.pairs().len() && #[trigger] self.pairs()[i].0 == k;
                                assert(*result@[i] == k);
                            }
                            assert forall|k: u64|
                                (exists|i: int| 0 <= i < result@.len() && *result@[i] == k) implies self.entries().contains_key(
                                k,
                            ) by {
                                let i = choose|i: int| 0 <= i < result@.len() && *result@[i] == k;
                                assert(self.pairs()[i].0 == k);
                            }
                        }
                    }
                    return result;
                },
            }
        }
    }
}

impl<V> SortedList<u64, V> {
    /// Inserts into the list that starts at `link`, before the first greater
    /// key; a key that is already there is refused.
    fn insert_at(link: &mut Option<Box<Node<u64, V>>>, key: u64, value: V) -> (result: Result<(), V>)
        requires
            sorted(list_pairs(*old(link))),
        ensures
            sorted(list_pairs(*final(link))),
            has_key(list_pairs(*old(link)), key) ==> result == Err::<(), V>(value) && *final(link)
                == *old(link),
            !has_key(list_pairs(*old(link)), key) ==> result == Ok::<(), V>(()) && exists|p: int|
                0 <= p <= list_pairs(*old(link)).len() && list_pairs(*final(link)) == list_pairs(
                    *old(link),
                ).insert(p, (key, value)),
        decreases *old(link),
    {
        let ghost s0 = list_pairs(*link);
        match link.take() {
            None => {
                *link = Some(Box::new(Node::new(key, value)));
                proof {
                    assert(list_pairs(*link) =~= s0.insert(0, (key, value)));
                }
                Ok(())
            },
            Some(mut node) => {
                let ghost rest = list_pairs(node.next);
                proof {
                    assert(s0 == seq![(node.key, node.value)] + rest);
                    lemma_sorted_concat(seq![(node.key, node.value)], rest);
                }
                if node.key == key {
                    *link = Some(node);
                    proof {
                        assert(s0[0].0 == key);
                    }
                    Err(value)
                } else if node.key > key {
                    let mut new = Box::new(Node::new(key, value));
                    new.next = Some(node);
                    *link = Some(new);
                    proof {
                        assert(list_pairs(*link) =~= s0.insert(0, (key, value)));
                        assert forall|i: int, j: int| 0 <= i < j < list_pairs(*link).len() implies #[trigger] list_pairs(*link)[i].0
                            < #[trigger] list_pairs(*link)[j].0 by {
                            if i == 0 {
                                assert(list_pairs(*link)[j] == s0[j - 1]);
                                if j > 1 {
                                    assert(s0[0].0 < s0[j - 1].0);
                                }
                            } else {
                                assert(list_pairs(*link)[i] == s0[i - 1]);
                                assert(list_pairs(*link)[j] == s0[j - 1]);
                            }
                        }
                        if has_key(s0, key) {
                            let q = choose|q: int| 0 <= q < s0.len() && #[trigger] s0[q].0 == key;
                            if q > 0 {
                                assert(s0[0].0 < s0[q].0);
                            }
                        }
                    }
                    Ok(())
                } else {
                    let result = Self::insert_at(&mut node.next, key, value);
                    let ghost rest1 = list_pairs(node.next);
                    *link = Some(node);
                    proof {
                        assert(has_key(s0, key) == has_key(rest, key)) by {
                            if has_key(s0, key) {
                                let q = choose|q: int| 0 <= q < s0.len() && #[trigger] s0[q].0 == key;
                                assert(rest[q - 1].0 == key);
                            }
                            if has_key(rest, key) {
                                let q = choose|q: int| 0 <= q < rest.len() && #[trigger] rest[q].0 == key;
                                assert(s0[q + 1].0 == key);
                            }
                        }
                        assert(list_pairs(*link) == seq![(node.key, node.value)] + rest1);
                        if !has_key(rest, key) {
                            let p = choose|p: int| 0 <= p <= rest.len() && rest1 == rest.insert(p, (key, value));
                            assert(list_pairs(*link) =~= s0.insert(p + 1, (key, value)));
                            assert forall|i: int, j: int| 0 <= i < 1 && 0 <= j < rest1.len() implies #[trigger] seq![(node.key, node.value)][i].0
                                < #[trigger] rest1[j].0 by {
                                if j < p {
                                    assert(rest1[j] == rest[j]);
                                } else if j > p {
                                    assert(rest1[j] == rest[j - 1]);
                                }
                            }
                            lemma_sorted_concat(seq![(node.key, node.value)], rest1);
                        } else {
                            assert(list_pairs(*link) =~= s0);
                        }
                    }
                    result
                }
            },
        }
    }

    /// Removes `key` from the list that starts at `link`.
    fn remove_at(link: &mut Option<Box<Node<u64, V>>>, key: u64) -> (result: Result<V, ()>)
        requires
            sorted(list_pairs(*old(link))),
        ensures
            !has_key(list_pairs(*old(link)), key) ==> result == Err::<V, ()>(()) && *final(link)
                == *old(link),
            has_key(list_pairs(*old(link)), key) ==> exists|p: int|
                0 <= p < list_pairs(*old(link)).len() && #[trigger] list_pairs(*old(link))[p].0 == key
                    && list_pairs(*final(link)) == list_pairs(*old(link)).remove(p) && result
                    == Ok::<V, ()>(list_pairs(*old(link))[p].1),
        decreases *old(link),
    {
        let ghost s0 = list_pairs(*link);
        match link.take() {
            None => {
                Err(())
            },
            Some(mut node) => {
                let ghost rest = list_pairs(node.next);
                proof {
                    assert(s0 == seq![(node.key, node.value)] + rest);
                    lemma_sorted_concat(seq![(node.key, node.value)], rest);
                }
                if node.key == key {
                    let node = *node;
                    *link = node.next;
                    proof {
                        assert(s0[0].0 == key);
                        assert(rest =~= s0.remove(0));
                    }
                    Ok(node.value)
                } else {
                    let result = Self::remove_at(&mut node.next, key);
                    let ghost rest1 = list_pairs(node.next);
                    *link = Some(node);
                    proof {
                        assert(has_key(s0, key) == has_key(rest, key)) by {
                            if has_key(s0, key) {
                                let q = choose|q: int| 0 <= q < s0.len() && #[trigger] s0[q].0 == key;
                                assert(rest[q - 1].0 == key);
                            }
                            if has_key(rest, key) {
                                let q = choose|q: int| 0 <= q < rest.len() && #[trigger] rest[q].0 == key;
                                assert(s0[q + 1].0 == key);
                            }
                        }
                        assert(list_pairs(*link) == seq![(node.key, node.value)] + rest1);
                        if has_key(rest, key) {
                            let p = choose|p: int|
                                0 <= p < rest.len() && #[trigger] rest[p].0 == key && rest1 == rest.remove(p)
                                    && result == Ok::<V, ()>(rest[p].1);
                            assert(list_pairs(*link) =~= s0.remove(p + 1));
                            assert(s0[p + 1] == rest[p]);
                        } else {
                            assert(list_pairs(*link) =~= s0);
                        }
                    }
                    result
                }
            },
        }
    }
}

impl<V> SequentialMap<u64, V> for SortedList<u64, V> {
    closed spec fn entries(&self) -> Map<u64, V> {
        to_map(self.pairs())
    }

    closed spec fn wf(&self) -> bool {
        sorted(self.pairs())
    }

    fn new() -> (map: SortedList<u64, V>) {
        let map = SortedList { head: None };
        assert(map.entries() =~= Map::<u64, V>::empty());
        map
    }

    fn insert(&mut self, key: &u64, value: V) -> (result: Result<(), V>) {
        let ghost s0 = self.pairs();
        let result = Self::insert_at(&mut self.head, *key, value);
        proof {
            if !has_key(s0, *key) {
                let p = choose|p: int| 0 <= p <= s0.len() && self.pairs() == s0.insert(p, (*key, value));
                lemma_to_map_insert(s0, p, (*key, value));
            }
            lemma_to_map_len(self.pairs());
        }
        result
    }

    fn lookup(&self, key: &u64) -> (result: Option<&V>) {
        let mut current = &self.head;
        assert(self.pairs().skip(0) =~= self.pairs());
        loop
            invariant
                sorted(self.pairs()),
                exists|k: int|
                    0 <= k <= self.pairs().len() && #[trigger] self.pairs().skip(k) == list_pairs(*current)
                        && forall|i: int| 0 <= i < k ==> self.pairs()[i].0 != *key,
            decreases list_pairs(*current).len(),
        {
            let ghost k = choose|k: int|
                0 <= k <= self.pairs().len() && #[trigger] self.pairs().skip(k) == list_pairs(*current)
                    && forall|i: int| 0 <= i < k ==> self.pairs()[i].0 != *key;
            match current {
                Some(node) => {
                    proof {
                        assert(list_pairs(*current) == seq![(node.key, node.value)] + list_pairs(node.next));
                        assert(self.pairs()[k] == list_pairs(*current)[0]);
                        assert(self.pairs().skip(k + 1) =~= list_pairs(*current).drop_first());
                        assert(self.pairs().skip(k + 1) =~= list_pairs(node.next));
                    }
                    if node.key == *key {
                        proof {
                            lemma_to_map_at(self.pairs(), k);
                        }
                        return Some(&node.value);
                    }
                    current = &node.next;
                },
                None => {
                    proof {
                        assert(k == self.pairs().len());
                        if has_key(self.pairs(), *key) {
                            let q = choose|q: int| 0 <= q < self.pairs().len() && #[trigger] self.pairs()[q].0 == *key;
                        }
                    }
                    return None;
                },
            }
        }
    }

    fn remove(&mut self, key: &u64) -> (result: Result<V, ()>) {
        let ghost s0 = self.pairs();
        let result = Self::remove_at(&mut self.head, *key);
        proof {
            if has_key(s0, *key) {
                let p = choose|p: int|
                    0 <= p < s0.len() && #[trigger] s0[p].0 == *key && self.pairs() == s0.remove(p)
                        && result == Ok::<V, ()>(s0[p].1);
                lemma_to_map_remove(s0, p);
                lemma_to_map_at(s0, p);
            }
            lemma_to_map_len(self.pairs());
        }
        result
    }
}

/// The pairs of a well-formed sorted list, which `keys` hands out in
/// order, have strictly increasing keys, and their keys are exactly those of
/// the map, each with its value.
pub proof fn law_sorted_list_keys<V>(list: SortedList<u64, V>)
    requires
        list.wf(),
    ensures
        forall|i: int, j: int| 0 <= i < j < list.pairs().len() ==> list.pairs()[i].0 < list.pairs()[j].0,
        forall|i: int|
            0 <= i < list.pairs().len() ==> list.entries().contains_key(#[trigger] list.pairs()[i].0)
                && list.entries()[list.pairs()[i].0] == list.pairs()[i].1,
        forall|k: u64|
            list.entries().contains_key(k) ==> exists|i: int| 0 <= i < list.pairs().len() && #[trigger] list.pairs()[i].0 == k,
{
    assert forall|i: int|
        0 <= i < list.pairs().len() implies list.entries().contains_key(#[trigger] list.pairs()[i].0)
        && list.entries()[list.pairs()[i].0] == list.pairs()[i].1 by {
        lemma_to_map_at(list.pairs(), i);
    }
}

} // verus!
