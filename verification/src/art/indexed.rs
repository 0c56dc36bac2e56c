//! The operations of the two large inner nodes: `Node48`, whose 256 key
//! bytes index 48 child slots, and `Node256`, with a slot for every byte.
use vstd::prelude::*;
use super::node::{Node, Node48, Node256, EMPTY_INDEX, present, used};
use super::count::{lemma_count_update, lemma_count_other_item, lemma_count_bound};

verus! {

impl<V> Node48<V> {
    /// The number of children.
    pub fn size(&self) -> (r: usize)
        ensures
            r == self.len,
    {
        self.len
    }

    /// The node has no room for another child.
    pub fn is_full(&self) -> (r: bool)
        ensures
            r == (self.len == 48),
    {
        self.len == 48
    }

    /// The node's children would fit in a `Node16`.
    pub fn is_shrinkable(&self) -> (r: bool)
        ensures
            r == (self.len <= 16),
    {
        self.len <= 16
    }

    /// Inserts `node` under `key` in the first free slot; hands it back where
    /// `key` has a child.
    pub fn insert(&mut self, key: u8, node: Node<V>) -> (r: Result<(), Node<V>>)
        requires
            old(self).ok(),
            old(self).len < 48,
        ensures
            final(self).ok(),
            final(self).header == old(self).header,
            match r {
                Ok(()) => {
                    &&& old(self).slot(key) is None
                    &&& final(self).len == old(self).len + 1
                    &&& forall|b: u8| #[trigger]
                        final(self).slot(b) == if b == key {
                            Some(node)
                        } else {
                            old(self).slot(b)
                        }
                },
                Err(n) => {
                    &&& n == node
                    &&& old(self).slot(key) is Some
                    &&& final(self).len == old(self).len
                    &&& final(self).keys@ == old(self).keys@
                    &&& final(self).children@ == old(self).children@
                },
            },
    {
        let index = self.keys[key as usize];
        if index != EMPTY_INDEX {
            return Err(node);
        }
        let ghost free = lemma_count_other_item(self.children@, present());
        let mut idx: usize = 0;
        while self.children[idx].is_some()
            invariant
                idx <= free < 48,
                self.children@.len() == 48,
                self.children@[free] is None,
            decreases free - idx,
        {
            idx += 1;
        }
        let ghost keys0 = self.keys@;
        let ghost children0 = self.children@;
        proof {
            lemma_count_update(children0, present(), idx as int, Some(node));
            lemma_count_update(keys0, used(), key as int, idx as u8);
        }
        self.children.set(idx, Some(node));
        self.keys.set(key as usize, idx as u8);
        self.len = self.len + 1;
        proof {
            let keys = self.keys@;
            let children = self.children@;
            assert forall|b: int| 0 <= b < 256 && #[trigger] keys[b] != EMPTY_INDEX implies keys[b] < 48
                && children[keys[b] as int] is Some by {
                if b != key {
                    assert(keys0[b] != idx);
                }
            }
            assert forall|b1: int, b2: int|
                0 <= b1 < 256 && 0 <= b2 < 256 && b1 != b2 && #[trigger] keys[b1] != EMPTY_INDEX implies keys[b1]
                != #[trigger] keys[b2] by {
                if b1 == key && keys0[b2] != EMPTY_INDEX {
                    assert(children0[keys0[b2] as int] is Some);
                } else if b2 == key && keys0[b1] != EMPTY_INDEX {
                    assert(children0[keys0[b1] as int] is Some);
                }
            }
            assert forall|s: int| 0 <= s < 48 && #[trigger] children[s] is Some implies exists|b: int|
                0 <= b < 256 && keys[b] == s by {
                if s == idx {
                    assert(keys[key as int] == s);
                } else {
                    let b = choose|b: int| 0 <= b < 256 && keys0[b] == s;
                    assert(keys[b] == s);
                }
            }
            assert forall|b: u8| #[trigger]
                self.slot(b) == if b == key {
                    Some(node)
                } else {
                    old(self).slot(b)
                } by {
                if b != key && keys0[b as int] != EMPTY_INDEX {
                    assert(keys0[b as int] != idx);
                }
            }
        }
        Ok(())
    }

    /// The child under `key`.
    pub fn lookup(&self, key: u8) -> (r: Option<&Node<V>>)
        requires
            self.ok(),
        ensures
            match r {
                Some(c) => self.slot(key) == Some(*c),
                None => self.slot(key) is None,
            },
    {
        let index = self.keys[key as usize];
        if index == EMPTY_INDEX {
            None
        } else {
            self.children[index as usize].as_ref()
        }
    }

    /// Puts `node` in place of the child under `key` and returns the one it
    /// replaces; hands `node` back where `key` has no child.
    pub fn update(&mut self, key: u8, node: Node<V>) -> (r: Result<Node<V>, Node<V>>)
        requires
            old(self).ok(),
        ensures
            final(self).ok(),
            final(self).header == old(self).header,
            final(self).len == old(self).len,
            match r {
                Ok(n) => {
                    &&& old(self).slot(key) == Some(n)
                    &&& forall|b: u8| #[trigger]
                        final(self).slot(b) == if b == key {
                            Some(node)
                        } else {
                            old(self).slot(b)
                        }
                },
                Err(n) => n == node && old(self).slot(key) is None && final(self).children@ == old(
                    self,
                ).children@ && final(self).keys@ == old(self).keys@,
            },
    {
        let index = self.keys[key as usize];
        if index == EMPTY_INDEX {
            return Err(node);
        }
        let ghost keys0 = self.keys@;
        let ghost children0 = self.children@;
        proof {
            lemma_count_update(children0, present(), index as int, Some(node));
        }
        let mut taken = Some(node);
        self.children.set_and_swap(index as usize, &mut taken);
        proof {
            let children = self.children@;
            assert forall|s: int| 0 <= s < 48 && #[trigger] children[s] is Some implies exists|b: int|
                0 <= b < 256 && keys0[b] == s by {
                if s != index {
                    assert(children0[s] is Some);
                } else {
                    assert(keys0[key as int] == s);
                }
            }
            assert forall|b: u8| #[trigger]
                self.slot(b) == if b == key {
                    Some(node)
                } else {
                    old(self).slot(b)
                } by {
                if b != key && keys0[b as int] != EMPTY_INDEX {
                    assert(keys0[b as int] != index);
                }
            }
        }
        Ok(taken.unwrap())
    }

    /// Removes and returns the child under `key`.
    pub fn remove(&mut self, key: u8) -> (r: Result<Node<V>, ()>)
        requires
            old(self).ok(),
        ensures
            final(self).ok(),
            final(self).header == old(self).header,
            match r {
                Ok(n) => {
                    &&& old(self).slot(key) == Some(n)
                    &&& final(self).len + 1 == old(self).len
                    &&& forall|b: u8| #[trigger]
                        final(self).slot(b) == if b == key {
                            None
                        } else {
                            old(self).slot(b)
                        }
                },
                Err(()) => {
                    &&& old(self).slot(key) is None
                    &&& final(self).len == old(self).len
                    &&& final(self).keys@ == old(self).keys@
                    &&& final(self).children@ == old(self).children@
                },
            },
    {
        let index = self.keys[key as usize];
        if index == EMPTY_INDEX {
            return Err(());
        }
        let ghost keys0 = self.keys@;
        let ghost children0 = self.children@;
        proof {
            lemma_count_update(children0, present(), index as int, None);
            lemma_count_update(keys0, used(), key as int, EMPTY_INDEX);
        }
        let mut taken = None;
        self.children.set_and_swap(index as usize, &mut taken);
        self.keys.set(key as usize, EMPTY_INDEX);
        self.len = self.len - 1;
        proof {
            let keys = self.keys@;
            let children = self.children@;
            assert forall|b: int| 0 <= b < 256 && #[trigger] keys[b] != EMPTY_INDEX implies keys[b] < 48
                && children[keys[b] as int] is Some by {
                assert(keys0[b] != index);
            }
            assert forall|b1: int, b2: int|
                0 <= b1 < 256 && 0 <= b2 < 256 && b1 != b2 && #[trigger] keys[b1] != EMPTY_INDEX implies keys[b1]
                != #[trigger] keys[b2] by {
                assert(keys0[b1] == keys[b1]);
                if b2 != key {
                    assert(keys0[b2] == keys[b2]);
                }
            }
            assert forall|s: int| 0 <= s < 48 && #[trigger] children[s] is Some implies exists|b: int|
                0 <= b < 256 && keys[b] == s by {
                let b = choose|b: int| 0 <= b < 256 && keys0[b] == s;
                assert(keys[b] == s);
            }
            assert forall|b: u8| #[trigger]
                self.slot(b) == if b == key {
                    None
                } else {
                    old(self).slot(b)
                } by {
                if b != key && keys0[b as int] != EMPTY_INDEX {
                    assert(keys0[b as int] != index);
                }
            }
        }
        Ok(taken.unwrap())
    }
}

impl<V> Node256<V> {
    /// The number of children.
    pub fn size(&self) -> (r: usize)
        ensures
            r == self.len,
    {
        self.len
    }

    /// The node has no room for another child.
    pub fn is_full(&self) -> (r: bool)
        ensures
            r == (self.len == 256),
    {
        self.len == 256
    }

    /// The node's children would fit in a `Node48`.
    pub fn is_shrinkable(&self) -> (r: bool)
        ensures
            r == (self.len <= 48),
    {
        self.len <= 48
    }

    /// Inserts `node` under `key`; hands it back where `key` has a child.
    pub fn insert(&mut self, key: u8, node: Node<V>) -> (r: Result<(), Node<V>>)
        requires
            old(self).ok(),
        ensures
            final(self).ok(),
            final(self).header == old(self).header,
            match r {
                Ok(()) => {
                    &&& old(self).slot(key) is None
                    &&& final(self).len == old(self).len + 1
                    &&& forall|b: u8| #[trigger]
                        final(self).slot(b) == if b == key {
                            Some(node)
                        } else {
                            old(self).slot(b)
                        }
                },
                Err(n) => {
                    &&& n == node
                    &&& old(self).slot(key) is Some
                    &&& final(self).len == old(self).len
                    &&& final(self).children@ == old(self).children@
                },
            },
    {
        if self.children[key as usize].is_none() {
            proof {
                lemma_count_update(self.children@, present(), key as int, Some(node));
                lemma_count_bound(self.children@.update(key as int, Some(node)), present());
            }
            self.len = self.len + 1;
            self.children.set(key as usize, Some(node));
            Ok(())
        } else {
            Err(node)
        }
    }

    /// The child under `key`.
    pub fn lookup(&self, key: u8) -> (r: Option<&Node<V>>)
        requires
            self.ok(),
        ensures
            match r {
                Some(c) => self.slot(key) == Some(*c),
                None => self.slot(key) is None,
            },
    {
        self.children[key as usize].as_ref()
    }

    /// Puts `node` in place of the child under `key` and returns the one it
    /// replaces; hands `node` back where `key` has no child.
    pub fn update(&mut self, key: u8, node: Node<V>) -> (r: Result<Node<V>, Node<V>>)
        requires
            old(self).ok(),
        ensures
            final(self).ok(),
            final(self).header == old(self).header,
            final(self).len == old(self).len,
            match r {
                Ok(n) => {
                    &&& old(self).slot(key) == Some(n)
                    &&& forall|b: u8| #[trigger]
                        final(self).slot(b) == if b == key {
                            Some(node)
                        } else {
                            old(self).slot(b)
                        }
                },
                Err(n) => n == node && old(self).slot(key) is None && final(self).children@ == old(
                    self,
                ).children@,
            },
    {
        if self.children[key as usize].is_none() {
            return Err(node);
        }
        proof {
            lemma_count_update(self.children@, present(), key as int, Some(node));
        }
        let mut taken = Some(node);
        self.children.set_and_swap(key as usize, &mut taken);
        Ok(taken.unwrap())
    }

    /// Removes and returns the child under `key`.
    pub fn remove(&mut self, key: u8) -> (r: Result<Node<V>, ()>)
        requires
            old(self).ok(),
        ensures
            final(self).ok(),
            final(self).header == old(self).header,
            match r {
                Ok(n) => {
                    &&& old(self).slot(key) == Some(n)
                    &&& final(self).len + 1 == old(self).len
                    &&& forall|b: u8| #[trigger]
                        final(self).slot(b) == if b == key {
                            None
                        } else {
                            old(self).slot(b)
                        }
                },
                Err(()) => {
                    &&& old(self).slot(key) is None
                    &&& final(self).len == old(self).len
                    &&& final(self).children@ == old(self).children@
                },
            },
    {
        if self.children[key as usize].is_none() {
            return Err(());
        }
        proof {
            lemma_count_update(self.children@, present(), key as int, None);
        }
        let mut taken = None;
        self.children.set_and_swap(key as usize, &mut taken);
        self.len = self.len - 1;
        Ok(taken.unwrap())
    }
}

} // verus!
