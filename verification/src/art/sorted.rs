//! The operations of the two small inner nodes, `Node4` and `Node16`, which
//! keep their key bytes sorted with one child per byte.
use vstd::prelude::*;
use super::node::{Node, Node4, Node16, increasing, sorted_slot, pos, lemma_pos};

verus! {

/// Inserting byte `b` with child `c` at `i`, between the smaller and the
/// greater bytes, keeps the bytes sorted and adds the one slot.
pub proof fn lemma_sorted_insert<V>(keys: Seq<u8>, children: Seq<Node<V>>, i: int, b: u8, c: Node<V>)
    requires
        increasing(keys),
        keys.len() == children.len(),
        0 <= i <= keys.len(),
        forall|j: int| 0 <= j < i ==> keys[j] < b,
        forall|j: int| i <= j < keys.len() ==> b < keys[j],
    ensures
        increasing(keys.insert(i, b)),
        forall|b2: u8|
            #[trigger] sorted_slot(keys.insert(i, b), children.insert(i, c), b2) == if b2 == b {
                Some(c)
            } else {
                sorted_slot(keys, children, b2)
            },
{
    let nk = keys.insert(i, b);
    let nc = children.insert(i, c);
    assert(increasing(nk)) by {
        assert forall|x: int, y: int| 0 <= x < y < nk.len() implies nk[x] < nk[y] by {
            if x < i && y > i {
                assert(keys[x] < b && b < keys[y - 1]);
            }
        }
    }
    assert forall|b2: u8| #[trigger]
        sorted_slot(nk, nc, b2) == if b2 == b {
            Some(c)
        } else {
            sorted_slot(keys, children, b2)
        } by {
        if b2 == b {
            lemma_pos(nk, i);
        } else if exists|j: int| 0 <= j < keys.len() && keys[j] == b2 {
            let j = choose|j: int| 0 <= j < keys.len() && keys[j] == b2;
            lemma_pos(keys, j);
            let j2 = if j < i {
                j
            } else {
                j + 1
            };
            assert(nk[j2] == b2);
            lemma_pos(nk, j2);
        } else {
            assert forall|j: int| 0 <= j < nk.len() implies nk[j] != b2 by {
                if j < i {
                    assert(nk[j] == keys[j]);
                } else if j > i {
                    assert(nk[j] == keys[j - 1]);
                }
            }
        }
    }
}

/// Removing the byte at `i` with its child keeps the bytes sorted and drops
/// the one slot.
pub proof fn lemma_sorted_remove<V>(keys: Seq<u8>, children: Seq<Node<V>>, i: int)
    requires
        increasing(keys),
        keys.len() == children.len(),
        0 <= i < keys.len(),
    ensures
        increasing(keys.remove(i)),
        forall|b2: u8|
            #[trigger] sorted_slot(keys.remove(i), children.remove(i), b2) == if b2 == keys[i] {
                None
            } else {
                sorted_slot(keys, children, b2)
            },
{
    let nk = keys.remove(i);
    let nc = children.remove(i);
    assert(increasing(nk)) by {
        assert forall|x: int, y: int| 0 <= x < y < nk.len() implies nk[x] < nk[y] by {
            let x0 = if x < i {
                x
            } else {
                x + 1
            };
            let y0 = if y < i {
                y
            } else {
                y + 1
            };
            assert(nk[x] == keys[x0] && nk[y] == keys[y0]);
        }
    }
    assert forall|b2: u8| #[trigger]
        sorted_slot(nk, nc, b2) == if b2 == keys[i] {
            None
        } else {
            sorted_slot(keys, children, b2)
        } by {
        if b2 == keys[i] {
            assert forall|j: int| 0 <= j < nk.len() implies nk[j] != b2 by {
                if j < i {
                    assert(keys[j] < keys[i]);
                } else {
                    assert(keys[i] < keys[j + 1]);
                }
            }
        } else if exists|j: int| 0 <= j < keys.len() && keys[j] == b2 {
            let j = choose|j: int| 0 <= j < keys.len() && keys[j] == b2;
            lemma_pos(keys, j);
            let j2 = if j < i {
                j
            } else {
                j - 1
            };
            assert(nk[j2] == b2);
            lemma_pos(nk, j2);
        } else {
            assert forall|j: int| 0 <= j < nk.len() implies nk[j] != b2 by {
                if j < i {
                    assert(nk[j] == keys[j]);
                } else {
                    assert(nk[j] == keys[j + 1]);
                }
            }
        }
    }
}

/// The place of byte `key` among sorted bytes, if it is there.
fn sorted_find(keys: &Vec<u8>, key: u8) -> (r: Option<usize>)
    requires
        increasing(keys@),
    ensures
        match r {
            Some(i) => i < keys@.len() && keys@[i as int] == key && pos(keys@, key) == i,
            None => pos(keys@, key) == -1,
        },
{
    let mut index: usize = 0;
    while index < keys.len()
        invariant
            index <= keys@.len(),
            increasing(keys@),
            forall|j: int| 0 <= j < index ==> keys@[j] != key,
        decreases keys@.len() - index,
    {
        if keys[index] == key {
            proof {
                lemma_pos(keys@, index as int);
            }
            return Some(index);
        }
        index += 1;
    }
    None
}

/// Inserts `node` under `key`, in byte order; hands `node` back where `key`
/// already has a child.
fn sorted_insert<V>(keys: &mut Vec<u8>, children: &mut Vec<Node<V>>, key: u8, node: Node<V>) -> (r:
    Result<(), Node<V>>)
    requires
        increasing(old(keys)@),
        old(keys)@.len() == old(children)@.len(),
    ensures
        match r {
            Ok(()) => {
                &&& sorted_slot(old(keys)@, old(children)@, key) is None
                &&& final(keys)@.len() == old(keys)@.len() + 1
                &&& final(children)@.len() == final(keys)@.len()
                &&& increasing(final(keys)@)
                &&& forall|b: u8| #[trigger]
                    sorted_slot(final(keys)@, final(children)@, b) == if b == key {
                        Some(node)
                    } else {
                        sorted_slot(old(keys)@, old(children)@, b)
                    }
            },
            Err(n) => {
                &&& n == node
                &&& sorted_slot(old(keys)@, old(children)@, key) is Some
                &&& final(keys)@ == old(keys)@
                &&& final(children)@ == old(children)@
            },
        },
{
    let mut index: usize = 0;
    while index < keys.len()
        invariant
            index <= keys@.len(),
            keys@ == old(keys)@,
            children@ == old(children)@,
            increasing(keys@),
            keys@.len() == children@.len(),
            forall|j: int| 0 <= j < index ==> keys@[j] < key,
        decreases keys@.len() - index,
    {
        if key < keys[index] {
            proof {
                lemma_sorted_insert(keys@, children@, index as int, key, node);
                assert forall|j: int| 0 <= j < keys@.len() implies keys@[j] != key by {
                    if j >= index {
                        assert(keys@[index as int] <= keys@[j]);
                    }
                }
            }
            keys.insert(index, key);
            children.insert(index, node);
            return Ok(());
        } else if key == keys[index] {
            proof {
                lemma_pos(keys@, index as int);
            }
            return Err(node);
        }
        index += 1;
    }
    proof {
        lemma_sorted_insert(keys@, children@, index as int, key, node);
    }
    keys.insert(index, key);
    children.insert(index, node);
    Ok(())
}

/// Removes the child under `key`, if there is one.
fn sorted_remove<V>(keys: &mut Vec<u8>, children: &mut Vec<Node<V>>, key: u8) -> (r: Result<Node<V>, ()>)
    requires
        increasing(old(keys)@),
        old(keys)@.len() == old(children)@.len(),
    ensures
        match r {
            Ok(n) => {
                &&& sorted_slot(old(keys)@, old(children)@, key) == Some(n)
                &&& final(keys)@.len() + 1 == old(keys)@.len()
                &&& final(children)@.len() == final(keys)@.len()
                &&& increasing(final(keys)@)
                &&& forall|b: u8| #[trigger]
                    sorted_slot(final(keys)@, final(children)@, b) == if b == key {
                        None
                    } else {
                        sorted_slot(old(keys)@, old(children)@, b)
                    }
            },
            Err(()) => {
                &&& sorted_slot(old(keys)@, old(children)@, key) is None
                &&& final(keys)@ == old(keys)@
                &&& final(children)@ == old(children)@
            },
        },
{
    match sorted_find(keys, key) {
        Some(index) => {
            proof {
                lemma_sorted_remove(keys@, children@, index as int);
            }
            let _ = keys.remove(index);
            let node = children.remove(index);
            Ok(node)
        },
        None => Err(()),
    }
}

/// The child under `key` among sorted bytes.
fn sorted_lookup<'a, V>(keys: &Vec<u8>, children: &'a Vec<Node<V>>, key: u8) -> (r: Option<&'a Node<V>>)
    requires
        increasing(keys@),
        keys@.len() == children@.len(),
    ensures
        match r {
            Some(c) => sorted_slot(keys@, children@, key) == Some(*c),
            None => sorted_slot(keys@, children@, key) is None,
        },
{
    match sorted_find(keys, key) {
        Some(index) => Some(&children[index]),
        None => None,
    }
}

/// Puts `node` in place of the child under `key` and returns the one it
/// replaces; hands `node` back where `key` has no child.
fn sorted_update<V>(keys: &Vec<u8>, children: &mut Vec<Node<V>>, key: u8, node: Node<V>) -> (r: Result<
    Node<V>,
    Node<V>,
>)
    requires
        increasing(keys@),
        keys@.len() == old(children)@.len(),
    ensures
        final(children)@.len() == old(children)@.len(),
        match r {
            Ok(n) => {
                &&& sorted_slot(keys@, old(children)@, key) == Some(n)
                &&& forall|b: u8| #[trigger]
                    sorted_slot(keys@, final(children)@, b) == if b == key {
                        Some(node)
                    } else {
                        sorted_slot(keys@, old(children)@, b)
                    }
            },
            Err(n) => {
                &&& n == node
                &&& sorted_slot(keys@, old(children)@, key) is None
                &&& final(children)@ == old(children)@
            },
        },
{
    match sorted_find(keys, key) {
        Some(index) => {
            let mut node = node;
            children.set_and_swap(index, &mut node);
            proof {
                assert forall|b: u8| b != key implies pos(keys@, b) != index by {}
            }
            Ok(node)
        },
        None => Err(node),
    }
}

impl<V> Node4<V> {
    /// The number of children.
    pub fn size(&self) -> (r: usize)
        requires
            self.ok(),
        ensures
            r == self.keys@.len(),
    {
        self.keys.len()
    }

    /// The node has no room for another child.
    pub fn is_full(&self) -> (r: bool)
        requires
            self.ok(),
        ensures
            r == (self.keys@.len() == 4),
    {
        self.keys.len() == 4
    }

    /// The node's children would fit in the next smaller kind.
    pub fn is_shrinkable(&self) -> (r: bool)
        requires
            self.ok(),
        ensures
            r == false,
    {
        false
    }

    /// Inserts `node` under `key`; hands it back where `key` has a child.
    pub fn insert(&mut self, key: u8, node: Node<V>) -> (r: Result<(), Node<V>>)
        requires
            old(self).ok(),
            old(self).keys@.len() < 4,
        ensures
            final(self).ok(),
            final(self).header == old(self).header,
            match r {
                Ok(()) => {
                    &&& old(self).slot(key) is None
                    &&& final(self).keys@.len() == old(self).keys@.len() + 1
                    &&& forall|b: u8| #[trigger]
                        final(self).slot(b) == if b == key {
                            Some(node)
                        } else {
                            old(self).slot(b)
                        }
                },
                Err(n) => {
                    &&& n == node
                    &&& old(self).slot(key) is Some
                    &&& final(self).keys@ == old(self).keys@
                    &&& final(self).children@ == old(self).children@
                },
            },
    {
        sorted_insert(&mut self.keys, &mut self.children, key, node)
    }

    /// The child under `key`.
    pub fn lookup(&self, key: u8) -> (r: Option<&Node<V>>)
        requires
            self.ok(),
        ensures
            match r {
                Some(c) => self.slot(key) == Some(*c),
                None => self.slot(key) is None,
            },
    {
        sorted_lookup(&self.keys, &self.children, key)
    }

    /// Puts `node` in place of the child under `key` and returns the one it
    /// replaces; hands `node` back where `key` has no child.
    pub fn update(&mut self, key: u8, node: Node<V>) -> (r: Result<Node<V>, Node<V>>)
        requires
            old(self).ok(),
        ensures
            final(self).ok(),
            final(self).header == old(self).header,
            final(self).keys@ == old(self).keys@,
            match r {
                Ok(n) => {
                    &&& old(self).slot(key) == Some(n)
                    &&& forall|b: u8| #[trigger]
                        final(self).slot(b) == if b == key {
                            Some(node)
                        } else {
                            old(self).slot(b)
                        }
                },
                Err(n) => n == node && old(self).slot(key) is None && final(self).children@ == old(
                    self,
                ).children@,
            },
    {
        sorted_update(&self.keys, &mut self.children, key, node)
    }

    /// Removes and returns the child under `key`.
    pub fn remove(&mut self, key: u8) -> (r: Result<Node<V>, ()>)
        requires
            old(self).ok(),
        ensures
            final(self).ok(),
            final(self).header == old(self).header,
            match r {
                Ok(n) => {
                    &&& old(self).slot(key) == Some(n)
                    &&& final(self).keys@.len() + 1 == old(self).keys@.len()
                    &&& forall|b: u8| #[trigger]
                        final(self).slot(b) == if b == key {
                            None
                        } else {
                            old(self).slot(b)
                        }
                },
                Err(()) => {
                    &&& old(self).slot(key) is None
                    &&& final(self).keys@ == old(self).keys@
                    &&& final(self).children@ == old(self).children@
                },
            },
    {
        sorted_remove(&mut self.keys, &mut self.children, key)
    }
}

impl<V> Node16<V> {
    /// The number of children.
    pub fn size(&self) -> (r: usize)
        requires
            self.ok(),
        ensures
            r == self.keys@.len(),
    {
        self.keys.len()
    }

    /// The node has no room for another child.
    pub fn is_full(&self) -> (r: bool)
        requires
            self.ok(),
        ensures
            r == (self.keys@.len() == 16),
    {
        self.keys.len() == 16
    }

    /// The node's children would fit in the next smaller kind.
    pub fn is_shrinkable(&self) -> (r: bool)
        requires
            self.ok(),
        ensures
            r == (self.keys@.len() <= 4),
    {
        self.keys.len() <= 4
    }

    /// Inserts `node` under `key`; hands it back where `key` has a child.
    pub fn insert(&mut self, key: u8, node: Node<V>) -> (r: Result<(), Node<V>>)
        requires
            old(self).ok(),
            old(self).keys@.len() < 16,
        ensures
            final(self).ok(),
            final(self).header == old(self).header,
            match r {
                Ok(()) => {
                    &&& old(self).slot(key) is None
                    &&& final(self).keys@.len() == old(self).keys@.len() + 1
                    &&& forall|b: u8| #[trigger]
                        final(self).slot(b) == if b == key {
                            Some(node)
                        } else {
                            old(self).slot(b)
                        }
                },
                Err(n) => {
                    &&& n == node
                    &&& old(self).slot(key) is Some
                    &&& final(self).keys@ == old(self).keys@
                    &&& final(self).children@ == old(self).children@
                },
            },
    {
        sorted_insert(&mut self.keys, &mut self.children, key, node)
    }

    /// The child under `key`.
    pub fn lookup(&self, key: u8) -> (r: Option<&Node<V>>)
        requires
            self.ok(),
        ensures
            match r {
                Some(c) => self.slot(key) == Some(*c),
                None => self.slot(key) is None,
            },
    {
        sorted_lookup(&self.keys, &self.children, key)
    }

    /// Puts `node` in place of the child under `key` and returns the one it
    /// replaces; hands `node` back where `key` has no child.
    pub fn update(&mut self, key: u8, node: Node<V>) -> (r: Result<Node<V>, Node<V>>)
        requires
            old(self).ok(),
        ensures
            final(self).ok(),
            final(self).header == old(self).header,
            final(self).keys@ == old(self).keys@,
            match r {
                Ok(n) => {
                    &&& old(self).slot(key) == Some(n)
                    &&& forall|b: u8| #[trigger]
                        final(self).slot(b) == if b == key {
                            Some(node)
                        } else {
                            old(self).slot(b)
                        }
                },
                Err(n) => n == node && old(self).slot(key) is None && final(self).children@ == old(
                    self,
                ).children@,
            },
    {
        sorted_update(&self.keys, &mut self.children, key, node)
    }

    /// Removes and returns the child under `key`.
    pub fn remove(&mut self, key: u8) -> (r: Result<Node<V>, ()>)
        requires
            old(self).ok(),
        ensures
            final(self).ok(),
            final(self).header == old(self).header,
            match r {
                Ok(n) => {
                    &&& old(self).slot(key) == Some(n)
                    &&& final(self).keys@.len() + 1 == old(self).keys@.len()
                    &&& forall|b: u8| #[trigger]
                        final(self).slot(b) == if b == key {
                            None
                        } else {
                            old(self).slot(b)
                        }
                },
                Err(()) => {
                    &&& old(self).slot(key) is None
                    &&& final(self).keys@ == old(self).keys@
                    &&& final(self).children@ == old(self).children@
                },
            },
    {
        sorted_remove(&mut self.keys, &mut self.children, key)
    }
}

} // verus!
