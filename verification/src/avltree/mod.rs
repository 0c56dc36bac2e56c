//! A sequential AVL tree whose empty tree has height 0.
pub mod laws;
pub mod node;

use crate::map::SequentialMap;
use node::{
    avl, height_of, insert_grows, lemma_avl_min_size, lemma_map_len, map_of, min_size, remove_shrinks, ins, rkey, size_of,
    Node,
};
use vstd::prelude::*;

verus! {

/// A map kept as an AVL tree: a binary search tree in which the heights of
/// the two subtrees of every node differ by at most one.
pub struct AVLTree<K, V> {
    /// The root of the tree; `None` for an empty tree.
    pub root: Option<Box<Node<K, V>>>,
}

impl<V> AVLTree<u64, V> {
    /// The height of the tree: 0 when it is empty.
    pub open spec fn height(&self) -> nat {
        height_of(self.root)
    }

    /// Inserting `key` makes the tree one level taller: the tree is empty
    /// or every node on the search path for `key` is balanced.
    pub open spec fn insert_grows(&self, key: u64) -> bool {
        insert_grows(self.root, key)
    }

    /// Removing `key` makes the tree one level lower.
    pub open spec fn remove_shrinks(&self, key: u64) -> bool {
        remove_shrinks(self.root, key)
    }

    /// get the height of the tree
    pub fn get_height(&self) -> (height: usize)
        requires
            self.wf(),
        ensures
            height == self.height(),
            self.entries().len() >= min_size(self.height()),
    {
        proof {
            lemma_map_len(self.root);
            lemma_avl_min_size(self.root);
        }
        match &self.root {
            Some(node) => node.height,
            None => 0,
        }
    }
}

impl<V> SequentialMap<u64, V> for AVLTree<u64, V> {
    open spec fn entries(&self) -> Map<u64, V> {
        map_of(self.root)
    }

    open spec fn wf(&self) -> bool {
        avl(self.root) && size_of(self.root) <= usize::MAX
    }

    fn new() -> (map: Self)
        ensures
            map.root is None,
    {
        let map = AVLTree { root: None };
        assert(map.entries() =~= Map::<u64, V>::empty());
        map
    }

    /// The tree grows one level taller exactly where the new key's search
    /// path holds only balanced nodes; otherwise its height stays.
    fn insert(&mut self, key: &u64, value: V) -> (result: Result<(), V>)
        ensures
            final(self).height() == old(self).height() + if !old(self).entries().contains_key(*key)
                && old(self).insert_grows(*key) {
                1nat
            } else {
                0nat
            },
            final(self).root == if old(self).entries().contains_key(*key) {
                old(self).root
            } else {
                Some(ins(old(self).root, *key, value))
            },
    {
        proof {
            lemma_map_len(self.root);
        }
        if Node::get(&self.root, *key).is_some() {
            return Err(value);
        }
        let root = self.root.take();
        self.root = Some(Node::insert_new(root, *key, value));
        proof {
            lemma_map_len(self.root);
        }
        Ok(())
    }

    fn lookup(&self, key: &u64) -> (result: Option<&V>) {
        Node::get(&self.root, *key)
    }

    /// The tree loses a level exactly where the removal makes its root
    /// subtree lower; otherwise its height stays.
    fn remove(&mut self, key: &u64) -> (result: Result<V, ()>)
        ensures
            final(self).height() + (if old(self).entries().contains_key(*key)
                && old(self).remove_shrinks(*key) {
                1nat
            } else {
                0nat
            }) == old(self).height(),
            final(self).root == if old(self).entries().contains_key(*key) {
                rkey(old(self).root->0, *key).0
            } else {
                old(self).root
            },
    {
        proof {
            lemma_map_len(self.root);
        }
        if Node::get(&self.root, *key).is_none() {
            return Err(());
        }
        let root = self.root.take().unwrap();
        let (rest, value) = Node::remove_key(root, *key);
        self.root = rest;
        proof {
            lemma_map_len(self.root);
        }
        Ok(value)
    }
}

} // verus!
