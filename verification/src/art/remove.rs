//! Removal from a subtree: the leaf goes, and the node it hung from is
//! merged into its last child or turned into a smaller kind where it can be.
use vstd::prelude::*;
use super::node::{
    Node, NodeV, NodeType, wf, big, get, slot, header_of, child_path, size_of, lemma_get_in,
};
use super::ops::{kind, shrinkable};
use super::tree::{is_root, same_key, lemma_big_kind};

verus! {

/// What removing `keys` from the subtree `n0` at depth `d` leaves in `n1`,
/// for the result `r`.
pub open spec fn removed<V>(n0: Node<V>, n1: Node<V>, keys: Seq<u8>, d: int, r: Result<V, ()>) -> bool {
    match r {
        Ok(v) => {
            &&& get(n0, keys, d) == Some(v)
            &&& forall|k: Seq<u8>| #[trigger]
                get(n1, k, d) == if k == keys {
                    None
                } else {
                    get(n0, k, d)
                }
        },
        Err(()) => {
            &&& get(n0, keys, d) is None
            &&& forall|k: Seq<u8>| #[trigger] get(n1, k, d) == get(n0, k, d)
        },
    }
}

/// An inner node that lost one child of a big enough node, and then was
/// merged into its last child or shrunk where it could be, is big enough.
pub proof fn lemma_big_after_removal<V>(n0: Node<V>, n1: Node<V>, n2: Node<V>)
    requires
        !(n0 is Value),
        big(n0),
        kind(n1) == kind(n0),
        size_of(n1) + 1 == size_of(n0),
        !(n1 is Node4 && size_of(n1) == 1),
        !(n2 is Value),
        size_of(n2) == size_of(n1),
        if shrinkable(n1) {
            kind(n2) == kind(n1) - 1
        } else {
            kind(n2) == kind(n1)
        },
    ensures
        big(n2),
{
}

impl<V> Node<V> {
    /// Removes `keys` from below the inner node `self`, reached by `depth`
    /// bytes: each node skips its compressed path and routes by the next
    /// byte, and the leaf found there is removed if it holds `keys`. The
    /// node it hung from is then merged into its last child if one is left
    /// of a `Node4`, and, below the root, shrunk if its children fit in a
    /// smaller kind.
    pub fn remove_at(&mut self, keys: &Vec<u8>, depth: usize, has_parent: bool, Ghost(p): Ghost<Seq<u8>>) -> (r:
        Result<V, ()>)
        requires
            !(*old(self) is Value),
            wf(*old(self), p),
            p.len() == depth,
            has_parent ==> big(*old(self)),
            !has_parent ==> is_root(*old(self)),
        ensures
            wf(*final(self), p),
            has_parent ==> big(*final(self)),
            !has_parent ==> is_root(*final(self)) && header_of(*final(self)) == header_of(*old(self)),
            removed(*old(self), *final(self), keys@, depth as int, r),
        decreases *old(self),
    {
        let ghost old_node = *self;
        proof {
            super::path::lemma_repr_header(old_node);
            super::ops::lemma_size_bound(old_node);
            if has_parent {
                let lk = super::node::lemma_some_leaf(old_node, p);
                lemma_get_in(old_node, p, lk);
            }
        }
        let len = self.header().len as usize;
        if depth + len >= keys.len() {
            return Err(());
        }
        let d = depth + len;
        let key = keys[d];
        let ghost cp = child_path(old_node, p, key);
        let is_leaf: bool;
        match self.lookup(key) {
            None => {
                return Err(());
            },
            Some(Node::Value(l)) => {
                if !same_key(&l.key, keys) {
                    proof {
                        assert(get(old_node, keys@, depth as int) == get(slot(old_node, key)->0, keys@, d + 1));
                    }
                    return Err(());
                }
                is_leaf = true;
            },
            Some(_) => {
                is_leaf = false;
            },
        }
        let ghost c0 = slot(old_node, key)->0;
        proof {
            assert(slot(old_node, key) is Some);
            assert(wf(c0, cp));
            assert(is_leaf == (c0 is Value));
            assert(is_leaf ==> c0->Value_0.key@ == keys@);
        }
        if is_leaf {
            let value = match self.remove(key) {
                Ok(Node::Value(l)) => {
                    let NodeV { key: _, value } = *l;
                    value
                },
                _ => vstd::pervasive::unreached(),
            };
            let ghost n1 = *self;
            proof {
                assert forall|b: u8| #[trigger] slot(n1, b) is Some implies {
                    &&& big(slot(n1, b)->0)
                    &&& wf(slot(n1, b)->0, child_path(n1, p, b))
                } by {
                    assert(slot(old_node, b) is Some);
                }
                assert forall|k: Seq<u8>| #[trigger]
                    get(n1, k, depth as int) == if k == keys@ {
                        None
                    } else {
                        get(old_node, k, depth as int)
                    } by {
                    assert(get(c0, k, d + 1) == if k == keys@ {
                        Some(value)
                    } else {
                        None
                    });
                    if d < k.len() && k[d as int] == key {
                        assert(slot(n1, key) is None);
                    }
                }
            }
            self.compress_path(Ghost(p));
            let ghost n2 = *self;
            if has_parent && self.node_type() != NodeType::Value {
                if self.is_shrinkable() {
                    self.shrink();
                    proof {
                        assert forall|b: u8| #[trigger] slot(*self, b) is Some implies {
                            &&& big(slot(*self, b)->0)
                            &&& wf(slot(*self, b)->0, child_path(*self, p, b))
                        } by {
                            assert(slot(n2, b) is Some);
                        }
                        assert forall|k: Seq<u8>| #[trigger]
                            get(*self, k, depth as int) == get(n2, k, depth as int) by {}
                    }
                }
                proof {
                    if n2 == n1 {
                        lemma_big_after_removal(old_node, n1, *self);
                    }
                }
            }
            proof {
                assert(get(c0, keys@, d + 1) == Some(value));
                assert(get(old_node, keys@, depth as int) == Some(value));
                assert forall|k: Seq<u8>| #[trigger]
                    get(*self, k, depth as int) == if k == keys@ {
                        None
                    } else {
                        get(old_node, k, depth as int)
                    } by {
                    assert(get(n2, k, depth as int) == get(n1, k, depth as int));
                }
            }
            return Ok(value);
        }
        let mut child = match self.remove(key) {
            Ok(c) => c,
            Err(()) => vstd::pervasive::unreached(),
        };
        let r = child.remove_at(keys, d + 1, true, Ghost(cp));
        let ghost c1 = child;
        let back = self.insert(key, child);
        proof {
            assert(back is Ok);
            assert(child_path(*self, p, key) == cp);
            assert forall|b: u8| #[trigger] slot(*self, b) is Some implies {
                &&& big(slot(*self, b)->0)
                &&& wf(slot(*self, b)->0, child_path(*self, p, b))
            } by {
                if b != key {
                    assert(slot(old_node, b) is Some);
                }
            }
            lemma_big_kind(old_node, *self);
            assert forall|k: Seq<u8>|
                #![trigger get(*self, k, depth as int)]
                #![trigger get(old_node, k, depth as int)]
                (k[d as int] == key && d < k.len()) implies get(*self, k, depth as int) == get(c1, k, d + 1) && get(
                    old_node,
                    k,
                    depth as int,
                ) == get(c0, k, d + 1) by {}
            assert forall|k: Seq<u8>|
                !(k[d as int] == key && d < k.len()) implies #[trigger] get(*self, k, depth as int) == get(
                    old_node,
                    k,
                    depth as int,
                ) by {}
        }
        r
    }
}

} // verus!
