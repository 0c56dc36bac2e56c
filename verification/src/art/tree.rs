//! Insertion into a subtree: a leaf that meets another key, or an inner
//! node whose compressed path the key leaves, is split under a new `Node4`.
use vstd::prelude::*;
use super::node::{
    Node, Node4, NodeV, NodeHeader, NodeType, PREFIX_LEN, wf, big, get, slot, header_of, child_path, terminated, size_of, repr_ok, lemma_get_in, lemma_terminated_prefix,
};
use super::ops::{replace, kind, slots_added};

verus! {

/// Whether two keys are the same bytes.
pub fn same_key(a: &Vec<u8>, b: &Vec<u8>) -> (r: bool)
    ensures
        r == (a@ == b@),
{
    if a.len() != b.len() {
        return false;
    }
    let mut i: usize = 0;
    while i < a.len()
        invariant
            a@.len() == b@.len(),
            i <= a@.len(),
            forall|j: int| 0 <= j < i ==> a@[j] == b@[j],
        decreases a@.len() - i,
    {
        if a[i] != b[i] {
            return false;
        }
        i += 1;
    }
    assert(a@ =~= b@);
    true
}

/// A copy of a key.
pub fn copy_key(keys: &Vec<u8>) -> (r: Vec<u8>)
    ensures
        r@ == keys@,
{
    let r = keys.clone();
    assert(r@ =~= keys@);
    r
}

/// The first `min(PREFIX_LEN, len)` bytes of `keys` from `start`: what a
/// header stores of a path of `len` bytes read there.
fn stored_prefix(keys: &Vec<u8>, start: usize, len: usize) -> (prefix: Vec<u8>)
    requires
        start + len <= keys@.len(),
    ensures
        prefix@ == keys@.subrange(start as int, start + len).take(super::node::stored_len(len as nat) as int),
{
    let n = if len < PREFIX_LEN {
        len
    } else {
        PREFIX_LEN
    };
    let mut prefix: Vec<u8> = Vec::new();
    while prefix.len() < n
        invariant
            n <= len,
            start + len <= keys@.len(),
            keys@.len() == keys.len(),
            prefix@.len() <= n,
            prefix@ == keys@.subrange(start as int, start + prefix@.len()),
        decreases n - prefix@.len(),
    {
        prefix.push(keys[start + prefix.len()]);
        proof {
            assert(prefix@ =~= keys@.subrange(start as int, start + prefix@.len()));
        }
    }
    assert(prefix@ =~= keys@.subrange(start as int, start + len).take(n as int));
    prefix
}

/// Two different whole keys that agree on their first `i` bytes both go on
/// past them.
pub proof fn lemma_differ_within(a: Seq<u8>, b: Seq<u8>, i: int)
    requires
        terminated(a),
        terminated(b),
        a != b,
        0 <= i,
        forall|j: int| 0 <= j < i ==> a[j] == b[j],
    ensures
        i < a.len(),
        i < b.len(),
{
    if i >= a.len() && a.len() <= b.len() {
        assert(b.take(a.len() as int) =~= a);
        lemma_terminated_prefix(a, b);
    } else if i >= b.len() && b.len() <= a.len() {
        assert(a.take(b.len() as int) =~= b);
        lemma_terminated_prefix(b, a);
    } else if i >= a.len() {
        assert(b.take(a.len() as int) =~= a);
        lemma_terminated_prefix(a, b);
    } else if i >= b.len() {
        assert(a.take(b.len() as int) =~= b);
        lemma_terminated_prefix(b, a);
    }
}

impl<V> Node<V> {
    /// Turns the leaf `self`, which holds a key other than `keys`, into a
    /// `Node4` over the bytes that the two keys share from `depth` on, with
    /// the old leaf and a new one for `keys` and `value` as its children.
    fn split_leaf(&mut self, keys: &Vec<u8>, depth: usize, value: V, Ghost(p): Ghost<Seq<u8>>)
        requires
            *old(self) is Value,
            wf(*old(self), p),
            p == keys@.take(depth as int),
            depth <= keys@.len(),
            terminated(keys@),
            keys@.len() <= u32::MAX,
            old(self)->Value_0.key@ != keys@,
        ensures
            wf(*final(self), p),
            big(*final(self)),
            !(*final(self) is Value),
            forall|k: Seq<u8>| #[trigger]
                get(*final(self), k, depth as int) == if k == keys@ {
                    Some(value)
                } else {
                    get(*old(self), k, depth as int)
                },
    {
        let ghost old_node = *self;
        let ghost lk = old_node->Value_0.key@;
        let mut common: usize = 0;
        proof {
            assert forall|j: int| 0 <= j < depth implies keys@[j] == lk[j] by {
                assert(lk.take(p.len() as int)[j] == p[j]);
            }
            lemma_differ_within(keys@, lk, depth as int);
        }
        let old_byte = match &*self {
            Node::Value(l) => {
                while keys[depth + common] == l.key[depth + common]
                    invariant
                        lk == l.key@,
                        terminated(keys@),
                        terminated(lk),
                        lk != keys@,
                        keys@.len() <= u32::MAX,
                        depth + common < keys@.len(),
                        depth + common < lk.len(),
                        forall|j: int| 0 <= j < depth + common ==> keys@[j] == lk[j],
                    decreases keys@.len() - depth - common,
                {
                    common += 1;
                    proof {
                        lemma_differ_within(keys@, lk, depth + common);
                    }
                }
                l.key[depth + common]
            },
            _ => vstd::pervasive::unreached(),
        };
        let new_byte = keys[depth + common];
        let prefix = stored_prefix(keys, depth, common);
        let mut inter = Node4::<V>::default();
        inter.header = NodeHeader {
            len: common as u32,
            prefix,
            full: Ghost(keys@.subrange(depth as int, depth + common)),
        };
        let leaf = Node::Value(Box::new(NodeV::new(copy_key(keys), value)));
        let old = replace(self, Node::Node4(Box::new(inter)));
        let ghost empty = *self;
        let ghost leaf_g = leaf;
        let r1 = self.insert(old_byte, old);
        let ghost one = *self;
        let r2 = self.insert(new_byte, leaf);
        proof {
            assert(r1 is Ok);
            assert(r2 is Ok);
            let full = keys@.subrange(depth as int, depth + common);
            assert(header_of(*self).full@ == full);
            assert forall|b: u8| slot(empty, b) is None by {}
            assert(child_path(*self, p, old_byte) =~= lk.take(depth + common + 1));
            assert(child_path(*self, p, new_byte) =~= keys@.take(depth + common + 1));
            assert(lk.take(depth + common + 1).len() <= lk.len());
            assert forall|b: u8| #[trigger] slot(*self, b) is Some implies {
                &&& big(slot(*self, b)->0)
                &&& wf(slot(*self, b)->0, child_path(*self, p, b))
            } by {
                if b == old_byte {
                    assert(lk.take(depth + common + 1).len() == depth + common + 1);
                }
            }
            assert forall|k: Seq<u8>| #[trigger]
                get(*self, k, depth as int) == if k == keys@ {
                    Some(value)
                } else {
                    get(old_node, k, depth as int)
                } by {
                let d2 = depth + common;
                assert(header_of(*self).len == common);
                assert(slot(*self, old_byte) == Some(old_node));
                assert(slot(*self, new_byte) == Some(leaf_g));
                assert(get(leaf_g, k, d2 + 1) == if k == keys@ { Some(value) } else { None });
                assert(get(old_node, k, d2 + 1) == get(old_node, k, depth as int));
                if k == keys@ {
                    assert(k[d2] == new_byte);
                } else if k == lk {
                    assert(k[d2] == old_byte);
                }
                if d2 < k.len() && k[d2] != old_byte && k[d2] != new_byte {
                    assert(slot(*self, k[d2]) is None);
                }
            }
        }
    }
}

/// Whether a node is big enough depends on its kind and size alone.
pub proof fn lemma_big_kind<V>(a: Node<V>, b: Node<V>)
    requires
        kind(a) == kind(b),
        size_of(a) == size_of(b),
    ensures
        big(a) == big(b),
{
}

impl<V> Node<V> {
    /// Puts the inner node `self`, whose compressed path `keys` leaves at
    /// `mismatch`, under a new `Node4` over the bytes of the path before
    /// that place, next to a new leaf for `keys` and `value`; the old node
    /// keeps the rest of its path after the byte under which it now stands.
    fn split_prefix(&mut self, keys: &Vec<u8>, depth: usize, mismatch: usize, value: V, Ghost(p): Ghost<
        Seq<u8>,
    >)
        requires
            !(*old(self) is Value),
            wf(*old(self), p),
            big(*old(self)),
            p == keys@.take(depth as int),
            depth <= mismatch < depth + header_of(*old(self)).len,
            mismatch < keys@.len(),
            keys@.subrange(depth as int, mismatch as int) == header_of(*old(self)).full@.take(mismatch - depth),
            keys@[mismatch as int] != header_of(*old(self)).full@[mismatch - depth],
            terminated(keys@),
            keys@.len() <= u32::MAX,
        ensures
            wf(*final(self), p),
            big(*final(self)),
            !(*final(self) is Value),
            forall|k: Seq<u8>| #[trigger]
                get(*final(self), k, depth as int) == if k == keys@ {
                    Some(value)
                } else {
                    get(*old(self), k, depth as int)
                },
    {
        let ghost old_node = *self;
        let ghost full = header_of(old_node).full@;
        let ghost len = header_of(old_node).len;
        proof {
            super::path::lemma_repr_header(old_node);
        }
        let common = mismatch - depth;
        let new_byte = keys[mismatch];
        let prefix = stored_prefix(keys, depth, common);
        let mut inter = Node4::<V>::default();
        inter.header = NodeHeader {
            len: common as u32,
            prefix,
            full: Ghost(keys@.subrange(depth as int, mismatch as int)),
        };
        let leaf = Node::Value(Box::new(NodeV::new(copy_key(keys), value)));
        let ghost leaf_g = leaf;
        let mut old = replace(self, Node::Node4(Box::new(inter)));
        let old_len = old.header().len;
        let rest = old_len - (common as u32 + 1);
        let old_byte;
        let new_prefix;
        if old_len as usize > PREFIX_LEN {
            let any_child = old.get_any_child(Ghost(p)).unwrap();
            proof {
                lemma_get_in(old_node, p, any_child.key@);
                assert(any_child.key@.take(p.len() + len)[mismatch as int] == (p + full)[mismatch as int]);
            }
            old_byte = any_child.key[mismatch];
            new_prefix = stored_prefix(&any_child.key, mismatch + 1, rest as usize);
            proof {
                assert(any_child.key@.subrange(mismatch + 1, mismatch + 1 + rest) =~= full.subrange(
                    common + 1,
                    len as int,
                )) by {
                    assert(p.len() == depth);
                    assert(rest == len - common - 1);
                    assert(full.len() == len);
                    assert forall|j: int| 0 <= j < rest implies #[trigger] any_child.key@.subrange(
                        mismatch + 1,
                        mismatch + 1 + rest,
                    )[j] == full.subrange(common + 1, len as int)[j] by {
                        assert(any_child.key@.take(p.len() + len)[mismatch + 1 + j] == (p + full)[mismatch
                            + 1 + j]);
                    }
                }
            }
        } else {
            let h = old.header();
            old_byte = h.prefix[common];
            new_prefix = stored_prefix(&h.prefix, common + 1, rest as usize);
            proof {
                assert(h.prefix@.subrange(common + 1, common + 1 + rest) =~= full.subrange(
                    common + 1,
                    len as int,
                ));
            }
        }
        let ghost new_full = full.subrange(common + 1, len as int);
        let new_header = NodeHeader { len: rest, prefix: new_prefix, full: Ghost(new_full) };
        old.set_header(new_header);
        let ghost moved = old;
        let ghost p2 = p + keys@.subrange(depth as int, mismatch as int) + seq![old_byte];
        proof {
            assert(old_byte == full[common as int]);
            lemma_big_kind(old_node, moved);
            assert forall|b: u8| #[trigger] slot(moved, b) is Some implies {
                &&& big(slot(moved, b)->0)
                &&& wf(slot(moved, b)->0, child_path(moved, p2, b))
            } by {
                assert(child_path(moved, p2, b) =~= child_path(old_node, p, b));
                assert(slot(old_node, b) is Some);
            }
            assert(wf(moved, p2));
        }
        let ghost empty = *self;
        let r1 = self.insert(old_byte, old);
        let r2 = self.insert(new_byte, leaf);
        proof {
            assert(r1 is Ok);
            assert(r2 is Ok);
            assert(child_path(*self, p, old_byte) =~= p2);
            assert(child_path(*self, p, new_byte) =~= keys@.take(mismatch + 1));
            assert forall|b: u8| #[trigger] slot(*self, b) is Some implies {
                &&& big(slot(*self, b)->0)
                &&& wf(slot(*self, b)->0, child_path(*self, p, b))
            } by {
                assert(slot(empty, b) is None);
            }
            assert forall|k: Seq<u8>| #[trigger]
                get(*self, k, depth as int) == if k == keys@ {
                    Some(value)
                } else {
                    get(old_node, k, depth as int)
                } by {
                let d2 = mismatch as int;
                assert(header_of(*self).len == common);
                assert(slot(*self, old_byte) == Some(moved));
                assert(slot(*self, new_byte) == Some(leaf_g));
                assert(get(leaf_g, k, d2 + 1) == if k == keys@ {
                    Some(value)
                } else {
                    None
                });
                assert(get(moved, k, d2 + 1) == get(old_node, k, depth as int));
                if get(old_node, k, depth as int) is Some {
                    lemma_get_in(old_node, p, k);
                    assert(k.take(p.len() + len)[d2] == (p + full)[d2]);
                }
                if d2 < k.len() && k[d2] != old_byte && k[d2] != new_byte {
                    assert(slot(empty, k[d2]) is None);
                }
            }
        }
    }
}

/// The node is the root of a tree: a `Node256` with an empty path.
pub open spec fn is_root<V>(n: Node<V>) -> bool {
    n is Node256 && header_of(n).len == 0
}

/// What inserting `keys` with `value` into the subtree `n0` at depth `d`
/// leaves in `n1`, for the result `r`.
pub open spec fn inserted<V>(n0: Node<V>, n1: Node<V>, keys: Seq<u8>, d: int, value: V, r: Result<(), V>) -> bool {
    match r {
        Ok(()) => {
            &&& get(n0, keys, d) is None
            &&& forall|k: Seq<u8>| #[trigger]
                get(n1, k, d) == if k == keys {
                    Some(value)
                } else {
                    get(n0, k, d)
                }
        },
        Err(v) => {
            &&& v == value
            &&& get(n0, keys, d) is Some
            &&& forall|k: Seq<u8>| #[trigger] get(n1, k, d) == get(n0, k, d)
        },
    }
}

impl<V> Node<V> {
    /// Adds `child` under `key` to an inner node that has none there,
    /// turning the node into a bigger kind first if it is full.
    fn add_child(&mut self, key: u8, child: Node<V>)
        requires
            !(*old(self) is Value),
            repr_ok(*old(self)),
            slot(*old(self), key) is None,
        ensures
            !(*final(self) is Value),
            repr_ok(*final(self)),
            header_of(*final(self)) == header_of(*old(self)),
            slots_added(*old(self), *final(self), key, child),
            big(*old(self)) ==> big(*final(self)),
            *old(self) is Node256 ==> *final(self) is Node256,
    {
        let ghost before = *self;
        proof {
            super::ops::lemma_size_bound(before);
            if before is Node256 {
                let s = before->Node256_0.children@;
                super::count::lemma_count_update(s, super::node::present(), key as int, Some(child));
                super::count::lemma_count_bound(s.update(key as int, Some(child)), super::node::present());
            }
        }
        self.extend();
        let ghost extended = *self;
        let added = self.insert(key, child);
        proof {
            assert(added is Ok);
            if big(before) {
                assert(big(*self)) by {
                    if kind(extended) != kind(before) {
                        assert(size_of(before) == super::node::capacity(before));
                    }
                }
            }
        }
    }

    /// Inserts `keys` with `value` into the subtree `self`, reached by the
    /// first `depth` bytes of `keys`: down the children while the compressed
    /// paths match, then into the node where the search stops. Hands `value`
    /// back where `keys` is there already.
    pub fn insert_at(&mut self, keys: &Vec<u8>, depth: usize, value: V, Ghost(p): Ghost<Seq<u8>>) -> (r:
        Result<(), V>)
        requires
            wf(*old(self), p),
            big(*old(self)) || (is_root(*old(self)) && depth == 0),
            p == keys@.take(depth as int),
            depth <= keys@.len(),
            terminated(keys@),
            keys@.len() <= u32::MAX,
        ensures
            wf(*final(self), p),
            big(*old(self)) ==> big(*final(self)),
            is_root(*old(self)) ==> is_root(*final(self)) && header_of(*final(self)) == header_of(*old(self)),
            inserted(*old(self), *final(self), keys@, depth as int, value, r),
        decreases *old(self), 1nat,
    {
        let ghost old_node = *self;
        if self.node_type() == NodeType::Value {
            let same = match &*self {
                Node::Value(l) => same_key(&l.key, keys),
                _ => false,
            };
            if same {
                return Err(value);
            }
            self.split_leaf(keys, depth, value, Ghost(p));
            return Ok(());
        }
        proof {
            super::path::lemma_repr_header(old_node);
            if big(old_node) {
                let lk = super::node::lemma_some_leaf(old_node, p);
                lemma_get_in(old_node, p, lk);
                if depth >= keys@.len() {
                    assert(lk.take(keys@.len() as int) =~= keys@) by {
                        assert forall|j: int| 0 <= j < keys@.len() implies lk[j] == keys@[j] by {
                            assert(lk.take(p.len() as int)[j] == p[j]);
                        }
                    }
                    lemma_terminated_prefix(keys@, lk);
                }
            }
        }
        match Node::prefix_match(keys, self, depth, Ghost(p)) {
            Err(mismatch) => {
                self.extend();
                proof {
                    assert(big(*self)) by {
                        if kind(*self) != kind(old_node) {
                            assert(size_of(old_node) == super::node::capacity(old_node));
                        } else {
                            lemma_big_kind(old_node, *self);
                        }
                    }
                    assert forall|b: u8| #[trigger] slot(*self, b) is Some implies {
                        &&& big(slot(*self, b)->0)
                        &&& wf(slot(*self, b)->0, child_path(*self, p, b))
                    } by {
                        assert(slot(old_node, b) is Some);
                    }
                }
                self.split_prefix(keys, depth, mismatch, value, Ghost(p));
                proof {
                    assert forall|k: Seq<u8>| #[trigger]
                        get(*self, k, depth as int) == if k == keys@ {
                            Some(value)
                        } else {
                            get(old_node, k, depth as int)
                        } by {}
                    if get(old_node, keys@, depth as int) is Some {
                        lemma_get_in(old_node, p, keys@);
                        assert(keys@.take(depth + header_of(old_node).len)[mismatch as int] == (p + header_of(
                            old_node,
                        ).full@)[mismatch as int]);
                    }
                }
                Ok(())
            },
            Ok(()) => self.insert_below(keys, depth, value, Ghost(p)),
        }
    }

    /// Inserts `keys` with `value` below the inner node `self`, whose whole
    /// compressed path `keys` matches: into the child for the next byte, or
    /// as a new leaf where there is none.
    fn insert_below(&mut self, keys: &Vec<u8>, depth: usize, value: V, Ghost(p): Ghost<Seq<u8>>) -> (r:
        Result<(), V>)
        requires
            !(*old(self) is Value),
            wf(*old(self), p),
            big(*old(self)) || (is_root(*old(self)) && depth == 0),
            p == keys@.take(depth as int),
            depth + header_of(*old(self)).len < keys@.len(),
            keys@.subrange(depth as int, depth + header_of(*old(self)).len) == header_of(*old(self)).full@,
            terminated(keys@),
            keys@.len() <= u32::MAX,
        ensures
            wf(*final(self), p),
            big(*old(self)) ==> big(*final(self)),
            is_root(*old(self)) ==> is_root(*final(self)) && header_of(*final(self)) == header_of(*old(self)),
            inserted(*old(self), *final(self), keys@, depth as int, value, r),
        decreases *old(self), 0nat,
    {
        let ghost old_node = *self;
        let prefix = self.header().len as usize;
        let key = keys[depth + prefix];
        let ghost cp = child_path(old_node, p, key);
        proof {
            super::path::lemma_repr_header(old_node);
            super::ops::lemma_size_bound(old_node);
            assert(cp =~= keys@.take(depth + prefix + 1));
        }
        match self.remove(key) {
            Ok(child) => {
                let mut child = child;
                let ghost c0 = child;
                let r = child.insert_at(keys, depth + prefix + 1, value, Ghost(cp));
                let ghost c1 = child;
                let back = self.insert(key, child);
                proof {
                    assert(back is Ok);
                    assert(child_path(*self, p, key) == cp);
                    assert forall|b: u8| #[trigger] slot(*self, b) is Some implies {
                        &&& big(slot(*self, b)->0)
                        &&& wf(slot(*self, b)->0, child_path(*self, p, b))
                    } by {
                        if b != key {
                            assert(slot(old_node, b) is Some);
                        }
                    }
                    lemma_big_kind(old_node, *self);
                    assert forall|k: Seq<u8>|
                        #![trigger get(*self, k, depth as int)]
                        #![trigger get(old_node, k, depth as int)]
                        (k[depth + prefix] == key && depth + prefix < k.len()) implies get(*self, k, depth as int)
                            == get(c1, k, depth + prefix + 1) && get(old_node, k, depth as int) == get(
                            c0,
                            k,
                            depth + prefix + 1,
                        ) by {}
                    assert forall|k: Seq<u8>|
                        !(k[depth + prefix] == key && depth + prefix < k.len()) implies #[trigger] get(
                            *self,
                            k,
                            depth as int,
                        ) == get(old_node, k, depth as int) by {}
                }
                r
            },
            Err(()) => {
                let leaf = Node::Value(Box::new(NodeV::new(copy_key(keys), value)));
                let ghost leaf_g = leaf;
                self.add_child(key, leaf);
                proof {
                    assert(child_path(*self, p, key) == cp);
                    assert forall|b: u8| #[trigger] slot(*self, b) is Some implies {
                        &&& big(slot(*self, b)->0)
                        &&& wf(slot(*self, b)->0, child_path(*self, p, b))
                    } by {
                        if b != key {
                            assert(slot(old_node, b) is Some);
                        }
                    }
                    assert forall|k: Seq<u8>| #[trigger]
                        get(*self, k, depth as int) == if k == keys@ {
                            Some(value)
                        } else {
                            get(old_node, k, depth as int)
                        } by {
                        let d2 = depth + prefix;
                        if d2 < k.len() && k[d2] == key {
                            assert(get(leaf_g, k, d2 + 1) == if k == keys@ {
                                Some(value)
                            } else {
                                None
                            });
                        }
                    }
                }
                Ok(())
            },
        }
    }
}

} // verus!
