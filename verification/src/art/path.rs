//! The compressed paths of inner nodes: matching a key against one, finding
//! a key below a node to read the bytes that a header does not store, and
//! merging a node that is left with one child into that child.
use vstd::prelude::*;
use super::node::{
    Node, NodeV, NodeHeader, NodeType, PREFIX_LEN, wf, big, get, slot, header_of, header_ok, stored_len,
    child_path, terminated, size_of, lemma_get_in, lemma_some_leaf, lemma_terminated_prefix,
};
use super::ops::{replace, kind, same_slots};

verus! {

impl<V> Node<V> {
    /// Some leaf below the node (the node itself if it is a leaf); there is
    /// one wherever the node is big enough.
    pub fn get_any_child(&self, Ghost(p): Ghost<Seq<u8>>) -> (r: Option<&NodeV<V>>)
        requires
            wf(*self, p),
        ensures
            match r {
                Some(l) => get(*self, l.key@, p.len() as int) == Some(l.value),
                None => !big(*self),
            },
        decreases self,
    {
        match self {
            Node::Value(l) => Some(l),
            Node::Node4(x) => {
                if x.keys.len() == 0 {
                    return None;
                }
                proof {
                    super::node::lemma_pos(x.keys@, 0);
                    assert(slot(*self, x.keys@[0]) == Some(x.children@[0]));
                }
                let ghost cp = child_path(*self, p, x.keys@[0]);
                let r = x.children[0].get_any_child(Ghost(cp));
                proof {
                    if r is Some {
                        lemma_get_in(x.children@[0], cp, r->0.key@);
                        assert(r->0.key@[p.len() + x.header.len] == cp[p.len() + x.header.len]);
                    }
                }
                r
            },
            Node::Node16(x) => {
                if x.keys.len() == 0 {
                    return None;
                }
                proof {
                    super::node::lemma_pos(x.keys@, 0);
                    assert(slot(*self, x.keys@[0]) == Some(x.children@[0]));
                }
                let ghost cp = child_path(*self, p, x.keys@[0]);
                let r = x.children[0].get_any_child(Ghost(cp));
                proof {
                    if r is Some {
                        lemma_get_in(x.children@[0], cp, r->0.key@);
                        assert(r->0.key@[p.len() + x.header.len] == cp[p.len() + x.header.len]);
                    }
                }
                r
            },
            Node::Node48(x) => {
                let mut s: usize = 0;
                while s < 48
                    invariant
                        wf(*self, p),
                        *self is Node48,
                        x == self->Node48_0,
                        s <= 48,
                        forall|t: int| 0 <= t < s ==> x.children@[t] is None,
                    decreases 48 - s,
                {
                    match &x.children[s] {
                        Some(c) => {
                            let ghost b = choose|b: int| 0 <= b < 256 && x.keys@[b] == s;
                            let ghost cp = child_path(*self, p, b as u8);
                            assert(slot(*self, b as u8) == Some(*c));
                            let r = c.get_any_child(Ghost(cp));
                            proof {
                                if r is Some {
                                    lemma_get_in(*c, cp, r->0.key@);
                                    assert(r->0.key@[p.len() + x.header.len] == cp[p.len() + x.header.len]);
                                }
                            }
                            return r;
                        },
                        None => {},
                    }
                    s += 1;
                }
                proof {
                    if x.len > 0 {
                        let b = super::count::lemma_count_some_item(x.keys@, super::node::used());
                    }
                }
                None
            },
            Node::Node256(x) => {
                let mut b: usize = 0;
                while b < 256
                    invariant
                        wf(*self, p),
                        *self is Node256,
                        x == self->Node256_0,
                        b <= 256,
                        forall|t: int| 0 <= t < b ==> x.children@[t] is None,
                    decreases 256 - b,
                {
                    match &x.children[b] {
                        Some(c) => {
                            let ghost cp = child_path(*self, p, b as u8);
                            assert(slot(*self, b as u8) == Some(*c));
                            let r = c.get_any_child(Ghost(cp));
                            proof {
                                if r is Some {
                                    lemma_get_in(*c, cp, r->0.key@);
                                    assert(r->0.key@[p.len() + x.header.len] == cp[p.len() + x.header.len]);
                                }
                            }
                            return r;
                        },
                        None => {},
                    }
                    b += 1;
                }
                proof {
                    if x.len > 0 {
                        let b = super::count::lemma_count_some_item(x.children@, super::node::present());
                    }
                }
                None
            },
        }
    }
}

/// The smaller of two lengths.
fn min(a: usize, b: usize) -> (r: usize)
    ensures
        r == if a < b {
            a
        } else {
            b
        },
{
    if a < b {
        a
    } else {
        b
    }
}

/// The node at `depth` lies on the path of the whole key `keys`: the path
/// `p` to it is the first `depth` bytes of `keys`, and `keys` goes on.
pub open spec fn on_path(keys: Seq<u8>, depth: int, p: Seq<u8>) -> bool {
    &&& depth < keys.len()
    &&& p == keys.take(depth)
    &&& terminated(keys)
}

impl<V> Node<V> {
    /// Compares `keys`, from `depth` on, with the compressed path of `node`:
    /// `Ok` where the whole path matches, or the first place where they
    /// differ. The bytes past those that the header stores are read from a
    /// leaf below the node.
    pub fn prefix_match(keys: &Vec<u8>, node: &Node<V>, depth: usize, Ghost(p): Ghost<Seq<u8>>) -> (r: Result<
        (),
        usize,
    >)
        requires
            !(*node is Value),
            wf(*node, p),
            big(*node) || header_of(*node).len == 0,
            p.len() == depth,
            depth + header_of(*node).len <= keys@.len() || on_path(keys@, depth as int, p),
        ensures
            match r {
                Ok(()) => {
                    &&& depth + header_of(*node).len <= keys@.len()
                    &&& on_path(keys@, depth as int, p) ==> depth + header_of(*node).len < keys@.len()
                    &&& keys@.subrange(depth as int, depth + header_of(*node).len) == header_of(*node).full@
                },
                Err(d) => {
                    &&& depth <= d < depth + header_of(*node).len
                    &&& d < keys@.len()
                    &&& keys@.subrange(depth as int, d as int) == header_of(*node).full@.take(d - depth)
                    &&& keys@[d as int] != header_of(*node).full@[d - depth]
                },
            },
    {
        let header = node.header();
        let ghost full = header.full@;
        let ghost lk: Seq<u8> = if header.len > 0 {
            lemma_some_leaf(*node, p)
        } else {
            keys@
        };
        proof {
            if header.len > 0 {
                lemma_get_in(*node, p, lk);
            }
        }
        let stored = min(PREFIX_LEN, header.len as usize);
        let mut index: usize = 0;
        while index < stored
            invariant
                *header == header_of(*node),
                header_ok(*header),
                full == header.full@,
                stored == stored_len(header.len as nat),
                index <= stored,
                p.len() == depth,
                depth + header.len <= keys@.len() || on_path(keys@, depth as int, p),
                header.len > 0 ==> {
                    &&& terminated(lk)
                    &&& lk.len() <= u32::MAX
                    &&& p.len() + header.len < lk.len()
                    &&& lk.take(p.len() + header.len) == p + full
                },
                forall|j: int| 0 <= j < index ==> keys@[depth + j] == full[j],
            decreases stored - index,
        {
            proof {
                if depth + index >= keys@.len() {
                    assert(lk.take(keys@.len() as int) =~= keys@) by {
                        assert forall|j: int| 0 <= j < keys@.len() implies lk[j] == keys@[j] by {
                            if j < depth {
                                assert(lk.take(p.len() + header.len)[j] == (p + full)[j]);
                            } else {
                                assert(lk.take(p.len() + header.len)[j] == (p + full)[j]);
                            }
                        }
                    }
                    lemma_terminated_prefix(keys@, lk);
                }
                assert(depth + index < keys@.len());
            }
            if keys[depth + index] != header.prefix[index] {
                proof {
                    assert(keys@.subrange(depth as int, depth + index) =~= full.take(index as int));
                }
                return Err(depth + index);
            }
            index += 1;
        }
        if header.len as usize > PREFIX_LEN {
            let any_child = node.get_any_child(Ghost(p));
            let any_child = any_child.unwrap();
            proof {
                lemma_get_in(*node, p, any_child.key@);
            }
            let mut d = depth + PREFIX_LEN;
            while d < depth + header.len as usize
                invariant
                    *header == header_of(*node),
                    header_ok(*header),
                    full == header.full@,
                    header.len > PREFIX_LEN,
                    depth + PREFIX_LEN <= d <= depth + header.len,
                    p.len() == depth,
                    depth + header.len <= keys@.len() || on_path(keys@, depth as int, p),
                    terminated(lk),
                    lk.len() <= u32::MAX,
                    p.len() + header.len < lk.len(),
                    lk.take(p.len() + header.len) == p + full,
                    p.len() + header.len < any_child.key@.len(),
                    any_child.key@.take(p.len() + header.len) == p + full,
                    forall|j: int| 0 <= j < d - depth ==> keys@[depth + j] == full[j],
                decreases depth + header.len - d,
            {
                proof {
                    if d >= keys@.len() {
                        assert(lk.take(keys@.len() as int) =~= keys@) by {
                            assert forall|j: int| 0 <= j < keys@.len() implies lk[j] == keys@[j] by {
                                assert(lk.take(p.len() + header.len)[j] == (p + full)[j]);
                            }
                        }
                        lemma_terminated_prefix(keys@, lk);
                    }
                    assert(any_child.key@.take(p.len() + header.len)[d as int] == (p + full)[d as int]);
                }
                if keys[d] != any_child.key[d] {
                    proof {
                        assert(keys@.subrange(depth as int, d as int) =~= full.take(d - depth));
                    }
                    return Err(d);
                }
                d += 1;
            }
        }
        proof {
            if on_path(keys@, depth as int, p) && depth + header.len >= keys@.len() {
                assert(lk.take(keys@.len() as int) =~= keys@) by {
                    assert forall|j: int| 0 <= j < keys@.len() implies lk[j] == keys@[j] by {
                        assert(lk.take(p.len() + header.len)[j] == (p + full)[j]);
                    }
                }
                lemma_terminated_prefix(keys@, lk);
            }
            assert(keys@.subrange(depth as int, depth + header.len) =~= full);
        }
        Ok(())
    }
}

/// What a `Node4` with path `header` and the one child `c` under byte `b`
/// becomes once merged: the leaf `c` itself, or the inner node `c` with the
/// same kind and children, whose path is `header`'s path, then `b`, then its
/// own, stored as a header in shape.
pub open spec fn merged<V>(header: NodeHeader, b: u8, c: Node<V>, n: Node<V>) -> bool {
    if c is Value {
        n == c
    } else {
        &&& kind(n) == kind(c)
        &&& same_slots(c, n)
        &&& size_of(n) == size_of(c)
        &&& header_of(n).len == header.len + 1 + header_of(c).len
        &&& header_of(n).full@ == header.full@ + seq![b] + header_of(c).full@
        &&& header_ok(header_of(n))
    }
}

/// An inner node in shape has a header in shape.
pub proof fn lemma_repr_header<V>(n: Node<V>)
    requires
        !(n is Value),
        super::node::repr_ok(n),
    ensures
        header_ok(header_of(n)),
{
}

impl<V> Node<V> {
    /// Merges a `Node4` that is left with one child into that child: an inner
    /// child takes the node's compressed path, followed by its own byte, in
    /// front of its own; a leaf just moves up. Any other node stays as it is.
    pub fn compress_path(&mut self, Ghost(p): Ghost<Seq<u8>>)
        requires
            wf(*old(self), p),
        ensures
            wf(*final(self), p),
            forall|k: Seq<u8>| #[trigger]
                get(*final(self), k, p.len() as int) == get(*old(self), k, p.len() as int),
            if *old(self) is Node4 && size_of(*old(self)) == 1 {
                big(*final(self))
            } else {
                *final(self) == *old(self)
            },
            *old(self) is Node4 && size_of(*old(self)) == 1 ==> merged(
                old(self)->Node4_0.header,
                old(self)->Node4_0.keys@[0],
                old(self)->Node4_0.children@[0],
                *final(self),
            ),
    {
        if self.node_type() != NodeType::Node4 {
            return;
        }
        if self.size() != 1 {
            return;
        }
        let ghost old_node = *self;
        let old = replace(self, Node::Node4(Box::new(super::node::Node4::default())));
        let x = match old {
            Node::Node4(x) => x,
            _ => vstd::pervasive::unreached(),
        };
        let super::node::Node4 { header, keys, mut children } = *x;
        let child_key = keys[0];
        let mut child = children.pop().unwrap();
        let ghost cp = child_path(old_node, p, child_key);
        proof {
            super::node::lemma_pos(keys@, 0);
            assert(slot(old_node, child_key) == Some(child));
            assert(wf(child, cp) && big(child));
            if !(child is Value) {
                lemma_repr_header(child);
            }
            assert forall|b: u8| b != child_key implies slot(old_node, b) is None by {
                super::node::lemma_pos_absent(keys@, b);
            }
        }
        let ghost c = child;
        if child.node_type() != NodeType::Value {
            let ghost lk = lemma_some_leaf(child, cp);
            proof {
                lemma_get_in(child, cp, lk);
            }
            let ch = child.header();
            let ghost full = header.full@ + seq![child_key] + ch.full@;
            let new_len = header.len + 1 + ch.len;
            let mut prefix: Vec<u8> = Vec::new();
            while prefix.len() < header.prefix.len()
                invariant
                    header_ok(header),
                    full == header.full@ + seq![child_key] + ch.full@,
                    prefix@.len() <= header.prefix@.len(),
                    prefix@ == full.take(prefix@.len() as int),
                decreases header.prefix@.len() - prefix@.len(),
            {
                prefix.push(header.prefix[prefix.len()]);
                proof {
                    assert(prefix@ =~= full.take(prefix@.len() as int));
                }
            }
            if prefix.len() < PREFIX_LEN {
                prefix.push(child_key);
                proof {
                    assert(prefix@ =~= full.take(prefix@.len() as int));
                }
            }
            let mut j: usize = 0;
            while prefix.len() < PREFIX_LEN && j < ch.prefix.len()
                invariant
                    header_ok(header),
                    header_ok(*ch),
                    full == header.full@ + seq![child_key] + ch.full@,
                    prefix@.len() <= PREFIX_LEN,
                    prefix@ == full.take(prefix@.len() as int),
                    j <= ch.prefix@.len(),
                    header.len < PREFIX_LEN ==> prefix@.len() == header.len + 1 + j,
                    header.len >= PREFIX_LEN ==> prefix@.len() == PREFIX_LEN,
                decreases ch.prefix@.len() - j,
            {
                prefix.push(ch.prefix[j]);
                j += 1;
                proof {
                    assert(prefix@ =~= full.take(prefix@.len() as int));
                }
            }
            let new_header = NodeHeader { len: new_len, prefix, full: Ghost(full) };
            proof {
                assert(header_ok(new_header));
            }
            child.set_header(new_header);
            proof {
                assert forall|b: u8| #[trigger] slot(child, b) is Some implies {
                    &&& big(slot(child, b)->0)
                    &&& wf(slot(child, b)->0, child_path(child, p, b))
                } by {
                    assert(child_path(child, p, b) =~= child_path(c, cp, b));
                    assert(slot(c, b) is Some);
                }
            }
        }
        *self = child;
        proof {
            if c is Value {
                assert(c->Value_0.key@.take(p.len() as int) =~= c->Value_0.key@.take(cp.len() as int).take(
                    p.len() as int,
                ));
                assert(cp.take(p.len() as int) =~= p);
            }
            assert forall|k: Seq<u8>| #[trigger]
                get(*self, k, p.len() as int) == get(old_node, k, p.len() as int) by {
                assert(get(*self, k, p.len() as int) == get(c, k, cp.len() as int));
                if get(c, k, cp.len() as int) is Some {
                    lemma_get_in(c, cp, k);
                    assert(k[p.len() + header.len] == cp[p.len() + header.len]);
                }
            }
        }
    }
}

} // verus!
