//! The operations of a node whatever its kind: the header, the children by
//! byte, and the changes of kind as a node fills up or empties.
use vstd::prelude::*;
use super::node::{
    Node, Node4, Node16, Node48, Node256, NodeHeader, NodeType, slot, header_of, size_of, repr_ok,
    capacity,
};

verus! {

/// The kind of a node, as a number.
pub open spec fn kind<V>(n: Node<V>) -> int {
    match n {
        Node::Value(_) => 0,
        Node::Node4(_) => 1,
        Node::Node16(_) => 2,
        Node::Node48(_) => 3,
        Node::Node256(_) => 4,
    }
}

/// The node would fit in the next smaller kind.
pub open spec fn shrinkable<V>(n: Node<V>) -> bool {
    match n {
        Node::Value(_) => false,
        Node::Node4(_) => false,
        Node::Node16(x) => x.keys@.len() <= 4,
        Node::Node48(x) => x.len <= 16,
        Node::Node256(x) => x.len <= 48,
    }
}

/// `b` holds the slots of `a` with `c` added under `key`.
pub open spec fn slots_added<V>(a: Node<V>, b: Node<V>, key: u8, c: Node<V>) -> bool {
    forall|x: u8| #[trigger]
        slot(b, x) == if x == key {
            Some(c)
        } else {
            slot(a, x)
        }
}

/// `b` holds the slots of `a` without the one under `key`.
pub open spec fn slots_removed<V>(a: Node<V>, b: Node<V>, key: u8) -> bool {
    forall|x: u8| #[trigger]
        slot(b, x) == if x == key {
            None
        } else {
            slot(a, x)
        }
}

/// `a` and `b` hold the same slots.
pub open spec fn same_slots<V>(a: Node<V>, b: Node<V>) -> bool {
    forall|x: u8| #[trigger] slot(b, x) == slot(a, x)
}

/// An inner node in shape holds at most as many children as its kind can.
pub proof fn lemma_size_bound<V>(n: Node<V>)
    requires
        repr_ok(n),
    ensures
        size_of(n) <= capacity(n),
{
    match n {
        Node::Node48(x) => {
            super::count::lemma_count_bound(x.children@, super::node::present());
        },
        Node::Node256(x) => {
            super::count::lemma_count_bound(x.children@, super::node::present());
        },
        _ => {},
    }
}

impl<V> Node<V> {
    /// The kind of the node.
    pub fn node_type(&self) -> (t: NodeType)
        ensures
            t == match *self {
                Node::Value(_) => NodeType::Value,
                Node::Node4(_) => NodeType::Node4,
                Node::Node16(_) => NodeType::Node16,
                Node::Node48(_) => NodeType::Node48,
                Node::Node256(_) => NodeType::Node256,
            },
    {
        match self {
            Node::Value(_) => NodeType::Value,
            Node::Node4(_) => NodeType::Node4,
            Node::Node16(_) => NodeType::Node16,
            Node::Node48(_) => NodeType::Node48,
            Node::Node256(_) => NodeType::Node256,
        }
    }

    /// The header of an inner node.
    pub fn header(&self) -> (h: &NodeHeader)
        requires
            !(self is Value),
        ensures
            *h == header_of(*self),
    {
        match self {
            Node::Node4(x) => &x.header,
            Node::Node16(x) => &x.header,
            Node::Node48(x) => &x.header,
            Node::Node256(x) => &x.header,
            Node::Value(_) => vstd::pervasive::unreached(),
        }
    }

    /// Replaces the header of an inner node.
    pub fn set_header(&mut self, header: NodeHeader)
        requires
            !(*old(self) is Value),
        ensures
            kind(*final(self)) == kind(*old(self)),
            header_of(*final(self)) == header,
            same_slots(*old(self), *final(self)),
            size_of(*final(self)) == size_of(*old(self)),
            (repr_ok(*old(self)) && super::node::header_ok(header)) ==> repr_ok(*final(self)),
    {
        match self {
            Node::Node4(x) => {
                x.header = header;
            },
            Node::Node16(x) => {
                x.header = header;
            },
            Node::Node48(x) => {
                x.header = header;
            },
            Node::Node256(x) => {
                x.header = header;
            },
            Node::Value(_) => {},
        }
    }

    /// The number of children of an inner node.
    pub fn size(&self) -> (r: usize)
        requires
            !(self is Value),
            repr_ok(*self),
        ensures
            r == size_of(*self),
    {
        match self {
            Node::Node4(x) => x.size(),
            Node::Node16(x) => x.size(),
            Node::Node48(x) => x.size(),
            Node::Node256(x) => x.size(),
            Node::Value(_) => vstd::pervasive::unreached(),
        }
    }

    /// The inner node has no room for another child.
    pub fn is_full(&self) -> (r: bool)
        requires
            !(self is Value),
            repr_ok(*self),
        ensures
            r == (size_of(*self) == capacity(*self)),
    {
        match self {
            Node::Node4(x) => x.is_full(),
            Node::Node16(x) => x.is_full(),
            Node::Node48(x) => x.is_full(),
            Node::Node256(x) => x.is_full(),
            Node::Value(_) => vstd::pervasive::unreached(),
        }
    }

    /// The inner node would fit in the next smaller kind.
    pub fn is_shrinkable(&self) -> (r: bool)
        requires
            !(self is Value),
            repr_ok(*self),
        ensures
            r == shrinkable(*self),
    {
        match self {
            Node::Node4(x) => x.is_shrinkable(),
            Node::Node16(x) => x.is_shrinkable(),
            Node::Node48(x) => x.is_shrinkable(),
            Node::Node256(x) => x.is_shrinkable(),
            Node::Value(_) => vstd::pervasive::unreached(),
        }
    }

    /// The child of an inner node under `key`.
    pub fn lookup(&self, key: u8) -> (r: Option<&Node<V>>)
        requires
            !(self is Value),
            repr_ok(*self),
        ensures
            match r {
                Some(c) => slot(*self, key) == Some(*c),
                None => slot(*self, key) is None,
            },
    {
        match self {
            Node::Node4(x) => x.lookup(key),
            Node::Node16(x) => x.lookup(key),
            Node::Node48(x) => x.lookup(key),
            Node::Node256(x) => x.lookup(key),
            Node::Value(_) => vstd::pervasive::unreached(),
        }
    }

    /// Inserts `node` under `key` into an inner node with room for it; hands
    /// it back where `key` has a child.
    pub fn insert(&mut self, key: u8, node: Node<V>) -> (r: Result<(), Node<V>>)
        requires
            !(*old(self) is Value),
            repr_ok(*old(self)),
            size_of(*old(self)) < capacity(*old(self)),
        ensures
            kind(*final(self)) == kind(*old(self)),
            header_of(*final(self)) == header_of(*old(self)),
            repr_ok(*final(self)),
            match r {
                Ok(()) => {
                    &&& slot(*old(self), key) is None
                    &&& size_of(*final(self)) == size_of(*old(self)) + 1
                    &&& slots_added(*old(self), *final(self), key, node)
                },
                Err(n) => {
                    &&& n == node
                    &&& slot(*old(self), key) is Some
                    &&& size_of(*final(self)) == size_of(*old(self))
                    &&& same_slots(*old(self), *final(self))
                },
            },
    {
        match self {
            Node::Node4(x) => x.insert(key, node),
            Node::Node16(x) => x.insert(key, node),
            Node::Node48(x) => x.insert(key, node),
            Node::Node256(x) => x.insert(key, node),
            Node::Value(_) => vstd::pervasive::unreached(),
        }
    }

    /// Removes and returns the child of an inner node under `key`.
    pub fn remove(&mut self, key: u8) -> (r: Result<Node<V>, ()>)
        requires
            !(*old(self) is Value),
            repr_ok(*old(self)),
        ensures
            kind(*final(self)) == kind(*old(self)),
            header_of(*final(self)) == header_of(*old(self)),
            repr_ok(*final(self)),
            match r {
                Ok(n) => {
                    &&& slot(*old(self), key) == Some(n)
                    &&& size_of(*final(self)) + 1 == size_of(*old(self))
                    &&& slots_removed(*old(self), *final(self), key)
                },
                Err(()) => {
                    &&& slot(*old(self), key) is None
                    &&& size_of(*final(self)) == size_of(*old(self))
                    &&& same_slots(*old(self), *final(self))
                },
            },
    {
        match self {
            Node::Node4(x) => x.remove(key),
            Node::Node16(x) => x.remove(key),
            Node::Node48(x) => x.remove(key),
            Node::Node256(x) => x.remove(key),
            Node::Value(_) => vstd::pervasive::unreached(),
        }
    }
}

/// Puts `src` in place of `*dest` and returns what stood there.
pub fn replace<V>(dest: &mut Node<V>, src: Node<V>) -> (r: Node<V>)
    ensures
        r == *old(dest),
        *final(dest) == src,
{
    let mut src = src;
    std::mem::swap(dest, &mut src);
    src
}

/// A node that stands in for one that is being rebuilt: an empty `Node4`
/// with an empty path.
fn placeholder<V>() -> (n: Node<V>)
    ensures
        n is Node4,
        repr_ok(n),
        size_of(n) == 0,
        header_of(n).len == 0,
        forall|b: u8| #[trigger] slot(n, b) is None,
{
    Node::Node4(Box::new(Node4::default()))
}

impl<V> Node<V> {
    /// Turns a full inner node into one of the next bigger kind, with the
    /// same header and children; leaves any other node as it is.
    pub fn extend(&mut self)
        requires
            repr_ok(*old(self)),
        ensures
            repr_ok(*final(self)),
            header_of(*final(self)) == header_of(*old(self)),
            same_slots(*old(self), *final(self)),
            size_of(*final(self)) == size_of(*old(self)),
            if !(*old(self) is Value) && !(*old(self) is Node256) && size_of(*old(self)) == capacity(
                *old(self),
            ) {
                kind(*final(self)) == kind(*old(self)) + 1
            } else {
                *final(self) == *old(self)
            },
    {
        if self.node_type() == NodeType::Value {
            return;
        }
        if !self.is_full() {
            return;
        }
        if self.node_type() == NodeType::Node256 {
            return;
        }
        let old = replace(self, placeholder());
        let new = match old {
            Node::Node4(x) => Node::Node16(Box::new(Node16::from_node4(*x))),
            Node::Node16(x) => Node::Node48(Box::new(Node48::from_node16(*x))),
            Node::Node48(x) => Node::Node256(Box::new(Node256::from_node48(*x))),
            other => other,
        };
        *self = new;
    }

    /// Turns an inner node whose children fit in the next smaller kind into
    /// one of that kind, with the same header and children; leaves any other
    /// node as it is.
    pub fn shrink(&mut self)
        requires
            repr_ok(*old(self)),
        ensures
            repr_ok(*final(self)),
            header_of(*final(self)) == header_of(*old(self)),
            same_slots(*old(self), *final(self)),
            size_of(*final(self)) == size_of(*old(self)),
            if shrinkable(*old(self)) {
                kind(*final(self)) == kind(*old(self)) - 1
            } else {
                *final(self) == *old(self)
            },
    {
        if self.node_type() == NodeType::Value {
            return;
        }
        if !self.is_shrinkable() {
            return;
        }
        let old = replace(self, placeholder());
        let new = match old {
            Node::Node16(x) => Node::Node4(Box::new(Node4::from_node16(*x))),
            Node::Node48(x) => Node::Node16(Box::new(Node16::from_node48(*x))),
            Node::Node256(x) => Node::Node48(Box::new(Node48::from_node256(*x))),
            other => other,
        };
        *self = new;
    }
}

} // verus!
