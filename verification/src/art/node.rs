//! The nodes of the adaptive radix tree: leaves, and inner nodes of four
//! sizes that map a key byte to a child.
use vstd::prelude::*;

verus! {

/// How many bytes of its compressed path an inner node stores.
pub const PREFIX_LEN: usize = 12;

/// The byte that ends every encoded key (it never occurs in UTF-8), so that
/// no key is the prefix of another.
pub const KEY_ENDMARK: u8 = 0xff;

/// Marks a byte without a child in a `Node48`.
pub const EMPTY_INDEX: u8 = 0xff;

/// The compressed path of an inner node: its length, and its first
/// `PREFIX_LEN` bytes at most. `full` is the whole path, for the proofs.
pub struct NodeHeader {
    pub len: u32,
    pub prefix: Vec<u8>,
    pub full: Ghost<Seq<u8>>,
}

/// The stored bytes of a path of `len` bytes.
pub open spec fn stored_len(len: nat) -> nat {
    if len < PREFIX_LEN {
        len
    } else {
        PREFIX_LEN as nat
    }
}

/// The header stores the first bytes of its whole path.
pub open spec fn header_ok(h: NodeHeader) -> bool {
    &&& h.full@.len() == h.len
    &&& h.prefix@ == h.full@.take(stored_len(h.len as nat) as int)
}

/// A leaf: a whole encoded key and its value.
pub struct NodeV<V> {
    pub key: Vec<u8>,
    pub value: V,
}

impl<V> NodeV<V> {
    pub fn new(key: Vec<u8>, value: V) -> (node: Self)
        ensures
            node.key@ == key@,
            node.value == value,
    {
        NodeV { key, value }
    }
}

/// An inner node with up to 4 children, kept in the order of their bytes.
pub struct Node4<V> {
    pub header: NodeHeader,
    pub keys: Vec<u8>,
    pub children: Vec<Node<V>>,
}

/// An inner node with up to 16 children, kept in the order of their bytes.
pub struct Node16<V> {
    pub header: NodeHeader,
    pub keys: Vec<u8>,
    pub children: Vec<Node<V>>,
}

/// An inner node with up to 48 children: `keys[b]` is the slot of the child
/// for byte `b`, or `EMPTY_INDEX`.
pub struct Node48<V> {
    pub header: NodeHeader,
    pub len: usize,
    pub keys: Vec<u8>,
    pub children: Vec<Option<Node<V>>>,
}

/// An inner node with a slot for each of the 256 bytes.
pub struct Node256<V> {
    pub header: NodeHeader,
    pub len: usize,
    pub children: Vec<Option<Node<V>>>,
}

/// A leaf or an inner node of one of the four sizes.
pub enum Node<V> {
    Value(Box<NodeV<V>>),
    Node4(Box<Node4<V>>),
    Node16(Box<Node16<V>>),
    Node48(Box<Node48<V>>),
    Node256(Box<Node256<V>>),
}

/// The kind of a node.
#[derive(PartialEq, Eq, Structural)]
pub enum NodeType {
    Value,
    Node4,
    Node16,
    Node48,
    Node256,
}

/// The position of byte `b` among `keys`, or -1.
pub open spec fn pos(keys: Seq<u8>, b: u8) -> int {
    if exists|i: int| 0 <= i < keys.len() && keys[i] == b {
        choose|i: int| 0 <= i < keys.len() && keys[i] == b
    } else {
        -1
    }
}

/// Strictly increasing bytes.
pub open spec fn increasing(keys: Seq<u8>) -> bool {
    forall|i: int, j: int| 0 <= i < j < keys.len() ==> keys[i] < keys[j]
}

/// A node with sorted keys and one child per key, at most `cap` of them.
pub open spec fn sorted_ok<V>(keys: Seq<u8>, children: Seq<Node<V>>, cap: nat) -> bool {
    &&& keys.len() == children.len()
    &&& keys.len() <= cap
    &&& increasing(keys)
}

/// The child for byte `b` of a node with sorted keys.
pub open spec fn sorted_slot<V>(keys: Seq<u8>, children: Seq<Node<V>>, b: u8) -> Option<Node<V>> {
    let i = pos(keys, b);
    if 0 <= i < children.len() {
        Some(children[i])
    } else {
        None
    }
}

/// How many items of `s` satisfy `f`.
pub open spec fn count<A>(s: Seq<A>, f: spec_fn(A) -> bool) -> nat
    decreases s.len(),
{
    if s.len() == 0 {
        0
    } else {
        count(s.drop_last(), f) + if f(s.last()) {
            1nat
        } else {
            0nat
        }
    }
}

/// A slot that holds a child.
pub open spec fn present<V>() -> spec_fn(Option<Node<V>>) -> bool {
    |o: Option<Node<V>>| o is Some
}

/// A byte of a `Node48` that has a slot.
pub open spec fn used() -> spec_fn(u8) -> bool {
    |k: u8| k != EMPTY_INDEX
}

/// The number of present children.
pub open spec fn count_some<V>(s: Seq<Option<Node<V>>>) -> nat {
    count(s, present())
}

/// The number of bytes that have a slot in a `Node48`.
pub open spec fn count_used(keys: Seq<u8>) -> nat {
    count(keys, used())
}

/// The shape of a `Node48`: every used byte has its own present slot, every
/// present slot belongs to a byte, and `len` counts both.
pub open spec fn node48_ok<V>(keys: Seq<u8>, children: Seq<Option<Node<V>>>, len: nat) -> bool {
    &&& keys.len() == 256
    &&& children.len() == 48
    &&& forall|b: int|
        0 <= b < 256 && #[trigger] keys[b] != EMPTY_INDEX ==> keys[b] < 48 && children[keys[b] as int] is Some
    &&& forall|b1: int, b2: int|
        0 <= b1 < 256 && 0 <= b2 < 256 && b1 != b2 && #[trigger] keys[b1] != EMPTY_INDEX ==> keys[b1]
            != #[trigger] keys[b2]
    &&& forall|s: int| 0 <= s < 48 && #[trigger] children[s] is Some ==> exists|b: int| 0 <= b < 256 && keys[b] == s
    &&& count_used(keys) == len
    &&& count_some(children) == len
}

/// The child for byte `b` of a `Node48`.
pub open spec fn slot48<V>(keys: Seq<u8>, children: Seq<Option<Node<V>>>, b: u8) -> Option<Node<V>> {
    let s = keys[b as int];
    if s != EMPTY_INDEX && (s as int) < children.len() {
        children[s as int]
    } else {
        None
    }
}

/// The shape of a `Node256`.
pub open spec fn node256_ok<V>(children: Seq<Option<Node<V>>>, len: nat) -> bool {
    &&& children.len() == 256
    &&& count_some(children) == len
}

/// The child for byte `b` of a `Node256`.
pub open spec fn slot256<V>(children: Seq<Option<Node<V>>>, b: u8) -> Option<Node<V>> {
    if (b as int) < children.len() {
        children[b as int]
    } else {
        None
    }
}

/// The child of an inner node for byte `b`.
pub open spec fn slot<V>(n: Node<V>, b: u8) -> Option<Node<V>> {
    match n {
        Node::Value(_) => None,
        Node::Node4(x) => x.slot(b),
        Node::Node16(x) => x.slot(b),
        Node::Node48(x) => x.slot(b),
        Node::Node256(x) => x.slot(b),
    }
}

impl<V> Node4<V> {
    /// The child for byte `b`.
    pub open spec fn slot(&self, b: u8) -> Option<Node<V>> {
        sorted_slot(self.keys@, self.children@, b)
    }

    /// The node is in shape.
    pub open spec fn ok(&self) -> bool {
        header_ok(self.header) && sorted_ok(self.keys@, self.children@, 4)
    }
}

impl<V> Node16<V> {
    /// The child for byte `b`.
    pub open spec fn slot(&self, b: u8) -> Option<Node<V>> {
        sorted_slot(self.keys@, self.children@, b)
    }

    /// The node is in shape.
    pub open spec fn ok(&self) -> bool {
        header_ok(self.header) && sorted_ok(self.keys@, self.children@, 16)
    }
}

impl<V> Node48<V> {
    /// The child for byte `b`.
    pub open spec fn slot(&self, b: u8) -> Option<Node<V>> {
        slot48(self.keys@, self.children@, b)
    }

    /// The node is in shape.
    pub open spec fn ok(&self) -> bool {
        header_ok(self.header) && node48_ok(self.keys@, self.children@, self.len as nat)
    }
}

impl<V> Node256<V> {
    /// The child for byte `b`.
    pub open spec fn slot(&self, b: u8) -> Option<Node<V>> {
        slot256(self.children@, b)
    }

    /// The node is in shape.
    pub open spec fn ok(&self) -> bool {
        header_ok(self.header) && node256_ok(self.children@, self.len as nat)
    }
}

/// The header of an inner node.
pub open spec fn header_of<V>(n: Node<V>) -> NodeHeader {
    match n {
        Node::Value(_) => arbitrary(),
        Node::Node4(x) => x.header,
        Node::Node16(x) => x.header,
        Node::Node48(x) => x.header,
        Node::Node256(x) => x.header,
    }
}

/// The number of children of an inner node.
pub open spec fn size_of<V>(n: Node<V>) -> nat {
    match n {
        Node::Value(_) => 0,
        Node::Node4(x) => x.keys@.len(),
        Node::Node16(x) => x.keys@.len(),
        Node::Node48(x) => x.len as nat,
        Node::Node256(x) => x.len as nat,
    }
}

/// The representation of an inner node is in shape for its kind.
pub open spec fn repr_ok<V>(n: Node<V>) -> bool {
    match n {
        Node::Value(_) => true,
        Node::Node4(x) => x.ok(),
        Node::Node16(x) => x.ok(),
        Node::Node48(x) => x.ok(),
        Node::Node256(x) => x.ok(),
    }
}

/// The capacity of an inner node of this kind.
pub open spec fn capacity<V>(n: Node<V>) -> nat {
    match n {
        Node::Value(_) => 0,
        Node::Node4(_) => 4,
        Node::Node16(_) => 16,
        Node::Node48(_) => 48,
        Node::Node256(_) => 256,
    }
}


/// A whole encoded key: it ends with `KEY_ENDMARK` and holds it nowhere else.
pub open spec fn terminated(k: Seq<u8>) -> bool {
    &&& k.len() > 0
    &&& k.last() == KEY_ENDMARK
    &&& forall|i: int| 0 <= i < k.len() - 1 ==> k[i] != KEY_ENDMARK
}

/// An inner node below the root holds enough children for its kind; a leaf
/// always does.
pub open spec fn big<V>(n: Node<V>) -> bool {
    match n {
        Node::Value(_) => true,
        Node::Node4(x) => x.keys@.len() >= 2,
        Node::Node16(x) => x.keys@.len() >= 4,
        Node::Node48(x) => x.len >= 16,
        Node::Node256(x) => x.len >= 48,
    }
}

/// The path below an inner node to its child for byte `b`, when the node
/// itself stands at path `p`.
pub open spec fn child_path<V>(n: Node<V>, p: Seq<u8>, b: u8) -> Seq<u8> {
    p + header_of(n).full@ + seq![b]
}

/// The subtree `n` standing at path `p` is well formed: each leaf holds a
/// whole key that starts with the path to it, and each inner node is in
/// shape, with children that are big enough and well formed in their turn.
pub open spec fn wf<V>(n: Node<V>, p: Seq<u8>) -> bool
    decreases n,
{
    match n {
        Node::Value(l) => {
            &&& p.len() <= l.key@.len()
            &&& l.key@.take(p.len() as int) == p
            &&& terminated(l.key@)
            &&& l.key@.len() <= u32::MAX
        },
        _ => {
            &&& repr_ok(n)
            &&& forall|b: u8| #[trigger] slot(n, b) is Some ==> {
                &&& big(slot(n, b)->0)
                &&& wf(slot(n, b)->0, child_path(n, p, b))
            }
        },
    }
}

/// What a search for the key `k` finds in the subtree `n`, having read `d`
/// bytes of `k` to reach it: each inner node skips its compressed path and
/// routes by the next byte; a leaf answers if it holds exactly `k`.
pub open spec fn get<V>(n: Node<V>, k: Seq<u8>, d: int) -> Option<V>
    decreases n,
{
    match n {
        Node::Value(l) => if l.key@ == k {
            Some(l.value)
        } else {
            None
        },
        _ => {
            let d2 = d + header_of(n).len;
            if 0 <= d2 < k.len() {
                match slot(n, k[d2]) {
                    Some(c) => get(c, k, d2 + 1),
                    None => None,
                }
            } else {
                None
            }
        },
    }
}

pub proof fn lemma_pos(keys: Seq<u8>, i: int)
    requires
        increasing(keys),
        0 <= i < keys.len(),
    ensures
        pos(keys, keys[i]) == i,
{
    let j = pos(keys, keys[i]);
    if j < i {
        assert(keys[j] < keys[i]);
    } else if j > i {
        assert(keys[i] < keys[j]);
    }
}

pub proof fn lemma_pos_absent(keys: Seq<u8>, b: u8)
    requires
        forall|i: int| 0 <= i < keys.len() ==> keys[i] != b,
    ensures
        pos(keys, b) == -1,
{
}

/// Of two whole keys, one that starts the other is the other.
pub proof fn lemma_terminated_prefix(a: Seq<u8>, b: Seq<u8>)
    requires
        terminated(a),
        terminated(b),
        a.len() <= b.len(),
        b.take(a.len() as int) == a,
    ensures
        a == b,
{
    if a.len() < b.len() {
        assert(b[a.len() - 1] == a.last());
    }
    assert(a =~= b);
}

/// A key that a search finds in a well-formed subtree is a whole key that
/// starts with the path to the subtree and, below an inner node, with its
/// compressed path too.
pub proof fn lemma_get_in<V>(n: Node<V>, p: Seq<u8>, k: Seq<u8>)
    requires
        wf(n, p),
        get(n, k, p.len() as int) is Some,
    ensures
        p.len() <= k.len(),
        k.take(p.len() as int) == p,
        terminated(k),
        k.len() <= u32::MAX,
        !(n is Value) ==> p.len() + header_of(n).len < k.len() && k.take(p.len() + header_of(n).len)
            == p + header_of(n).full@,
    decreases n,
{
    match n {
        Node::Value(l) => {
            assert(l.key@ == k);
        },
        _ => {
            let d2 = p.len() + header_of(n).len;
            let b = k[d2];
            let c = slot(n, b)->0;
            let cp = child_path(n, p, b);
            lemma_get_in(c, cp, k);
            assert(k.take(p.len() as int) =~= cp.take(p.len() as int));
            assert(k.take(d2) =~= cp.take(d2));
            assert(cp.take(d2) =~= p + header_of(n).full@);
            assert(cp.take(p.len() as int) =~= p);
        },
    }
}

/// A big enough well-formed subtree holds a key.
pub proof fn lemma_some_leaf<V>(n: Node<V>, p: Seq<u8>) -> (k: Seq<u8>)
    requires
        wf(n, p),
        big(n),
    ensures
        get(n, k, p.len() as int) is Some,
    decreases n,
{
    match n {
        Node::Value(l) => l.key@,
        _ => {
            let b: u8 = match n {
                Node::Node4(x) => {
                    lemma_pos(x.keys@, 0);
                    x.keys@[0]
                },
                Node::Node16(x) => {
                    lemma_pos(x.keys@, 0);
                    x.keys@[0]
                },
                Node::Node48(x) => {
                    let i = super::count::lemma_count_some_item(x.keys@, used());
                    i as u8
                },
                Node::Node256(x) => {
                    let i = super::count::lemma_count_some_item(x.children@, present());
                    i as u8
                },
                _ => 0,
            };
            assert(slot(n, b) is Some);
            let c = slot(n, b)->0;
            let cp = child_path(n, p, b);
            let k = lemma_some_leaf(c, cp);
            lemma_get_in(c, cp, k);
            assert(k[p.len() + header_of(n).len] == cp[p.len() + header_of(n).len]);
            k
        },
    }
}

} // verus!
