//! The node of an AVL tree and the operations on a subtree that both
//! `AVLTree` types of this crate share: search, insertion, removal and the
//! AVL rebalancing by rotations.
use vstd::arithmetic::power2::{lemma2_to64, lemma_pow2_strictly_increases, lemma_pow2_unfold, pow2};
use vstd::prelude::*;
use vstd::set_lib::lemma_set_disjoint_lens;

verus! {

/// A node of an AVL tree. `height` caches the height of the subtree whose
/// root is this node (a leaf has height 1).
pub struct Node<K, V> {
    pub key: K,
    pub value: V,
    pub height: usize,
    pub left: Option<Box<Node<K, V>>>,
    pub right: Option<Box<Node<K, V>>>,
}

pub open spec fn nat_max(a: nat, b: nat) -> nat {
    if a >= b {
        a
    } else {
        b
    }
}

/// The height of a subtree: 0 for an empty one.
pub open spec fn height_of<K, V>(t: Option<Box<Node<K, V>>>) -> nat
    decreases t,
{
    match t {
        None => 0,
        Some(n) => 1 + nat_max(height_of(n.left), height_of(n.right)),
    }
}

/// The number of nodes of a subtree.
pub open spec fn size_of<K, V>(t: Option<Box<Node<K, V>>>) -> nat
    decreases t,
{
    match t {
        None => 0,
        Some(n) => 1 + size_of(n.left) + size_of(n.right),
    }
}

/// Whether inserting `key` into the subtree `t` makes it one level taller:
/// exactly when `t` is empty or every node on the search path for `key` is
/// balanced, so that the new leaf deepens each of them.
pub open spec fn insert_grows<V>(t: Option<Box<Node<u64, V>>>, key: u64) -> bool
    decreases t,
{
    match t {
        None => true,
        Some(n) => factor_of(*n) == 0 && insert_grows(
            if key < n.key {
                n.left
            } else {
                n.right
            },
            key,
        ),
    }
}

/// A node ends up one level lower once its left subtree has lost a level
/// and it is rebalanced: it was left-heavy, or right-heavy over a right
/// child that is not balanced.
pub open spec fn lower_after_left_loss<V>(n: Node<u64, V>) -> bool {
    factor_of(n) == 1 || (factor_of(n) == -1 && factor_of(*n.right->0) != 0)
}

/// A node ends up one level lower once its right subtree has lost a level
/// and it is rebalanced: it was right-heavy, or left-heavy over a left
/// child that is not balanced.
pub open spec fn lower_after_right_loss<V>(n: Node<u64, V>) -> bool {
    factor_of(n) == -1 || (factor_of(n) == 1 && factor_of(*n.left->0) != 0)
}

/// Whether removing the greatest key of the nonempty subtree `t` makes it
/// one level lower.
pub open spec fn max_shrinks<V>(t: Option<Box<Node<u64, V>>>) -> bool
    decreases t,
{
    match t {
        None => false,
        Some(n) => match n.right {
            None => true,
            Some(_) => max_shrinks(n.right) && lower_after_right_loss(*n),
        },
    }
}

/// Whether removing `key`, which the subtree `t` holds, makes it one level
/// lower.
pub open spec fn remove_shrinks<V>(t: Option<Box<Node<u64, V>>>, key: u64) -> bool
    decreases t,
{
    match t {
        None => false,
        Some(n) => if key < n.key {
            remove_shrinks(n.left, key) && lower_after_left_loss(*n)
        } else if key > n.key {
            remove_shrinks(n.right, key) && lower_after_right_loss(*n)
        } else if n.left is Some && n.right is Some {
            max_shrinks(n.left) && lower_after_left_loss(*n)
        } else {
            true
        },
    }
}

/// The balance factor of a node: the height of its left subtree minus that
/// of its right subtree.
pub open spec fn factor_of<K, V>(n: Node<K, V>) -> int {
    height_of(n.left) - height_of(n.right)
}

/// The key-value pairs that a subtree holds.
pub open spec fn map_of<V>(t: Option<Box<Node<u64, V>>>) -> Map<u64, V>
    decreases t,
{
    match t {
        None => Map::empty(),
        Some(n) => map_of(n.left).union_prefer_right(map_of(n.right)).insert(n.key, n.value),
    }
}

/// The search-tree order at one node: every key on the left is smaller than
/// the node's key, every key on the right is greater.
pub open spec fn ordered_at<V>(n: Node<u64, V>) -> bool {
    &&& forall|k: u64| #[trigger] map_of(n.left).dom().contains(k) ==> k < n.key
    &&& forall|k: u64| #[trigger] map_of(n.right).dom().contains(k) ==> n.key < k
}

/// A well-formed AVL subtree: ordered at every node, every cached height
/// correct, and at every node the heights of the two subtrees differ by at
/// most one.
pub open spec fn avl<V>(t: Option<Box<Node<u64, V>>>) -> bool
    decreases t,
{
    match t {
        None => true,
        Some(n) => {
            &&& ordered_at(*n)
            &&& n.height == height_of(t)
            &&& -1 <= factor_of(*n) <= 1
            &&& avl(n.left)
            &&& avl(n.right)
        },
    }
}

/// The fewest nodes that an AVL subtree of height `h` can have.
pub open spec fn min_size(h: nat) -> nat
    decreases h,
{
    if h == 0 {
        0
    } else if h == 1 {
        1
    } else {
        1 + min_size((h - 1) as nat) + min_size((h - 2) as nat)
    }
}

pub proof fn lemma_min_size_monotone(a: nat, b: nat)
    requires
        a <= b,
    ensures
        min_size(a) <= min_size(b),
    decreases b,
{
    if a < b {
        lemma_min_size_monotone(a, (b - 1) as nat);
    }
}

pub proof fn lemma_min_size_pow2(h: nat)
    ensures
        min_size(h) + 1 >= pow2(h / 2),
    decreases h,
{
    if h < 2 {
        assert(pow2(0) == 1) by {
            lemma2_to64();
        }
    } else {
        lemma_min_size_pow2((h - 2) as nat);
        lemma_min_size_monotone((h - 2) as nat, (h - 1) as nat);
        assert((h - 2) as nat / 2 + 1 == h / 2);
        lemma_pow2_unfold(h / 2);
    }
}

/// An AVL subtree holds at least `min_size` of its height nodes.
pub proof fn lemma_avl_min_size<V>(t: Option<Box<Node<u64, V>>>)
    requires
        avl(t),
    ensures
        size_of(t) >= min_size(height_of(t)),
    decreases t,
{
    if let Some(n) = t {
        lemma_avl_min_size(n.left);
        lemma_avl_min_size(n.right);
        let hl = height_of(n.left);
        let hr = height_of(n.right);
        if hl >= hr {
            if hl >= 1 {
                lemma_min_size_monotone((hl - 1) as nat, hr);
            }
        } else {
            lemma_min_size_monotone((hr - 1) as nat, hl);
        }
    }
}

/// An AVL subtree that fits in memory is at most 129 levels high.
pub proof fn lemma_avl_height_bound<V>(t: Option<Box<Node<u64, V>>>)
    requires
        avl(t),
        size_of(t) <= usize::MAX,
    ensures
        height_of(t) <= 129,
{
    lemma_avl_min_size(t);
    let h = height_of(t);
    lemma_min_size_pow2(h);
    if h > 129 {
        lemma2_to64();
        lemma_pow2_unfold(65);
        lemma_pow2_strictly_increases(64, h / 2);
        if h / 2 > 65 {
            lemma_pow2_strictly_increases(65, h / 2);
        }
        assert(false);
    }
}

/// In an ordered subtree the number of entries is the number of nodes.
pub proof fn lemma_map_len<V>(t: Option<Box<Node<u64, V>>>)
    requires
        avl(t),
    ensures
        map_of(t).dom().finite(),
        map_of(t).len() == size_of(t),
    decreases t,
{
    if let Some(n) = t {
        lemma_map_len(n.left);
        lemma_map_len(n.right);
        let dl = map_of(n.left).dom();
        let dr = map_of(n.right).dom();
        assert(dl.disjoint(dr));
        lemma_set_disjoint_lens(dl, dr);
        assert(map_of(n.left).union_prefer_right(map_of(n.right)).dom() =~= dl + dr);
        assert(!(dl + dr).contains(n.key));
    }
}


/// The height that a node has when its subtrees are as they are.
pub open spec fn node_height<K, V>(n: Node<K, V>) -> nat {
    1 + nat_max(height_of(n.left), height_of(n.right))
}

/// `r` is what a left rotation makes of `x`: the right child of `x` goes up
/// and `x` becomes its left child, taking over its former left subtree.
pub open spec fn rotated_left<K, V>(x: Node<K, V>, r: Node<K, V>) -> bool {
    &&& x.right is Some
    &&& r.key == x.right.unwrap().key
    &&& r.value == x.right.unwrap().value
    &&& r.height == x.right.unwrap().height
    &&& r.right == x.right.unwrap().right
    &&& r.left is Some
    &&& r.left.unwrap().key == x.key
    &&& r.left.unwrap().value == x.value
    &&& r.left.unwrap().height == x.height
    &&& r.left.unwrap().left == x.left
    &&& r.left.unwrap().right == x.right.unwrap().left
}

/// `r` is what a right rotation makes of `x`: the left child of `x` goes up
/// and `x` becomes its right child, taking over its former right subtree.
pub open spec fn rotated_right<K, V>(x: Node<K, V>, r: Node<K, V>) -> bool {
    &&& x.left is Some
    &&& r.key == x.left.unwrap().key
    &&& r.value == x.left.unwrap().value
    &&& r.height == x.left.unwrap().height
    &&& r.left == x.left.unwrap().left
    &&& r.right is Some
    &&& r.right.unwrap().key == x.key
    &&& r.right.unwrap().value == x.value
    &&& r.right.unwrap().height == x.height
    &&& r.right.unwrap().right == x.right
    &&& r.right.unwrap().left == x.left.unwrap().right
}

/// A left rotation keeps the entries, the number of nodes and the order.
pub proof fn lemma_rotate_left<V>(x: Node<u64, V>, r: Node<u64, V>)
    requires
        rotated_left(x, r),
        ordered_at(x),
        ordered_at(*x.right.unwrap()),
    ensures
        map_of(Some(Box::new(r))) == map_of(Some(Box::new(x))),
        size_of(Some(Box::new(r))) == size_of(Some(Box::new(x))),
        ordered_at(r),
        ordered_at(*r.left.unwrap()),
{
    let y = *x.right.unwrap();
    let l = *r.left.unwrap();
    assert(map_of(x.right) == map_of(y.left).union_prefer_right(map_of(y.right)).insert(y.key, y.value));
    assert(map_of(r.left) == map_of(x.left).union_prefer_right(map_of(y.left)).insert(x.key, x.value));
    assert forall|k: u64| #[trigger] map_of(r.left).dom().contains(k) implies k < r.key by {
        if k != x.key && !map_of(x.left).dom().contains(k) {
            assert(map_of(y.left).dom().contains(k));
        }
        assert(map_of(x.right).dom().contains(y.key));
    }
    assert forall|k: u64| #[trigger] map_of(l.right).dom().contains(k) implies l.key < k by {
        assert(map_of(x.right).dom().contains(k));
    }
    assert(map_of(x.right).dom().contains(y.key));
    assert(map_of(y.left).dom().contains(x.key) ==> map_of(x.right).dom().contains(x.key));
    assert(map_of(y.right).dom().contains(x.key) ==> map_of(x.right).dom().contains(x.key));
    assert(!map_of(x.left).dom().contains(y.key));
    assert(!map_of(y.left).dom().contains(x.key));
    assert(!map_of(y.right).dom().contains(x.key));
    assert(map_of(Some(Box::new(r))) =~= map_of(Some(Box::new(x))));
    assert(size_of(x.right) == 1 + size_of(y.left) + size_of(y.right));
    assert(size_of(r.left) == 1 + size_of(x.left) + size_of(y.left));
}

/// A right rotation keeps the entries, the number of nodes and the order.
pub proof fn lemma_rotate_right<V>(x: Node<u64, V>, r: Node<u64, V>)
    requires
        rotated_right(x, r),
        ordered_at(x),
        ordered_at(*x.left.unwrap()),
    ensures
        map_of(Some(Box::new(r))) == map_of(Some(Box::new(x))),
        size_of(Some(Box::new(r))) == size_of(Some(Box::new(x))),
        ordered_at(r),
        ordered_at(*r.right.unwrap()),
{
    let y = *x.left.unwrap();
    let q = *r.right.unwrap();
    assert(map_of(x.left) == map_of(y.left).union_prefer_right(map_of(y.right)).insert(y.key, y.value));
    assert(map_of(r.right) == map_of(y.right).union_prefer_right(map_of(x.right)).insert(x.key, x.value));
    assert forall|k: u64| #[trigger] map_of(r.right).dom().contains(k) implies r.key < k by {
        if k != x.key && !map_of(x.right).dom().contains(k) {
            assert(map_of(y.right).dom().contains(k));
        }
        assert(map_of(x.left).dom().contains(y.key));
    }
    assert forall|k: u64| #[trigger] map_of(q.left).dom().contains(k) implies k < q.key by {
        assert(map_of(x.left).dom().contains(k));
    }
    assert(map_of(x.left).dom().contains(y.key));
    assert(map_of(y.left).dom().contains(x.key) ==> map_of(x.left).dom().contains(x.key));
    assert(map_of(y.right).dom().contains(x.key) ==> map_of(x.left).dom().contains(x.key));
    assert(!map_of(x.right).dom().contains(y.key));
    assert(!map_of(y.left).dom().contains(x.key));
    assert(!map_of(y.right).dom().contains(x.key));
    assert(map_of(Some(Box::new(r))) =~= map_of(Some(Box::new(x))));
    assert(size_of(x.left) == 1 + size_of(y.left) + size_of(y.right));
    assert(size_of(r.right) == 1 + size_of(y.right) + size_of(x.right));
}


/// What `rebalance` may be handed: a node ordered at itself, whose subtrees
/// A node over `left` and `right` with its height cached right.
pub open spec fn mk<V>(key: u64, value: V, left: Option<Box<Node<u64, V>>>, right: Option<Box<Node<u64, V>>>) -> Box<
    Node<u64, V>,
> {
    Box::new(
        Node { key, value, height: (1 + nat_max(height_of(left), height_of(right))) as usize, left, right },
    )
}

/// A left rotation of the node `(key, value, left, right)`.
pub open spec fn rot_l<V>(key: u64, value: V, left: Option<Box<Node<u64, V>>>, right: Option<Box<Node<u64, V>>>) -> Box<
    Node<u64, V>,
> {
    let z = right->0;
    mk(z.key, z.value, Some(mk(key, value, left, z.left)), z.right)
}

/// A right rotation of the node `(key, value, left, right)`.
pub open spec fn rot_r<V>(key: u64, value: V, left: Option<Box<Node<u64, V>>>, right: Option<Box<Node<u64, V>>>) -> Box<
    Node<u64, V>,
> {
    let z = left->0;
    mk(z.key, z.value, z.left, Some(mk(key, value, z.right, right)))
}

/// The node `(key, value, left, right)` rebalanced: a single or double
/// rotation where its subtrees differ in height by two, its height renewed
/// otherwise.
pub open spec fn balance<V>(key: u64, value: V, left: Option<Box<Node<u64, V>>>, right: Option<Box<Node<u64, V>>>) -> Box<
    Node<u64, V>,
> {
    let f = height_of(left) - height_of(right);
    if f == -2 {
        let y = right->0;
        if factor_of(*y) > 0 {
            rot_l(key, value, left, Some(rot_r(y.key, y.value, y.left, y.right)))
        } else {
            rot_l(key, value, left, right)
        }
    } else if f == 2 {
        let y = left->0;
        if factor_of(*y) < 0 {
            rot_r(key, value, Some(rot_l(y.key, y.value, y.left, y.right)), right)
        } else {
            rot_r(key, value, left, right)
        }
    } else {
        mk(key, value, left, right)
    }
}

/// The subtree `t` after inserting `key` with `value`.
pub open spec fn ins<V>(t: Option<Box<Node<u64, V>>>, key: u64, value: V) -> Box<Node<u64, V>>
    decreases t,
{
    match t {
        None => mk(key, value, None, None),
        Some(n) => if key < n.key {
            balance(n.key, n.value, Some(ins(n.left, key, value)), n.right)
        } else {
            balance(n.key, n.value, n.left, Some(ins(n.right, key, value)))
        },
    }
}

/// The nonempty subtree `n` after removing its greatest key, with that key
/// and its value.
pub open spec fn rmax<V>(n: Box<Node<u64, V>>) -> (Option<Box<Node<u64, V>>>, u64, V)
    decreases n,
{
    match n.right {
        None => (n.left, n.key, n.value),
        Some(r) => {
            let (rest, k, v) = rmax(r);
            (Some(balance(n.key, n.value, n.left, rest)), k, v)
        },
    }
}

/// The nonempty subtree `n` after removing `key`, with the removed value.
pub open spec fn rkey<V>(n: Box<Node<u64, V>>, key: u64) -> (Option<Box<Node<u64, V>>>, V)
    decreases n,
{
    if key < n.key && n.left is Some {
        let (rest, v) = rkey(n.left->0, key);
        (Some(balance(n.key, n.value, rest, n.right)), v)
    } else if key > n.key && n.right is Some {
        let (rest, v) = rkey(n.right->0, key);
        (Some(balance(n.key, n.value, n.left, rest)), v)
    } else if n.left is Some && n.right is Some {
        let (rest, k, v) = rmax(n.left->0);
        (Some(balance(k, v, rest, n.right)), n.value)
    } else if n.left is Some {
        (n.left, n.value)
    } else {
        (n.right, n.value)
    }
}

/// are AVL subtrees that fit in memory and differ in height by at most two.
pub open spec fn rebalanceable<V>(n: Node<u64, V>) -> bool {
    &&& ordered_at(n)
    &&& avl(n.left)
    &&& avl(n.right)
    &&& size_of(n.left) + size_of(n.right) < usize::MAX
    &&& -2 <= factor_of(n) <= 2
}

impl<V> Node<u64, V> {
    /// A leaf holding `key` and `value`.
    pub fn new(key: u64, value: V) -> (node: Self)
        ensures
            node.key == key,
            node.value == value,
            node.height == 1,
            node.left is None,
            node.right is None,
    {
        Node { key, value, height: 1, left: None, right: None }
    }

    /// The cached height of a subtree, 0 when it is empty.
    fn link_height(link: &Option<Box<Node<u64, V>>>) -> (h: usize)
        requires
            avl(*link),
        ensures
            h == height_of(*link),
    {
        match link {
            Some(node) => node.height,
            None => 0,
        }
    }

    /// Sets the cached height from those of the two subtrees.
    pub fn renew_height(&mut self)
        requires
            avl(old(self).left),
            avl(old(self).right),
            size_of(old(self).left) <= usize::MAX,
            size_of(old(self).right) <= usize::MAX,
        ensures
            final(self).height == node_height(*old(self)),
            final(self).key == old(self).key,
            final(self).value == old(self).value,
            final(self).left == old(self).left,
            final(self).right == old(self).right,
    {
        proof {
            lemma_avl_height_bound(self.left);
            lemma_avl_height_bound(self.right);
        }
        let left_height = Self::link_height(&self.left);
        let right_height = Self::link_height(&self.right);
        self.height = if left_height >= right_height { left_height } else { right_height } + 1;
    }

    /// The balance factor: the height of the left subtree minus that of
    /// the right one.
    pub fn get_factor(&self) -> (factor: isize)
        requires
            avl(self.left),
            avl(self.right),
            size_of(self.left) <= usize::MAX,
            size_of(self.right) <= usize::MAX,
        ensures
            factor == factor_of(*self),
    {
        proof {
            lemma_avl_height_bound(self.left);
            lemma_avl_height_bound(self.right);
        }
        let left_height = Self::link_height(&self.left);
        let right_height = Self::link_height(&self.right);
        if left_height > right_height {
            (left_height - right_height) as isize
        } else {
            -((right_height - left_height) as isize)
        }
    }

    /// Left rotation: the right child becomes the parent of `node`, which
    /// takes over the child's former left subtree. Cached heights are left
    /// as they were.
    pub fn rotate_left(mut node: Box<Node<u64, V>>) -> (new_parent: Box<Node<u64, V>>)
        requires
            node.right is Some,
        ensures
            rotated_left(*node, *new_parent),
    {
        let mut new_parent = node.right.take().unwrap();
        node.right = new_parent.left.take();
        new_parent.left = Some(node);
        new_parent
    }

    /// Right rotation: the left child becomes the parent of `node`, which
    /// takes over the child's former right subtree. Cached heights are left
    /// as they were.
    pub fn rotate_right(mut node: Box<Node<u64, V>>) -> (new_parent: Box<Node<u64, V>>)
        requires
            node.left is Some,
        ensures
            rotated_right(*node, *new_parent),
    {
        let mut new_parent = node.left.take().unwrap();
        node.left = new_parent.right.take();
        new_parent.right = Some(node);
        new_parent
    }

    /// Rotation for a right-heavy node (factor -2): a left rotation,
    /// preceded by a right rotation of the right child when that child is
    /// left-heavy. Only the cached height of the node that the inner
    /// rotation moved down is renewed here.
    fn parent_rotate_left(mut node: Box<Node<u64, V>>) -> (r: Box<Node<u64, V>>)
        requires
            rebalanceable(*node),
            factor_of(*node) == -2,
        ensures
            r.left is Some,
            ordered_at(*r),
            ordered_at(*r.left.unwrap()),
            avl(r.right),
            avl(r.left.unwrap().left),
            avl(r.left.unwrap().right),
            map_of(Some(r)) == map_of(Some(node)),
            size_of(Some(r)) == size_of(Some(node)),
            height_of(r.right) == height_of(node.right) - 1,
            height_of(r.left.unwrap().left) == height_of(node.left),
            factor_of(*node.right.unwrap()) > 0 ==> height_of(node.right) - 3 <= height_of(
                r.left.unwrap().right,
            ) <= height_of(node.right) - 2,
            factor_of(*node.right.unwrap()) <= 0 ==> height_of(r.left.unwrap().right) == height_of(
                node.right,
            ) - 1 + factor_of(*node.right.unwrap()),
            r.left.unwrap().key == node.key,
            r.left.unwrap().value == node.value,
            r.left.unwrap().left == node.left,
            factor_of(*node.right.unwrap()) > 0 ==> {
                let y = node.right.unwrap();
                let z = rot_r(y.key, y.value, y.left, y.right);
                &&& r.key == z.key
                &&& r.value == z.value
                &&& r.right == z.right
                &&& r.left.unwrap().right == z.left
            },
            factor_of(*node.right.unwrap()) <= 0 ==> {
                let y = node.right.unwrap();
                &&& r.key == y.key
                &&& r.value == y.value
                &&& r.right == y.right
                &&& r.left.unwrap().right == y.left
            },
    {
        let ghost x0 = *node;
        let ghost y0 = *node.right.unwrap();
        let child_factor = node.right.as_ref().unwrap().get_factor();
        if child_factor > 0 {
            let right_child = node.right.take().unwrap();
            let mut right_child = Self::rotate_right(right_child);
            let ghost z0 = *right_child;
            proof {
                assert(avl(x0.right));
                assert(ordered_at(y0) && avl(y0.left) && avl(y0.right));
                let w = *y0.left.unwrap();
                assert(avl(y0.left));
                assert(ordered_at(w) && avl(w.left) && avl(w.right));
                lemma_rotate_right(y0, z0);
            }
            let mut moved = right_child.right.take().unwrap();
            let ghost q0 = *moved;
            assert(size_of(Some(Box::new(q0))) == 1 + size_of(q0.left) + size_of(q0.right));
            moved.renew_height();
            let ghost q1 = *moved;
            assert(map_of(Some(Box::new(q1))) == map_of(Some(Box::new(q0))));
            assert(size_of(Some(Box::new(q1))) == size_of(Some(Box::new(q0))));
            right_child.right = Some(moved);
            let ghost z1 = *right_child;
            assert(map_of(Some(Box::new(z1))) == map_of(Some(Box::new(z0))));
            assert(size_of(Some(Box::new(z1))) == size_of(Some(Box::new(z0))));
            node.right = Some(right_child);
            let ghost x1 = *node;
            assert(map_of(Some(Box::new(x1))) == map_of(Some(Box::new(x0))));
            assert(size_of(Some(Box::new(x1))) == size_of(Some(Box::new(x0))));
            assert(ordered_at(x1));
            let r = Self::rotate_left(node);
            proof {
                lemma_rotate_left(x1, *r);
            }
            r
        } else {
            let r = Self::rotate_left(node);
            proof {
                lemma_rotate_left(x0, *r);
            }
            r
        }
    }

    /// Rotation for a left-heavy node (factor 2): a right rotation,
    /// preceded by a left rotation of the left child when that child is
    /// right-heavy. Only the cached height of the node that the inner
    /// rotation moved down is renewed here.
    fn parent_rotate_right(mut node: Box<Node<u64, V>>) -> (r: Box<Node<u64, V>>)
        requires
            rebalanceable(*node),
            factor_of(*node) == 2,
        ensures
            r.right is Some,
            ordered_at(*r),
            ordered_at(*r.right.unwrap()),
            avl(r.left),
            avl(r.right.unwrap().left),
            avl(r.right.unwrap().right),
            map_of(Some(r)) == map_of(Some(node)),
            size_of(Some(r)) == size_of(Some(node)),
            height_of(r.left) == height_of(node.left) - 1,
            height_of(r.right.unwrap().right) == height_of(node.right),
            factor_of(*node.left.unwrap()) < 0 ==> height_of(node.left) - 3 <= height_of(
                r.right.unwrap().left,
            ) <= height_of(node.left) - 2,
            factor_of(*node.left.unwrap()) >= 0 ==> height_of(r.right.unwrap().left) == height_of(
                node.left,
            ) - 1 - factor_of(*node.left.unwrap()),
            r.right.unwrap().key == node.key,
            r.right.unwrap().value == node.value,
            r.right.unwrap().right == node.right,
            factor_of(*node.left.unwrap()) < 0 ==> {
                let y = node.left.unwrap();
                let z = rot_l(y.key, y.value, y.left, y.right);
                &&& r.key == z.key
                &&& r.value == z.value
                &&& r.left == z.left
                &&& r.right.unwrap().left == z.right
            },
            factor_of(*node.left.unwrap()) >= 0 ==> {
                let y = node.left.unwrap();
                &&& r.key == y.key
                &&& r.value == y.value
                &&& r.left == y.left
                &&& r.right.unwrap().left == y.right
            },
    {
        let ghost x0 = *node;
        let ghost y0 = *node.left.unwrap();
        let child_factor = node.left.as_ref().unwrap().get_factor();
        if child_factor < 0 {
            let left_child = node.left.take().unwrap();
            let mut left_child = Self::rotate_left(left_child);
            let ghost z0 = *left_child;
            proof {
                assert(avl(x0.left));
                assert(ordered_at(y0) && avl(y0.left) && avl(y0.right));
                let w = *y0.right.unwrap();
                assert(avl(y0.right));
                assert(ordered_at(w) && avl(w.left) && avl(w.right));
                lemma_rotate_left(y0, z0);
            }
            let mut moved = left_child.left.take().unwrap();
            let ghost q0 = *moved;
            assert(size_of(Some(Box::new(q0))) == 1 + size_of(q0.left) + size_of(q0.right));
            moved.renew_height();
            let ghost q1 = *moved;
            assert(map_of(Some(Box::new(q1))) == map_of(Some(Box::new(q0))));
            assert(size_of(Some(Box::new(q1))) == size_of(Some(Box::new(q0))));
            left_child.left = Some(moved);
            let ghost z1 = *left_child;
            assert(map_of(Some(Box::new(z1))) == map_of(Some(Box::new(z0))));
            assert(size_of(Some(Box::new(z1))) == size_of(Some(Box::new(z0))));
            node.left = Some(left_child);
            let ghost x1 = *node;
            assert(map_of(Some(Box::new(x1))) == map_of(Some(Box::new(x0))));
            assert(size_of(Some(Box::new(x1))) == size_of(Some(Box::new(x0))));
            assert(ordered_at(x1));
            let r = Self::rotate_right(node);
            proof {
                lemma_rotate_right(x1, *r);
            }
            r
        } else {
            let r = Self::rotate_right(node);
            proof {
                lemma_rotate_right(x0, *r);
            }
            r
        }
    }

    /// Restores the AVL balance at a node whose subtrees differ in height by
    /// at most two, rotating when they differ by two, and renews the cached
    /// heights of the nodes that moved.
    pub fn rebalance(mut node: Box<Node<u64, V>>) -> (r: Box<Node<u64, V>>)
        requires
            rebalanceable(*node),
        ensures
            avl(Some(r)),
            map_of(Some(r)) == map_of(Some(node)),
            size_of(Some(r)) == size_of(Some(node)),
            -1 <= factor_of(*node) <= 1 ==> {
                &&& height_of(Some(r)) == node_height(*node)
                &&& r.key == node.key
                &&& r.left == node.left
                &&& r.right == node.right
            },
            factor_of(*node) == 2 ==> {
                &&& height_of(node.left) <= height_of(Some(r)) <= height_of(node.left) + 1
                &&& factor_of(*node.left.unwrap()) != 0 ==> height_of(Some(r)) == height_of(node.left)
            },
            factor_of(*node) == -2 ==> {
                &&& height_of(node.right) <= height_of(Some(r)) <= height_of(node.right) + 1
                &&& factor_of(*node.right.unwrap()) != 0 ==> height_of(Some(r)) == height_of(node.right)
                &&& factor_of(*node.right.unwrap()) == 0 ==> height_of(Some(r)) == height_of(node.right) + 1
            },
            factor_of(*node) == 2 && factor_of(*node.left.unwrap()) == 0 ==> height_of(Some(r))
                == height_of(node.left) + 1,
            r == balance(node.key, node.value, node.left, node.right),
            factor_of(*node) == 2 && factor_of(*node.left.unwrap()) >= 0 ==> {
                let y = node.left.unwrap();
                &&& r.key == y.key
                &&& r.left == y.left
                &&& r.right.unwrap().key == node.key
                &&& r.right.unwrap().left == y.right
                &&& r.right.unwrap().right == node.right
            },
            factor_of(*node) == 2 && factor_of(*node.left.unwrap()) < 0 ==> {
                let y = node.left.unwrap();
                let w = y.right.unwrap();
                &&& r.key == w.key
                &&& r.left.unwrap().key == y.key
                &&& r.left.unwrap().left == y.left
                &&& r.left.unwrap().right == w.left
                &&& r.right.unwrap().key == node.key
                &&& r.right.unwrap().left == w.right
                &&& r.right.unwrap().right == node.right
            },
            factor_of(*node) == -2 && factor_of(*node.right.unwrap()) <= 0 ==> {
                let y = node.right.unwrap();
                &&& r.key == y.key
                &&& r.right == y.right
                &&& r.left.unwrap().key == node.key
                &&& r.left.unwrap().left == node.left
                &&& r.left.unwrap().right == y.left
            },
            factor_of(*node) == -2 && factor_of(*node.right.unwrap()) > 0 ==> {
                let y = node.right.unwrap();
                let w = y.left.unwrap();
                &&& r.key == w.key
                &&& r.left.unwrap().key == node.key
                &&& r.left.unwrap().left == node.left
                &&& r.left.unwrap().right == w.left
                &&& r.right.unwrap().key == y.key
                &&& r.right.unwrap().left == w.right
                &&& r.right.unwrap().right == y.right
            },
    {
        let ghost x0 = *node;
        let factor = node.get_factor();
        if factor == -2 {
            let mut new_target = Self::parent_rotate_left(node);
            let ghost t0 = *new_target;
            let mut moved = new_target.left.take().unwrap();
            let ghost l0 = *moved;
            proof {
                lemma_map_len(l0.left);
                lemma_map_len(l0.right);
                assert(size_of(Some(Box::new(t0))) == 1 + size_of(t0.left) + size_of(t0.right));
                assert(size_of(t0.left) == 1 + size_of(l0.left) + size_of(l0.right));
            }
            moved.renew_height();
            let ghost l1 = *moved;
            assert(map_of(Some(Box::new(l1))) == map_of(Some(Box::new(l0))));
            assert(size_of(Some(Box::new(l1))) == size_of(Some(Box::new(l0))));
            assert(avl(Some(Box::new(l1))));
            new_target.left = Some(moved);
            new_target.renew_height();
            let ghost t1 = *new_target;
            assert(map_of(Some(Box::new(t1))) == map_of(Some(Box::new(t0))));
            assert(size_of(Some(Box::new(t1))) == size_of(Some(Box::new(t0))));
            new_target
        } else if factor == 2 {
            let mut new_target = Self::parent_rotate_right(node);
            let ghost t0 = *new_target;
            let mut moved = new_target.right.take().unwrap();
            let ghost l0 = *moved;
            proof {
                assert(size_of(Some(Box::new(t0))) == 1 + size_of(t0.left) + size_of(t0.right));
                assert(size_of(t0.right) == 1 + size_of(l0.left) + size_of(l0.right));
            }
            moved.renew_height();
            let ghost l1 = *moved;
            assert(map_of(Some(Box::new(l1))) == map_of(Some(Box::new(l0))));
            assert(size_of(Some(Box::new(l1))) == size_of(Some(Box::new(l0))));
            assert(avl(Some(Box::new(l1))));
            new_target.right = Some(moved);
            new_target.renew_height();
            let ghost t1 = *new_target;
            assert(map_of(Some(Box::new(t1))) == map_of(Some(Box::new(t0))));
            assert(size_of(Some(Box::new(t1))) == size_of(Some(Box::new(t0))));
            new_target
        } else {
            node.renew_height();
            node
        }
    }

    /// Inserts a key that the subtree does not hold yet, as a new leaf, and
    /// rebalances every node on the way back up.
    pub fn insert_new(link: Option<Box<Node<u64, V>>>, key: u64, value: V) -> (r: Box<Node<u64, V>>)
        requires
            avl(link),
            !map_of(link).contains_key(key),
            size_of(link) < usize::MAX,
        ensures
            avl(Some(r)),
            map_of(Some(r)) == map_of(link).insert(key, value),
            size_of(Some(r)) == size_of(link) + 1,
            height_of(link) <= height_of(Some(r)) <= height_of(link) + 1,
            height_of(Some(r)) == height_of(link) + 1 ==> height_of(Some(r)) == 1 || factor_of(*r)
                != 0,
            height_of(Some(r)) == height_of(link) + if insert_grows(link, key) {
                1nat
            } else {
                0nat
            },
            r == ins(link, key, value),
        decreases size_of(link),
    {
        match link {
            None => {
                let r = Box::new(Node::new(key, value));
                assert(map_of(Some(r)) =~= map_of(link).insert(key, value));
                r
            },
            Some(mut node) => {
                let ghost x0 = *node;
                if key < node.key {
                    let left = node.left.take();
                    let new_left = Self::insert_new(left, key, value);
                    node.left = Some(new_left);
                    let ghost x1 = *node;
                    proof {
                        assert forall|k: u64| #[trigger]
                            map_of(x1.left).dom().contains(k) implies k < x1.key by {
                            if k != key {
                                assert(map_of(x0.left).dom().contains(k));
                            }
                        }
                        assert(!map_of(x0.right).dom().contains(key));
                        assert(map_of(Some(Box::new(x1))) =~= map_of(link).insert(key, value));
                    }
                    Self::rebalance(node)
                } else {
                    let right = node.right.take();
                    let new_right = Self::insert_new(right, key, value);
                    node.right = Some(new_right);
                    let ghost x1 = *node;
                    proof {
                        assert(key != x0.key);
                        assert forall|k: u64| #[trigger]
                            map_of(x1.right).dom().contains(k) implies x1.key < k by {
                            if k != key {
                                assert(map_of(x0.right).dom().contains(k));
                            }
                        }
                        assert(!map_of(x0.left).dom().contains(key));
                        assert(map_of(Some(Box::new(x1))) =~= map_of(link).insert(key, value));
                    }
                    Self::rebalance(node)
                }
            },
        }
    }

    /// Removes the node with the greatest key of a nonempty subtree and
    /// returns what remains with that key and its value, rebalancing every
    /// node on the way back up.
    pub fn remove_max(mut node: Box<Node<u64, V>>) -> (r: (Option<Box<Node<u64, V>>>, u64, V))
        requires
            avl(Some(node)),
            size_of(Some(node)) <= usize::MAX,
        ensures
            avl(r.0),
            map_of(Some(node)).contains_key(r.1),
            map_of(Some(node))[r.1] == r.2,
            forall|k: u64| #[trigger] map_of(Some(node)).contains_key(k) ==> k <= r.1,
            map_of(r.0) == map_of(Some(node)).remove(r.1),
            size_of(r.0) + 1 == size_of(Some(node)),
            height_of(Some(node)) <= height_of(r.0) + 1,
            height_of(r.0) <= height_of(Some(node)),
            height_of(r.0) + (if max_shrinks(Some(node)) {
                1nat
            } else {
                0nat
            }) == height_of(Some(node)),
            r == rmax(node),
        decreases size_of(Some(node)),
    {
        let ghost x0 = *node;
        if node.right.is_none() {
            let Node { key, value, height: _, left, right: _ } = *node;
            proof {
                assert(!map_of(x0.left).dom().contains(key));
                assert(map_of(x0.left).union_prefer_right(map_of(x0.right)) =~= map_of(x0.left));
                assert(map_of(left) =~= map_of(Some(Box::new(x0))).remove(key));
            }
            (left, key, value)
        } else {
            let right = node.right.take().unwrap();
            let (new_right, k, v) = Self::remove_max(right);
            node.right = new_right;
            let ghost x1 = *node;
            proof {
                assert(map_of(x0.right).dom().contains(k));
                assert forall|j: u64| #[trigger]
                    map_of(x1.right).dom().contains(j) implies x1.key < j by {
                    assert(map_of(x0.right).dom().contains(j));
                }
                assert(!map_of(x0.left).dom().contains(k));
                assert(map_of(Some(Box::new(x1))) =~= map_of(Some(Box::new(x0))).remove(k));
                assert forall|j: u64| #[trigger]
                    map_of(Some(Box::new(x0))).contains_key(j) implies j <= k by {
                    if j != x0.key && !map_of(x0.right).dom().contains(j) {
                        assert(map_of(x0.left).dom().contains(j));
                    }
                }
            }
            (Some(Self::rebalance(node)), k, v)
        }
    }

    /// Removes `key`, which the subtree holds, and returns what remains with
    /// the key's value. A node with two children takes over the greatest
    /// entry of its left subtree; every node on the way back up is
    /// rebalanced.
    #[verifier::spinoff_prover]
    #[verifier::rlimit(50)]
    pub fn remove_key(mut node: Box<Node<u64, V>>, key: u64) -> (r: (Option<Box<Node<u64, V>>>, V))
        requires
            avl(Some(node)),
            map_of(Some(node)).contains_key(key),
            size_of(Some(node)) <= usize::MAX,
        ensures
            avl(r.0),
            r.1 == map_of(Some(node))[key],
            map_of(r.0) == map_of(Some(node)).remove(key),
            size_of(r.0) + 1 == size_of(Some(node)),
            height_of(Some(node)) <= height_of(r.0) + 1,
            height_of(r.0) <= height_of(Some(node)),
            height_of(r.0) + (if remove_shrinks(Some(node), key) {
                1nat
            } else {
                0nat
            }) == height_of(Some(node)),
            r == rkey(node, key),
        decreases size_of(Some(node)),
    {
        let ghost x0 = *node;
        if key < node.key {
            proof {
                assert(!map_of(x0.right).dom().contains(key));
                assert(map_of(x0.left).dom().contains(key));
            }
            let left = node.left.take().unwrap();
            let (new_left, v) = Self::remove_key(left, key);
            node.left = new_left;
            let ghost x1 = *node;
            proof {
                assert forall|j: u64| #[trigger]
                    map_of(x1.left).dom().contains(j) implies j < x1.key by {
                    assert(map_of(x0.left).dom().contains(j));
                }
                assert(map_of(Some(Box::new(x1))) =~= map_of(Some(Box::new(x0))).remove(key));
            }
            (Some(Self::rebalance(node)), v)
        } else if key > node.key {
            proof {
                assert(!map_of(x0.left).dom().contains(key));
                assert(map_of(x0.right).dom().contains(key));
            }
            let right = node.right.take().unwrap();
            let (new_right, v) = Self::remove_key(right, key);
            node.right = new_right;
            let ghost x1 = *node;
            proof {
                assert forall|j: u64| #[trigger]
                    map_of(x1.right).dom().contains(j) implies x1.key < j by {
                    assert(map_of(x0.right).dom().contains(j));
                }
                assert(map_of(Some(Box::new(x1))) =~= map_of(Some(Box::new(x0))).remove(key));
            }
            (Some(Self::rebalance(node)), v)
        } else if node.left.is_some() && node.right.is_some() {
            let Node { key: _, value, height, left, right } = *node;
            let (new_left, k, v) = Self::remove_max(left.unwrap());
            let swapped = Box::new(Node { key: k, value: v, height, left: new_left, right });
            let ghost x1 = *swapped;
            proof {
                assert(map_of(x0.left).dom().contains(k));
                assert(!map_of(x0.right).dom().contains(k));
                assert forall|j: u64| #[trigger]
                    map_of(x1.left).dom().contains(j) implies j < x1.key by {
                    assert(map_of(x0.left).dom().contains(j));
                    assert(j != k);
                }
                assert forall|j: u64| #[trigger]
                    map_of(x1.right).dom().contains(j) implies x1.key < j by {
                    assert(k < x0.key);
                }
                assert(map_of(Some(Box::new(x1))) =~= map_of(Some(Box::new(x0))).remove(key));
            }
            (Some(Self::rebalance(swapped)), value)
        } else {
            let Node { key: _, value, height: _, left, right } = *node;
            let rest = if left.is_some() {
                left
            } else {
                right
            };
            proof {
                assert(key == x0.key);
                assert(!map_of(x0.left).dom().contains(key));
                assert(!map_of(x0.right).dom().contains(key));
                if x0.left is Some {
                    assert(map_of(x0.left).union_prefer_right(map_of(x0.right)) =~= map_of(x0.left));
                } else {
                    assert(map_of(x0.left).union_prefer_right(map_of(x0.right)) =~= map_of(x0.right));
                }
                assert(map_of(rest) =~= map_of(Some(Box::new(x0))).remove(key));
            }
            (rest, value)
        }
    }

    /// The value stored under `key` in the subtree, if any.
    pub fn get(link: &Option<Box<Node<u64, V>>>, key: u64) -> (r: Option<&V>)
        requires
            avl(*link),
        ensures
            r == (if map_of(*link).contains_key(key) {
                Some(&map_of(*link)[key])
            } else {
                None
            }),
        decreases size_of(*link),
    {
        match link {
            None => None,
            Some(node) => {
                if key == node.key {
                    Some(&node.value)
                } else if key < node.key {
                    proof {
                        assert(!map_of(node.right).dom().contains(key));
                    }
                    Self::get(&node.left, key)
                } else {
                    proof {
                        assert(!map_of(node.left).dom().contains(key));
                    }
                    Self::get(&node.right, key)
                }
            },
        }
    }
}

} // verus!
