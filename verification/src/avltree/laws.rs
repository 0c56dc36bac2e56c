//! What rebalancing, insertion and removal do to an AVL subtree, stated
//! over the subtrees they are given: which rotation a node gets, and which
//! entry a removal moves up.
use vstd::prelude::*;
use super::node::{Node, balance, factor_of, height_of, nat_max, map_of, rmax, rkey, ins, mk, rot_l, rot_r, ordered_at};

verus! {

/// A node whose subtrees differ in height by at most one is only given its
/// height anew: its key, value and subtrees stay.
pub proof fn law_balanced_node_stays<V>(
    key: u64,
    value: V,
    left: Option<Box<Node<u64, V>>>,
    right: Option<Box<Node<u64, V>>>,
)
    requires
        -1 <= height_of(left) - height_of(right) <= 1,
        nat_max(height_of(left), height_of(right)) < usize::MAX,
    ensures
        balance(key, value, left, right).key == key,
        balance(key, value, left, right).value == value,
        balance(key, value, left, right).left == left,
        balance(key, value, left, right).right == right,
        balance(key, value, left, right).height == 1 + nat_max(height_of(left), height_of(right)),
{
}

/// A node whose left subtree is two levels taller, over a left child that
/// is not right-heavy, gets a single right rotation: the left child goes up,
/// keeping its left subtree, and the node goes down to its right, over the
/// child's former right subtree and its own right subtree.
pub proof fn law_left_heavy_single_rotation<V>(
    key: u64,
    value: V,
    left: Option<Box<Node<u64, V>>>,
    right: Option<Box<Node<u64, V>>>,
)
    requires
        height_of(left) == height_of(right) + 2,
        factor_of(*left->0) >= 0,
    ensures
        ({
            let y = left->0;
            let b = balance(key, value, left, right);
            &&& b.key == y.key
            &&& b.value == y.value
            &&& b.left == y.left
            &&& b.right is Some
            &&& b.right->0.key == key
            &&& b.right->0.value == value
            &&& b.right->0.left == y.right
            &&& b.right->0.right == right
        }),
{
}

/// A node whose left subtree is two levels taller, over a right-heavy left
/// child, gets a double rotation: the left child's right child goes up, the
/// left child stays to its left over its own left subtree and the riser's
/// left subtree, and the node goes to its right over the riser's right
/// subtree and its own right subtree.
pub proof fn law_left_heavy_double_rotation<V>(
    key: u64,
    value: V,
    left: Option<Box<Node<u64, V>>>,
    right: Option<Box<Node<u64, V>>>,
)
    requires
        height_of(left) == height_of(right) + 2,
        factor_of(*left->0) < 0,
    ensures
        ({
            let y = left->0;
            let w = y.right->0;
            let b = balance(key, value, left, right);
            &&& b.key == w.key
            &&& b.value == w.value
            &&& b.left is Some
            &&& b.left->0.key == y.key
            &&& b.left->0.value == y.value
            &&& b.left->0.left == y.left
            &&& b.left->0.right == w.left
            &&& b.right is Some
            &&& b.right->0.key == key
            &&& b.right->0.value == value
            &&& b.right->0.left == w.right
            &&& b.right->0.right == right
        }),
{
}

/// A node whose right subtree is two levels taller, over a right child that
/// is not left-heavy, gets a single left rotation: the right child goes up,
/// keeping its right subtree, and the node goes down to its left, over its
/// own left subtree and the child's former left subtree.
pub proof fn law_right_heavy_single_rotation<V>(
    key: u64,
    value: V,
    left: Option<Box<Node<u64, V>>>,
    right: Option<Box<Node<u64, V>>>,
)
    requires
        height_of(right) == height_of(left) + 2,
        factor_of(*right->0) <= 0,
    ensures
        ({
            let y = right->0;
            let b = balance(key, value, left, right);
            &&& b.key == y.key
            &&& b.value == y.value
            &&& b.right == y.right
            &&& b.left is Some
            &&& b.left->0.key == key
            &&& b.left->0.value == value
            &&& b.left->0.left == left
            &&& b.left->0.right == y.left
        }),
{
}

/// A node whose right subtree is two levels taller, over a left-heavy right
/// child, gets a double rotation: the right child's left child goes up, the
/// node goes to its left over its own left subtree and the riser's left
/// subtree, and the right child stays to its right over the riser's right
/// subtree and its own right subtree.
pub proof fn law_right_heavy_double_rotation<V>(
    key: u64,
    value: V,
    left: Option<Box<Node<u64, V>>>,
    right: Option<Box<Node<u64, V>>>,
)
    requires
        height_of(right) == height_of(left) + 2,
        factor_of(*right->0) > 0,
    ensures
        ({
            let y = right->0;
            let w = y.left->0;
            let b = balance(key, value, left, right);
            &&& b.key == w.key
            &&& b.value == w.value
            &&& b.left is Some
            &&& b.left->0.key == key
            &&& b.left->0.value == value
            &&& b.left->0.left == left
            &&& b.left->0.right == w.left
            &&& b.right is Some
            &&& b.right->0.key == y.key
            &&& b.right->0.value == y.value
            &&& b.right->0.left == w.right
            &&& b.right->0.right == y.right
        }),
{
}

/// A binary search tree: ordered at every node.
pub open spec fn bst<V>(t: Option<Box<Node<u64, V>>>) -> bool
    decreases t,
{
    match t {
        None => true,
        Some(n) => ordered_at(*n) && bst(n.left) && bst(n.right),
    }
}

/// The keys of `left` lie below `key`, and those of `right` above it.
pub open spec fn separated<V>(left: Option<Box<Node<u64, V>>>, key: u64, right: Option<Box<Node<u64, V>>>) -> bool {
    &&& forall|x: u64| #[trigger] map_of(left).contains_key(x) ==> x < key
    &&& forall|x: u64| #[trigger] map_of(right).contains_key(x) ==> key < x
}

/// The entries of a node with these fields.
pub open spec fn node_entries<V>(key: u64, value: V, left: Option<Box<Node<u64, V>>>, right: Option<Box<Node<u64, V>>>) -> Map<
    u64,
    V,
> {
    map_of(left).union_prefer_right(map_of(right)).insert(key, value)
}

proof fn lemma_mk_keeps<V>(key: u64, value: V, left: Option<Box<Node<u64, V>>>, right: Option<Box<Node<u64, V>>>)
    requires
        bst(left),
        bst(right),
        separated(left, key, right),
    ensures
        bst(Some(mk(key, value, left, right))),
        map_of(Some(mk(key, value, left, right))) == node_entries(key, value, left, right),
{
}

proof fn lemma_rot_r_keeps<V>(key: u64, value: V, left: Option<Box<Node<u64, V>>>, right: Option<Box<Node<u64, V>>>)
    requires
        left is Some,
        bst(left),
        bst(right),
        separated(left, key, right),
    ensures
        bst(Some(rot_r(key, value, left, right))),
        map_of(Some(rot_r(key, value, left, right))) == node_entries(key, value, left, right),
{
    let z = left->0;
    assert(map_of(left) == node_entries(z.key, z.value, z.left, z.right));
    assert(map_of(left).contains_key(z.key));
    assert forall|x: u64| #[trigger] map_of(z.right).contains_key(x) implies x < key by {
        assert(map_of(left).contains_key(x));
    }
    assert forall|x: u64| #[trigger] map_of(z.left).contains_key(x) implies x < key by {
        assert(map_of(left).contains_key(x));
    }
    lemma_mk_keeps(key, value, z.right, right);
    let inner = Some(mk(key, value, z.right, right));
    assert forall|x: u64| #[trigger] map_of(inner).contains_key(x) implies z.key < x by {
        if x != key && !map_of(right).contains_key(x) {
            assert(map_of(z.right).contains_key(x));
        }
    }
    lemma_mk_keeps(z.key, z.value, z.left, inner);
    assert(map_of(Some(rot_r(key, value, left, right))) =~= node_entries(key, value, left, right));
}

proof fn lemma_rot_l_keeps<V>(key: u64, value: V, left: Option<Box<Node<u64, V>>>, right: Option<Box<Node<u64, V>>>)
    requires
        right is Some,
        bst(left),
        bst(right),
        separated(left, key, right),
    ensures
        bst(Some(rot_l(key, value, left, right))),
        map_of(Some(rot_l(key, value, left, right))) == node_entries(key, value, left, right),
{
    let z = right->0;
    assert(map_of(right) == node_entries(z.key, z.value, z.left, z.right));
    assert(map_of(right).contains_key(z.key));
    assert forall|x: u64| #[trigger] map_of(z.left).contains_key(x) implies key < x by {
        assert(map_of(right).contains_key(x));
    }
    assert forall|x: u64| #[trigger] map_of(z.right).contains_key(x) implies key < x by {
        assert(map_of(right).contains_key(x));
    }
    lemma_mk_keeps(key, value, left, z.left);
    let inner = Some(mk(key, value, left, z.left));
    assert forall|x: u64| #[trigger] map_of(inner).contains_key(x) implies x < z.key by {
        if x != key && !map_of(left).contains_key(x) {
            assert(map_of(z.left).contains_key(x));
        }
    }
    lemma_mk_keeps(z.key, z.value, inner, z.right);
    assert(map_of(Some(rot_l(key, value, left, right))) =~= node_entries(key, value, left, right));
}

/// Rebalancing keeps a search tree a search tree, with the same entries.
pub proof fn law_balance_keeps_entries<V>(
    key: u64,
    value: V,
    left: Option<Box<Node<u64, V>>>,
    right: Option<Box<Node<u64, V>>>,
)
    requires
        bst(left),
        bst(right),
        separated(left, key, right),
    ensures
        bst(Some(balance(key, value, left, right))),
        map_of(Some(balance(key, value, left, right))) == node_entries(key, value, left, right),
{
    let f = height_of(left) - height_of(right);
    if f == -2 {
        let y = right->0;
        if factor_of(*y) > 0 {
            assert(map_of(right) == node_entries(y.key, y.value, y.left, y.right));
            assert(separated(y.left, y.key, y.right));
            lemma_rot_r_keeps(y.key, y.value, y.left, y.right);
            let y2 = Some(rot_r(y.key, y.value, y.left, y.right));
            assert(map_of(y2) == map_of(right));
            lemma_rot_l_keeps(key, value, left, y2);
        } else {
            lemma_rot_l_keeps(key, value, left, right);
        }
    } else if f == 2 {
        let y = left->0;
        if factor_of(*y) < 0 {
            assert(map_of(left) == node_entries(y.key, y.value, y.left, y.right));
            assert(separated(y.left, y.key, y.right));
            lemma_rot_l_keeps(y.key, y.value, y.left, y.right);
            let y2 = Some(rot_l(y.key, y.value, y.left, y.right));
            assert(map_of(y2) == map_of(left));
            lemma_rot_r_keeps(key, value, y2, right);
        } else {
            lemma_rot_r_keeps(key, value, left, right);
        }
    } else {
        lemma_mk_keeps(key, value, left, right);
    }
}

/// Inserting a key that a search tree does not hold gives a search tree
/// that holds it with its value, next to every entry it held.
pub proof fn law_insert_adds_entry<V>(t: Option<Box<Node<u64, V>>>, key: u64, value: V)
    requires
        bst(t),
        !map_of(t).contains_key(key),
    ensures
        bst(Some(ins(t, key, value))),
        map_of(Some(ins(t, key, value))) == map_of(t).insert(key, value),
    decreases t,
{
    match t {
        None => {
            lemma_mk_keeps(key, value, None, None);
            assert(map_of(Some(ins(t, key, value))) =~= map_of(t).insert(key, value));
        },
        Some(n) => {
            assert(map_of(t) == node_entries(n.key, n.value, n.left, n.right));
            if key < n.key {
                law_insert_adds_entry(n.left, key, value);
                let l2 = Some(ins(n.left, key, value));
                assert(separated(l2, n.key, n.right));
                law_balance_keeps_entries(n.key, n.value, l2, n.right);
                assert(node_entries(n.key, n.value, l2, n.right) =~= map_of(t).insert(key, value));
            } else {
                law_insert_adds_entry(n.right, key, value);
                let r2 = Some(ins(n.right, key, value));
                assert(separated(n.left, n.key, r2));
                law_balance_keeps_entries(n.key, n.value, n.left, r2);
                assert(node_entries(n.key, n.value, n.left, r2) =~= map_of(t).insert(key, value));
            }
        },
    }
}

/// Removing the greatest entry of a nonempty search tree takes out the
/// entry with the greatest key and leaves a search tree of the others.
pub proof fn law_remove_max_takes_greatest<V>(n: Box<Node<u64, V>>)
    requires
        bst(Some(n)),
    ensures
        ({
            let (rest, k, v) = rmax(n);
            &&& map_of(Some(n)).contains_key(k)
            &&& map_of(Some(n))[k] == v
            &&& forall|x: u64| #[trigger] map_of(Some(n)).contains_key(x) ==> x <= k
            &&& bst(rest)
            &&& map_of(rest) == map_of(Some(n)).remove(k)
        }),
    decreases n,
{
    assert(map_of(Some(n)) == node_entries(n.key, n.value, n.left, n.right));
    match n.right {
        None => {
            assert(map_of(n.left) =~= map_of(Some(n)).remove(n.key));
        },
        Some(r) => {
            law_remove_max_takes_greatest(r);
            let (rest, k, v) = rmax(r);
            assert(map_of(n.right).contains_key(k));
            assert(separated(n.left, n.key, rest));
            law_balance_keeps_entries(n.key, n.value, n.left, rest);
            assert forall|x: u64| #[trigger] map_of(Some(n)).contains_key(x) implies x <= k by {
                if x != n.key && !map_of(n.right).contains_key(x) {
                    assert(map_of(n.left).contains_key(x));
                }
            }
            assert(node_entries(n.key, n.value, n.left, rest) =~= map_of(Some(n)).remove(k));
        },
    }
}

/// Removing the key of a node with two children puts the greatest entry of
/// its left subtree in its place, over what remains of that subtree and its
/// right subtree, and rebalances there.
pub proof fn law_remove_moves_predecessor_up<V>(n: Box<Node<u64, V>>)
    requires
        bst(Some(n)),
        n.left is Some,
        n.right is Some,
    ensures
        ({
            let (rest, k, v) = rmax(n.left->0);
            &&& rkey(n, n.key) == (Some(balance(k, v, rest, n.right)), n.value)
            &&& map_of(n.left).contains_key(k)
            &&& forall|x: u64| #[trigger] map_of(n.left).contains_key(x) ==> x <= k
        }),
{
    law_remove_max_takes_greatest(n.left->0);
}

/// Removing a key that a search tree holds gives back its value and leaves
/// a search tree of the other entries.
pub proof fn law_remove_takes_entry<V>(n: Box<Node<u64, V>>, key: u64)
    requires
        bst(Some(n)),
        map_of(Some(n)).contains_key(key),
    ensures
        rkey(n, key).1 == map_of(Some(n))[key],
        bst(rkey(n, key).0),
        map_of(rkey(n, key).0) == map_of(Some(n)).remove(key),
    decreases n,
{
    assert(map_of(Some(n)) == node_entries(n.key, n.value, n.left, n.right));
    if key < n.key {
        assert(map_of(n.left).contains_key(key)) by {
            assert(!map_of(n.right).contains_key(key));
        }
        let l = n.left->0;
        law_remove_takes_entry(l, key);
        let rest = rkey(l, key).0;
        assert(separated(rest, n.key, n.right));
        law_balance_keeps_entries(n.key, n.value, rest, n.right);
        assert(node_entries(n.key, n.value, rest, n.right) =~= map_of(Some(n)).remove(key));
    } else if key > n.key {
        assert(map_of(n.right).contains_key(key)) by {
            assert(!map_of(n.left).contains_key(key));
        }
        let r = n.right->0;
        law_remove_takes_entry(r, key);
        let rest = rkey(r, key).0;
        assert(separated(n.left, n.key, rest));
        law_balance_keeps_entries(n.key, n.value, n.left, rest);
        assert(node_entries(n.key, n.value, n.left, rest) =~= map_of(Some(n)).remove(key));
    } else if n.left is Some && n.right is Some {
        let l = n.left->0;
        law_remove_max_takes_greatest(l);
        let (rest, k, v) = rmax(l);
        assert(map_of(n.left).contains_key(k));
        assert forall|x: u64| #[trigger] map_of(rest).contains_key(x) implies x < k by {
            assert(map_of(n.left).contains_key(x));
        }
        assert forall|x: u64| #[trigger] map_of(n.right).contains_key(x) implies k < x by {
            assert(k < n.key);
        }
        law_balance_keeps_entries(k, v, rest, n.right);
        assert(!map_of(n.right).contains_key(key));
        assert(node_entries(k, v, rest, n.right) =~= map_of(Some(n)).remove(key));
    } else if n.left is Some {
        assert(map_of(n.left) =~= map_of(Some(n)).remove(key));
    } else {
        assert(map_of(n.right) =~= map_of(Some(n)).remove(key));
    }
}

} // verus!
