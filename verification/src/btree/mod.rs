//! A sequential B-tree map.
pub mod order;

use order::{
    edges_ok, flat, has_key, inorder, kids, lemma_after_above, lemma_before_below,
    lemma_descend, lemma_flat_at_pair, lemma_flat_cons, lemma_flat_empty_kids, lemma_flat_pair,
    lemma_flat_split, lemma_flat_update, lemma_insert_mid, lemma_flat_insert_split,
    lemma_flat_two, lemma_flat_rotate, lemma_flat_merge, lemma_flat_one, lemma_inorder_len,
    lemma_to_map_insert, lemma_to_map_len, lemma_to_map_remove, lemma_before_step, lemma_to_map_at, pairs, shape_ok, sorted, to_map, tree_ok, before, after, pair_pos, Node, B_MAX_NODES, B_MID_INDEX,
};
use crate::map::SequentialMap;
use vstd::prelude::*;

verus! {

/// What inserting into a subtree leaves for its parent to do: nothing, or
/// to take the pair and the new right sibling that splitting a full node
/// gave.
pub enum InsertResult<K, V> {
    Fitted,
    Splitted { parent: (K, V), right: Box<Node<K, V>> },
}

/// The in-order sequence of a subtree after an insertion, with what a split
/// handed up.
pub open spec fn result_seq<V>(n: Node<u64, V>, r: InsertResult<u64, V>) -> Seq<(u64, V)> {
    match r {
        InsertResult::Fitted => inorder(n, n.depth as nat),
        InsertResult::Splitted { parent, right } => inorder(n, n.depth as nat) + seq![parent]
            + inorder(*right, n.depth as nat),
    }
}

/// After an insertion the subtree is well-shaped; after a split both halves
/// are, with `B_MID_INDEX` keys on the left and the rest on the right.
pub open spec fn result_ok<V>(n: Node<u64, V>, r: InsertResult<u64, V>) -> bool {
    &&& tree_ok(n, n.depth as nat)
    &&& match r {
        InsertResult::Fitted => true,
        InsertResult::Splitted { parent, right } => {
            &&& n.keys@.len() == B_MID_INDEX
            &&& right.keys@.len() == B_MAX_NODES - B_MID_INDEX
            &&& right.depth == n.depth
            &&& tree_ok(*right, n.depth as nat)
        },
    }
}

/// Where a key stands in one node.
pub enum SearchResult {
    /// The key is the node's key at this index.
    Found { value_index: usize },
    /// The key is not in the node; it would go below the edge at this index.
    Descent { edge_index: usize },
}

/// An inner node whose subtree at `e` has just lost its last key: the node
/// itself and every other subtree are in shape, the one at `e` is in shape
/// but empty.
pub open spec fn pending_ok<V>(n: Node<u64, V>, d: nat, e: int) -> bool {
    &&& d > 0
    &&& shape_ok(n, d)
    &&& n.keys@.len() >= 1
    &&& 0 <= e < n.edges@.len()
    &&& forall|j: int|
        0 <= j < n.edges@.len() && j != e ==> #[trigger] n.edges@[j].keys@.len() >= 1 && tree_ok(
            *n.edges@[j],
            (d - 1) as nat,
        )
    &&& n.edges@[e].keys@.len() == 0
    &&& tree_ok(*n.edges@[e], (d - 1) as nat)
}

/// The number of keys in the rightmost leaf of a subtree.
pub open spec fn rightmost_len<V>(n: Node<u64, V>, d: nat) -> nat
    decreases d,
{
    if d == 0 || n.edges@.len() == 0 {
        n.keys@.len()
    } else {
        rightmost_len(*n.edges@[n.edges@.len() - 1], (d - 1) as nat)
    }
}

/// `s1` is `s0` without one pair, whose key is `key` and whose value is
/// `value`.
pub open spec fn removed_from<V>(s0: Seq<(u64, V)>, s1: Seq<(u64, V)>, key: u64, value: V) -> bool {
    exists|p: int|
        0 <= p < s0.len() && #[trigger] s0[p].0 == key && s1 == s0.remove(p) && value == s0[p].1
}

/// The in-order sequence of an empty node is that of its only subtree.
pub proof fn lemma_empty_node<V>(n: Node<u64, V>, d: nat)
    requires
        tree_ok(n, d),
        n.keys@.len() == 0,
    ensures
        inorder(n, d) == kids(n, d)[0],
        d == 0 ==> inorder(n, d).len() == 0,
        d > 0 ==> inorder(n, d) == inorder(*n.edges@[0], (d - 1) as nat),
{
    assert(pairs(n.keys@, n.values@).len() == 0);
}

/// The index of the first of `keys` that is not below `key`: where a
/// search for `key` leaves a node that does not hold it.
pub open spec fn first_not_below(keys: Seq<u64>, key: u64) -> int
    decreases keys.len(),
{
    if keys.len() == 0 || keys[0] >= key {
        0
    } else {
        1 + first_not_below(keys.drop_first(), key)
    }
}

/// Where every key before `i` is below `key` and the one at `i`, if any, is
/// above it, `i` is the first that is not below `key`.
pub proof fn lemma_first_not_below(keys: Seq<u64>, key: u64, i: int)
    requires
        0 <= i <= keys.len(),
        forall|j: int| 0 <= j < i ==> keys[j] < key,
        i < keys.len() ==> key < keys[i],
    ensures
        first_not_below(keys, key) == i,
    decreases keys.len(),
{
    if i > 0 {
        lemma_first_not_below(keys.drop_first(), key, i - 1);
    }
}

/// Every node on the path that a search for `key` takes from `n`, read as
/// a tree of depth `d`, holds as many keys as a node can.
pub open spec fn path_full<V>(n: Node<u64, V>, d: nat, key: u64) -> bool
    decreases d,
{
    &&& n.keys@.len() == B_MAX_NODES
    &&& d > 0 ==> path_full(*n.edges@[first_not_below(n.keys@, key)], (d - 1) as nat, key)
}

impl<V> Node<u64, V> {
    /// An empty leaf.
    pub fn new() -> (node: Self)
        ensures
            node.depth == 0,
            node.keys@.len() == 0,
            node.values@.len() == 0,
            node.edges@.len() == 0,
    {
        Node { depth: 0, keys: Vec::new(), values: Vec::new(), edges: Vec::new() }
    }

    /// Splits a node that holds one key too many into itself, keeping the
    /// first `B_MID_INDEX` pairs, the middle pair, and a new right sibling
    /// holding the rest.
    fn split(&mut self) -> (r: ((u64, V), Box<Node<u64, V>>))
        requires
            old(self).keys@.len() == B_MAX_NODES + 1,
            old(self).values@.len() == B_MAX_NODES + 1,
            old(self).depth == 0 ==> old(self).edges@.len() == 0,
            old(self).depth > 0 ==> old(self).edges@.len() == B_MAX_NODES + 2,
            edges_ok(*old(self), old(self).depth as nat),
        ensures
            final(self).depth == old(self).depth,
            r.1.depth == old(self).depth,
            final(self).keys@.len() == B_MID_INDEX,
            r.1.keys@.len() == B_MAX_NODES - B_MID_INDEX,
            tree_ok(*final(self), old(self).depth as nat),
            tree_ok(*r.1, old(self).depth as nat),
            inorder(*final(self), old(self).depth as nat) + seq![r.0] + inorder(
                *r.1,
                old(self).depth as nat,
            ) == inorder(*old(self), old(self).depth as nat),
            final(self).keys@ + seq![r.0.0] + r.1.keys@ == old(self).keys@,
            final(self).values@ + seq![r.0.1] + r.1.values@ == old(self).values@,
            final(self).edges@ + r.1.edges@ == old(self).edges@,
    {
        let ghost old_node = *self;
        let ghost d = self.depth as nat;
        let right_keys = self.keys.split_off(B_MID_INDEX + 1);
        let right_values = self.values.split_off(B_MID_INDEX + 1);
        let mid_key = self.keys.pop().unwrap();
        let mid_value = self.values.pop().unwrap();
        let right_edges = if self.depth > 0 {
            self.edges.split_off(B_MID_INDEX + 1)
        } else {
            Vec::new()
        };
        let right = Box::new(
            Node { depth: self.depth, keys: right_keys, values: right_values, edges: right_edges },
        );
        proof {
            let es = pairs(old_node.keys@, old_node.values@);
            let cs = kids(old_node, d);
            lemma_flat_at_pair(es, cs, B_MID_INDEX as int);
            assert(pairs(self.keys@, self.values@) =~= es.take(B_MID_INDEX as int));
            assert(pairs(right.keys@, right.values@) =~= es.skip(B_MID_INDEX + 1));
            assert(kids(*self, d) =~= cs.take(B_MID_INDEX + 1));
            assert(kids(*right, d) =~= cs.skip(B_MID_INDEX + 1));
            if d > 0 {
                assert forall|i: int| 0 <= i < self.edges@.len() implies #[trigger] self.edges@[i].keys@.len() >= 1
                    && tree_ok(*self.edges@[i], (d - 1) as nat) by {
                    assert(self.edges@[i] == old_node.edges@[i]);
                }
                assert forall|i: int| 0 <= i < right.edges@.len() implies #[trigger] right.edges@[i].keys@.len() >= 1
                    && tree_ok(*right.edges@[i], (d - 1) as nat) by {
                    assert(right.edges@[i] == old_node.edges@[i + B_MID_INDEX + 1]);
                }
            }
        }
        proof {
            assert(self.keys@ + seq![mid_key] + right.keys@ =~= old_node.keys@);
            assert(self.values@ + seq![mid_value] + right.values@ =~= old_node.values@);
            assert(self.edges@ + right.edges@ =~= old_node.edges@);
        }
        ((mid_key, mid_value), right)
    }

    /// Finds `key` among the node's keys: either its index, or the index of
    /// the edge between the last smaller key and the first greater one.
    fn search_in_node(&self, key: u64) -> (r: SearchResult)
        ensures
            match r {
                SearchResult::Found { value_index } => value_index < self.keys@.len()
                    && self.keys@[value_index as int] == key,
                SearchResult::Descent { edge_index } => {
                    &&& edge_index <= self.keys@.len()
                    &&& edge_index > 0 ==> self.keys@[edge_index - 1] < key
                    &&& edge_index < self.keys@.len() ==> key < self.keys@[edge_index as int]
                    &&& edge_index == first_not_below(self.keys@, key)
                },
            },
    {
        let size = self.keys.len();
        let mut index: usize = 0;
        while index < size
            invariant
                size == self.keys@.len(),
                index <= size,
                index > 0 ==> self.keys@[index - 1] < key,
                forall|j: int| 0 <= j < index ==> self.keys@[j] < key,
            decreases size - index,
        {
            let k = self.keys[index];
            if key < k {
                proof {
                    lemma_first_not_below(self.keys@, key, index as int);
                }
                return SearchResult::Descent { edge_index: index };
            } else if key == k {
                return SearchResult::Found { value_index: index };
            }
            index = index + 1;
        }
        proof {
            lemma_first_not_below(self.keys@, key, size as int);
        }
        SearchResult::Descent { edge_index: size }
    }

    /// Inserts a pair into a leaf at `edge_index`, splitting the leaf when it
    /// is full.
    fn insert_leaf(&mut self, edge_index: usize, key: u64, value: V) -> (r: InsertResult<u64, V>)
        requires
            old(self).depth == 0,
            tree_ok(*old(self), 0),
            edge_index <= old(self).keys@.len(),
        ensures
            final(self).depth == 0,
            result_ok(*final(self), r),
            result_seq(*final(self), r) == inorder(*old(self), 0).insert(
                edge_index as int,
                (key, value),
            ),
            r is Fitted ==> final(self).keys@.len() == old(self).keys@.len() + 1,
            r is Fitted <==> old(self).keys@.len() < B_MAX_NODES,
            r is Fitted ==> {
                &&& final(self).keys@ == old(self).keys@.insert(edge_index as int, key)
                &&& final(self).values@ == old(self).values@.insert(edge_index as int, value)
            },
            r matches InsertResult::Splitted { parent, right } ==> {
                &&& final(self).keys@ + seq![parent.0] + right.keys@ == old(self).keys@.insert(
                    edge_index as int,
                    key,
                )
                &&& final(self).values@ + seq![parent.1] + right.values@ == old(self).values@.insert(
                    edge_index as int,
                    value,
                )
            },
    {
        let ghost old_node = *self;
        self.keys.insert(edge_index, key);
        self.values.insert(edge_index, value);
        proof {
            let es = pairs(old_node.keys@, old_node.values@);
            lemma_flat_empty_kids(es, kids(old_node, 0));
            lemma_flat_empty_kids(pairs(self.keys@, self.values@), kids(*self, 0));
            assert(pairs(self.keys@, self.values@) =~= es.insert(edge_index as int, (key, value)));
        }
        if self.keys.len() <= B_MAX_NODES {
            InsertResult::Fitted
        } else {
            let (parent, right) = self.split();
            InsertResult::Splitted { parent, right }
        }
    }

    /// Inserts a pair at `edge_index` and the edge to its right into an inner
    /// node, splitting the node when it is full.
    fn insert_inner(&mut self, edge_index: usize, key: u64, value: V, edge: Box<Node<u64, V>>) -> (r:
        InsertResult<u64, V>)
        requires
            old(self).depth > 0,
            tree_ok(*old(self), old(self).depth as nat),
            edge_index <= old(self).keys@.len(),
            edge.depth + 1 == old(self).depth,
            edge.keys@.len() >= 1,
            tree_ok(*edge, edge.depth as nat),
        ensures
            final(self).depth == old(self).depth,
            result_ok(*final(self), r),
            result_seq(*final(self), r) == flat(
                pairs(old(self).keys@, old(self).values@).insert(edge_index as int, (key, value)),
                kids(*old(self), old(self).depth as nat).insert(
                    edge_index + 1,
                    inorder(*edge, edge.depth as nat),
                ),
            ),
            r is Fitted ==> final(self).keys@.len() == old(self).keys@.len() + 1,
            r is Fitted <==> old(self).keys@.len() < B_MAX_NODES,
            r is Fitted ==> {
                &&& final(self).keys@ == old(self).keys@.insert(edge_index as int, key)
                &&& final(self).values@ == old(self).values@.insert(edge_index as int, value)
                &&& final(self).edges@ == old(self).edges@.insert(edge_index + 1, edge)
            },
            r matches InsertResult::Splitted { parent, right } ==> {
                &&& final(self).keys@ + seq![parent.0] + right.keys@ == old(self).keys@.insert(
                    edge_index as int,
                    key,
                )
                &&& final(self).values@ + seq![parent.1] + right.values@ == old(self).values@.insert(
                    edge_index as int,
                    value,
                )
                &&& final(self).edges@ + right.edges@ == old(self).edges@.insert(edge_index + 1, edge)
            },
    {
        let ghost old_node = *self;
        let ghost d = self.depth as nat;
        let ghost e = *edge;
        let ghost eb = edge;
        self.keys.insert(edge_index, key);
        self.values.insert(edge_index, value);
        self.edges.insert(edge_index + 1, edge);
        proof {
            assert(pairs(self.keys@, self.values@) =~= pairs(old_node.keys@, old_node.values@).insert(
                edge_index as int,
                (key, value),
            ));
            assert(kids(*self, d) =~= kids(old_node, d).insert(edge_index + 1, inorder(e, (d - 1) as nat)));
            assert forall|i: int| 0 <= i < self.edges@.len() implies #[trigger] self.edges@[i].keys@.len() >= 1
                && tree_ok(*self.edges@[i], (d - 1) as nat) by {
                if i < edge_index + 1 {
                    assert(self.edges@[i] == old_node.edges@[i]);
                } else if i > edge_index + 1 {
                    assert(self.edges@[i] == old_node.edges@[i - 1]);
                } else {
                    assert(self.edges@[i] == eb);
                }
            }
        }
        if self.keys.len() <= B_MAX_NODES {
            InsertResult::Fitted
        } else {
            let (parent, right) = self.split();
            InsertResult::Splitted { parent, right }
        }
    }

    /// The empty subtree at edge 0 takes the node's first pair and its right
    /// sibling: they merge into one node in place of the two.
    #[verifier::spinoff_prover]
    #[verifier::rlimit(50)]
    fn merge_right(&mut self)
        requires
            pending_ok(*old(self), old(self).depth as nat, 0),
            old(self).edges@[1].keys@.len() == 1,
        ensures
            final(self).depth == old(self).depth,
            tree_ok(*final(self), old(self).depth as nat),
            inorder(*final(self), old(self).depth as nat) == inorder(*old(self), old(self).depth as nat),
            final(self).keys@.len() == old(self).keys@.len() - 1,
    {
        let ghost old_node = *self;
        let ghost d = self.depth as nat;
        let ghost es = pairs(self.keys@, self.values@);
        let ghost cs = kids(*self, d);
        let mut current = self.edges.remove(0);
        let mut sibling = self.edges.remove(0);
        let ghost c0 = *current;
        let ghost s0 = *sibling;
        proof {
            assert(old_node.edges@[1].keys@.len() >= 1);
            lemma_empty_node(c0, (d - 1) as nat);
        }
        let key = self.keys.remove(0);
        let value = self.values.remove(0);
        sibling.keys.insert(0, key);
        sibling.values.insert(0, value);
        if current.depth > 0 {
            let g = current.edges.remove(0);
            sibling.edges.insert(0, g);
        }
        let ghost s1 = *sibling;
        proof {
            let g = cs[0];
            let ses = pairs(s0.keys@, s0.values@);
            let scs = kids(s0, (d - 1) as nat);
            assert(pairs(s1.keys@, s1.values@) =~= seq![(key, value)] + ses);
            assert(kids(s1, (d - 1) as nat) =~= seq![g] + scs);
            lemma_flat_cons(pairs(s1.keys@, s1.values@), kids(s1, (d - 1) as nat));
            assert((seq![(key, value)] + ses).skip(1) =~= ses);
            assert((seq![g] + scs).skip(1) =~= scs);
            assert(inorder(s1, (d - 1) as nat) == g + seq![(key, value)] + cs[1]);
            if d > 1 {
                assert forall|j: int| 0 <= j < s1.edges@.len() implies #[trigger] s1.edges@[j].keys@.len() >= 1
                    && tree_ok(*s1.edges@[j], (d - 2) as nat) by {
                    if j == 0 {
                        assert(c0.edges@[0].keys@.len() >= 1);
                    } else {
                        assert(s1.edges@[j] == s0.edges@[j - 1]);
                    }
                }
            }
            assert(tree_ok(s1, (d - 1) as nat));
        }
        self.edges.insert(0, sibling);
        proof {
            lemma_flat_merge(es, cs, 0, inorder(s1, (d - 1) as nat));
            lemma_flat_two(es, cs, 0);
            assert(pairs(self.keys@, self.values@) =~= es.remove(0));
            assert(kids(*self, d) =~= cs.remove(1).update(0, inorder(s1, (d - 1) as nat)));
            assert forall|j: int| 0 <= j < self.edges@.len() implies #[trigger] self.edges@[j].keys@.len() >= 1
                && tree_ok(*self.edges@[j], (d - 1) as nat) by {
                if j > 0 {
                    assert(self.edges@[j] == old_node.edges@[j + 1]);
                }
            }
        }
    }

    /// The empty subtree at `edge_index` and the pair before it go to the end
    /// of its left sibling, which holds one key.
    #[verifier::spinoff_prover]
    #[verifier::rlimit(50)]
    fn merge_left(&mut self, edge_index: usize)
        requires
            pending_ok(*old(self), old(self).depth as nat, edge_index as int),
            edge_index >= 1,
            old(self).edges@[edge_index - 1].keys@.len() == 1,
        ensures
            final(self).depth == old(self).depth,
            tree_ok(*final(self), old(self).depth as nat),
            inorder(*final(self), old(self).depth as nat) == inorder(*old(self), old(self).depth as nat),
            final(self).keys@.len() == old(self).keys@.len() - 1,
    {
        let ghost old_node = *self;
        let ghost d = self.depth as nat;
        let ghost es = pairs(self.keys@, self.values@);
        let ghost cs = kids(*self, d);
        let e = edge_index;
        let mut current = self.edges.remove(e);
        let mut sibling = self.edges.remove(e - 1);
        let ghost c0 = *current;
        let ghost s0 = *sibling;
        proof {
            assert(old_node.edges@[e - 1].keys@.len() >= 1);
            lemma_empty_node(c0, (d - 1) as nat);
        }
        let key = self.keys.remove(e - 1);
        let value = self.values.remove(e - 1);
        sibling.keys.push(key);
        sibling.values.push(value);
        if current.depth > 0 {
            let g = current.edges.remove(0);
            sibling.edges.push(g);
        }
        let ghost s1 = *sibling;
        proof {
            let g = cs[e as int];
            let ses = pairs(s0.keys@, s0.values@);
            let scs = kids(s0, (d - 1) as nat);
            assert(pairs(s1.keys@, s1.values@) =~= ses.push((key, value)));
            assert(kids(s1, (d - 1) as nat) =~= scs.push(g));
            assert(pairs(s1.keys@, s1.values@).drop_last() =~= ses);
            assert(kids(s1, (d - 1) as nat).drop_last() =~= scs);
            assert(inorder(s1, (d - 1) as nat) == cs[e - 1] + seq![(key, value)] + g);
            if d > 1 {
                assert forall|j: int| 0 <= j < s1.edges@.len() implies #[trigger] s1.edges@[j].keys@.len() >= 1
                    && tree_ok(*s1.edges@[j], (d - 2) as nat) by {
                    if j == s0.edges@.len() {
                        assert(c0.edges@[0].keys@.len() >= 1);
                    } else {
                        assert(s1.edges@[j] == s0.edges@[j]);
                    }
                }
            }
            assert(tree_ok(s1, (d - 1) as nat));
        }
        self.edges.insert(e - 1, sibling);
        proof {
            let m = e - 1;
            lemma_flat_merge(es, cs, m as int, inorder(s1, (d - 1) as nat));
            lemma_flat_two(es, cs, m as int);
            assert(pairs(self.keys@, self.values@) =~= es.remove(m as int));
            assert(kids(*self, d) =~= cs.remove(m + 1).update(m as int, inorder(s1, (d - 1) as nat)));
            assert forall|j: int| 0 <= j < self.edges@.len() implies #[trigger] self.edges@[j].keys@.len() >= 1
                && tree_ok(*self.edges@[j], (d - 1) as nat) by {
                if j < m {
                    assert(self.edges@[j] == old_node.edges@[j]);
                } else if j > m {
                    assert(self.edges@[j] == old_node.edges@[j + 1]);
                }
            }
        }
    }

    /// The empty subtree at edge 0 takes the node's first pair, which the
    /// first pair of its right sibling replaces; the sibling's first subtree
    /// moves along.
    #[verifier::spinoff_prover]
    #[verifier::rlimit(50)]
    fn borrow_right(&mut self)
        requires
            pending_ok(*old(self), old(self).depth as nat, 0),
            old(self).edges@[1].keys@.len() >= 2,
        ensures
            final(self).depth == old(self).depth,
            tree_ok(*final(self), old(self).depth as nat),
            inorder(*final(self), old(self).depth as nat) == inorder(*old(self), old(self).depth as nat),
            final(self).keys@.len() == old(self).keys@.len(),
    {
        let ghost old_node = *self;
        let ghost d = self.depth as nat;
        let ghost es = pairs(self.keys@, self.values@);
        let ghost cs = kids(*self, d);
        let mut current = self.edges.remove(0);
        let mut sibling = self.edges.remove(0);
        let ghost c0 = *current;
        let ghost s0 = *sibling;
        proof {
            assert(old_node.edges@[1].keys@.len() >= 1);
            lemma_empty_node(c0, (d - 1) as nat);
        }
        let sibling_key = sibling.keys.remove(0);
        let sibling_value = sibling.values.remove(0);
        let parent_key = self.keys.remove(0);
        let parent_value = self.values.remove(0);
        self.keys.insert(0, sibling_key);
        self.values.insert(0, sibling_value);
        current.keys.push(parent_key);
        current.values.push(parent_value);
        if current.depth > 0 {
            let moved = sibling.edges.remove(0);
            current.edges.push(moved);
        }
        let ghost c1 = *current;
        let ghost s1 = *sibling;
        proof {
            let g = cs[0];
            let ses = pairs(s0.keys@, s0.values@);
            let scs = kids(s0, (d - 1) as nat);
            lemma_flat_cons(ses, scs);
            assert(pairs(c1.keys@, c1.values@) =~= seq![(parent_key, parent_value)]);
            assert(kids(c1, (d - 1) as nat) =~= seq![g, scs[0]]);
            lemma_flat_one((parent_key, parent_value), g, scs[0]);
            assert(inorder(c1, (d - 1) as nat) == g + seq![(parent_key, parent_value)] + scs[0]);
            assert(pairs(s1.keys@, s1.values@) =~= ses.skip(1));
            assert(kids(s1, (d - 1) as nat) =~= scs.skip(1));
            if d > 1 {
                assert forall|j: int| 0 <= j < c1.edges@.len() implies #[trigger] c1.edges@[j].keys@.len() >= 1
                    && tree_ok(*c1.edges@[j], (d - 2) as nat) by {
                    if j == 0 {
                        assert(c0.edges@[0].keys@.len() >= 1);
                    } else {
                        assert(s0.edges@[0].keys@.len() >= 1);
                    }
                }
                assert forall|j: int| 0 <= j < s1.edges@.len() implies #[trigger] s1.edges@[j].keys@.len() >= 1
                    && tree_ok(*s1.edges@[j], (d - 2) as nat) by {
                    assert(s1.edges@[j] == s0.edges@[j + 1]);
                }
            }
            assert(tree_ok(c1, (d - 1) as nat));
            assert(tree_ok(s1, (d - 1) as nat));
        }
        self.edges.insert(0, sibling);
        self.edges.insert(0, current);
        proof {
            lemma_flat_rotate(es, cs, 0, inorder(c1, (d - 1) as nat), (sibling_key, sibling_value), inorder(s1, (d - 1) as nat));
            lemma_flat_two(es, cs, 0);
            assert(pairs(self.keys@, self.values@) =~= es.update(0, (sibling_key, sibling_value)));
            assert(kids(*self, d) =~= cs.update(0, inorder(c1, (d - 1) as nat)).update(1, inorder(s1, (d - 1) as nat)));
            assert forall|j: int| 0 <= j < self.edges@.len() implies #[trigger] self.edges@[j].keys@.len() >= 1
                && tree_ok(*self.edges@[j], (d - 1) as nat) by {
                if j > 1 {
                    assert(self.edges@[j] == old_node.edges@[j]);
                }
            }
        }
    }

    /// The empty subtree at `edge_index` takes the pair before it, which the
    /// last pair of its left sibling replaces; the sibling's last subtree
    /// moves along.
    #[verifier::spinoff_prover]
    #[verifier::rlimit(100)]
    fn borrow_left(&mut self, edge_index: usize)
        requires
            pending_ok(*old(self), old(self).depth as nat, edge_index as int),
            edge_index >= 1,
            old(self).edges@[edge_index - 1].keys@.len() >= 2,
        ensures
            final(self).depth == old(self).depth,
            tree_ok(*final(self), old(self).depth as nat),
            inorder(*final(self), old(self).depth as nat) == inorder(*old(self), old(self).depth as nat),
            final(self).keys@.len() == old(self).keys@.len(),
    {
        let ghost old_node = *self;
        let ghost d = self.depth as nat;
        let ghost es = pairs(self.keys@, self.values@);
        let ghost cs = kids(*self, d);
        let e = edge_index;
        let mut current = self.edges.remove(e);
        let mut sibling = self.edges.remove(e - 1);
        let ghost c0 = *current;
        let ghost s0 = *sibling;
        proof {
            assert(old_node.edges@[e - 1].keys@.len() >= 1);
            lemma_empty_node(c0, (d - 1) as nat);
        }
        let sibling_key = sibling.keys.pop().unwrap();
        let sibling_value = sibling.values.pop().unwrap();
        let parent_key = self.keys.remove(e - 1);
        let parent_value = self.values.remove(e - 1);
        self.keys.insert(e - 1, sibling_key);
        self.values.insert(e - 1, sibling_value);
        current.keys.insert(0, parent_key);
        current.values.insert(0, parent_value);
        if current.depth > 0 {
            let moved = sibling.edges.pop().unwrap();
            current.edges.insert(0, moved);
        }
        let ghost c1 = *current;
        let ghost s1 = *sibling;
        proof {
            let g = cs[e as int];
            let ses = pairs(s0.keys@, s0.values@);
            let scs = kids(s0, (d - 1) as nat);
            assert(pairs(c1.keys@, c1.values@) =~= seq![(parent_key, parent_value)]);
            assert(kids(c1, (d - 1) as nat) =~= seq![scs.last(), g]);
            lemma_flat_one((parent_key, parent_value), scs.last(), g);
            assert(inorder(c1, (d - 1) as nat) == scs.last() + seq![(parent_key, parent_value)] + g);
            assert(pairs(s1.keys@, s1.values@) =~= ses.drop_last());
            assert(kids(s1, (d - 1) as nat) =~= scs.drop_last());
            assert(ses.last() == (sibling_key, sibling_value));
            assert(cs[e - 1] == inorder(s1, (d - 1) as nat) + seq![(sibling_key, sibling_value)] + scs.last());
            if d > 1 {
                assert forall|j: int| 0 <= j < c1.edges@.len() implies #[trigger] c1.edges@[j].keys@.len() >= 1
                    && tree_ok(*c1.edges@[j], (d - 2) as nat) by {
                    if j == 1 {
                        assert(c0.edges@[0].keys@.len() >= 1);
                    } else {
                        assert(s0.edges@[s0.edges@.len() - 1].keys@.len() >= 1);
                    }
                }
                assert forall|j: int| 0 <= j < s1.edges@.len() implies #[trigger] s1.edges@[j].keys@.len() >= 1
                    && tree_ok(*s1.edges@[j], (d - 2) as nat) by {
                    assert(s1.edges@[j] == s0.edges@[j]);
                }
            }
            assert(tree_ok(c1, (d - 1) as nat));
            assert(tree_ok(s1, (d - 1) as nat));
        }
        let ghost mid_edges = self.edges@;
        self.edges.insert(e - 1, sibling);
        self.edges.insert(e, current);
        proof {
            let m = (e - 1) as int;
            assert(self.edges@ =~= old_node.edges@.update(m, self.edges@[m]).update(m + 1, self.edges@[m + 1]));
            lemma_flat_rotate(es, cs, m, inorder(s1, (d - 1) as nat), (sibling_key, sibling_value), inorder(c1, (d - 1) as nat));
            lemma_flat_two(es, cs, m);
            assert(pairs(self.keys@, self.values@) =~= es.update(m, (sibling_key, sibling_value)));
            assert(kids(*self, d) =~= cs.update(m, inorder(s1, (d - 1) as nat)).update(m + 1, inorder(c1, (d - 1) as nat)));
            assert forall|j: int| 0 <= j < self.edges@.len() implies #[trigger] self.edges@[j].keys@.len() >= 1
                && tree_ok(*self.edges@[j], (d - 1) as nat) by {
                if j != m && j != m + 1 {
                    assert(self.edges@[j] == old_node.edges@[j]);
                    assert(old_node.edges@[j].keys@.len() >= 1);
                }
            }
        }
    }

    /// Repairs a node whose subtree at `edge_index` has just become empty:
    /// the empty subtree borrows a pair through the node from a sibling that
    /// can spare one, or merges with a sibling that holds a single key.
    /// Merging takes a pair from this node, which may leave it empty.
    fn fill_empty_child(&mut self, edge_index: usize)
        requires
            pending_ok(*old(self), old(self).depth as nat, edge_index as int),
        ensures
            final(self).depth == old(self).depth,
            tree_ok(*final(self), old(self).depth as nat),
            inorder(*final(self), old(self).depth as nat) == inorder(*old(self), old(self).depth as nat),
            final(self).keys@.len() + 1 >= old(self).keys@.len(),
    {
        if edge_index == 0 {
            if self.edges[1].keys.len() == 1 {
                self.merge_right();
            } else {
                self.borrow_right();
            }
        } else {
            if self.edges[edge_index - 1].keys.len() == 1 {
                self.merge_left(edge_index);
            } else {
                self.borrow_left(edge_index);
            }
        }
    }

    /// The number of keys in the rightmost leaf of the subtree.
    fn find_end(&self) -> (size: usize)
        requires
            tree_ok(*self, self.depth as nat),
        ensures
            size == rightmost_len(*self, self.depth as nat),
    {
        let mut target: &Node<u64, V> = self;
        while target.depth > 0
            invariant
                tree_ok(*target, target.depth as nat),
                rightmost_len(*target, target.depth as nat) == rightmost_len(*self, self.depth as nat),
            decreases target.depth,
        {
            let last = target.edges.len() - 1;
            proof {
                assert(edges_ok(*target, target.depth as nat));
                assert(target.edges@[last as int].keys@.len() >= 1);
                assert(tree_ok(*target.edges@[last as int], (target.depth - 1) as nat));
            }
            target = &*target.edges[last];
        }
        target.keys.len()
    }

    /// Removes the greatest pair of a subtree whose rightmost leaf holds
    /// more than one key, so that no node becomes empty.
    fn remove_max(&mut self) -> (r: (u64, V))
        requires
            tree_ok(*old(self), old(self).depth as nat),
            old(self).keys@.len() >= 1,
            rightmost_len(*old(self), old(self).depth as nat) >= 2,
        ensures
            final(self).depth == old(self).depth,
            tree_ok(*final(self), old(self).depth as nat),
            final(self).keys@.len() >= 1,
            inorder(*old(self), old(self).depth as nat).len() >= 1,
            inorder(*final(self), old(self).depth as nat) == inorder(
                *old(self),
                old(self).depth as nat,
            ).drop_last(),
            r == inorder(*old(self), old(self).depth as nat).last(),
        decreases old(self).depth,
    {
        let ghost old_node = *self;
        let ghost d = self.depth as nat;
        let ghost es = pairs(self.keys@, self.values@);
        let ghost cs = kids(*self, d);
        if self.depth == 0 {
            let k = self.keys.pop().unwrap();
            let v = self.values.pop().unwrap();
            proof {
                lemma_flat_empty_kids(es, cs);
                lemma_flat_empty_kids(pairs(self.keys@, self.values@), kids(*self, d));
                assert(pairs(self.keys@, self.values@) =~= es.drop_last());
            }
            (k, v)
        } else {
            let ghost last = self.edges@.len() - 1;
            let mut child = self.edges.pop().unwrap();
            proof {
                assert(edges_ok(old_node, d));
                assert(old_node.edges@[last].keys@.len() >= 1);
                assert(tree_ok(*child, (d - 1) as nat));
                lemma_inorder_len(*child, (d - 1) as nat);
            }
            let r = child.remove_max();
            self.edges.push(child);
            proof {
                let c1 = inorder(*child, (d - 1) as nat);
                assert(self.edges@ =~= old_node.edges@.update(last, child));
                assert(kids(*self, d) =~= cs.update(last, c1));
                lemma_flat_update(es, cs, last, c1);
                lemma_flat_split(es, cs, last);
                assert(after(es, cs, last) =~= Seq::<(u64, V)>::empty());
                assert(inorder(*self, d) =~= inorder(old_node, d).drop_last());
                assert forall|j: int| 0 <= j < self.edges@.len() implies #[trigger] self.edges@[j].keys@.len() >= 1
                    && tree_ok(*self.edges@[j], (d - 1) as nat) by {
                    if j != last {
                        assert(self.edges@[j] == old_node.edges@[j]);
                    }
                }
            }
            r
        }
    }

    /// Removes the smallest pair of a subtree, repairing the nodes that
    /// become empty below its root; the root itself may become empty.
    fn remove_min(&mut self) -> (r: (u64, V))
        requires
            tree_ok(*old(self), old(self).depth as nat),
            old(self).keys@.len() >= 1,
        ensures
            final(self).depth == old(self).depth,
            tree_ok(*final(self), old(self).depth as nat),
            final(self).keys@.len() + 1 >= old(self).keys@.len(),
            inorder(*old(self), old(self).depth as nat).len() >= 1,
            inorder(*final(self), old(self).depth as nat) == inorder(
                *old(self),
                old(self).depth as nat,
            ).drop_first(),
            r == inorder(*old(self), old(self).depth as nat)[0],
        decreases old(self).depth,
    {
        let ghost old_node = *self;
        let ghost d = self.depth as nat;
        let ghost es = pairs(self.keys@, self.values@);
        let ghost cs = kids(*self, d);
        proof {
            lemma_inorder_len(old_node, d);
        }
        if self.depth == 0 {
            let k = self.keys.remove(0);
            let v = self.values.remove(0);
            proof {
                lemma_flat_empty_kids(es, cs);
                lemma_flat_empty_kids(pairs(self.keys@, self.values@), kids(*self, d));
                assert(pairs(self.keys@, self.values@) =~= es.drop_first());
            }
            (k, v)
        } else {
            let mut child = self.edges.remove(0);
            proof {
                assert(edges_ok(old_node, d));
                assert(old_node.edges@[0].keys@.len() >= 1);
                assert(tree_ok(*child, (d - 1) as nat));
                lemma_inorder_len(*child, (d - 1) as nat);
            }
            let r = child.remove_min();
            let emptied = child.keys.len() == 0;
            self.edges.insert(0, child);
            proof {
                let c1 = inorder(*child, (d - 1) as nat);
                assert(self.edges@ =~= old_node.edges@.update(0, child));
                assert(kids(*self, d) =~= cs.update(0, c1));
                lemma_flat_update(es, cs, 0, c1);
                lemma_flat_split(es, cs, 0);
                assert(before(es, cs, 0) =~= Seq::<(u64, V)>::empty());
                assert(inorder(*self, d) =~= inorder(old_node, d).drop_first());
                assert forall|j: int| 0 <= j < self.edges@.len() && j != 0 implies #[trigger] self.edges@[j].keys@.len() >= 1
                    && tree_ok(*self.edges@[j], (d - 1) as nat) by {
                    assert(self.edges@[j] == old_node.edges@[j]);
                }
            }
            if emptied {
                self.fill_empty_child(0);
            }
            r
        }
    }

    /// Removes `key`, which the subtree holds, and returns its value. A key of
    /// an inner node is replaced by its predecessor when the rightmost leaf
    /// of its left subtree can spare a key, and by its successor otherwise;
    /// nodes that become empty below the root are repaired on the way back
    /// up. The root of the subtree may become empty.
    fn remove_recursive(&mut self, key: u64) -> (value: V)
        requires
            tree_ok(*old(self), old(self).depth as nat),
            sorted(inorder(*old(self), old(self).depth as nat)),
            has_key(inorder(*old(self), old(self).depth as nat), key),
            old(self).depth > 0 ==> old(self).keys@.len() >= 1,
        ensures
            final(self).depth == old(self).depth,
            tree_ok(*final(self), old(self).depth as nat),
            final(self).keys@.len() + 1 >= old(self).keys@.len(),
            removed_from(
                inorder(*old(self), old(self).depth as nat),
                inorder(*final(self), old(self).depth as nat),
                key,
                value,
            ),
        decreases old(self).depth, 1nat,
    {
        let ghost old_node = *self;
        let ghost d = self.depth as nat;
        let ghost es = pairs(self.keys@, self.values@);
        let ghost cs = kids(*self, d);
        let ghost s0 = inorder(old_node, d);
        proof {
            assert(edges_ok(old_node, d));
        }
        match self.search_in_node(key) {
            SearchResult::Found { value_index } => {
                let i = value_index;
                if self.depth == 0 {
                    self.remove_in_leaf(i)
                } else {
                    proof {
                        assert(old_node.edges@[i as int].keys@.len() >= 1);
                    }
                    if self.edges[i].find_end() > 1 {
                        self.remove_by_predecessor(i)
                    } else {
                        self.remove_by_successor(i)
                    }
                }
            },
            SearchResult::Descent { edge_index } => {
                let i = edge_index;
                proof {
                    lemma_descend(es, cs, i as int, key);
                    assert(to_map(s0).contains_key(key));
                    assert(has_key(cs[i as int], key));
                }
                if self.depth == 0 {
                    proof {
                        let q = choose|q: int| 0 <= q < cs[i as int].len() && #[trigger] cs[i as int][q].0 == key;
                        assert(cs[i as int].len() == 0);
                    }
                    return vstd::pervasive::unreached();
                }
                self.remove_in_child(i, key)
            },
        }
    }

    /// Removes the pair at `i` from a leaf.
    fn remove_in_leaf(&mut self, i: usize) -> (value: V)
        requires
            old(self).depth == 0,
            tree_ok(*old(self), 0),
            i < old(self).keys@.len(),
        ensures
            final(self).depth == 0,
            tree_ok(*final(self), 0),
            final(self).keys@.len() + 1 == old(self).keys@.len(),
            removed_from(inorder(*old(self), 0), inorder(*final(self), 0), old(self).keys@[i as int], value),
    {
        let ghost old_node = *self;
        let ghost es = pairs(self.keys@, self.values@);
        let ghost cs = kids(*self, 0);
        let _ = self.keys.remove(i);
        let value = self.values.remove(i);
        proof {
            lemma_flat_empty_kids(es, cs);
            lemma_flat_empty_kids(pairs(self.keys@, self.values@), kids(*self, 0));
            assert(pairs(self.keys@, self.values@) =~= es.remove(i as int));
            assert(inorder(old_node, 0)[i as int].0 == old_node.keys@[i as int]);
        }
        value
    }

    /// Replaces the pair at `i` of an inner node by the greatest pair of its
    /// left subtree, whose rightmost leaf holds more than one key.
    #[verifier::spinoff_prover]
    fn remove_by_predecessor(&mut self, i: usize) -> (value: V)
        requires
            old(self).depth > 0,
            tree_ok(*old(self), old(self).depth as nat),
            i < old(self).keys@.len(),
            rightmost_len(*old(self).edges@[i as int], (old(self).depth - 1) as nat) >= 2,
        ensures
            final(self).depth == old(self).depth,
            tree_ok(*final(self), old(self).depth as nat),
            final(self).keys@.len() == old(self).keys@.len(),
            removed_from(
                inorder(*old(self), old(self).depth as nat),
                inorder(*final(self), old(self).depth as nat),
                old(self).keys@[i as int],
                value,
            ),
    {
        let ghost old_node = *self;
        let ghost d = self.depth as nat;
        let ghost es = pairs(self.keys@, self.values@);
        let ghost cs = kids(*self, d);
        let ghost s0 = inorder(old_node, d);
        proof {
            assert(edges_ok(old_node, d));
            assert(old_node.edges@[i as int].keys@.len() >= 1);
            lemma_flat_pair(es, cs, i as int);
        }
        let mut left = self.edges.remove(i);
        let (k, v) = left.remove_max();
        self.edges.insert(i, left);
        let _ = self.keys.remove(i);
        self.keys.insert(i, k);
        let value = self.values.remove(i);
        self.values.insert(i, v);
        proof {
            let c1 = inorder(*left, (d - 1) as nat);
            let p = pair_pos(es, cs, i as int);
            assert(self.edges@ =~= old_node.edges@.update(i as int, left));
            assert(kids(*self, d) =~= cs.update(i as int, c1).update(i + 1, cs[i + 1]));
            assert(pairs(self.keys@, self.values@) =~= es.update(i as int, (k, v)));
            lemma_flat_rotate(es, cs, i as int, c1, (k, v), cs[i + 1]);
            lemma_flat_two(es, cs, i as int);
            assert(cs[i as int] =~= c1.push((k, v)));
            assert(inorder(*self, d) =~= s0.remove(p));
            assert(s0[p].0 == old_node.keys@[i as int]);
            assert forall|j: int| 0 <= j < self.edges@.len() implies #[trigger] self.edges@[j].keys@.len() >= 1
                && tree_ok(*self.edges@[j], (d - 1) as nat) by {
                if j != i {
                    assert(self.edges@[j] == old_node.edges@[j]);
                }
            }
        }
        value
    }

    /// Replaces the pair at `i` of an inner node by the smallest pair of its
    /// right subtree, repairing that subtree when it becomes empty.
    #[verifier::spinoff_prover]
    fn remove_by_successor(&mut self, i: usize) -> (value: V)
        requires
            old(self).depth > 0,
            tree_ok(*old(self), old(self).depth as nat),
            i < old(self).keys@.len(),
        ensures
            final(self).depth == old(self).depth,
            tree_ok(*final(self), old(self).depth as nat),
            final(self).keys@.len() + 1 >= old(self).keys@.len(),
            removed_from(
                inorder(*old(self), old(self).depth as nat),
                inorder(*final(self), old(self).depth as nat),
                old(self).keys@[i as int],
                value,
            ),
    {
        let ghost old_node = *self;
        let ghost d = self.depth as nat;
        let ghost es = pairs(self.keys@, self.values@);
        let ghost cs = kids(*self, d);
        let ghost s0 = inorder(old_node, d);
        proof {
            assert(edges_ok(old_node, d));
            assert(old_node.edges@[i + 1].keys@.len() >= 1);
            lemma_flat_pair(es, cs, i as int);
        }
        let mut right = self.edges.remove(i + 1);
        let (k, v) = right.remove_min();
        let emptied = right.keys.len() == 0;
        self.edges.insert(i + 1, right);
        let _ = self.keys.remove(i);
        self.keys.insert(i, k);
        let value = self.values.remove(i);
        self.values.insert(i, v);
        proof {
            let c1 = inorder(*right, (d - 1) as nat);
            let p = pair_pos(es, cs, i as int);
            assert(self.edges@ =~= old_node.edges@.update(i + 1, right));
            assert(kids(*self, d) =~= cs.update(i as int, cs[i as int]).update(i + 1, c1));
            assert(pairs(self.keys@, self.values@) =~= es.update(i as int, (k, v)));
            lemma_flat_rotate(es, cs, i as int, cs[i as int], (k, v), c1);
            lemma_flat_two(es, cs, i as int);
            assert(cs[i + 1] =~= seq![(k, v)] + c1);
            assert(inorder(*self, d) =~= s0.remove(p));
            assert(s0[p].0 == old_node.keys@[i as int]);
            assert forall|j: int| 0 <= j < self.edges@.len() && j != i + 1 implies #[trigger] self.edges@[j].keys@.len() >= 1
                && tree_ok(*self.edges@[j], (d - 1) as nat) by {
                assert(self.edges@[j] == old_node.edges@[j]);
            }
        }
        if emptied {
            self.fill_empty_child(i + 1);
        }
        value
    }

    /// Removes `key` from the subtree at edge `i`, which holds it, repairing
    /// that subtree when it becomes empty.
    #[verifier::spinoff_prover]
    fn remove_in_child(&mut self, i: usize, key: u64) -> (value: V)
        requires
            old(self).depth > 0,
            tree_ok(*old(self), old(self).depth as nat),
            i <= old(self).keys@.len(),
            old(self).keys@.len() >= 1,
            sorted(kids(*old(self), old(self).depth as nat)[i as int]),
            has_key(kids(*old(self), old(self).depth as nat)[i as int], key),
        ensures
            final(self).depth == old(self).depth,
            tree_ok(*final(self), old(self).depth as nat),
            final(self).keys@.len() + 1 >= old(self).keys@.len(),
            removed_from(
                inorder(*old(self), old(self).depth as nat),
                inorder(*final(self), old(self).depth as nat),
                key,
                value,
            ),
        decreases old(self).depth, 0nat,
    {
        let ghost old_node = *self;
        let ghost d = self.depth as nat;
        let ghost es = pairs(self.keys@, self.values@);
        let ghost cs = kids(*self, d);
        let ghost s0 = inorder(old_node, d);
        proof {
            assert(edges_ok(old_node, d));
            assert(old_node.edges@[i as int].keys@.len() >= 1);
        }
        let mut child = self.edges.remove(i);
        proof {
            assert(*child == *old_node.edges@[i as int]);
            assert(tree_ok(*child, (d - 1) as nat));
            assert(inorder(*child, (d - 1) as nat) == cs[i as int]);
        }
        let value = child.remove_recursive(key);
        let emptied = child.keys.len() == 0;
        self.edges.insert(i, child);
        proof {
            let c0 = cs[i as int];
            let c1 = inorder(*child, (d - 1) as nat);
            let q = choose|q: int| 0 <= q < c0.len() && #[trigger] c0[q].0 == key && c1 == c0.remove(q) && value == c0[q].1;
            let b = before(es, cs, i as int);
            assert(self.edges@ =~= old_node.edges@.update(i as int, child));
            assert(kids(*self, d) =~= cs.update(i as int, c1));
            lemma_flat_update(es, cs, i as int, c1);
            lemma_flat_split(es, cs, i as int);
            assert(inorder(*self, d) =~= s0.remove(b.len() + q));
            assert(s0[b.len() + q] == c0[q]);
            assert forall|j: int| 0 <= j < self.edges@.len() && j != i implies #[trigger] self.edges@[j].keys@.len() >= 1
                && tree_ok(*self.edges@[j], (d - 1) as nat) by {
                assert(self.edges@[j] == old_node.edges@[j]);
            }
        }
        if emptied {
            self.fill_empty_child(i);
        }
        value
    }

    /// Inserts a key that the subtree does not hold into the leaf where it
    /// belongs and splits the full nodes on the way back up.
    #[verifier::spinoff_prover]
    #[verifier::rlimit(50)]
    fn insert_recursive(&mut self, key: u64, value: V) -> (r: InsertResult<u64, V>)
        requires
            tree_ok(*old(self), old(self).depth as nat),
            sorted(inorder(*old(self), old(self).depth as nat)),
            !has_key(inorder(*old(self), old(self).depth as nat), key),
        ensures
            final(self).depth == old(self).depth,
            result_ok(*final(self), r),
            sorted(result_seq(*final(self), r)),
            exists|p: int|
                0 <= p <= inorder(*old(self), old(self).depth as nat).len() && result_seq(
                    *final(self),
                    r,
                ) == inorder(*old(self), old(self).depth as nat).insert(p, (key, value)),
            r is Fitted ==> final(self).keys@.len() >= old(self).keys@.len(),
            r is Splitted <==> path_full(*old(self), old(self).depth as nat, key),
        decreases old(self).depth,
    {
        let ghost old_node = *self;
        let ghost d = self.depth as nat;
        let ghost es = pairs(self.keys@, self.values@);
        let ghost cs = kids(*self, d);
        let ghost x = (key, value);
        match self.search_in_node(key) {
            SearchResult::Found { value_index } => {
                proof {
                    lemma_flat_pair(es, cs, value_index as int);
                    assert(inorder(old_node, d)[pair_pos(es, cs, value_index as int)].0 == key);
                }
                InsertResult::Fitted
            },
            SearchResult::Descent { edge_index } => {
                let i = edge_index;
                proof {
                    lemma_flat_split(es, cs, i as int);
                    lemma_before_below(es, cs, i as int, x);
                    lemma_after_above(es, cs, i as int, x);
                    lemma_descend(es, cs, i as int, key);
                }
                if self.depth == 0 {
                    let r = self.insert_leaf(i, key, value);
                    proof {
                        let b = before(es, cs, i as int);
                        let a = after(es, cs, i as int);
                        lemma_flat_empty_kids(es, cs);
                        assert(b.len() == i) by {
                            if i > 0 {
                                lemma_flat_empty_kids(es.take(i - 1), cs.take(i as int));
                            }
                        }
                        assert(es =~= b + cs[i as int] + a);
                        lemma_insert_mid(b, cs[i as int], a, 0, x);
                        assert(cs[i as int].insert(0, x) =~= seq![x]);
                    }
                    return r;
                }
                let mut child = self.edges.remove(i);
                let ghost c0 = *child;
                proof {
                    assert(c0 == *old_node.edges@[i as int]);
                    assert(edges_ok(old_node, d));
                    assert(old_node.edges@[i as int].keys@.len() >= 1);
                    assert(tree_ok(c0, (d - 1) as nat));
                    assert(c0.depth == d - 1);
                    assert(inorder(c0, (d - 1) as nat) == cs[i as int]);
                }
                let r = child.insert_recursive(key, value);
                match r {
                    InsertResult::Fitted => {
                        self.edges.insert(i, child);
                        proof {
                            let c1 = inorder(*child, (d - 1) as nat);
                            let p = choose|p: int|
                                0 <= p <= cs[i as int].len() && c1 == cs[i as int].insert(p, x);
                            assert(self.edges@ =~= old_node.edges@.update(i as int, child));
                            assert(kids(*self, d) =~= cs.update(i as int, c1));
                            lemma_flat_update(es, cs, i as int, c1);
                            lemma_insert_mid(before(es, cs, i as int), cs[i as int], after(es, cs, i as int), p, x);
                            assert(pairs(self.keys@, self.values@) == es);
                            assert forall|j: int| 0 <= j < self.edges@.len() implies #[trigger] self.edges@[j].keys@.len() >= 1
                                && tree_ok(*self.edges@[j], (d - 1) as nat) by {
                                if j != i {
                                    assert(self.edges@[j] == old_node.edges@[j]);
                                }
                            }
                        }
                        InsertResult::Fitted
                    },
                    InsertResult::Splitted { parent, right } => {
                        self.edges.insert(i, child);
                        let ghost mid_node = *self;
                        let ghost l = inorder(*child, (d - 1) as nat);
                        let ghost rs = inorder(*right, (d - 1) as nat);
                        proof {
                            assert(self.edges@ =~= old_node.edges@.update(i as int, child));
                            assert(kids(*self, d) =~= cs.update(i as int, l));
                            assert forall|j: int| 0 <= j < self.edges@.len() implies #[trigger] self.edges@[j].keys@.len() >= 1
                                && tree_ok(*self.edges@[j], (d - 1) as nat) by {
                                if j != i {
                                    assert(self.edges@[j] == old_node.edges@[j]);
                                }
                            }
                        }
                        let (k, v) = parent;
                        let r2 = self.insert_inner(i, k, v, right);
                        proof {
                            let c1 = l + seq![(k, v)] + rs;
                            let p = choose|p: int|
                                0 <= p <= cs[i as int].len() && c1 == cs[i as int].insert(p, x);
                            lemma_flat_insert_split(es, cs, i as int, l, (k, v), rs);
                            lemma_insert_mid(before(es, cs, i as int), cs[i as int], after(es, cs, i as int), p, x);
                            assert(before(es, cs, i as int) + l + seq![(k, v)] + rs + after(es, cs, i as int)
                                =~= before(es, cs, i as int) + c1 + after(es, cs, i as int));
                        }
                        r2
                    },
                }
            },
        }
    }
}


impl<V> Node<u64, V> {
    /// The number of pairs in the subtree.
    fn count_pairs(&self) -> (count: usize)
        requires
            tree_ok(*self, self.depth as nat),
            inorder(*self, self.depth as nat).len() <= usize::MAX,
        ensures
            count == inorder(*self, self.depth as nat).len(),
        decreases self.depth,
    {
        let ghost d = self.depth as nat;
        let ghost es = pairs(self.keys@, self.values@);
        let ghost cs = kids(*self, d);
        if self.depth == 0 {
            proof {
                lemma_flat_empty_kids(es, cs);
            }
            return self.keys.len();
        }
        proof {
            assert(edges_ok(*self, d));
        }
        let size = self.keys.len();
        let mut count: usize = 0;
        let mut j: usize = 0;
        while j < size
            invariant
                size == self.keys@.len(),
                self.edges@.len() == size + 1,
                d == self.depth,
                d > 0,
                es == pairs(self.keys@, self.values@),
                cs == kids(*self, d),
                edges_ok(*self, d),
                flat(es, cs).len() <= usize::MAX,
                j <= size,
                count == before(es, cs, j as int).len(),
            decreases size - j,
        {
            proof {
                lemma_before_step(es, cs, j as int);
                lemma_flat_split(es, cs, (j + 1) as int);
                assert(self.edges@[j as int].keys@.len() >= 1);
            }
            let c = self.edges[j].count_pairs();
            count = count + c + 1;
            j = j + 1;
        }
        proof {
            lemma_flat_split(es, cs, size as int);
            assert(self.edges@[size as int].keys@.len() >= 1);
        }
        let c = self.edges[size].count_pairs();
        count + c
    }
}

/// A map kept as a B-tree: every node holds at most `B_MAX_NODES` keys,
/// every node but the root at least one, an inner node one edge more than
/// keys, all leaves lie at the same depth, and the keys are in order.
pub struct BTree<K, V> {
    /// The root node; the tree's depth is the root's.
    pub root: Box<Node<K, V>>,
    /// The number of pairs in the tree.
    pub size: usize,
}

impl<V> BTree<u64, V> {
    /// The number of levels below the root.
    pub open spec fn depth(&self) -> nat {
        self.root.depth as nat
    }

    /// Every node on the path that a search for `key` takes from the root
    /// is full.
    pub open spec fn search_path_full(&self, key: u64) -> bool {
        path_full(*self.root, self.root.depth as nat, key)
    }

    /// The pairs of the tree, in order.
    pub open spec fn seq(&self) -> Seq<(u64, V)> {
        inorder(*self.root, self.root.depth as nat)
    }

    fn find(&self, key: u64) -> (r: Option<&V>)
        requires
            self.wf(),
        ensures
            r == (if self.entries().contains_key(key) {
                Some(&self.entries()[key])
            } else {
                None
            }),
    {
        let mut current: &Node<u64, V> = &*self.root;
        loop
            invariant
                tree_ok(*current, current.depth as nat),
                sorted(inorder(*current, current.depth as nat)),
                to_map(self.seq()).contains_key(key) == to_map(inorder(*current, current.depth as nat)).contains_key(key),
                to_map(self.seq()).contains_key(key) ==> to_map(self.seq())[key] == to_map(
                    inorder(*current, current.depth as nat),
                )[key],
            decreases current.depth,
        {
            let ghost d = current.depth as nat;
            let ghost es = pairs(current.keys@, current.values@);
            let ghost cs = kids(*current, d);
            match current.search_in_node(key) {
                SearchResult::Found { value_index } => {
                    proof {
                        lemma_flat_pair(es, cs, value_index as int);
                        lemma_to_map_at(inorder(*current, d), pair_pos(es, cs, value_index as int));
                    }
                    return Some(&current.values[value_index]);
                },
                SearchResult::Descent { edge_index } => {
                    proof {
                        lemma_descend(es, cs, edge_index as int, key);
                    }
                    if current.depth == 0 {
                        proof {
                            assert(cs[edge_index as int].len() == 0);
                            assert(!has_key(cs[edge_index as int], key));
                        }
                        return None;
                    }
                    proof {
                        assert(edges_ok(*current, d));
                        assert(current.edges@[edge_index as int].keys@.len() >= 1);
                    }
                    current = &*current.edges[edge_index];
                },
            }
        }
    }

    /// Checks the invariant of the tree: the pairs that its nodes hold add up
    /// to its size. The shape and the order of the keys are part of `wf`.
    pub fn assert_invariant(&self)
        requires
            self.wf(),
    {
        let count = self.root.count_pairs();
        assert(count == self.size);
    }
}

impl<V> SequentialMap<u64, V> for BTree<u64, V> {
    open spec fn entries(&self) -> Map<u64, V> {
        to_map(self.seq())
    }

    open spec fn wf(&self) -> bool {
        &&& tree_ok(*self.root, self.root.depth as nat)
        &&& self.root.depth > 0 ==> self.root.keys@.len() >= 1
        &&& sorted(self.seq())
        &&& self.size == self.seq().len()
    }

    fn new() -> (map: Self) {
        let map = BTree { root: Box::new(Node::new()), size: 0 };
        proof {
            lemma_flat_empty_kids(pairs(map.root.keys@, map.root.values@), kids(*map.root, 0));
            assert(map.seq().len() == 0);
            assert(map.entries() =~= Map::<u64, V>::empty());
        }
        map
    }

    /// The tree grows one level deeper exactly where every node on the
    /// search path of a new key was full.
    fn insert(&mut self, key: &u64, value: V) -> (result: Result<(), V>)
        ensures
            final(self).depth() == old(self).depth() + if !old(self).entries().contains_key(*key)
                && old(self).search_path_full(*key) {
                1nat
            } else {
                0nat
            },
    {
        proof {
            lemma_to_map_len(self.seq());
        }
        if self.find(*key).is_some() {
            return Err(value);
        }
        let ghost s0 = self.seq();
        let ghost d = self.root.depth as nat;
        proof {
            if self.root.keys@.len() >= 1 {
                lemma_inorder_len(*self.root, d);
            }
            assert(d < usize::MAX);
        }
        match self.root.insert_recursive(*key, value) {
            InsertResult::Fitted => {},
            InsertResult::Splitted { parent, right } => {
                let (k, v) = parent;
                let mut keys = Vec::new();
                keys.push(k);
                let mut values = Vec::new();
                values.push(v);
                let mut new_root = Box::new(
                    Node { depth: self.root.depth + 1, keys, values, edges: Vec::new() },
                );
                let ghost l = inorder(*self.root, d);
                let ghost rs = inorder(*right, d);
                std::mem::swap(&mut self.root, &mut new_root);
                self.root.edges.push(new_root);
                self.root.edges.push(right);
                proof {
                    assert(pairs(self.root.keys@, self.root.values@) =~= seq![(k, v)]);
                    assert(kids(*self.root, d + 1) =~= seq![l, rs]);
                    lemma_flat_one((k, v), l, rs);
                    assert forall|j: int| 0 <= j < self.root.edges@.len() implies #[trigger] self.root.edges@[j].keys@.len()
                        >= 1 && tree_ok(*self.root.edges@[j], d) by {}
                }
            },
        }
        proof {
            let s1 = self.seq();
            let p = choose|p: int| 0 <= p <= s0.len() && s1 == s0.insert(p, (*key, value));
            lemma_to_map_insert(s0, p, (*key, value));
        }
        self.size = self.size + 1;
        Ok(())
    }

    fn lookup(&self, key: &u64) -> (result: Option<&V>) {
        self.find(*key)
    }

    fn remove(&mut self, key: &u64) -> (result: Result<V, ()>) {
        proof {
            lemma_to_map_len(self.seq());
        }
        if self.find(*key).is_none() {
            return Err(());
        }
        let ghost s0 = self.seq();
        let value = self.root.remove_recursive(*key);
        let ghost s1 = inorder(*self.root, self.root.depth as nat);
        if self.root.depth > 0 && self.root.keys.len() == 0 {
            proof {
                lemma_empty_node(*self.root, self.root.depth as nat);
                assert(edges_ok(*self.root, self.root.depth as nat));
                assert(self.root.edges@[0].keys@.len() >= 1);
            }
            let child = self.root.edges.pop().unwrap();
            self.root = child;
        }
        proof {
            assert(self.seq() == s1);
            let p = choose|p: int|
                0 <= p < s0.len() && #[trigger] s0[p].0 == *key && s1 == s0.remove(p) && value == s0[p].1;
            lemma_to_map_remove(s0, p);
            lemma_to_map_at(s0, p);
            lemma_to_map_len(s1);
        }
        self.size = self.size - 1;
        Ok(value)
    }
}

} // verus!
