//! Queues. `Queue` and `FatNodeQueue` are sequential; the concurrent queues
//! that wrap them implement `ConcurrentQueue`.
pub mod fclock;
pub mod queue;

use std::collections::VecDeque;
use vstd::prelude::*;

verus! {

/// A first-in first-out queue that one thread owns.
pub trait SequentialQueue<V>: Sized {
    /// The values in the queue, the oldest first.
    spec fn items(&self) -> Seq<V>;

    spec fn wf(&self) -> bool;

    fn new() -> (queue: Self)
        ensures
            queue.wf(),
            queue.items() == Seq::<V>::empty(),
    ;

    fn push(&mut self, value: V)
        requires
            old(self).wf(),
        ensures
            final(self).wf(),
            final(self).items() == old(self).items().push(value),
    ;

    fn pop(&mut self) -> (value: Option<V>)
        requires
            old(self).wf(),
        ensures
            final(self).wf(),
            old(self).items().len() == 0 ==> value is None && final(self).items() == old(self).items(),
            old(self).items().len() > 0 ==> value == Some(old(self).items()[0]) && final(self).items() == old(self).items().drop_first(),
    ;
}

/// A queue that several threads may use at once.
pub trait ConcurrentQueue<V>: Sized {
    fn new() -> Self;

    fn push(&self, value: V);

    /// Non-blocking pop that can return `None` when the queue is observed as
    /// empty.
    fn try_pop(&self) -> Option<V>;

    /// Blocking pop that waits until there is a value to return.
    fn pop(&self) -> V;
}

/// A simple sequential queue.
pub struct Queue<V> {
    values: VecDeque<V>,
}

impl<V> Queue<V> {
    pub fn is_empty(&self) -> (empty: bool)
        requires
            self.wf(),
        ensures
            empty == (self.items().len() == 0),
    {
        self.values.len() == 0
    }

    /// The oldest value, if any.
    pub fn top(&self) -> (top: Option<&V>)
        requires
            self.wf(),
        ensures
            top == (if self.items().len() > 0 {
                Some(&self.items()[0])
            } else {
                None
            }),
    {
        if self.values.len() == 0 {
            None
        } else {
            Some(&self.values[0])
        }
    }
}

impl<V> SequentialQueue<V> for Queue<V> {
    closed spec fn items(&self) -> Seq<V> {
        self.values@
    }

    closed spec fn wf(&self) -> bool {
        true
    }

    fn new() -> (queue: Self) {
        Queue { values: VecDeque::new() }
    }

    fn push(&mut self, value: V) {
        self.values.push_back(value);
    }

    fn pop(&mut self) -> (value: Option<V>) {
        let value = self.values.pop_front();
        proof {
            assert(old(self).values@.subrange(1, old(self).values@.len() as int) =~= old(self).values@.drop_first());
        }
        value
    }
}

/// How many values one fat node holds.
pub const FAT_SIZE: u8 = 16;

/// A queue that keeps its values in fat nodes of `FAT_SIZE` slots each.
pub struct FatNodeQueue<V> {
    nodes: VecDeque<FatNode<V>>,
}

/// A fat node: `head` counts the values taken from it, `tail` the values
/// put into it; `values` holds those in between.
struct FatNode<V> {
    head: u8,
    tail: u8,
    values: VecDeque<V>,
}

impl<V> FatNode<V> {
    fn new() -> (node: Self)
        ensures
            node.head == 0,
            node.tail == 0,
            node.values@.len() == 0,
    {
        FatNode { head: 0, tail: 0, values: VecDeque::new() }
    }
}

/// The values of the fat nodes, in order.
spec fn fat_seq<V>(nodes: Seq<FatNode<V>>) -> Seq<V>
    decreases nodes.len(),
{
    if nodes.len() == 0 {
        Seq::empty()
    } else {
        fat_seq(nodes.drop_last()) + nodes.last().values@
    }
}

proof fn lemma_fat_seq_front<V>(nodes: Seq<FatNode<V>>)
    requires
        nodes.len() > 0,
    ensures
        fat_seq(nodes) == nodes[0].values@ + fat_seq(nodes.drop_first()),
    decreases nodes.len(),
{
    if nodes.len() == 1 {
        assert(nodes.drop_first() =~= Seq::<FatNode<V>>::empty());
        assert(nodes.drop_last() =~= Seq::<FatNode<V>>::empty());
        assert(fat_seq(nodes) =~= nodes[0].values@ + fat_seq(nodes.drop_first()));
    } else {
        lemma_fat_seq_front(nodes.drop_last());
        assert(nodes.drop_last().drop_first() =~= nodes.drop_first().drop_last());
        assert(nodes.drop_first().last() == nodes.last());
        assert(fat_seq(nodes) =~= nodes[0].values@ + fat_seq(nodes.drop_first()));
    }
}

/// One fat node in shape: it has taken fewer values than it has slots, has
/// put in no more than it has slots, and holds what it has put in but not
/// yet handed out.
spec fn fat_node_ok<V>(n: FatNode<V>) -> bool {
    &&& n.head <= n.tail <= FAT_SIZE
    &&& n.head < FAT_SIZE
    &&& n.values@.len() == n.tail - n.head
}

impl<V> FatNodeQueue<V> {
    pub fn is_empty(&self) -> (empty: bool)
        requires
            self.wf(),
        ensures
            empty == (self.items().len() == 0),
    {
        proof {
            if self.nodes@.len() > 0 {
                lemma_fat_seq_front(self.nodes@);
                if self.nodes@.len() > 1 {
                    assert(self.nodes@.drop_first()[0] == self.nodes@[1]);
                    lemma_fat_seq_front(self.nodes@.drop_first());
                }
            }
        }
        if self.nodes.len() > 0 {
            let first = &self.nodes[0];
            if first.head != first.tail {
                return false;
            }
        }
        true
    }

    /// The oldest value, if any.
    pub fn top(&self) -> (top: Option<&V>)
        requires
            self.wf(),
        ensures
            top == (if self.items().len() > 0 {
                Some(&self.items()[0])
            } else {
                None
            }),
    {
        proof {
            if self.nodes@.len() > 0 {
                lemma_fat_seq_front(self.nodes@);
                if self.nodes@.len() > 1 {
                    assert(self.nodes@.drop_first()[0] == self.nodes@[1]);
                    lemma_fat_seq_front(self.nodes@.drop_first());
                }
            }
        }
        if self.nodes.len() > 0 {
            let first = &self.nodes[0];
            if first.head != first.tail {
                return Some(&first.values[0]);
            }
        }
        None
    }
}

impl<V> SequentialQueue<V> for FatNodeQueue<V> {
    closed spec fn items(&self) -> Seq<V> {
        fat_seq(self.nodes@)
    }

    /// Every node is in shape, every node but the last is full, and every
    /// node but the first has handed out nothing.
    closed spec fn wf(&self) -> bool {
        &&& forall|i: int| 0 <= i < self.nodes@.len() ==> fat_node_ok(#[trigger] self.nodes@[i])
        &&& forall|i: int| 0 <= i < self.nodes@.len() - 1 ==> #[trigger] self.nodes@[i].tail == FAT_SIZE
        &&& forall|i: int| 0 < i < self.nodes@.len() ==> #[trigger] self.nodes@[i].head == 0
    }

    fn new() -> (queue: Self) {
        let queue = FatNodeQueue { nodes: VecDeque::new() };
        assert(queue.items() =~= Seq::<V>::empty());
        queue
    }

    fn push(&mut self, value: V) {
        let ghost old_nodes = self.nodes@;
        let len = self.nodes.len();
        if len > 0 && self.nodes[len - 1].tail < FAT_SIZE {
            let mut last = self.nodes.pop_back().unwrap();
            last.values.push_back(value);
            last.tail = last.tail + 1;
            self.nodes.push_back(last);
            proof {
                assert(old_nodes.subrange(0, old_nodes.len() - 1) =~= old_nodes.drop_last());
                assert(self.nodes@.drop_last() =~= old_nodes.drop_last());
                assert(fat_seq(self.nodes@) =~= fat_seq(old_nodes).push(value));
            }
            return;
        }
        let mut node = FatNode::new();
        node.values.push_back(value);
        node.tail = 1;
        self.nodes.push_back(node);
        proof {
            assert(self.nodes@.drop_last() =~= old_nodes);
            assert(fat_seq(self.nodes@) =~= fat_seq(old_nodes).push(value));
        }
    }

    fn pop(&mut self) -> (value: Option<V>) {
        let ghost old_nodes = self.nodes@;
        if self.nodes.len() == 0 {
            return None;
        }
        proof {
            lemma_fat_seq_front(old_nodes);
            assert(fat_node_ok(old_nodes[0]));
        }
        if self.nodes[0].head == self.nodes[0].tail {
            proof {
                if old_nodes.len() > 1 {
                    assert(old_nodes.drop_first()[0] == old_nodes[1]);
                    assert(fat_node_ok(old_nodes[1]));
                    lemma_fat_seq_front(old_nodes.drop_first());
                }
            }
            return None;
        }
        let mut first = self.nodes.pop_front().unwrap();
        let value = first.values.pop_front();
        first.head = first.head + 1;
        if first.head < FAT_SIZE {
            self.nodes.push_front(first);
            proof {
                assert(old_nodes.subrange(1, old_nodes.len() as int) =~= old_nodes.drop_first());
                assert(self.nodes@.drop_first() =~= old_nodes.drop_first());
                lemma_fat_seq_front(self.nodes@);
                assert(first.values@ =~= old_nodes[0].values@.drop_first());
                assert(fat_seq(self.nodes@) =~= fat_seq(old_nodes).drop_first());
            }
        } else {
            proof {
                assert(old_nodes.subrange(1, old_nodes.len() as int) =~= old_nodes.drop_first());
                assert(first.values@.len() == 0);
                assert(old_nodes[0].values@.len() == 1);
                assert(fat_seq(self.nodes@) =~= fat_seq(old_nodes).drop_first());
            }
        }
        value
    }
}

} // verus!
