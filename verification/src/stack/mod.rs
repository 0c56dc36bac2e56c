//! Stacks. The sequential `Stack` lives here; the concurrent stacks that
//! share it implement `ConcurrentStack`.
pub mod stack;

use vstd::prelude::*;

verus! {

/// A stack that several threads may use at once.
pub trait ConcurrentStack<V>: Sized {
    fn new() -> Self;

    fn push(&self, value: V);

    /// Non-blocking pop that can return `None` when the stack is observed
    /// as empty.
    fn try_pop(&self) -> Option<V>;

    /// Blocking pop that waits until there is a value to return.
    fn pop(&self) -> V;
}

/// A simple sequential stack, kept as a singly linked list from the top.
pub struct Stack<V> {
    head: Option<Box<Node<V>>>,
}

struct Node<V> {
    value: V,
    next: Option<Box<Node<V>>>,
}

/// The values of a list, from its first node on.
spec fn list_seq<V>(link: Option<Box<Node<V>>>) -> Seq<V>
    decreases link,
{
    match link {
        None => Seq::empty(),
        Some(node) => seq![node.value] + list_seq(node.next),
    }
}

impl<V> Node<V> {
    fn new(value: V) -> (node: Node<V>)
        ensures
            node.value == value,
            node.next is None,
    {
        Node { value, next: None }
    }
}

impl<V> Stack<V> {
    /// The values on the stack, the top first.
    pub closed spec fn items(&self) -> Seq<V> {
        list_seq(self.head)
    }

    pub fn new() -> (stack: Stack<V>)
        ensures
            stack.items() == Seq::<V>::empty(),
    {
        Stack { head: None }
    }

    pub fn is_empty(&self) -> (empty: bool)
        ensures
            empty == (self.items().len() == 0),
    {
        self.head.is_none()
    }

    /// The value on top, if any.
    pub fn top(&self) -> (top: Option<&V>)
        ensures
            top == (if self.items().len() > 0 {
                Some(&self.items()[0])
            } else {
                None
            }),
    {
        match &self.head {
            Some(node) => Some(&node.value),
            None => None,
        }
    }

    pub fn push(&mut self, value: V)
        ensures
            final(self).items() == seq![value] + old(self).items(),
    {
        let mut node = Box::new(Node::new(value));
        node.next = self.head.take();
        self.head = Some(node);
    }

    /// Takes the value on top, if any.
    pub fn pop(&mut self) -> (top: Option<V>)
        ensures
            old(self).items().len() == 0 ==> top is None && final(self).items() == old(self).items(),
            old(self).items().len() > 0 ==> top == Some(old(self).items()[0]) && final(self).items()
                == old(self).items().drop_first(),
    {
        match self.head.take() {
            Some(node) => {
                let node = *node;
                self.head = node.next;
                proof {
                    assert(list_seq(self.head) =~= old(self).items().drop_first());
                }
                Some(node.value)
            },
            None => None,
        }
    }
}

} // verus!
