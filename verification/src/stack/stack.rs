//! A simple sequential stack of its own, kept as a singly linked list.
use vstd::prelude::*;

verus! {

/// A simple sequential stack, kept as a singly linked list from the top.
pub struct Stack<T> {
    head: Option<Box<Node<T>>>,
}

struct Node<T> {
    data: T,
    next: Option<Box<Node<T>>>,
}

/// The values of a list, from its first node on.
spec fn list_seq<T>(link: Option<Box<Node<T>>>) -> Seq<T>
    decreases link,
{
    match link {
        None => Seq::empty(),
        Some(node) => seq![node.data] + list_seq(node.next),
    }
}

impl<T> Node<T> {
    fn new(data: T) -> (node: Node<T>)
        ensures
            node.data == data,
            node.next is None,
    {
        Node { data, next: None }
    }
}

impl<T> Stack<T> {
    /// The values on the stack, the top first.
    pub closed spec fn items(&self) -> Seq<T> {
        list_seq(self.head)
    }

    pub fn new() -> (stack: Stack<T>)
        ensures
            stack.items() == Seq::<T>::empty(),
    {
        Stack { head: None }
    }

    pub fn is_empty(&self) -> (empty: bool)
        ensures
            empty == (self.items().len() == 0),
    {
        self.head.is_none()
    }

    /// The value on top, if any.
    pub fn top(&self) -> (top: Option<&T>)
        ensures
            top == (if self.items().len() > 0 {
                Some(&self.items()[0])
            } else {
                None
            }),
    {
        match &self.head {
            Some(node) => Some(&node.data),
            None => None,
        }
    }

    pub fn push(&mut self, data: T)
        ensures
            final(self).items() == seq![data] + old(self).items(),
    {
        let mut node = Box::new(Node::new(data));
        node.next = self.head.take();
        self.head = Some(node);
    }

    /// Takes the value on top, if any.
    pub fn pop(&mut self) -> (top: Option<T>)
        ensures
            old(self).items().len() == 0 ==> top is None && final(self).items() == old(self).items(),
            old(self).items().len() > 0 ==> top == Some(old(self).items()[0]) && final(self).items()
                == old(self).items().drop_first(),
    {
        match self.head.take() {
            Some(node) => {
                let node = *node;
                self.head = node.next;
                proof {
                    assert(list_seq(self.head) =~= old(self).items().drop_first());
                }
                Some(node.data)
            },
            None => None,
        }
    }
}

} // verus!
