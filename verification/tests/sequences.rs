use cds::lock::fclock::FlatCombining;
use cds::queue::fclock::QueueOp;
use cds::queue::queue::Queue as SimpleQueue;
use cds::queue::{FatNodeQueue, Queue, SequentialQueue};
use cds::stack::stack::Stack as SimpleStack;
use cds::stack::Stack;
use std::collections::VecDeque;

#[test]
fn stack_is_last_in_first_out() {
    let mut stack = Stack::new();
    assert!(stack.is_empty());
    assert_eq!(stack.top(), None);
    stack.push(1);
    stack.push(2);
    stack.push(3);
    assert_eq!(stack.top(), Some(&3));
    assert_eq!(stack.pop(), Some(3));
    assert_eq!(stack.pop(), Some(2));
    stack.push(4);
    assert_eq!(stack.pop(), Some(4));
    assert_eq!(stack.pop(), Some(1));
    assert_eq!(stack.pop(), None);
    assert!(stack.is_empty());
}

#[test]
fn simple_stack_is_last_in_first_out() {
    let mut stack = SimpleStack::new();
    stack.push("a");
    stack.push("b");
    assert_eq!(stack.top(), Some(&"b"));
    assert_eq!(stack.pop(), Some("b"));
    assert_eq!(stack.pop(), Some("a"));
    assert_eq!(stack.pop(), None);
}

#[test]
fn simple_queue_is_first_in_first_out() {
    let mut queue = SimpleQueue::new();
    assert!(queue.is_empty());
    queue.push(1);
    queue.push(2);
    assert_eq!(queue.top(), Some(&1));
    assert_eq!(queue.pop(), Some(1));
    assert_eq!(queue.pop(), Some(2));
    assert_eq!(queue.pop(), None);
}

fn fifo_agrees_with_reference<Q: SequentialQueue<u64>>(ops: u64) {
    let mut queue = Q::new();
    let mut reference = VecDeque::new();
    let mut state: u64 = 11;
    for i in 0..ops {
        state = state.wrapping_mul(6364136223846793005).wrapping_add(1);
        if (state >> 40) % 3 == 0 {
            assert_eq!(queue.pop(), reference.pop_front());
        } else {
            queue.push(i);
            reference.push_back(i);
        }
    }
    while let Some(v) = reference.pop_front() {
        assert_eq!(queue.pop(), Some(v));
    }
    assert_eq!(queue.pop(), None);
}

#[test]
fn queue_agrees_with_vecdeque() {
    fifo_agrees_with_reference::<Queue<u64>>(10000);
}

#[test]
fn fat_node_queue_agrees_with_vecdeque() {
    fifo_agrees_with_reference::<FatNodeQueue<u64>>(10000);
}

#[test]
fn fat_node_queue_crosses_node_boundaries() {
    let mut queue: FatNodeQueue<u64> = FatNodeQueue::new();
    for i in 0..40 {
        queue.push(i);
    }
    assert_eq!(queue.top(), Some(&0));
    for i in 0..40 {
        assert!(!queue.is_empty());
        assert_eq!(queue.pop(), Some(i));
    }
    assert!(queue.is_empty());
    assert_eq!(queue.top(), None);
    assert_eq!(queue.pop(), None);
    queue.push(100);
    assert_eq!(queue.top(), Some(&100));
}

#[test]
fn flat_combining_applies_requests_to_the_queue() {
    let mut queue: Queue<u64> = Queue::new();
    assert!(matches!(queue.apply(QueueOp::DeqRequest), QueueOp::DeqResponse(None)));
    assert!(matches!(queue.apply(QueueOp::EnqRequest(5)), QueueOp::EnqResponse));
    assert!(matches!(queue.apply(QueueOp::EnqRequest(6)), QueueOp::EnqResponse));
    assert!(matches!(queue.apply(QueueOp::DeqRequest), QueueOp::DeqResponse(Some(5))));
    assert_eq!(queue.pop(), Some(6));
}
