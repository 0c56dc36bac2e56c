//! A simple sequential queue of its own.
use std::collections::VecDeque;
use vstd::prelude::*;

verus! {

/// A simple sequential first-in first-out queue.
pub struct Queue<T> {
    values: VecDeque<T>,
}

impl<T> Queue<T> {
    /// The values in the queue, the oldest first.
    pub closed spec fn items(&self) -> Seq<T> {
        self.values@
    }

    pub fn new() -> (queue: Queue<T>)
        ensures
            queue.items() == Seq::<T>::empty(),
    {
        Queue { values: VecDeque::new() }
    }

    pub fn is_empty(&self) -> (empty: bool)
        ensures
            empty == (self.items().len() == 0),
    {
        self.values.len() == 0
    }

    /// The oldest value, if any.
    pub fn top(&self) -> (top: Option<&T>)
        ensures
            top == (if self.items().len() > 0 {
                Some(&self.items()[0])
            } else {
                None
            }),
    {
        if self.values.len() == 0 {
            None
        } else {
            Some(&self.values[0])
        }
    }

    pub fn push(&mut self, data: T)
        ensures
            final(self).items() == old(self).items().push(data),
    {
        self.values.push_back(data);
    }

    /// Takes the oldest value, if any.
    pub fn pop(&mut self) -> (data: Option<T>)
        ensures
            old(self).items().len() == 0 ==> data is None && final(self).items() == old(self).items(),
            old(self).items().len() > 0 ==> data == Some(old(self).items()[0]) && final(self).items()
                == old(self).items().drop_first(),
    {
        let data = self.values.pop_front();
        proof {
            assert(old(self).values@.subrange(1, old(self).values@.len() as int) =~= old(self).values@.drop_first());
        }
        data
    }
}

} // verus!
