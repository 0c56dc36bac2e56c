//! The operations that a flat-combining queue hands to the thread that holds
//! the lock, and how that thread applies them to a sequential queue.
use crate::lock::fclock::FlatCombining;
use crate::queue::SequentialQueue;
use vstd::prelude::*;

verus! {

/// A request to a queue, or the response to one.
pub enum QueueOp<V> {
    EnqRequest(V),
    EnqResponse,
    DeqRequest,
    DeqResponse(Option<V>),
}

impl<V, Q: SequentialQueue<V>> FlatCombining<QueueOp<V>> for Q {
    open spec fn inv(&self) -> bool {
        self.wf()
    }

    open spec fn is_request(operation: QueueOp<V>) -> bool {
        operation is EnqRequest || operation is DeqRequest
    }

    /// Applies a request: an enqueue pushes its value, a dequeue pops the
    /// oldest value; the response says what came out.
    fn apply(&mut self, operation: QueueOp<V>) -> (response: QueueOp<V>)
        ensures
            operation matches QueueOp::EnqRequest(value) ==> response is EnqResponse
                && final(self).items() == old(self).items().push(value),
            operation is DeqRequest && old(self).items().len() == 0 ==> response == QueueOp::<V>::DeqResponse(None) && final(self).items() == old(self).items(),
            operation is DeqRequest && old(self).items().len() > 0 ==> response == QueueOp::<V>::DeqResponse(Some(old(self).items()[0])) && final(self).items() == old(self).items().drop_first(),
    {
        match operation {
            QueueOp::EnqRequest(value) => {
                self.push(value);
                QueueOp::EnqResponse
            },
            QueueOp::DeqRequest => QueueOp::DeqResponse(self.pop()),
            _ => {
                proof {
                    assert(false);
                }
                operation
            },
        }
    }
}

} // verus!
