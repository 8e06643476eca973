//! Fills a work queue with the initial items.
use vstd::prelude::*;
use crate::work_queue::Queue;

verus! {

/// Supplies the initial work items.
pub struct WorkLoader {}

impl WorkLoader {
    /// Pushes the items 1 to 5, in that order.
    pub fn load_work(self, queue: &mut Queue)
        ensures
            final(queue)@ == old(queue)@ + seq![1i32, 2i32, 3i32, 4i32, 5i32],
    {
        queue.push(1);
        queue.push(2);
        queue.push(3);
        queue.push(4);
        queue.push(5);
        assert(queue@ =~= old(queue)@ + seq![1i32, 2i32, 3i32, 4i32, 5i32]);
    }
}

} // verus!
