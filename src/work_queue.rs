//! A last-in, first-out queue of work items.
use vstd::prelude::*;

verus! {

/// A stack of work items: the last one pushed is the first popped.
pub struct Queue {
    queue: Vec<i32>,
}

impl View for Queue {
    type V = Seq<i32>;

    closed spec fn view(&self) -> Seq<i32> {
        self.queue@
    }
}

impl Queue {
    /// An empty queue.
    pub fn new() -> (q: Queue)
        ensures
            q@ == Seq::<i32>::empty(),
    {
        Queue { queue: Vec::new() }
    }

    /// Adds an item on top.
    pub fn push(&mut self, val: i32)
        ensures
            final(self)@ == old(self)@.push(val),
    {
        self.queue.push(val);
    }

    /// Removes and returns the top item.
    pub fn pop(&mut self) -> (r: i32)
        requires
            old(self)@.len() > 0,
        ensures
            r == old(self)@.last(),
            final(self)@ == old(self)@.drop_last(),
    {
        match self.queue.pop() {
            Some(v) => v,
            None => 0,
        }
    }

    /// The number of items.
    pub fn size(&self) -> (n: usize)
        ensures
            n == self@.len(),
    {
        self.queue.len()
    }
}

} // verus!
