use std::collections::VecDeque;
use vstd::prelude::*;

verus! {

/// A first-in, first-out queue.
pub struct FifoQueue<T> {
    queue: VecDeque<T>,
}

impl<T> View for FifoQueue<T> {
    type V = Seq<T>;

    /// The items from the oldest to the newest.
    closed spec fn view(&self) -> Seq<T> {
        self.queue@
    }
}

impl<T> FifoQueue<T> {
    /// An empty queue.
    pub fn new() -> (r: FifoQueue<T>)
        ensures
            r@ == Seq::<T>::empty(),
    {
        FifoQueue::<T> { queue: VecDeque::<T>::new() }
    }

    /// Adds an item after all others.
    pub fn enqueue(&mut self, item: T)
        ensures
            final(self)@ == old(self)@.push(item),
    {
        self.queue.push_back(item)
    }

    /// Takes out the oldest item, if any.
    pub fn dequeue(&mut self) -> (r: Option<T>)
        ensures
            old(self)@.len() == 0 ==> r is None && final(self)@ == old(self)@,
            old(self)@.len() > 0 ==> r == Some(old(self)@[0]) && final(self)@ == old(self)@.drop_first(),
    {
        self.queue.pop_front()
    }

    /// Takes out every item.
    pub fn clear(&mut self)
        ensures
            final(self)@ == Seq::<T>::empty(),
    {
        self.queue.clear();
    }

    /// How many items wait.
    pub fn len(&self) -> (r: usize)
        ensures
            r == self@.len(),
    {
        self.queue.len()
    }
}

} // verus!
