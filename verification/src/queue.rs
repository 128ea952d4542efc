//! Bounded FIFO queues: the per-connection message, error and event queues.
//! A producer that finds the queue full must wait (backpressure); the single
//! logical consumer drains everything queued so far in arrival order.

use vstd::prelude::*;

verus! {

/// A bounded FIFO queue. Its view is the sequence of queued items, oldest
/// first; the capacity is fixed at construction.
pub struct BoundedQueue<T> {
    items: Vec<T>,
    capacity: usize,
}

impl<T> View for BoundedQueue<T> {
    type V = Seq<T>;

    closed spec fn view(&self) -> Seq<T> {
        self.items@
    }
}

impl<T> BoundedQueue<T> {
    /// The fixed capacity the queue was made with.
    pub closed spec fn cap(self) -> nat {
        self.capacity as nat
    }

    /// Well-formed: never over capacity, and capacity at least one.
    pub open spec fn wf(self) -> bool {
        self@.len() <= self.cap() && 1 <= self.cap()
    }

    /// An empty queue of the given capacity.
    pub fn new(capacity: usize) -> (q: Self)
        requires
            1 <= capacity,
        ensures
            q.wf(),
            q@ == Seq::<T>::empty(),
            q.cap() == capacity,
    {
        let q = BoundedQueue { items: Vec::new(), capacity };
        proof {
            assert(q@ =~= Seq::<T>::empty());
        }
        q
    }

    /// How many items are queued.
    pub fn len(&self) -> (n: usize)
        ensures
            n == self@.len(),
    {
        self.items.len()
    }

    /// Whether nothing is queued.
    pub fn is_empty(&self) -> (r: bool)
        ensures
            r == (self@.len() == 0),
    {
        self.items.len() == 0
    }

    /// Whether the queue is at capacity, so a producer must wait.
    pub fn is_full(&self) -> (r: bool)
        ensures
            r == (self@.len() == self.cap()),
    {
        self.items.len() == self.capacity
    }

    /// Appends `item` if there is room; reports whether it did. A `false`
    /// result leaves the queue unchanged and tells the producer to wait.
    pub fn try_push(&mut self, item: T) -> (pushed: bool)
        requires
            old(self).wf(),
        ensures
            final(self).wf(),
            final(self).cap() == old(self).cap(),
            pushed == (old(self)@.len() < old(self).cap()),
            pushed ==> final(self)@ == old(self)@.push(item),
            !pushed ==> final(self)@ == old(self)@,
    {
        if self.items.len() < self.capacity {
            self.items.push(item);
            true
        } else {
            false
        }
    }

    /// Removes and returns the oldest item, or `None` on an empty queue.
    pub fn pop_next(&mut self) -> (r: Option<T>)
        requires
            old(self).wf(),
        ensures
            final(self).wf(),
            final(self).cap() == old(self).cap(),
            old(self)@.len() == 0 ==> (r is None && final(self)@ == old(self)@),
            old(self)@.len() > 0 ==> (r == Some(old(self)@[0]) && final(self)@ == old(
                self,
            )@.drop_first()),
    {
        if self.items.len() == 0 {
            None
        } else {
            let item = self.items.remove(0);
            proof {
                assert(self@ =~= old(self)@.drop_first());
            }
            Some(item)
        }
    }

    /// Atomically removes and returns everything queued so far, in arrival
    /// order; the queue is empty afterwards.
    pub fn drain(&mut self) -> (out: Vec<T>)
        requires
            old(self).wf(),
        ensures
            final(self).wf(),
            final(self).cap() == old(self).cap(),
            out@ == old(self)@,
            final(self)@ == Seq::<T>::empty(),
    {
        let mut out: Vec<T> = Vec::new();
        core::mem::swap(&mut out, &mut self.items);
        proof {
            assert(self@ =~= Seq::<T>::empty());
        }
        out
    }
}

} // verus!
