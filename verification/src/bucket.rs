use vstd::prelude::*;
use vstd::multiset::Multiset;
use std::collections::VecDeque;
use bucket_queue::{BucketQueue, FirstInFirstOutQueue, Queue};

verus! {

/// A bucket queue of vertices by integer priority, as `bucket_queue` builds
/// it: one first-in-first-out bucket per priority.
#[verifier::external_body]
pub struct DialQueue {
    inner: BucketQueue<VecDeque<u16>>,
}

/// The (priority, vertex) entries that a queue holds.
pub uninterp spec fn queued(q: DialQueue) -> Multiset<(usize, u16)>;

/// `p` is the smallest priority of an entry of `m`.
pub open spec fn is_min_priority(m: Multiset<(usize, u16)>, p: usize) -> bool {
    &&& exists|x: u16| #[trigger] m.contains((p, x))
    &&& forall|e: (usize, u16)| #[trigger] m.contains(e) ==> p <= e.0
}

impl DialQueue {
    /// Calls `BucketQueue::new`: an empty queue.
    #[verifier::external_body]
    pub(crate) fn new() -> (q: DialQueue)
        ensures
            queued(q) =~= Multiset::empty(),
    {
        DialQueue { inner: BucketQueue::<VecDeque<u16>>::new() }
    }

    /// Calls `BucketQueue::is_empty`, which is true when the queue holds no entry.
    #[verifier::external_body]
    pub(crate) fn is_empty(&self) -> (b: bool)
        ensures
            b == (queued(*self).len() == 0),
    {
        self.inner.is_empty()
    }

    /// Calls `FirstInFirstOutQueue::enqueue`, which adds the entry
    /// `(priority, item)`. It grows its bucket vector to `priority + 1`
    /// slots, so `priority` is kept to the range of `u16` distances.
    #[verifier::external_body]
    pub(crate) fn enqueue(&mut self, item: u16, priority: usize)
        requires
            priority <= 65535,
        ensures
            queued(*final(self)) =~= queued(*old(self)).insert((priority, item)),
    {
        self.inner.enqueue(item, priority)
    }

    /// Calls `Queue::min_priority`: the smallest priority in the queue, none
    /// when it is empty.
    #[verifier::external_body]
    pub(crate) fn min_priority(&self) -> (r: Option<usize>)
        ensures
            queued(*self).len() == 0 <==> r is None,
            r matches Some(p) ==> is_min_priority(queued(*self), p),
    {
        self.inner.min_priority()
    }

    /// Calls `FirstInFirstOutQueue::dequeue_min`, which removes and returns
    /// an item of smallest priority (the earliest one enqueued at that
    /// priority), none when the queue is empty.
    #[verifier::external_body]
    pub(crate) fn dequeue_min(&mut self) -> (r: Option<u16>)
        ensures
            queued(*old(self)).len() == 0 ==> r is None && queued(*final(self)) == queued(*old(self)),
            queued(*old(self)).len() > 0 ==> (r matches Some(x) && exists|p: usize|
                is_min_priority(queued(*old(self)), p) && #[trigger] queued(*old(self)).contains((p, x))
                    && queued(*final(self)) =~= queued(*old(self)).remove((p, x))),
    {
        self.inner.dequeue_min()
    }
}

}
