//! FIFO queue of wakeups.
//!
//! The selector keeps the references of the tasks that received a wakeup here, in
//! the order of the wakeups. Whether a task is already queued is recorded next to
//! the task (see [`List::flags`](crate::list::List::flags)), so the queue itself
//! is a plain FIFO.
use vstd::prelude::*;

use std::collections::VecDeque;

use crate::list::NodeRef;

verus! {

/// Receiving end of the wakeup queue.
pub struct Receiver {
    items: VecDeque<NodeRef>,
}

impl Receiver {
    /// Queued references, oldest first.
    pub closed spec fn view(&self) -> Seq<NodeRef> {
        self.items@
    }

    /// Creates an empty queue.
    pub fn new() -> (q: Self)
        ensures
            q@ == Seq::<NodeRef>::empty(),
    {
        Receiver { items: VecDeque::new() }
    }

    /// Number of queued references.
    pub fn len(&self) -> (n: usize)
        ensures
            n == self@.len(),
    {
        self.items.len()
    }

    /// Whether nothing is queued.
    pub fn is_empty(&self) -> (b: bool)
        ensures
            b <==> self@.len() == 0,
    {
        self.items.len() == 0
    }

    /// Returns the newest queued reference, or `None` if the queue is empty.
    ///
    /// A consumer registers its waker and then reads this marker: processing the
    /// queue up to and including the marker handles exactly the wakeups received so
    /// far, and none that arrive while processing.
    pub fn register_waker(&self) -> (marker: Option<NodeRef>)
        ensures
            self@.len() == 0 ==> marker is None,
            self@.len() > 0 ==> marker == Some(self@.last()),
    {
        let n = self.items.len();
        if n == 0 {
            None
        } else {
            Some(self.items[n - 1])
        }
    }

    /// Appends `node` at the back of the queue.
    pub fn enqueue(&mut self, node: NodeRef)
        ensures
            final(self)@ == old(self)@.push(node),
    {
        self.items.push_back(node);
    }

    /// Takes the oldest queued reference.
    pub fn dequeue(&mut self) -> (node: Option<NodeRef>)
        ensures
            old(self)@.len() == 0 ==> node is None && final(self)@ == old(self)@,
            old(self)@.len() > 0 ==> node == Some(old(self)@[0]) && final(self)@
                == old(self)@.drop_first(),
    {
        self.items.pop_front()
    }
}

/// The queue `q` after it received each of `sends`, in order.
pub open spec fn after_sends(q: Seq<NodeRef>, sends: Seq<NodeRef>) -> Seq<NodeRef>
    decreases sends.len(),
{
    if sends.len() == 0 {
        q
    } else {
        after_sends(q, sends.drop_last()).push(sends.last())
    }
}

/// The queue `q` after `k` dequeues (a dequeue of an empty queue leaves it empty).
pub open spec fn after_takes(q: Seq<NodeRef>, k: nat) -> Seq<NodeRef>
    decreases k,
{
    if k == 0 || q.len() == 0 {
        q
    } else {
        after_takes(q.drop_first(), (k - 1) as nat)
    }
}

/// First in, first out: a queue that starts empty and receives `sends` hands them
/// back in the order they were sent. Before its dequeue number `k` (counting from 0)
/// it holds the sends from `k` on, so that dequeue returns send `k`, and returns
/// `None` once all were taken.
pub proof fn law_first_in_first_out(sends: Seq<NodeRef>, k: nat)
    requires
        k <= sends.len(),
    ensures
        after_sends(Seq::empty(), sends) == sends,
        after_takes(sends, k) == sends.skip(k as int),
        k < sends.len() ==> after_takes(sends, k)[0] == sends[k as int],
        k == sends.len() ==> after_takes(sends, k).len() == 0,
    decreases sends.len() + k,
{
    if sends.len() > 0 {
        law_first_in_first_out(sends.drop_last(), 0);
        assert(sends.drop_last().push(sends.last()) =~= sends);
    }
    if k > 0 {
        law_first_in_first_out(sends.drop_first(), (k - 1) as nat);
        assert(sends.drop_first().skip(k - 1) =~= sends.skip(k as int));
    } else {
        assert(sends.skip(0) =~= sends);
    }
}

} // verus!
