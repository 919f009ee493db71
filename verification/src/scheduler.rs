//! Scheduler module
use vstd::prelude::*;

verus! {

/// The scheduler. The order of items in the scheduler is FIFO: tasks leave it
/// in the order in which they entered it.
pub struct Scheduler<T> {
    pub queue: Vec<T>,
}

impl<T> View for Scheduler<T> {
    type V = Seq<T>;

    /// The waiting tasks, the oldest first.
    open spec fn view(&self) -> Seq<T> {
        self.queue@
    }
}

/// What a dequeue takes from a queue, and the queue it leaves: the oldest task,
/// or nothing when the queue is empty.
pub open spec fn dequeued<T>(q: Seq<T>) -> (Option<T>, Seq<T>) {
    if q.len() == 0 {
        (None, q)
    } else {
        (Some(q[0]), q.drop_first())
    }
}

/// One operation on a scheduler.
pub enum QueueOp<T> {
    Enqueue(T),
    Dequeue,
}

/// Runs `ops` on a scheduler that holds `q`: the tasks that the dequeues hand
/// out, in order, and what the scheduler holds afterwards.
pub open spec fn run_ops<T>(q: Seq<T>, ops: Seq<QueueOp<T>>) -> (Seq<T>, Seq<T>)
    decreases ops.len(),
{
    if ops.len() == 0 {
        (Seq::empty(), q)
    } else {
        let last = ops.last();
        let (out, rest) = run_ops(q, ops.drop_last());
        match last {
            QueueOp::Enqueue(t) => (out, rest.push(t)),
            QueueOp::Dequeue => match dequeued(rest).0 {
                Some(t) => (out.push(t), dequeued(rest).1),
                None => (out, rest),
            },
        }
    }
}

/// The tasks that `ops` enqueue, in order.
pub open spec fn enqueued<T>(ops: Seq<QueueOp<T>>) -> Seq<T>
    decreases ops.len(),
{
    if ops.len() == 0 {
        Seq::empty()
    } else {
        match ops.last() {
            QueueOp::Enqueue(t) => enqueued(ops.drop_last()).push(t),
            QueueOp::Dequeue => enqueued(ops.drop_last()),
        }
    }
}

impl<T> Scheduler<T> {
    pub fn new() -> (s: Self)
        ensures
            s@ == Seq::<T>::empty(),
    {
        Scheduler { queue: Vec::new() }
    }

    pub fn enqueue(&mut self, task: T)
        ensures
            final(self)@ == old(self)@.push(task),
    {
        self.queue.push(task);
    }

    pub fn dequeue(&mut self) -> (task: Option<T>)
        ensures
            (task, final(self)@) == dequeued(old(self)@),
    {
        if self.queue.len() == 0 {
            None
        } else {
            Some(self.queue.remove(0))
        }
    }
}

/// FIFO: whatever operations run on a scheduler, the tasks handed out followed
/// by the tasks still waiting are exactly the tasks that were waiting at the
/// start followed by the tasks enqueued, in order. No task is lost, duplicated
/// or overtaken.
pub proof fn lemma_fifo<T>(q: Seq<T>, ops: Seq<QueueOp<T>>)
    ensures
        run_ops(q, ops).0 + run_ops(q, ops).1 == q + enqueued(ops),
    decreases ops.len(),
{
    if ops.len() > 0 {
        lemma_fifo(q, ops.drop_last());
        let (out, rest) = run_ops(q, ops.drop_last());
        match ops.last() {
            QueueOp::Enqueue(t) => {
                assert(out + rest.push(t) == (out + rest).push(t));
            },
            QueueOp::Dequeue => {
                if rest.len() > 0 {
                    assert(out.push(rest[0]) + rest.drop_first() == out + rest);
                }
            },
        }
    }
}

/// A task enqueued on an empty scheduler is the next one handed out, and the
/// dequeue leaves the scheduler empty again.
pub proof fn lemma_dequeue_undoes_enqueue<T>(t: T)
    ensures
        dequeued(Seq::<T>::empty().push(t)) == (Some(t), Seq::<T>::empty()),
{
    assert(Seq::<T>::empty().push(t).drop_first() == Seq::<T>::empty());
}

/// On a scheduler that is not empty, enqueueing does not change which task is
/// handed out next.
pub proof fn lemma_enqueue_keeps_head<T>(q: Seq<T>, t: T)
    requires
        q.len() > 0,
    ensures
        dequeued(q.push(t)) == (Some(q[0]), q.drop_first().push(t)),
{
    assert(q.push(t).drop_first() == q.drop_first().push(t));
}

} // verus!
