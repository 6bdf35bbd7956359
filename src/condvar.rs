//! A condition variable: a FIFO queue of parked threads, woken one per
//! `notify`.
use std::collections::VecDeque;
use vstd::prelude::*;

use crate::processor::{park, wake_up, current_tid, Processor, Status};
use crate::scheduler::Scheduler;
use crate::Tid;

verus! {

/// Threads waiting on one condition, in the order they started to wait.
pub struct Condvar {
    wait_queue: VecDeque<Tid>,
}

/// What waking `tid` does to a processor: a sleeping thread becomes ready
/// and enters the scheduler, any other thread is left as it is.
pub open spec fn woken<S: Scheduler>(pre: Processor<S>, tid: Tid, post: Processor<S>) -> bool {
    &&& post.running() == pre.running()
    &&& if tid < pre.statuses().len() && pre.statuses()[tid as int] == Status::Sleeping {
        &&& post.statuses() == pre.statuses().update(tid as int, Status::Ready)
        &&& pre.sched().push_post(tid, &post.sched())
    } else {
        &&& post.statuses() == pre.statuses()
        &&& post.sched() == pre.sched()
    }
}

impl Condvar {
    /// The waiting threads, first to be woken first.
    pub closed spec fn waiters(&self) -> Seq<Tid> {
        self.wait_queue@
    }

    /// A condition nobody waits on.
    pub fn new() -> (r: Condvar)
        ensures
            r.waiters() == Seq::<Tid>::empty(),
    {
        Condvar { wait_queue: VecDeque::new() }
    }

    /// How `notify` takes the condition `self` and processor `cpu` to
    /// `post` and `cpu_post`: the first waiter, if any, leaves the queue and
    /// is woken.
    pub open spec fn notify_post<S: Scheduler>(
        &self,
        cpu: Processor<S>,
        post: &Condvar,
        cpu_post: Processor<S>,
    ) -> bool {
        if self.waiters().len() == 0 {
            &&& post.waiters() == self.waiters()
            &&& cpu_post == cpu
        } else {
            &&& post.waiters() == self.waiters().drop_first()
            &&& woken(cpu, self.waiters()[0], cpu_post)
        }
    }

    /// The running thread joins the back of the queue and parks: it is
    /// asleep and out of the scheduler until a `notify` reaches it.
    pub fn wait<S: Scheduler>(&mut self, cpu: &mut Processor<S>)
        requires
            old(cpu).well_formed(),
            old(cpu).running() is Some,
        ensures
            final(cpu).well_formed(),
            final(self).waiters() == old(self).waiters().push(old(cpu).running()->0),
            final(cpu).running() == None::<Tid>,
            final(cpu).statuses() == old(cpu).statuses().update(
                old(cpu).running()->0 as int,
                Status::Sleeping,
            ),
            final(cpu).sched() == old(cpu).sched(),
            !final(cpu).sched().is_ready(old(cpu).running()->0),
    {
        let c = current_tid(cpu);
        self.wait_queue.push_back(c);
        park(cpu);
    }

    /// Wakes the longest-waiting thread; with nobody waiting, nothing
    /// happens.
    pub fn notify<S: Scheduler>(&mut self, cpu: &mut Processor<S>)
        requires
            old(cpu).well_formed(),
        ensures
            final(cpu).well_formed(),
            old(self).notify_post(*old(cpu), final(self), *final(cpu)),
    {
        let ghost q = self.wait_queue@;
        if let Some(tid) = self.wait_queue.pop_front() {
            wake_up(cpu, tid);
            proof {
                assert(self.wait_queue@ =~= q.drop_first());
            }
        }
    }
}

/// A waiting thread is not runnable: it stays asleep and out of the
/// scheduler through every `notify` that wakes someone else (or nobody),
/// and the `notify` that reaches it makes it ready.
pub proof fn lemma_waiter_runs_only_when_notified<S: Scheduler>(
    cv: Condvar,
    cv_post: Condvar,
    cpu: Processor<S>,
    cpu_post: Processor<S>,
    c: Tid,
)
    requires
        cpu.well_formed(),
        cpu_post.well_formed(),
        c < cpu.statuses().len(),
        cpu.statuses()[c as int] == Status::Sleeping,
        cv.notify_post(cpu, &cv_post, cpu_post),
    ensures
        !cpu.sched().is_ready(c),
        if cv.waiters().len() > 0 && cv.waiters()[0] == c {
            &&& cpu_post.statuses()[c as int] == Status::Ready
            &&& cpu_post.sched().is_ready(c)
        } else {
            &&& cpu_post.statuses()[c as int] == Status::Sleeping
            &&& !cpu_post.sched().is_ready(c)
        },
{
}

/// Two threads that wait in turn are woken by two notifies, in the order
/// they waited, and the queue is then empty.
pub proof fn lemma_notify_in_wait_order<S: Scheduler>(
    cv0: Condvar,
    cv1: Condvar,
    cv2: Condvar,
    cpu0: Processor<S>,
    cpu1: Processor<S>,
    cpu2: Processor<S>,
    a: Tid,
    b: Tid,
)
    requires
        cv0.waiters() == seq![a, b],
        a != b,
        a < cpu0.statuses().len() && cpu0.statuses()[a as int] == Status::Sleeping,
        b < cpu0.statuses().len() && cpu0.statuses()[b as int] == Status::Sleeping,
        cv0.notify_post(cpu0, &cv1, cpu1),
        cv1.notify_post(cpu1, &cv2, cpu2),
    ensures
        cpu1.statuses()[a as int] == Status::Ready,
        cpu1.statuses()[b as int] == Status::Sleeping,
        cpu0.sched().push_post(a, &cpu1.sched()),
        cpu2.statuses()[a as int] == Status::Ready,
        cpu2.statuses()[b as int] == Status::Ready,
        cpu1.sched().push_post(b, &cpu2.sched()),
        cv2.waiters() == Seq::<Tid>::empty(),
{
    assert(cv0.waiters().drop_first() == seq![b]);
    assert(cv1.waiters()[0] == b);
    assert(cv1.waiters().drop_first() =~= Seq::<Tid>::empty());
}

} // verus!
