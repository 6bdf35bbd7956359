//! The decisions of the thread-management layer around a scheduler: which
//! thread runs, which sleep, which wait to run. The context switch itself
//! is performed by the caller after each step.
use vstd::prelude::*;

use crate::scheduler::Scheduler;
use crate::Tid;

verus! {

/// Life-cycle state of a thread.
#[derive(PartialEq, Eq, Structural, Clone, Copy, Debug)]
pub enum Status {
    /// Waiting in the scheduler's ready structure.
    Ready,
    /// Holding the processor.
    Running,
    /// Parked until someone wakes it.
    Sleeping,
    /// Finished with the given exit code.
    Exited(usize),
}

/// A processor: the scheduler, the status of every thread it has been
/// given, and the thread it runs, if any.
pub struct Processor<S: Scheduler> {
    scheduler: S,
    status: Vec<Status>,
    current: Option<Tid>,
}

impl<S: Scheduler> Processor<S> {
    /// The status of each thread, indexed by thread id.
    pub closed spec fn statuses(&self) -> Seq<Status> {
        self.status@
    }

    /// The thread holding the processor.
    pub closed spec fn running(&self) -> Option<Tid> {
        self.current
    }

    /// The scheduler deciding who runs next.
    pub closed spec fn sched(&self) -> S {
        self.scheduler
    }

    /// Statuses, scheduler and running thread tell the same story.
    pub open spec fn well_formed(&self) -> bool {
        let st = self.statuses();
        &&& self.sched().wf()
        &&& st.len() < usize::MAX
        &&& forall|t: Tid| #[trigger]
            self.sched().is_ready(t) <==> (t < st.len() && st[t as int] == Status::Ready)
        &&& self.running() matches Some(c) ==> c < st.len() && st[c as int] == Status::Running
            && self.sched().running() == Some(c)
        &&& forall|t: Tid|
            t < st.len() && #[trigger] st[t as int] == Status::Running ==> self.running() == Some(t)
    }

    /// A processor with no thread, driven by `scheduler`.
    pub fn new(scheduler: S) -> (r: Processor<S>)
        requires
            scheduler.wf(),
            forall|t: Tid| !#[trigger] scheduler.is_ready(t),
        ensures
            r.well_formed(),
            r.statuses() == Seq::<Status>::empty(),
            r.running() == None::<Tid>,
            r.sched() == scheduler,
    {
        Processor { scheduler, status: Vec::new(), current: None }
    }

    /// The status of thread `tid`, if it was ever registered.
    pub fn status(&self, tid: Tid) -> (r: Option<Status>)
        ensures
            r == (if tid < self.statuses().len() {
                Some(self.statuses()[tid as int])
            } else {
                None::<Status>
            }),
    {
        if tid < self.status.len() {
            Some(self.status[tid])
        } else {
            None
        }
    }

    /// The thread holding the processor, if any.
    pub fn running_tid(&self) -> (r: Option<Tid>)
        ensures
            r == self.running(),
    {
        self.current
    }

    /// Registers a new thread, ready to run, and returns its id (the next
    /// unused one). `None`, with nothing changed, once ids run out.
    pub fn add_thread(&mut self) -> (r: Option<Tid>)
        requires
            old(self).well_formed(),
        ensures
            final(self).well_formed(),
            final(self).running() == old(self).running(),
            match r {
                Some(t) => {
                    &&& t == old(self).statuses().len()
                    &&& final(self).statuses() == old(self).statuses().push(Status::Ready)
                    &&& old(self).sched().push_post(t, &final(self).sched())
                },
                None => {
                    &&& old(self).statuses().len() + 1 == usize::MAX
                    &&& final(self).statuses() == old(self).statuses()
                    &&& final(self).sched() == old(self).sched()
                },
            },
    {
        let t = self.status.len();
        if t + 1 == usize::MAX {
            return None;
        }
        self.scheduler.push(t);
        self.status.push(Status::Ready);
        proof {
            let st = self.status@;
            assert forall|u: Tid| #[trigger]
                self.scheduler.is_ready(u) <==> (u < st.len() && st[u as int] == Status::Ready) by {
                if u < t {
                    assert(st[u as int] == old(self).status@[u as int]);
                }
            }
            assert forall|u: Tid|
                u < st.len() && #[trigger] st[u as int] == Status::Running implies self.current
                    == Some(u) by {
                assert(st[u as int] == old(self).status@[u as int]);
            }
        }
        Some(t)
    }
}

/// The thread holding the processor.
pub fn current_tid<S: Scheduler>(cpu: &Processor<S>) -> (r: Tid)
    requires
        cpu.running() is Some,
    ensures
        cpu.running() == Some(r),
{
    match cpu.current {
        Some(t) => t,
        None => 0,
    }
}

/// The running thread goes to sleep and gives up the processor; it does
/// not run again until `wake_up` names it.
pub fn park<S: Scheduler>(cpu: &mut Processor<S>)
    requires
        old(cpu).well_formed(),
        old(cpu).running() is Some,
    ensures
        final(cpu).well_formed(),
        final(cpu).running() == None::<Tid>,
        final(cpu).statuses() == old(cpu).statuses().update(
            old(cpu).running()->0 as int,
            Status::Sleeping,
        ),
        final(cpu).sched() == old(cpu).sched(),
{
    let c = current_tid(cpu);
    cpu.status.set(c, Status::Sleeping);
    cpu.current = None;
    proof {
        let st = cpu.status@;
        assert forall|u: Tid| #[trigger]
            cpu.scheduler.is_ready(u) <==> (u < st.len() && st[u as int] == Status::Ready) by {
            if u != c && u < st.len() {
                assert(st[u as int] == old(cpu).status@[u as int]);
            }
        }
        assert forall|u: Tid| u < st.len() && #[trigger] st[u as int] == Status::Running implies cpu.current == Some(u) by {
            if u != c {
                assert(st[u as int] == old(cpu).status@[u as int]);
            }
        }
    }
}

/// A sleeping thread becomes ready; any other thread is left as it is.
pub fn wake_up<S: Scheduler>(cpu: &mut Processor<S>, tid: Tid)
    requires
        old(cpu).well_formed(),
    ensures
        final(cpu).well_formed(),
        final(cpu).running() == old(cpu).running(),
        if tid < old(cpu).statuses().len() && old(cpu).statuses()[tid as int] == Status::Sleeping {
            &&& final(cpu).statuses() == old(cpu).statuses().update(tid as int, Status::Ready)
            &&& old(cpu).sched().push_post(tid, &final(cpu).sched())
        } else {
            &&& final(cpu).statuses() == old(cpu).statuses()
            &&& final(cpu).sched() == old(cpu).sched()
        },
{
    if tid < cpu.status.len() && cpu.status[tid] == Status::Sleeping {
        cpu.scheduler.push(tid);
        cpu.status.set(tid, Status::Ready);
        proof {
            let st = cpu.status@;
            assert forall|u: Tid| #[trigger]
                cpu.scheduler.is_ready(u) <==> (u < st.len() && st[u as int] == Status::Ready) by {
                if u != tid && u < st.len() {
                    assert(st[u as int] == old(cpu).status@[u as int]);
                }
            }
            assert forall|u: Tid| u < st.len() && #[trigger] st[u as int] == Status::Running implies cpu.current == Some(u) by {
                if u != tid {
                    assert(st[u as int] == old(cpu).status@[u as int]);
                }
            }
        }
    }
}

/// The running thread, if any, steps back into the ready structure and
/// gives up the processor.
pub fn yield_now<S: Scheduler>(cpu: &mut Processor<S>)
    requires
        old(cpu).well_formed(),
    ensures
        final(cpu).well_formed(),
        final(cpu).running() == None::<Tid>,
        match old(cpu).running() {
            Some(c) => {
                &&& final(cpu).statuses() == old(cpu).statuses().update(c as int, Status::Ready)
                &&& old(cpu).sched().push_post(c, &final(cpu).sched())
            },
            None => {
                &&& final(cpu).statuses() == old(cpu).statuses()
                &&& final(cpu).sched() == old(cpu).sched()
            },
        },
{
    if let Some(c) = cpu.current {
        cpu.scheduler.push(c);
        cpu.status.set(c, Status::Ready);
        cpu.current = None;
        proof {
            let st = cpu.status@;
            assert forall|u: Tid| #[trigger]
                cpu.scheduler.is_ready(u) <==> (u < st.len() && st[u as int] == Status::Ready) by {
                if u != c && u < st.len() {
                    assert(st[u as int] == old(cpu).status@[u as int]);
                }
            }
            assert forall|u: Tid| u < st.len() && #[trigger] st[u as int] == Status::Running implies cpu.current == Some(u) by {
                if u != c {
                    assert(st[u as int] == old(cpu).status@[u as int]);
                }
            }
        }
    }
}

/// The running thread, if any, finishes with `code`, is deregistered from
/// the scheduler and gives up the processor.
pub fn exit<S: Scheduler>(cpu: &mut Processor<S>, code: usize)
    requires
        old(cpu).well_formed(),
    ensures
        final(cpu).well_formed(),
        final(cpu).running() == None::<Tid>,
        match old(cpu).running() {
            Some(c) => {
                &&& final(cpu).statuses() == old(cpu).statuses().update(
                    c as int,
                    Status::Exited(code),
                )
                &&& old(cpu).sched().exit_post(c, &final(cpu).sched())
            },
            None => {
                &&& final(cpu).statuses() == old(cpu).statuses()
                &&& final(cpu).sched() == old(cpu).sched()
            },
        },
{
    if let Some(c) = cpu.current {
        cpu.scheduler.exit(c);
        cpu.status.set(c, Status::Exited(code));
        cpu.current = None;
        proof {
            let st = cpu.status@;
            assert forall|u: Tid| #[trigger]
                cpu.scheduler.is_ready(u) <==> (u < st.len() && st[u as int] == Status::Ready) by {
                if u != c && u < st.len() {
                    assert(st[u as int] == old(cpu).status@[u as int]);
                }
            }
            assert forall|u: Tid| u < st.len() && #[trigger] st[u as int] == Status::Running implies cpu.current == Some(u) by {
                if u != c {
                    assert(st[u as int] == old(cpu).status@[u as int]);
                }
            }
        }
    }
}

/// One timer tick: the scheduler decides whether the running thread's
/// turn is over; if so it goes back to the ready structure and `true` is
/// returned. Without a running thread nothing happens.
pub fn tick<S: Scheduler>(cpu: &mut Processor<S>) -> (r: bool)
    requires
        old(cpu).well_formed(),
    ensures
        final(cpu).well_formed(),
        match old(cpu).running() {
            Some(c) => exists|mid: S|
                {
                    &&& old(cpu).sched().tick_post(&mid, r)
                    &&& if r {
                        &&& final(cpu).running() == None::<Tid>
                        &&& final(cpu).statuses() == old(cpu).statuses().update(
                            c as int,
                            Status::Ready,
                        )
                        &&& mid.push_post(c, &final(cpu).sched())
                    } else {
                        &&& final(cpu).running() == old(cpu).running()
                        &&& final(cpu).statuses() == old(cpu).statuses()
                        &&& final(cpu).sched() == mid
                    }
                },
            None => {
                &&& !r
                &&& final(cpu).running() == old(cpu).running()
                &&& final(cpu).statuses() == old(cpu).statuses()
                &&& final(cpu).sched() == old(cpu).sched()
            },
        },
{
    if cpu.current.is_some() {
        proof {
            cpu.scheduler.lemma_tick_pre();
        }
        let r = cpu.scheduler.tick();
        let ghost mid = cpu.scheduler;
        if r {
            yield_now(cpu);
        }
        proof {
            assert(old(cpu).sched().tick_post(&mid, r));
        }
        r
    } else {
        false
    }
}

/// When the processor is free, the scheduler's next thread takes it and is
/// returned; `None` when nothing is ready or a thread already runs.
pub fn run<S: Scheduler>(cpu: &mut Processor<S>) -> (r: Option<Tid>)
    requires
        old(cpu).well_formed(),
    ensures
        final(cpu).well_formed(),
        if old(cpu).running() is None {
            &&& old(cpu).sched().pop_post(&final(cpu).sched(), r)
            &&& final(cpu).running() == r
            &&& match r {
                Some(t) => final(cpu).statuses() == old(cpu).statuses().update(
                    t as int,
                    Status::Running,
                ),
                None => final(cpu).statuses() == old(cpu).statuses(),
            }
        } else {
            &&& r == None::<Tid>
            &&& final(cpu).running() == old(cpu).running()
            &&& final(cpu).statuses() == old(cpu).statuses()
            &&& final(cpu).sched() == old(cpu).sched()
        },
{
    if cpu.current.is_some() {
        return None;
    }
    let r = cpu.scheduler.pop();
    if let Some(t) = r {
        cpu.status.set(t, Status::Running);
        cpu.current = Some(t);
        proof {
            let st = cpu.status@;
            assert forall|u: Tid| #[trigger]
                cpu.scheduler.is_ready(u) <==> (u < st.len() && st[u as int] == Status::Ready) by {
                if u != t && u < st.len() {
                    assert(st[u as int] == old(cpu).status@[u as int]);
                }
            }
            assert forall|u: Tid| u < st.len() && #[trigger] st[u as int] == Status::Running implies cpu.current == Some(u) by {
                if u != t {
                    assert(st[u as int] == old(cpu).status@[u as int]);
                }
            }
        }
    }
    r
}

} // verus!
