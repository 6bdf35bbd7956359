//! Ready-queue schedulers: round robin with fixed quanta, and stride
//! (proportional-share) scheduling. Both keep per-thread records in an
//! arena indexed by `tid + 1`; slot 0 is the sentinel of the ready list.
use vstd::prelude::*;

use crate::Tid;

verus! {

/// What every scheduler offers to the thread-management layer.
pub trait Scheduler {
    /// The internal invariant of the scheduler.
    spec fn wf(&self) -> bool;

    /// Whether `tid` is waiting in the ready structure.
    spec fn is_ready(&self, tid: Tid) -> bool;

    /// The thread that last came out of `pop` and has not exited since.
    spec fn running(&self) -> Option<Tid>;

    /// What `tick` needs of the state.
    spec fn tick_pre(&self) -> bool;

    /// A scheduler whose running thread (if any) is not waiting in the
    /// ready structure may be ticked.
    proof fn lemma_tick_pre(&self)
        requires
            self.wf(),
            self.running() matches Some(c) ==> !self.is_ready(c),
        ensures
            self.tick_pre(),
    ;

    /// How `push(tid)` takes `self` to `post`.
    spec fn push_post(&self, tid: Tid, post: &Self) -> bool;

    /// How `pop` takes `self` to `post`, returning `r`.
    spec fn pop_post(&self, post: &Self, r: Option<Tid>) -> bool;

    /// How `tick` takes `self` to `post`, returning `r`.
    spec fn tick_post(&self, post: &Self, r: bool) -> bool;

    /// How `exit(tid)` takes `self` to `post`.
    spec fn exit_post(&self, tid: Tid, post: &Self) -> bool;

    /// Marks `tid` runnable.
    fn push(&mut self, tid: Tid)
        requires
            old(self).wf(),
            !old(self).is_ready(tid),
            tid < usize::MAX,
        ensures
            final(self).wf(),
            old(self).push_post(tid, final(self)),
            final(self).running() == old(self).running(),
            forall|t: Tid| #[trigger] final(self).is_ready(t) == (old(self).is_ready(t) || t == tid),
    ;

    /// Removes and returns the next thread to run, which becomes current.
    fn pop(&mut self) -> (r: Option<Tid>)
        requires
            old(self).wf(),
        ensures
            final(self).wf(),
            old(self).pop_post(final(self), r),
            match r {
                None => {
                    &&& forall|t: Tid| !#[trigger] old(self).is_ready(t)
                    &&& forall|t: Tid| #[trigger] final(self).is_ready(t) == old(self).is_ready(t)
                    &&& final(self).running() == old(self).running()
                },
                Some(h) => {
                    &&& old(self).is_ready(h)
                    &&& final(self).running() == Some(h)
                    &&& forall|t: Tid|
                        #[trigger] final(self).is_ready(t) == (old(self).is_ready(t) && t != h)
                },
            },
    ;

    /// One timer tick for the running thread; `true` asks for preemption.
    fn tick(&mut self) -> (r: bool)
        requires
            old(self).wf(),
            old(self).tick_pre(),
        ensures
            final(self).wf(),
            old(self).tick_post(final(self), r),
            final(self).running() == old(self).running(),
            forall|t: Tid| #[trigger] final(self).is_ready(t) == old(self).is_ready(t),
    ;

    /// Deregisters `tid` for good.
    fn exit(&mut self, tid: Tid)
        requires
            old(self).wf(),
        ensures
            final(self).wf(),
            old(self).exit_post(tid, final(self)),
            final(self).running() == (if old(self).running() == Some(tid) {
                None
            } else {
                old(self).running()
            }),
            forall|t: Tid| t != tid ==> #[trigger] final(self).is_ready(t) == old(self).is_ready(t),
            !old(self).is_ready(tid) ==> !final(self).is_ready(tid),
    ;
}

#[derive(Clone, Copy)]
struct RRInfo {
    valid: bool,
    time: usize,
    prev: usize,
    next: usize,
}

impl RRInfo {
    fn empty() -> (r: RRInfo)
        ensures
            !r.valid,
            r.time == 0,
            r.prev == 0,
            r.next == 0,
    {
        RRInfo { valid: false, time: 0, prev: 0, next: 0 }
    }
}

/// Round-robin scheduler: a circular doubly-linked ready list anchored at
/// slot 0, and a remaining quantum per thread.
pub struct RRScheduler {
    threads: Vec<RRInfo>,
    max_time: usize,
    current: usize,
    /// The ready list in order.
    queue: Ghost<Seq<Tid>>,
}

impl RRScheduler {
    /// The threads waiting to run, in the order `pop` hands them out.
    pub closed spec fn ready(&self) -> Seq<Tid> {
        self.queue@
    }

    /// The thread that last came out of `pop`, unless it exited since.
    pub closed spec fn current(&self) -> Option<Tid> {
        if self.current == 0 { None } else { Some((self.current - 1) as Tid) }
    }

    /// Ticks left in the quantum of `tid` (0 for a thread never pushed).
    pub closed spec fn time_left(&self, tid: Tid) -> nat {
        if tid + 1 < self.threads.len() { self.threads[tid + 1].time as nat } else { 0 }
    }

    /// The quantum length given at construction.
    pub closed spec fn max_time_slice(&self) -> usize {
        self.max_time
    }

    spec fn link_next(&self, i: int) -> int {
        if i + 1 < self.queue@.len() { self.queue@[i + 1] + 1 } else { 0 }
    }

    spec fn link_prev(&self, i: int) -> int {
        if i > 0 { self.queue@[i - 1] + 1 } else { 0 }
    }

    pub closed spec fn well_formed(&self) -> bool {
        let q = self.queue@;
        let n = q.len();
        &&& self.threads.len() >= 1
        &&& self.current < self.threads.len()
        &&& q.no_duplicates()
        &&& forall|i: int| 0 <= i < n ==> #[trigger] q[i] + 1 < self.threads.len()
        &&& forall|s: int|
            1 <= s < self.threads.len() ==> (#[trigger] self.threads[s].valid <==> q.contains(
                (s - 1) as Tid,
            ))
        &&& forall|i: int|
            0 <= i < n ==> {
                &&& (#[trigger] self.threads[q[i] + 1]).next == self.link_next(i)
                &&& self.threads[q[i] + 1].prev == self.link_prev(i)
            }
        &&& self.threads[0].next == (if n > 0 { q[0] + 1 } else { 0 })
        &&& self.threads[0].prev == (if n > 0 { q[n - 1] + 1 } else { 0 })
    }

    /// A scheduler whose quantum is `max_time_slice` ticks.
    pub fn new(max_time_slice: usize) -> (r: RRScheduler)
        ensures
            r.well_formed(),
            r.ready() == Seq::<Tid>::empty(),
            r.current() == None::<Tid>,
            r.max_time_slice() == max_time_slice,
            forall|t: Tid| r.time_left(t) == 0,
    {
        let mut threads: Vec<RRInfo> = Vec::new();
        threads.push(RRInfo::empty());
        RRScheduler { threads, max_time: max_time_slice, current: 0, queue: Ghost(Seq::empty()) }
    }
}

impl Scheduler for RRScheduler {
    open spec fn wf(&self) -> bool {
        self.well_formed()
    }

    open spec fn running(&self) -> Option<Tid> {
        self.current()
    }

    /// Round robin can be ticked in any state.
    open spec fn tick_pre(&self) -> bool {
        true
    }

    proof fn lemma_tick_pre(&self) {
    }

    open spec fn is_ready(&self, tid: Tid) -> bool {
        self.ready().contains(tid)
    }

    /// `tid` joins the back of the ready list; a spent quantum is refilled,
    /// a partly used one carries over.
    open spec fn push_post(&self, tid: Tid, post: &Self) -> bool {
        &&& post.ready() == self.ready().push(tid)
        &&& post.current() == self.current()
        &&& post.max_time_slice() == self.max_time_slice()
        &&& post.time_left(tid) == (if self.time_left(tid) == 0 {
            self.max_time_slice() as nat
        } else {
            self.time_left(tid)
        })
        &&& forall|t: Tid| t != tid ==> #[trigger] post.time_left(t) == self.time_left(t)
    }

    /// The head of the ready list leaves it and becomes current.
    open spec fn pop_post(&self, post: &Self, r: Option<Tid>) -> bool {
        &&& post.max_time_slice() == self.max_time_slice()
        &&& forall|t: Tid| #[trigger] post.time_left(t) == self.time_left(t)
        &&& if self.ready().len() == 0 {
            &&& r == None::<Tid>
            &&& post.ready() == self.ready()
            &&& post.current() == self.current()
        } else {
            &&& r == Some(self.ready()[0])
            &&& post.ready() == self.ready().drop_first()
            &&& post.current() == Some(self.ready()[0])
        }
    }

    /// The current thread spends one tick; preemption is due when its
    /// quantum is used up, or when no thread is current.
    open spec fn tick_post(&self, post: &Self, r: bool) -> bool {
        &&& post.ready() == self.ready()
        &&& post.current() == self.current()
        &&& post.max_time_slice() == self.max_time_slice()
        &&& match self.current() {
            None => {
                &&& r
                &&& forall|t: Tid| #[trigger] post.time_left(t) == self.time_left(t)
            },
            Some(c) => {
                &&& post.time_left(c) == (if self.time_left(c) > 0 {
                    (self.time_left(c) - 1) as nat
                } else {
                    0
                })
                &&& r == (post.time_left(c) == 0)
                &&& forall|t: Tid| t != c ==> #[trigger] post.time_left(t) == self.time_left(t)
            },
        }
    }

    /// Only the current marker is cleared, if it names `tid`.
    open spec fn exit_post(&self, tid: Tid, post: &Self) -> bool {
        &&& post.ready() == self.ready()
        &&& post.current() == (if self.current() == Some(tid) {
            None
        } else {
            self.current()
        })
        &&& post.max_time_slice() == self.max_time_slice()
        &&& forall|t: Tid| #[trigger] post.time_left(t) == self.time_left(t)
    }

    fn push(&mut self, tid: Tid) {
        let slot = tid + 1;
        while self.threads.len() <= slot
            invariant
                self.well_formed(),
                self.queue@ == old(self).queue@,
                self.current == old(self).current,
                self.max_time == old(self).max_time,
                self.threads.len() >= old(self).threads.len(),
                forall|s: int| 0 <= s < old(self).threads.len() ==> self.threads[s] == old(
                    self,
                ).threads[s],
                forall|s: int|
                    old(self).threads.len() <= s < self.threads.len() ==> #[trigger] self.threads[s].time
                        == 0,
                slot == tid + 1,
                !self.queue@.contains(tid),
            decreases slot + 1 - self.threads.len(),
        {
            self.threads.push(RRInfo::empty());
            proof {
                let q = self.queue@;
                assert forall|i: int| 0 <= i < q.len() implies {
                    &&& (#[trigger] self.threads[q[i] + 1]).next == self.link_next(i)
                    &&& self.threads[q[i] + 1].prev == self.link_prev(i)
                } by {
                    assert(q[i] + 1 < self.threads.len() - 1);
                }
            }
        }
        let ghost q = self.queue@;
        let mut info = self.threads[slot];
        if info.time == 0 {
            info.time = self.max_time;
        }
        let last = self.threads[0].prev;
        info.valid = true;
        info.prev = last;
        info.next = 0;
        self.threads.set(slot, info);
        let mut tail = self.threads[last];
        tail.next = slot;
        self.threads.set(last, tail);
        let mut head = self.threads[0];
        head.prev = slot;
        self.threads.set(0, head);
        self.queue = Ghost(q.push(tid));
        proof {
            let nq = self.queue@;
            assert forall|i: int| 0 <= i < nq.len() implies {
                &&& (#[trigger] self.threads[nq[i] + 1]).next == self.link_next(i)
                &&& self.threads[nq[i] + 1].prev == self.link_prev(i)
            } by {
                if i < q.len() {
                    assert(nq[i] == q[i]);
                    assert(q[i] != tid);
                }
            }
            assert forall|s: int| 1 <= s < self.threads.len() implies (
            #[trigger] self.threads[s].valid <==> nq.contains((s - 1) as Tid)) by {
                if s != slot {
                    if nq.contains((s - 1) as Tid) {
                        let k = choose|k: int| 0 <= k < nq.len() && nq[k] == (s - 1) as Tid;
                        assert(k < q.len());
                        assert(q.contains((s - 1) as Tid));
                    }
                    if q.contains((s - 1) as Tid) {
                        let k = choose|k: int| 0 <= k < q.len() && q[k] == (s - 1) as Tid;
                        assert(nq[k] == q[k]);
                    }
                } else {
                    assert(nq[q.len() as int] == tid);
                }
            }
            assert forall|t: Tid| #[trigger] nq.contains(t) == (q.contains(t) || t == tid) by {
                if q.contains(t) {
                    let k = choose|k: int| 0 <= k < q.len() && q[k] == t;
                    assert(nq[k] == t);
                }
                if nq.contains(t) && t != tid {
                    let k = choose|k: int| 0 <= k < nq.len() && nq[k] == t;
                    assert(q[k] == t);
                }
                if t == tid {
                    assert(nq[q.len() as int] == tid);
                }
            }
            assert forall|t: Tid| t != tid implies #[trigger] self.time_left(t) == old(
                self,
            ).time_left(t) by {
                if t + 1 < self.threads.len() {
                    if t + 1 >= old(self).threads.len() {
                        assert(self.threads[t + 1].time == 0);
                    }
                }
            }
        }
    }

    fn pop(&mut self) -> (r: Option<Tid>) {
        let ret = self.threads[0].next;
        if ret != 0 {
            let ghost q = self.queue@;
            let info = self.threads[ret];
            let next = info.next;
            let prev = info.prev;
            assert(prev == 0);
            let mut n = self.threads[next];
            n.prev = prev;
            self.threads.set(next, n);
            let mut p = self.threads[prev];
            p.next = next;
            self.threads.set(prev, p);
            let mut info = self.threads[ret];
            info.prev = 0;
            info.next = 0;
            info.valid = false;
            self.threads.set(ret, info);
            self.current = ret;
            self.queue = Ghost(q.drop_first());
            proof {
                let nq = self.queue@;
                assert forall|i: int| 0 <= i < nq.len() implies {
                    &&& (#[trigger] self.threads[nq[i] + 1]).next == self.link_next(i)
                    &&& self.threads[nq[i] + 1].prev == self.link_prev(i)
                } by {
                    assert(nq[i] == q[i + 1]);
                    assert(q[i + 1] != q[0]);
                }
                assert forall|s: int| 1 <= s < self.threads.len() implies (
                #[trigger] self.threads[s].valid <==> nq.contains((s - 1) as Tid)) by {
                    if nq.contains((s - 1) as Tid) {
                        let k = choose|k: int| 0 <= k < nq.len() && nq[k] == (s - 1) as Tid;
                        assert(q[k + 1] == (s - 1) as Tid);
                        assert(q[k + 1] != q[0]);
                    }
                    if s != ret && q.contains((s - 1) as Tid) {
                        let k = choose|k: int| 0 <= k < q.len() && q[k] == (s - 1) as Tid;
                        assert(k > 0);
                        assert(nq[k - 1] == q[k]);
                    }
                }
                assert forall|t: Tid| #[trigger] self.time_left(t) == old(self).time_left(t) by {}
                assert forall|t: Tid| #[trigger] nq.contains(t) == (q.contains(t) && t != q[0]) by {
                    if q.contains(t) && t != q[0] {
                        let k = choose|k: int| 0 <= k < q.len() && q[k] == t;
                        assert(nq[k - 1] == t);
                    }
                    if nq.contains(t) {
                        let k = choose|k: int| 0 <= k < nq.len() && nq[k] == t;
                        assert(q[k + 1] == t);
                    }
                }
                assert(q.contains(q[0]));
            }
            Some(ret - 1)
        } else {
            proof {
                assert forall|t: Tid| !#[trigger] self.queue@.contains(t) by {}
            }
            None
        }
    }

    fn tick(&mut self) -> (r: bool) {
        let slot = self.current;
        if slot != 0 {
            let mut info = self.threads[slot];
            if info.time > 0 {
                info.time = info.time - 1;
            }
            self.threads.set(slot, info);
            proof {
                let q = self.queue@;
                assert forall|i: int| 0 <= i < q.len() implies {
                    &&& (#[trigger] self.threads[q[i] + 1]).next == self.link_next(i)
                    &&& self.threads[q[i] + 1].prev == self.link_prev(i)
                } by {}
                assert forall|t: Tid| t != (slot - 1) as Tid implies #[trigger] self.time_left(t)
                    == old(self).time_left(t) by {}
            }
            info.time == 0
        } else {
            true
        }
    }

    fn exit(&mut self, tid: Tid) {
        if tid < usize::MAX && self.current == tid + 1 {
            self.current = 0;
        }
    }
}

proof fn lemma_insert_contains(q: Seq<Tid>, k: int, x: Tid)
    requires
        0 <= k <= q.len(),
    ensures
        forall|t: Tid| #[trigger] q.insert(k, x).contains(t) == (q.contains(t) || t == x),
{
    let nq = q.insert(k, x);
    assert forall|t: Tid| #[trigger] nq.contains(t) == (q.contains(t) || t == x) by {
        if q.contains(t) {
            let j = choose|j: int| 0 <= j < q.len() && q[j] == t;
            if j < k {
                assert(nq[j] == t);
            } else {
                assert(nq[j + 1] == t);
            }
        }
        if nq.contains(t) && t != x {
            let j = choose|j: int| 0 <= j < nq.len() && nq[j] == t;
            if j < k {
                assert(q[j] == t);
            } else {
                assert(q[j - 1] == t);
            }
        }
        if t == x {
            assert(nq[k] == x);
        }
    }
}

proof fn lemma_remove_contains(q: Seq<Tid>, k: int)
    requires
        0 <= k < q.len(),
        q.no_duplicates(),
    ensures
        forall|t: Tid| #[trigger] q.remove(k).contains(t) == (q.contains(t) && t != q[k]),
{
    let nq = q.remove(k);
    assert forall|t: Tid| #[trigger] nq.contains(t) == (q.contains(t) && t != q[k]) by {
        if q.contains(t) && t != q[k] {
            let j = choose|j: int| 0 <= j < q.len() && q[j] == t;
            if j < k {
                assert(nq[j] == t);
            } else {
                assert(nq[j - 1] == t);
            }
        }
        if nq.contains(t) {
            let j = choose|j: int| 0 <= j < nq.len() && nq[j] == t;
            if j < k {
                assert(q[j] == t);
            } else {
                assert(q[j + 1] == t);
            }
        }
    }
}

/// Precision constant of stride scheduling: 8!, so that `BIG_STRIDE / p`
/// is exact for every priority up to 8.
pub const BIG_STRIDE: usize = 40320;

/// `a + b`, held at `usize::MAX` where it would not fit.
pub open spec fn sat_add(a: usize, b: usize) -> usize {
    if a + b > usize::MAX { usize::MAX } else { (a + b) as usize }
}

#[derive(Clone, Copy)]
struct SInfo {
    stride: usize,
    pass: usize,
    queued: bool,
    prev: usize,
    next: usize,
}

impl SInfo {
    fn fresh() -> (r: SInfo)
        ensures
            r.stride == 0,
            r.pass == BIG_STRIDE,
            !r.queued,
            r.prev == 0,
            r.next == 0,
    {
        SInfo { stride: 0, pass: BIG_STRIDE / 1, queued: false, prev: 0, next: 0 }
    }

    fn add(&mut self)
        ensures
            final(self).stride == sat_add(old(self).stride, old(self).pass),
            final(self).pass == old(self).pass,
            final(self).queued == old(self).queued,
            final(self).prev == old(self).prev,
            final(self).next == old(self).next,
    {
        self.stride = self.stride.saturating_add(self.pass);
    }
}

/// Stride scheduler: a ready list kept sorted by accumulated stride, so the
/// least-served thread is always at its head.
pub struct StrideScheduler {
    threads: Vec<SInfo>,
    current: usize,
    /// The ready list in order.
    queue: Ghost<Seq<Tid>>,
}

impl StrideScheduler {
    /// The threads waiting to run, in the order `pop` would hand them out.
    pub closed spec fn ready(&self) -> Seq<Tid> {
        self.queue@
    }

    /// The thread that last came out of `pop`, unless it exited since.
    pub closed spec fn current(&self) -> Option<Tid> {
        if self.current == 0 { None } else { Some((self.current - 1) as Tid) }
    }

    /// Service accumulated by `tid` (0 for a thread never seen).
    pub closed spec fn stride_of(&self, tid: Tid) -> usize {
        if tid + 1 < self.threads.len() { self.threads[tid + 1].stride } else { 0 }
    }

    /// What one unit of service adds to the stride of `tid`.
    pub closed spec fn pass_of(&self, tid: Tid) -> usize {
        if tid + 1 < self.threads.len() { self.threads[tid + 1].pass } else { BIG_STRIDE }
    }

    /// `seq` is in non-decreasing order of stride.
    pub open spec fn sorted_by_stride(&self, seq: Seq<Tid>) -> bool {
        forall|i: int, j: int|
            0 <= i < j < seq.len() ==> self.stride_of(#[trigger] seq[i]) <= self.stride_of(
                #[trigger] seq[j],
            )
    }

    #[verifier::opaque]
    pub closed spec fn well_formed(&self) -> bool {
        let q = self.queue@;
        let n = q.len();
        &&& self.threads.len() >= 1
        &&& self.current < self.threads.len()
        &&& q.no_duplicates()
        &&& forall|i: int| 0 <= i < n ==> #[trigger] q[i] + 1 < self.threads.len()
        &&& forall|s: int|
            1 <= s < self.threads.len() ==> (#[trigger] self.threads[s].queued <==> q.contains(
                (s - 1) as Tid,
            ))
        &&& self.links_match(q)
        &&& self.threads[0].next == (if n > 0 { q[0] + 1 } else { 0 })
        &&& self.sorted_by_stride(q)
    }

    /// An empty scheduler.
    pub fn new() -> (r: StrideScheduler)
        ensures
            r.well_formed(),
            r.ready() == Seq::<Tid>::empty(),
            r.current() == None::<Tid>,
            forall|t: Tid| #[trigger] r.stride_of(t) == 0 && r.pass_of(t) == BIG_STRIDE,
    {
        let mut threads: Vec<SInfo> = Vec::new();
        threads.push(SInfo::fresh());
        let r = StrideScheduler { threads, current: 0, queue: Ghost(Seq::empty()) };
        proof {
            reveal(StrideScheduler::well_formed);
        }
        r
    }

    /// Appending fresh records to the arena keeps the invariant.
    #[verifier::rlimit(50)]
    #[verifier::spinoff_prover]
    proof fn lemma_extend(pre: StrideScheduler, post: StrideScheduler)
        requires
            pre.well_formed(),
            post.queue@ == pre.queue@,
            post.current == pre.current,
            post.threads.len() >= pre.threads.len(),
            forall|s: int| 0 <= s < pre.threads.len() ==> post.threads[s] == pre.threads[s],
            forall|s: int|
                pre.threads.len() <= s < post.threads.len() ==> !(#[trigger] post.threads[s]).queued
                    && post.threads[s].stride == 0 && post.threads[s].pass == BIG_STRIDE,
        ensures
            post.well_formed(),
            forall|t: Tid|
                #![auto]
                post.stride_of(t) == pre.stride_of(t) && post.pass_of(t) == pre.pass_of(t),
    {
        pre.lemma_unfold();
        reveal(StrideScheduler::well_formed);
        let q = pre.queue@;
        assert forall|t: Tid|
            #![auto]
            post.stride_of(t) == pre.stride_of(t) && post.pass_of(t) == pre.pass_of(t) by {}
        assert forall|i: int| 0 <= i < q.len() implies #[trigger] post.threads[q[i] + 1]
            == pre.threads[q[i] + 1] by {}
        assert(post.links_match(q));
        assert forall|s: int| 1 <= s < post.threads.len() implies (
        #[trigger] post.threads[s].queued <==> q.contains((s - 1) as Tid)) by {
            if s >= pre.threads.len() && q.contains((s - 1) as Tid) {
                let j = choose|j: int| 0 <= j < q.len() && q[j] == (s - 1) as Tid;
                assert(q[j] + 1 < pre.threads.len());
            }
        }
        assert(post.sorted_by_stride(q));
    }

    /// Makes room for `slot`, with fresh records for the new slots.
    fn reserve(&mut self, slot: usize)
        requires
            old(self).well_formed(),
        ensures
            final(self).well_formed(),
            final(self).threads.len() > slot,
            final(self).queue@ == old(self).queue@,
            final(self).current == old(self).current,
            forall|t: Tid|
                #![auto]
                final(self).stride_of(t) == old(self).stride_of(t) && final(self).pass_of(t)
                    == old(self).pass_of(t),
            forall|s: int| 0 <= s < old(self).threads.len() ==> final(self).threads[s] == old(
                self,
            ).threads[s],
    {
        while self.threads.len() <= slot
            invariant
                self.queue@ == old(self).queue@,
                self.current == old(self).current,
                self.threads.len() >= old(self).threads.len(),
                forall|s: int| 0 <= s < old(self).threads.len() ==> self.threads[s] == old(
                    self,
                ).threads[s],
                forall|s: int|
                    old(self).threads.len() <= s < self.threads.len() ==> !(#[trigger] self.threads[s]).queued
                        && self.threads[s].stride == 0 && self.threads[s].pass == BIG_STRIDE,
            decreases slot + 1 - self.threads.len(),
        {
            self.threads.push(SInfo::fresh());
        }
        proof {
            Self::lemma_extend(*old(self), *self);
        }
    }

    /// Gives `tid` a new priority, which counts from its next unit of
    /// service on; the stride already accumulated is kept.
    pub fn set_priority(&mut self, priority: usize, tid: Tid)
        requires
            old(self).well_formed(),
            priority > 0,
            tid < usize::MAX,
        ensures
            final(self).well_formed(),
            final(self).ready() == old(self).ready(),
            final(self).current() == old(self).current(),
            final(self).pass_of(tid) == BIG_STRIDE / priority,
            forall|t: Tid| #[trigger] final(self).stride_of(t) == old(self).stride_of(t),
            forall|t: Tid| t != tid ==> #[trigger] final(self).pass_of(t) == old(self).pass_of(t),
    {
        self.reserve(tid + 1);
        proof {
            reveal(StrideScheduler::well_formed);
        }
        let ghost mid = *self;
        let mut info = self.threads[tid + 1];
        info.pass = BIG_STRIDE / priority;
        self.threads.set(tid + 1, info);
        proof {
            let q = self.queue@;
            assert(self.links_match(q));
            assert forall|t: Tid| #[trigger] self.stride_of(t) == mid.stride_of(t) by {}
            assert forall|i: int, j: int| 0 <= i < j < q.len() implies self.stride_of(
                #[trigger] q[i],
            ) <= self.stride_of(#[trigger] q[j]) by {
                assert(self.stride_of(q[i]) == mid.stride_of(q[i]));
                assert(self.stride_of(q[j]) == mid.stride_of(q[j]));
            }
            assert forall|t: Tid| t != tid implies #[trigger] self.pass_of(t) == mid.pass_of(
                t,
            ) by {}
        }
    }

    /// The next link of slot `s` is what the ready order `q` asks of it.
    spec fn links_match(&self, q: Seq<Tid>) -> bool {
        forall|i: int|
            0 <= i < q.len() ==> {
                &&& (#[trigger] self.threads[q[i] + 1]).next == (if i + 1 < q.len() {
                    q[i + 1] + 1
                } else {
                    0
                })
                &&& self.threads[q[i] + 1].prev == (if i > 0 { q[i - 1] + 1 } else { 0 })
            }
    }

    proof fn lemma_unfold(&self)
        requires
            self.well_formed(),
        ensures
            self.threads.len() >= 1,
            self.current < self.threads.len(),
            self.queue@.no_duplicates(),
            forall|i: int| 0 <= i < self.queue@.len() ==> #[trigger] self.queue@[i] + 1 < self.threads.len(),
            forall|s: int|
                1 <= s < self.threads.len() ==> (#[trigger] self.threads[s].queued
                    <==> self.queue@.contains((s - 1) as Tid)),
            self.links_match(self.queue@),
            self.threads[0].next == (if self.queue@.len() > 0 { self.queue@[0] + 1 } else { 0 }),
            self.sorted_by_stride(self.queue@),
    {
        reveal(StrideScheduler::well_formed);
    }

    /// Relinking `tid` at position `k` of the ready order keeps the invariant.
    #[verifier::rlimit(100)]
    #[verifier::spinoff_prover]
    proof fn lemma_insert(pre: StrideScheduler, post: StrideScheduler, tid: Tid, k: int)
        requires
            pre.well_formed(),
            0 <= k <= pre.queue@.len(),
            tid + 1 < pre.threads.len(),
            !pre.queue@.contains(tid),
            post.threads.len() == pre.threads.len(),
            post.current == pre.current,
            post.queue@ == pre.queue@.insert(k, tid),
            forall|s: int|
                0 <= s < pre.threads.len() ==> #[trigger] post.threads[s].stride
                    == pre.threads[s].stride && post.threads[s].pass == pre.threads[s].pass,
            forall|s: int|
                0 <= s < pre.threads.len() && s != tid + 1 ==> #[trigger] post.threads[s].queued
                    == pre.threads[s].queued,
            post.threads[tid + 1].queued,
            forall|s: int|
                0 <= s < pre.threads.len() && s != tid + 1 && s != (if k == 0 {
                    0
                } else {
                    pre.queue@[k - 1] + 1
                }) ==> #[trigger] post.threads[s].next == pre.threads[s].next,
            post.threads[if k == 0 { 0 } else { pre.queue@[k - 1] + 1 }].next == tid + 1,
            post.threads[tid + 1].next == (if k < pre.queue@.len() {
                pre.queue@[k] + 1
            } else {
                0
            }),
            forall|s: int|
                0 < s < pre.threads.len() && s != tid + 1 && s != (if k < pre.queue@.len() {
                    pre.queue@[k] + 1
                } else {
                    0
                }) ==> #[trigger] post.threads[s].prev == pre.threads[s].prev,
            post.threads[tid + 1].prev == (if k == 0 { 0 } else { pre.queue@[k - 1] + 1 }),
            k < pre.queue@.len() ==> post.threads[pre.queue@[k] + 1].prev == tid + 1,
            forall|i: int|
                0 <= i < k ==> pre.stride_of(#[trigger] pre.queue@[i]) < pre.stride_of(tid),
            forall|i: int|
                k <= i < pre.queue@.len() ==> pre.stride_of(#[trigger] pre.queue@[i])
                    >= pre.stride_of(tid),
        ensures
            post.well_formed(),
    {
        pre.lemma_unfold();
        reveal(StrideScheduler::well_formed);
        let q = pre.queue@;
        let nq = post.queue@;
        assert forall|t: Tid| #[trigger] post.stride_of(t) == pre.stride_of(t) by {}
        assert forall|i: int| 0 <= i < nq.len() implies #[trigger] nq[i] + 1
            < post.threads.len() by {
            if i > k {
                assert(nq[i] == q[i - 1]);
            } else if i < k {
                assert(nq[i] == q[i]);
            }
        }
        assert forall|i: int| 0 <= i < nq.len() implies {
            &&& (#[trigger] post.threads[nq[i] + 1]).next == (if i + 1 < nq.len() {
                nq[i + 1] + 1
            } else {
                0
            })
            &&& post.threads[nq[i] + 1].prev == (if i > 0 { nq[i - 1] + 1 } else { 0 })
        } by {
            if i < k {
                assert(nq[i] == q[i]);
                assert(q[i] != tid);
                if k < q.len() {
                    assert(q[i] != q[k]);
                }
            } else if i > k {
                assert(nq[i] == q[i - 1]);
                assert(q[i - 1] != tid);
                if i - 1 > k {
                    assert(q[i - 1] != q[k]);
                }
                if k > 0 {
                    assert(q[i - 1] != q[k - 1]);
                }
            }
        }
        assert(nq.no_duplicates()) by {
            assert forall|i: int, j: int| 0 <= i < j < nq.len() implies nq[i] != nq[j] by {
                if i == k {
                    assert(nq[j] == q[j - 1]);
                } else if j == k {
                    assert(nq[i] == q[i]);
                } else {
                    let a = if i < k { i } else { i - 1 };
                    let b = if j < k { j } else { j - 1 };
                    assert(nq[i] == q[a]);
                    assert(nq[j] == q[b]);
                }
            }
        }
        assert forall|s: int| 1 <= s < post.threads.len() implies (
        #[trigger] post.threads[s].queued <==> nq.contains((s - 1) as Tid)) by {
            if s != tid + 1 {
                if nq.contains((s - 1) as Tid) {
                    let j = choose|j: int| 0 <= j < nq.len() && nq[j] == (s - 1) as Tid;
                    if j < k {
                        assert(q[j] == nq[j]);
                    } else {
                        assert(q[j - 1] == nq[j]);
                    }
                }
                if q.contains((s - 1) as Tid) {
                    let j = choose|j: int| 0 <= j < q.len() && q[j] == (s - 1) as Tid;
                    if j < k {
                        assert(nq[j] == q[j]);
                    } else {
                        assert(nq[j + 1] == q[j]);
                    }
                }
            } else {
                assert(nq[k] == tid);
            }
        }
        assert forall|i: int, j: int| 0 <= i < j < nq.len() implies post.stride_of(
            #[trigger] nq[i],
        ) <= post.stride_of(#[trigger] nq[j]) by {
            if i != k && j != k {
                let a = if i < k { i } else { i - 1 };
                let b = if j < k { j } else { j - 1 };
                assert(nq[i] == q[a]);
                assert(nq[j] == q[b]);
                assert(pre.stride_of(q[a]) <= pre.stride_of(q[b]));
            } else if i == k {
                assert(nq[j] == q[j - 1]);
            } else {
                assert(nq[i] == q[i]);
            }
        }
        assert(post.threads[0].next == (if nq.len() > 0 { nq[0] + 1 } else { 0 }));
        assert(post.links_match(nq));
    }

    /// The membership and order facts behind `lemma_remove`.
    #[verifier::rlimit(50)]
    #[verifier::spinoff_prover]
    proof fn lemma_remove_order(pre: StrideScheduler, post: StrideScheduler, k: int)
        requires
            pre.well_formed(),
            0 <= k < pre.queue@.len(),
            post.threads.len() == pre.threads.len(),
            post.queue@ == pre.queue@.remove(k),
            forall|s: int|
                0 <= s < pre.threads.len() ==> #[trigger] post.threads[s].stride
                    == pre.threads[s].stride && post.threads[s].pass == pre.threads[s].pass,
            forall|s: int|
                0 <= s < pre.threads.len() && s != pre.queue@[k] + 1 ==> #[trigger] post.threads[s].queued
                    == pre.threads[s].queued,
            !post.threads[pre.queue@[k] + 1].queued,
        ensures
            forall|s: int|
                1 <= s < post.threads.len() ==> (#[trigger] post.threads[s].queued
                    <==> post.queue@.contains((s - 1) as Tid)),
            post.sorted_by_stride(post.queue@),
    {
        pre.lemma_unfold();
        let q = pre.queue@;
        let nq = post.queue@;
        let tid = q[k];
        assert forall|t: Tid| #[trigger] post.stride_of(t) == pre.stride_of(t) by {}
        assert forall|s: int| 1 <= s < post.threads.len() implies (
        #[trigger] post.threads[s].queued <==> nq.contains((s - 1) as Tid)) by {
            if nq.contains((s - 1) as Tid) {
                let j = choose|j: int| 0 <= j < nq.len() && nq[j] == (s - 1) as Tid;
                if j < k {
                    assert(q[j] == nq[j]);
                } else {
                    assert(q[j + 1] == nq[j]);
                }
            }
            if s != tid + 1 && q.contains((s - 1) as Tid) {
                let j = choose|j: int| 0 <= j < q.len() && q[j] == (s - 1) as Tid;
                if j < k {
                    assert(nq[j] == q[j]);
                } else if j > k {
                    assert(nq[j - 1] == q[j]);
                }
            }
        }
        assert forall|i: int, j: int| 0 <= i < j < nq.len() implies post.stride_of(
            #[trigger] nq[i],
        ) <= post.stride_of(#[trigger] nq[j]) by {
            let a = if i < k { i } else { i + 1 };
            let b = if j < k { j } else { j + 1 };
            assert(nq[i] == q[a]);
            assert(nq[j] == q[b]);
            assert(pre.stride_of(q[a]) <= pre.stride_of(q[b]));
        }
    }

    /// Unlinking the thread at position `k` of the ready order keeps the
    /// invariant.
    #[verifier::rlimit(100)]
    #[verifier::spinoff_prover]
    proof fn lemma_remove(pre: StrideScheduler, post: StrideScheduler, k: int)
        requires
            pre.well_formed(),
            0 <= k < pre.queue@.len(),
            post.threads.len() == pre.threads.len(),
            post.current == pre.current,
            post.queue@ == pre.queue@.remove(k),
            forall|s: int|
                0 <= s < pre.threads.len() ==> #[trigger] post.threads[s].stride
                    == pre.threads[s].stride && post.threads[s].pass == pre.threads[s].pass,
            forall|s: int|
                0 <= s < pre.threads.len() && s != pre.queue@[k] + 1 ==> #[trigger] post.threads[s].queued
                    == pre.threads[s].queued,
            !post.threads[pre.queue@[k] + 1].queued,
            forall|s: int|
                0 <= s < pre.threads.len() && s != pre.queue@[k] + 1 && s != (if k == 0 {
                    0
                } else {
                    pre.queue@[k - 1] + 1
                }) ==> #[trigger] post.threads[s].next == pre.threads[s].next,
            post.threads[if k == 0 { 0 } else { pre.queue@[k - 1] + 1 }].next == (if k + 1
                < pre.queue@.len() {
                pre.queue@[k + 1] + 1
            } else {
                0
            }),
            forall|s: int|
                0 < s < pre.threads.len() && s != pre.queue@[k] + 1 && s != (if k + 1
                    < pre.queue@.len() {
                    pre.queue@[k + 1] + 1
                } else {
                    0
                }) ==> #[trigger] post.threads[s].prev == pre.threads[s].prev,
            k + 1 < pre.queue@.len() ==> post.threads[pre.queue@[k + 1] + 1].prev == (if k == 0 {
                0
            } else {
                pre.queue@[k - 1] + 1
            }),
        ensures
            post.well_formed(),
    {
        pre.lemma_unfold();
        reveal(StrideScheduler::well_formed);
        let q = pre.queue@;
        let nq = post.queue@;
        let tid = q[k];
        assert forall|t: Tid| #[trigger] post.stride_of(t) == pre.stride_of(t) by {}
        assert forall|i: int| 0 <= i < nq.len() implies #[trigger] nq[i] + 1
            < post.threads.len() by {
            if i >= k {
                assert(nq[i] == q[i + 1]);
            } else {
                assert(nq[i] == q[i]);
            }
        }
        assert forall|i: int| 0 <= i < nq.len() implies {
            &&& (#[trigger] post.threads[nq[i] + 1]).next == (if i + 1 < nq.len() {
                nq[i + 1] + 1
            } else {
                0
            })
            &&& post.threads[nq[i] + 1].prev == (if i > 0 { nq[i - 1] + 1 } else { 0 })
        } by {
            if i < k {
                assert(nq[i] == q[i]);
                assert(q[i] != tid);
                if k + 1 < q.len() {
                    assert(q[i] != q[k + 1]);
                }
            } else {
                assert(nq[i] == q[i + 1]);
                assert(q[i + 1] != tid);
                if k > 0 {
                    assert(q[i + 1] != q[k - 1]);
                }
            }
        }
        Self::lemma_remove_order(pre, post, k);
        assert(post.links_match(nq));
    }

    /// Rewriting the stride and pass of a thread that is not waiting (and
    /// possibly making it current) keeps the invariant.
    #[verifier::rlimit(50)]
    #[verifier::spinoff_prover]
    proof fn lemma_charge(pre: StrideScheduler, post: StrideScheduler, tid: Tid)
        requires
            pre.well_formed(),
            !pre.queue@.contains(tid),
            tid + 1 < pre.threads.len(),
            post.current < post.threads.len(),
            post.queue@ == pre.queue@,
            post.threads.len() == pre.threads.len(),
            forall|s: int|
                0 <= s < pre.threads.len() && s != tid + 1 ==> post.threads[s] == pre.threads[s],
            post.threads[tid + 1].queued == pre.threads[tid + 1].queued,
        ensures
            post.well_formed(),
            forall|t: Tid|
                #![auto]
                t != tid ==> post.stride_of(t) == pre.stride_of(t) && post.pass_of(t)
                    == pre.pass_of(t),
    {
        pre.lemma_unfold();
        reveal(StrideScheduler::well_formed);
        let q = pre.queue@;
        assert forall|t: Tid|
            #![auto]
            t != tid ==> post.stride_of(t) == pre.stride_of(t) && post.pass_of(t)
                == pre.pass_of(t) by {}
        assert forall|i: int| 0 <= i < q.len() implies #[trigger] post.threads[q[i] + 1]
            == pre.threads[q[i] + 1] by {
            assert(q[i] != tid);
        }
        assert(post.links_match(q));
        assert forall|i: int, j: int| 0 <= i < j < q.len() implies post.stride_of(
            #[trigger] q[i],
        ) <= post.stride_of(#[trigger] q[j]) by {
            assert(q[i] != tid);
            assert(q[j] != tid);
        }
    }

    /// Links `tid` into the ready list before the first thread whose stride
    /// is not smaller than its own.
    fn resort(&mut self, tid: Tid)
        requires
            old(self).well_formed(),
            tid + 1 < old(self).threads.len(),
            !old(self).queue@.contains(tid),
        ensures
            final(self).well_formed(),
            final(self).threads.len() == old(self).threads.len(),
            final(self).current == old(self).current,
            forall|t: Tid|
                #![auto]
                final(self).stride_of(t) == old(self).stride_of(t) && final(self).pass_of(t)
                    == old(self).pass_of(t),
            exists|k: int|
                0 <= k <= old(self).queue@.len() && #[trigger] old(self).queue@.insert(k, tid)
                    == final(self).queue@ && (forall|i: int|
                    0 <= i < k ==> old(self).stride_of(#[trigger] old(self).queue@[i]) < old(
                        self,
                    ).stride_of(tid)) && (forall|i: int|
                    k <= i < old(self).queue@.len() ==> old(self).stride_of(
                        #[trigger] old(self).queue@[i],
                    ) >= old(self).stride_of(tid)),
    {
        let ghost q = self.queue@;
        let ghost n = q.len();
        proof {
            self.lemma_unfold();
        }
        let slot = tid + 1;
        let stride = self.threads[slot].stride;
        let mut prev: usize = 0;
        let mut next: usize = self.threads[0].next;
        let ghost mut k: int = 0;
        while next != 0 && self.threads[next].stride < stride
            invariant
                self == old(self),
                q == self.queue@,
                n == q.len(),
                forall|i: int| 0 <= i < n ==> #[trigger] q[i] + 1 < self.threads.len(),
                self.links_match(q),
                self.sorted_by_stride(q),
                slot == tid + 1,
                stride == self.stride_of(tid),
                0 <= k <= n,
                prev == (if k == 0 { 0 } else { q[k - 1] + 1 }),
                next == (if k < n { q[k] + 1 } else { 0 }),
                forall|i: int| 0 <= i < k ==> self.stride_of(#[trigger] q[i]) < stride,
            decreases n - k,
        {
            proof {
                assert(self.threads[q[k] + 1].next == (if k + 1 < n { q[k + 1] + 1 } else { 0 }));
            }
            prev = next;
            next = self.threads[prev].next;
            proof {
                k = k + 1;
            }
        }
        proof {
            if next != 0 {
                assert forall|i: int| k <= i < n implies self.stride_of(#[trigger] q[i])
                    >= stride by {
                    assert(self.stride_of(q[k]) <= self.stride_of(q[i]));
                }
            }
        }
        let ghost pre = *self;
        let mut info = self.threads[slot];
        info.prev = prev;
        info.next = next;
        info.queued = true;
        self.threads.set(slot, info);
        let mut p = self.threads[prev];
        p.next = slot;
        self.threads.set(prev, p);
        if next > 0 {
            let mut nx = self.threads[next];
            nx.prev = slot;
            self.threads.set(next, nx);
        }
        self.queue = Ghost(q.insert(k, tid));
        proof {
            if k > 0 {
                assert(q[k - 1] != tid);
            }
            if k < n {
                assert(q[k] != tid);
                if k > 0 {
                    assert(q[k] != q[k - 1]);
                }
            }
            Self::lemma_insert(pre, *self, tid, k);
            assert forall|t: Tid|
                #![auto]
                self.stride_of(t) == pre.stride_of(t) && self.pass_of(t) == pre.pass_of(t) by {}
        }
    }

    /// Unlinks `tid` from the ready list.
    fn remove(&mut self, tid: Tid)
        requires
            old(self).well_formed(),
            old(self).queue@.contains(tid),
        ensures
            final(self).well_formed(),
            final(self).threads.len() == old(self).threads.len(),
            final(self).current == old(self).current,
            forall|t: Tid|
                #![auto]
                final(self).stride_of(t) == old(self).stride_of(t) && final(self).pass_of(t)
                    == old(self).pass_of(t),
            exists|k: int|
                0 <= k < old(self).queue@.len() && old(self).queue@[k] == tid
                    && #[trigger] old(self).queue@.remove(k) == final(self).queue@,
    {
        let ghost q = self.queue@;
        let ghost k = choose|k: int| 0 <= k < q.len() && q[k] == tid;
        proof {
            self.lemma_unfold();
            assert(self.threads[q[k] + 1].next == (if k + 1 < q.len() { q[k + 1] + 1 } else { 0 }));
            if k > 0 {
                assert(q[k - 1] != tid);
            }
            if k + 1 < q.len() {
                assert(q[k + 1] != tid);
                if k > 0 {
                    assert(q[k + 1] != q[k - 1]);
                }
            }
        }
        let slot = tid + 1;
        let ghost pre = *self;
        let mut info = self.threads[slot];
        let prev = info.prev;
        let next = info.next;
        let mut p = self.threads[prev];
        p.next = next;
        self.threads.set(prev, p);
        if next > 0 {
            let mut nx = self.threads[next];
            nx.prev = prev;
            self.threads.set(next, nx);
        }
        info.queued = false;
        info.prev = 0;
        info.next = 0;
        self.threads.set(slot, info);
        self.queue = Ghost(q.remove(k));
        proof {
            Self::lemma_remove(pre, *self, k);
            assert forall|t: Tid|
                #![auto]
                self.stride_of(t) == pre.stride_of(t) && self.pass_of(t) == pre.pass_of(t) by {}
        }
    }
}

impl Scheduler for StrideScheduler {
    open spec fn wf(&self) -> bool {
        self.well_formed()
    }

    open spec fn running(&self) -> Option<Tid> {
        self.current()
    }

    /// Ticks are for a running thread: the current thread, if any, is not
    /// back in the ready list (charging it there would break the order).
    open spec fn tick_pre(&self) -> bool {
        self.current() matches Some(c) ==> !self.ready().contains(c)
    }

    proof fn lemma_tick_pre(&self) {
    }

    open spec fn is_ready(&self, tid: Tid) -> bool {
        self.ready().contains(tid)
    }

    /// `tid` enters the ready list just before the first thread whose
    /// stride is not smaller than its own.
    open spec fn push_post(&self, tid: Tid, post: &Self) -> bool {
        &&& post.current() == self.current()
        &&& forall|t: Tid|
            #![auto]
            post.stride_of(t) == self.stride_of(t) && post.pass_of(t) == self.pass_of(t)
        &&& exists|k: int|
            0 <= k <= self.ready().len() && #[trigger] self.ready().insert(k, tid) == post.ready()
                && (forall|i: int|
                0 <= i < k ==> self.stride_of(#[trigger] self.ready()[i]) < self.stride_of(tid))
                && (forall|i: int|
                k <= i < self.ready().len() ==> self.stride_of(#[trigger] self.ready()[i])
                    >= self.stride_of(tid))
    }

    /// The head of the ready list (least stride) leaves it, becomes
    /// current, and is charged one pass.
    open spec fn pop_post(&self, post: &Self, r: Option<Tid>) -> bool {
        &&& forall|t: Tid| #[trigger] post.pass_of(t) == self.pass_of(t)
        &&& if self.ready().len() == 0 {
            &&& r == None::<Tid>
            &&& post.ready() == self.ready()
            &&& post.current() == self.current()
            &&& forall|t: Tid| #[trigger] post.stride_of(t) == self.stride_of(t)
        } else {
            let h = self.ready()[0];
            &&& r == Some(h)
            &&& post.ready() == self.ready().drop_first()
            &&& post.current() == Some(h)
            &&& post.stride_of(h) == sat_add(self.stride_of(h), self.pass_of(h))
            &&& forall|t: Tid| t != h ==> #[trigger] post.stride_of(t) == self.stride_of(t)
        }
    }

    /// The running thread keeps the processor, and is charged one more
    /// pass, while its stride is not above that of the head of the ready
    /// list; with nobody waiting it keeps running uncharged. Without a
    /// running thread a switch is asked for.
    open spec fn tick_post(&self, post: &Self, r: bool) -> bool {
        &&& post.ready() == self.ready()
        &&& post.current() == self.current()
        &&& forall|t: Tid| #[trigger] post.pass_of(t) == self.pass_of(t)
        &&& match self.current() {
            Some(c) if self.ready().len() > 0 && self.stride_of(c) <= self.stride_of(
                self.ready()[0],
            ) => {
                &&& !r
                &&& post.stride_of(c) == sat_add(self.stride_of(c), self.pass_of(c))
                &&& forall|t: Tid| t != c ==> #[trigger] post.stride_of(t) == self.stride_of(t)
            },
            _ => {
                &&& r == !(self.current() is Some && self.ready().len() == 0)
                &&& forall|t: Tid| #[trigger] post.stride_of(t) == self.stride_of(t)
            },
        }
    }

    /// `tid` leaves the ready list if it is there, and its record goes
    /// back to that of a thread never seen.
    open spec fn exit_post(&self, tid: Tid, post: &Self) -> bool {
        &&& post.current() == (if self.current() == Some(tid) {
            None
        } else {
            self.current()
        })
        &&& post.stride_of(tid) == 0
        &&& post.pass_of(tid) == BIG_STRIDE
        &&& forall|t: Tid|
            #![auto]
            t != tid ==> post.stride_of(t) == self.stride_of(t) && post.pass_of(t)
                == self.pass_of(t)
        &&& if self.ready().contains(tid) {
            exists|k: int|
                0 <= k < self.ready().len() && self.ready()[k] == tid && #[trigger] self.ready().remove(k)
                    == post.ready()
        } else {
            post.ready() == self.ready()
        }
    }

    fn push(&mut self, tid: Tid) {
        let slot = tid + 1;
        self.reserve(slot);
        let ghost q = self.queue@;
        self.resort(tid);
        proof {
            let k = choose|k: int|
                0 <= k <= q.len() && #[trigger] q.insert(k, tid) == self.queue@ && (forall|i: int|
                    0 <= i < k ==> old(self).stride_of(#[trigger] q[i]) < old(self).stride_of(tid))
                    && (forall|i: int|
                    k <= i < q.len() ==> old(self).stride_of(#[trigger] q[i]) >= old(self).stride_of(
                        tid,
                    ));
            lemma_insert_contains(q, k, tid);
        }
    }

    #[verifier::spinoff_prover]
    fn pop(&mut self) -> (r: Option<Tid>) {
        proof {
            self.lemma_unfold();
        }
        let index = self.threads[0].next;
        if index > 0 {
            let ghost q = self.queue@;
            let tid = index - 1;
            self.remove(tid);
            proof {
                lemma_remove_contains(q, 0);
                assert(q[0] == tid);
                if exists|k: int| 0 < k < q.len() && q[k] == tid {
                    let k = choose|k: int| 0 < k < q.len() && q[k] == tid;
                    assert(q[k] == q[0]);
                }
                self.lemma_unfold();
                assert(!self.queue@.contains(tid)) by {
                    assert(!self.threads[index as int].queued);
                }
            }
            let ghost pre = *self;
            let mut info = self.threads[index];
            info.add();
            self.threads.set(index, info);
            self.current = index;
            proof {
                Self::lemma_charge(pre, *self, tid);
            }
            Some(tid)
        } else {
            proof {
                assert forall|t: Tid| !#[trigger] self.queue@.contains(t) by {}
            }
            None
        }
    }

    fn tick(&mut self) -> (r: bool) {
        proof {
            self.lemma_unfold();
        }
        let slot = self.current;
        if slot > 0 {
            let c = slot - 1;
            let next = self.threads[0].next;
            if next == 0 {
                return false;
            }
            if self.threads[slot].stride <= self.threads[next].stride {
                let ghost pre = *self;
                let mut info = self.threads[slot];
                info.add();
                self.threads.set(slot, info);
                proof {
                    Self::lemma_charge(pre, *self, c);
                }
                false
            } else {
                true
            }
        } else {
            true
        }
    }

    #[verifier::spinoff_prover]
    fn exit(&mut self, tid: Tid) {
        proof {
            self.lemma_unfold();
        }
        if tid < usize::MAX {
            let slot = tid + 1;
            if self.current == slot {
                let ghost pre = *self;
                self.current = 0;
                proof {
                    reveal(StrideScheduler::well_formed);
                    assert(self.links_match(self.queue@) == pre.links_match(pre.queue@));
                    assert(self.sorted_by_stride(self.queue@) == pre.sorted_by_stride(pre.queue@));
                }
            }
            if slot < self.threads.len() {
                if self.threads[slot].queued {
                    let ghost q = self.queue@;
                    self.remove(tid);
                    proof {
                        let k = choose|k: int|
                            0 <= k < q.len() && q[k] == tid && #[trigger] q.remove(k)
                                == self.queue@;
                        lemma_remove_contains(q, k);
                    }
                }
                proof {
                    self.lemma_unfold();
                }
                let ghost pre = *self;
                self.threads.set(slot, SInfo::fresh());
                proof {
                    Self::lemma_charge(pre, *self, tid);
                }
            }
        }
    }
}

/// States `s[0..=i]` of a round-robin run in which `pushed[0..i]` were pushed
/// one after the other.
spec fn rr_pushes(s: Seq<RRScheduler>, pushed: Seq<Tid>, i: int) -> bool {
    forall|j: int| 0 <= j < i ==> (#[trigger] s[j]).push_post(pushed[j], &s[j + 1])
}

proof fn lemma_rr_push_run(s: Seq<RRScheduler>, pushed: Seq<Tid>, i: int)
    requires
        0 <= i <= pushed.len(),
        i < s.len(),
        s[0].ready() == Seq::<Tid>::empty(),
        rr_pushes(s, pushed, i),
    ensures
        s[i].ready() == pushed.take(i),
    decreases i,
{
    if i > 0 {
        lemma_rr_push_run(s, pushed, i - 1);
        assert(s[i - 1].push_post(pushed[i - 1], &s[i]));
        assert(pushed.take(i) == pushed.take(i - 1).push(pushed[i - 1]));
    } else {
        assert(pushed.take(0) == Seq::<Tid>::empty());
    }
}

proof fn lemma_rr_pop_run(s: Seq<RRScheduler>, popped: Seq<Option<Tid>>, q: Seq<Tid>, base: int, i: int)
    requires
        0 <= base,
        0 <= i <= q.len(),
        i <= popped.len(),
        base + i < s.len(),
        s[base].ready() == q,
        forall|j: int| 0 <= j < i ==> (#[trigger] s[base + j]).pop_post(&s[base + j + 1], popped[j]),
    ensures
        s[base + i].ready() == q.skip(i),
        forall|j: int| 0 <= j < i ==> #[trigger] popped[j] == Some(q[j]),
    decreases i,
{
    if i > 0 {
        lemma_rr_pop_run(s, popped, q, base, i - 1);
        assert(s[base + (i - 1)].pop_post(&s[base + (i - 1) + 1], popped[i - 1]));
        assert(q.skip(i - 1).len() > 0);
        assert(q.skip(i - 1).drop_first() == q.skip(i));
    } else {
        assert(q.skip(0) == q);
    }
}

/// Round robin hands threads out in the order they were pushed: starting
/// from an empty ready list, `n` pushes followed by `n` pops return the
/// pushed threads in push order and leave the ready list empty.
pub proof fn lemma_round_robin_fifo(s: Seq<RRScheduler>, pushed: Seq<Tid>, popped: Seq<Option<Tid>>)
    requires
        s.len() == 2 * pushed.len() + 1,
        popped.len() == pushed.len(),
        s[0].ready() == Seq::<Tid>::empty(),
        forall|j: int| 0 <= j < pushed.len() ==> (#[trigger] s[j]).push_post(pushed[j], &s[j + 1]),
        forall|j: int|
            0 <= j < pushed.len() ==> (#[trigger] s[pushed.len() + j]).pop_post(
                &s[pushed.len() + j + 1],
                popped[j],
            ),
    ensures
        forall|j: int| 0 <= j < pushed.len() ==> #[trigger] popped[j] == Some(pushed[j]),
        s[2 * pushed.len() as int].ready() == Seq::<Tid>::empty(),
{
    let n = pushed.len() as int;
    lemma_rr_push_run(s, pushed, n);
    assert(pushed.take(n) == pushed);
    lemma_rr_pop_run(s, popped, pushed, n, n);
    assert(pushed.skip(n) == Seq::<Tid>::empty());
}

proof fn lemma_rr_tick_run(s: Seq<RRScheduler>, rs: Seq<bool>, tid: Tid, i: int)
    requires
        3 <= s.len(),
        0 <= i < s.len() - 2,
        i <= rs.len(),
        s[2].current() == Some(tid),
        s[2].time_left(tid) == s[2].max_time_slice(),
        forall|j: int| 0 <= j < rs.len() && j + 3 < s.len() ==> (#[trigger] s[2 + j]).tick_post(&s[3 + j], rs[j]),
    ensures
        s[2 + i].current() == Some(tid),
        s[2 + i].time_left(tid) == (if i <= s[2].max_time_slice() {
            s[2].max_time_slice() - i
        } else {
            0
        }),
        s[2 + i].max_time_slice() == s[2].max_time_slice(),
        forall|j: int|
            0 <= j < i ==> #[trigger] rs[j] == (j + 1 >= s[2].max_time_slice()),
    decreases i,
{
    if i > 0 {
        lemma_rr_tick_run(s, rs, tid, i - 1);
        assert(s[2 + (i - 1)].tick_post(&s[3 + (i - 1)], rs[i - 1]));
    }
}

/// A thread that is pushed with a fresh quantum and then popped is told to
/// yield on exactly its `max_time_slice`-th tick (and on every later one),
/// never before.
pub proof fn lemma_round_robin_quantum(s: Seq<RRScheduler>, rs: Seq<bool>, tid: Tid)
    requires
        s.len() == rs.len() + 3,
        s[0].ready() == Seq::<Tid>::empty(),
        s[0].time_left(tid) == 0,
        s[0].push_post(tid, &s[1]),
        s[1].pop_post(&s[2], Some(tid)),
        forall|j: int| 0 <= j < rs.len() ==> (#[trigger] s[2 + j]).tick_post(&s[3 + j], rs[j]),
    ensures
        forall|j: int|
            0 <= j < rs.len() ==> #[trigger] rs[j] == (j + 1 >= s[0].max_time_slice()),
{
    assert(s[1].ready() == seq![tid]);
    lemma_rr_tick_run(s, rs, tid, rs.len() as int);
}

/// Stride scheduling serves the least-served thread first: what `pop`
/// returns has a stride no larger than that of any thread left waiting.
pub proof fn lemma_stride_pop_least(a: StrideScheduler, b: StrideScheduler, r: Option<Tid>)
    requires
        a.wf(),
        a.pop_post(&b, r),
    ensures
        r matches Some(h) ==> forall|i: int|
            0 <= i < a.ready().len() ==> a.stride_of(h) <= a.stride_of(#[trigger] a.ready()[i]),
{
    a.lemma_unfold();
    if r is Some {
        assert forall|i: int| 0 <= i < a.ready().len() implies a.stride_of(r->0) <= a.stride_of(
            #[trigger] a.ready()[i],
        ) by {
            if i > 0 {
                assert(a.stride_of(a.ready()[0]) <= a.stride_of(a.ready()[i]));
            }
        }
    }
}

/// Two threads of equal priority share evenly. If both wait with strides
/// at most one pass apart, a round of `pop` and pushing the popped thread
/// back takes the less-served one, and leaves both waiting, still at most
/// one pass apart. As strides count passes served, over any run of rounds
/// from equal strides their numbers of turns differ by at most one.
pub proof fn lemma_stride_equal_share(
    s0: StrideScheduler,
    s1: StrideScheduler,
    s2: StrideScheduler,
    t: Tid,
    a: Tid,
    b: Tid,
)
    requires
        s0.wf(),
        a != b,
        s0.is_ready(a),
        s0.is_ready(b),
        s0.ready().len() == 2,
        s0.pass_of(a) == s0.pass_of(b),
        s0.stride_of(a) + s0.pass_of(a) <= usize::MAX,
        s0.stride_of(b) + s0.pass_of(b) <= usize::MAX,
        s0.stride_of(a) <= s0.stride_of(b) + s0.pass_of(b),
        s0.stride_of(b) <= s0.stride_of(a) + s0.pass_of(a),
        s0.pop_post(&s1, Some(t)),
        s1.push_post(t, &s2),
    ensures
        t == a || t == b,
        t == a ==> s0.stride_of(a) <= s0.stride_of(b),
        t == b ==> s0.stride_of(b) <= s0.stride_of(a),
        s2.is_ready(a),
        s2.is_ready(b),
        s2.ready().len() == 2,
        s2.pass_of(a) == s2.pass_of(b),
        s2.stride_of(a) <= s2.stride_of(b) + s2.pass_of(b),
        s2.stride_of(b) <= s2.stride_of(a) + s2.pass_of(a),
{
    lemma_stride_pop_least(s0, s1, Some(t));
    let q = s0.ready();
    assert(q.contains(a) && q.contains(b));
    let ia = choose|i: int| 0 <= i < q.len() && q[i] == a;
    let ib = choose|i: int| 0 <= i < q.len() && q[i] == b;
    assert(q[0] == t);
    let u = if t == a { b } else { a };
    assert(t == a || t == b);
    assert(s1.ready() == q.drop_first());
    assert(s1.ready()[0] == u);
    assert(s1.ready() =~= seq![u]);
    let k = choose|k: int|
        0 <= k <= s1.ready().len() && #[trigger] s1.ready().insert(k, t) == s2.ready() && (forall|i: int|
            0 <= i < k ==> s1.stride_of(#[trigger] s1.ready()[i]) < s1.stride_of(t)) && (forall|i: int|
            k <= i < s1.ready().len() ==> s1.stride_of(#[trigger] s1.ready()[i]) >= s1.stride_of(t));
    assert(s2.ready()[k] == t);
    if k == 0 {
        assert(s2.ready()[1] == u);
    } else {
        assert(s2.ready()[0] == u);
    }
    assert(s0.stride_of(t) <= s0.stride_of(q[ia]) && s0.stride_of(t) <= s0.stride_of(q[ib]));
}

/// A thread that exits and is pushed again starts over as if it had never
/// run: stride zero, default pass, and (stride zero being least) at the
/// front of the ready list.
pub proof fn lemma_stride_exit_then_push(a: StrideScheduler, b: StrideScheduler, c: StrideScheduler, tid: Tid)
    requires
        a.exit_post(tid, &b),
        b.push_post(tid, &c),
    ensures
        c.stride_of(tid) == 0,
        c.pass_of(tid) == BIG_STRIDE,
        c.ready() == seq![tid] + b.ready(),
{
    let k = choose|k: int|
        0 <= k <= b.ready().len() && #[trigger] b.ready().insert(k, tid) == c.ready() && (forall|i: int|
            0 <= i < k ==> b.stride_of(#[trigger] b.ready()[i]) < b.stride_of(tid)) && (forall|i: int|
            k <= i < b.ready().len() ==> b.stride_of(#[trigger] b.ready()[i]) >= b.stride_of(tid));
    if k > 0 {
        assert(b.stride_of(b.ready()[0]) < b.stride_of(tid));
    }
    assert(b.ready().insert(0, tid) == seq![tid] + b.ready());
}

} // verus!
