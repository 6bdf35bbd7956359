//! Page-replacement policies. Each keeps the resident mappings it was told
//! about, as `(virtual address, page-table handle)` records, and picks one
//! to evict when memory runs out. The accessed bits of the records' page
//! entries are read from and written back to a vector parallel to the
//! records, which the caller fills from the page tables and writes back.
use std::collections::VecDeque;
use vstd::prelude::*;

use crate::frame_allocator::ring_dist;

verus! {

/// What every replacement policy offers; `T` is the page-table handle.
pub trait PageReplace<T> {
    /// The internal invariant of the policy.
    spec fn wf(&self) -> bool;

    /// The tracked records, in the policy's order.
    spec fn records(&self) -> Seq<(usize, T)>;

    /// How `push_frame(vaddr, pt)` takes `self` to `post`.
    spec fn push_post(&self, vaddr: usize, pt: T, post: &Self) -> bool;

    /// How `choose_victim` takes `self` and the accessed bits `acc` to
    /// `post` and `acc_post`, returning `r`.
    spec fn victim_post(
        &self,
        acc: Seq<bool>,
        post: &Self,
        acc_post: Seq<bool>,
        r: Option<(usize, T)>,
    ) -> bool;

    /// Registers a newly resident mapping.
    fn push_frame(&mut self, vaddr: usize, pt: T)
        requires
            old(self).wf(),
        ensures
            final(self).wf(),
            final(self).records() == old(self).records().push((vaddr, pt)),
            old(self).push_post(vaddr, pt, final(self)),
    ;

    /// Removes and returns the record chosen for eviction; `accessed[i]`
    /// is the accessed bit of record `i`.
    fn choose_victim(&mut self, accessed: &mut Vec<bool>) -> (r: Option<(usize, T)>)
        requires
            old(self).wf(),
            old(accessed)@.len() == old(self).records().len(),
        ensures
            final(self).wf(),
            final(accessed)@.len() == final(self).records().len(),
            old(self).victim_post(old(accessed)@, final(self), final(accessed)@, r),
            r is None <==> old(self).records().len() == 0,
    ;

    /// Periodic hook; these policies keep no time-based state.
    fn tick(&self)
        requires
            self.wf(),
    ;
}

/// Evicts in strict order of arrival.
pub struct FifoPageReplace<T> {
    frames: VecDeque<(usize, T)>,
}

impl<T> FifoPageReplace<T> {
    /// A policy tracking nothing.
    pub fn new() -> (r: FifoPageReplace<T>)
        ensures
            r.records() == Seq::<(usize, T)>::empty(),
    {
        FifoPageReplace { frames: VecDeque::new() }
    }
}

impl<T> PageReplace<T> for FifoPageReplace<T> {
    open spec fn wf(&self) -> bool {
        true
    }

    closed spec fn records(&self) -> Seq<(usize, T)> {
        self.frames@
    }

    /// The record joins the back of the queue.
    open spec fn push_post(&self, vaddr: usize, pt: T, post: &Self) -> bool {
        post.records() == self.records().push((vaddr, pt))
    }

    /// The oldest record leaves; the accessed bits only lose its entry.
    open spec fn victim_post(
        &self,
        acc: Seq<bool>,
        post: &Self,
        acc_post: Seq<bool>,
        r: Option<(usize, T)>,
    ) -> bool {
        if self.records().len() == 0 {
            &&& r == None::<(usize, T)>
            &&& post.records() == self.records()
            &&& acc_post == acc
        } else {
            &&& r == Some(self.records()[0])
            &&& post.records() == self.records().drop_first()
            &&& acc_post == acc.drop_first()
        }
    }

    fn push_frame(&mut self, vaddr: usize, pt: T) {
        self.frames.push_back((vaddr, pt));
    }

    fn choose_victim(&mut self, accessed: &mut Vec<bool>) -> (r: Option<(usize, T)>) {
        let r = self.frames.pop_front();
        if r.is_some() {
            accessed.remove(0);
            proof {
                assert(self.frames@ =~= old(self).frames@.drop_first());
                assert(accessed@ =~= old(accessed)@.drop_first());
            }
        }
        r
    }

    fn tick(&self) {
    }
}

/// Second-chance eviction around a rotating hand.
pub struct ClockPageReplace<T> {
    frames: VecDeque<(usize, T)>,
    current: usize,
}

/// The index the clock hand stops at, for accessed bits `acc` and hand `c`:
/// the first unaccessed record walking from `c`, or `c` itself when all are
/// accessed.
pub open spec fn clock_victim(acc: Seq<bool>, c: int, v: int) -> bool {
    let n = acc.len() as int;
    &&& 0 <= v < n
    &&& if forall|j: int| 0 <= j < n ==> #[trigger] acc[j] {
        v == c
    } else {
        &&& !acc[v]
        &&& forall|j: int| 0 <= j < n && ring_dist(j, c, n) < ring_dist(v, c, n) ==> #[trigger] acc[j]
    }
}

/// Accessed bits after the hand swept from `c` to `v`: every bit passed
/// over is cleared (all of them when none was clear).
pub open spec fn clock_swept(acc: Seq<bool>, c: int, v: int) -> Seq<bool> {
    let n = acc.len() as int;
    let all = forall|j: int| 0 <= j < n ==> #[trigger] acc[j];
    Seq::new(acc.len(), |j: int| if all || ring_dist(j, c, n) < ring_dist(v, c, n) { false } else { acc[j] })
}

impl<T> ClockPageReplace<T> {
    /// A policy tracking nothing, hand at 0.
    pub fn new() -> (r: ClockPageReplace<T>)
        ensures
            r.wf(),
            r.records() == Seq::<(usize, T)>::empty(),
            r.hand() == 0,
    {
        ClockPageReplace { frames: VecDeque::new(), current: 0 }
    }

    /// The position the next scan starts from.
    pub closed spec fn hand(&self) -> usize {
        self.current
    }
}

impl<T> PageReplace<T> for ClockPageReplace<T> {
    open spec fn wf(&self) -> bool {
        self.hand() < self.records().len() || self.hand() == 0
    }

    closed spec fn records(&self) -> Seq<(usize, T)> {
        self.frames@
    }

    /// The record joins the back of the ring; the hand stays where it is.
    open spec fn push_post(&self, vaddr: usize, pt: T, post: &Self) -> bool {
        &&& post.records() == self.records().push((vaddr, pt))
        &&& post.hand() == self.hand()
    }

    /// The record where the hand stops (see `clock_victim`) leaves, the
    /// bits it swept over are cleared, and the hand stays at that index.
    open spec fn victim_post(
        &self,
        acc: Seq<bool>,
        post: &Self,
        acc_post: Seq<bool>,
        r: Option<(usize, T)>,
    ) -> bool {
        if self.records().len() == 0 {
            &&& r == None::<(usize, T)>
            &&& post.records() == self.records()
            &&& post.hand() == self.hand()
            &&& acc_post == acc
        } else {
            exists|v: int|
                #![trigger self.records()[v]]
                clock_victim(acc, self.hand() as int, v) && r == Some(self.records()[v])
                    && post.records() == self.records().remove(v) && acc_post == clock_swept(
                    acc,
                    self.hand() as int,
                    v,
                ).remove(v) && post.hand() == (if self.records().len() > 1 {
                    v % (self.records().len() - 1)
                } else {
                    0
                })
        }
    }

    fn push_frame(&mut self, vaddr: usize, pt: T) {
        self.frames.push_back((vaddr, pt));
    }

    fn choose_victim(&mut self, accessed: &mut Vec<bool>) -> (r: Option<(usize, T)>) {
        let n = self.frames.len();
        if n == 0 {
            return None;
        }
        let c = self.current;
        let ghost acc = accessed@;
        let mut k: usize = 0;
        let mut v: usize = c;
        let mut found = false;
        while k < n
            invariant
                n == self.frames@.len(),
                n == accessed@.len(),
                n == acc.len(),
                self == old(self),
                c == self.current,
                c < n,
                k <= n,
                !found ==> v == c,
                found ==> k < n && v < n && ring_dist(v as int, c as int, n as int) == k && !acc[v as int],
                forall|j: int| 0 <= j < n && ring_dist(j, c as int, n as int) < k ==> #[trigger] acc[j],
                forall|j: int|
                    0 <= j < n ==> #[trigger] accessed@[j] == (if ring_dist(j, c as int, n as int)
                        < k { false } else { acc[j] }),
            ensures
                found || k == n,
            decreases n - k,
        {
            let i = if k < n - c { c + k } else { k - (n - c) };
            proof {
                assert(ring_dist(i as int, c as int, n as int) == k);
            }
            if accessed[i] {
                accessed.set(i, false);
                k = k + 1;
            } else {
                v = i;
                found = true;
                break;
            }
        }
        proof {
            let all = forall|j: int| 0 <= j < n ==> #[trigger] acc[j];
            if !found {
                assert forall|j: int| 0 <= j < n implies #[trigger] acc[j] by {
                    assert(ring_dist(j, c as int, n as int) < n);
                }
                assert(clock_victim(acc, c as int, v as int));
                assert(accessed@ =~= clock_swept(acc, c as int, v as int)) by {
                    assert forall|j: int| 0 <= j < n implies accessed@[j] == clock_swept(acc, c as int, v as int)[j] by {
                        assert(ring_dist(j, c as int, n as int) < n);
                    }
                }
            } else {
                assert(!all);
                assert(clock_victim(acc, c as int, v as int));
                assert(accessed@ =~= clock_swept(acc, c as int, v as int));
            }
        }
        let ghost frames = self.frames@;
        let r = self.frames.remove(v);
        accessed.remove(v);
        self.current = if n - 1 > 0 { v % (n - 1) } else { 0 };
        proof {
            assert(r == Some(frames[v as int]));
        }
        r
    }

    fn tick(&self) {
    }
}

} // verus!
