//! Physical frame bookkeeping: a first-fit bitmap over the frame numbers
//! `[l, r)`, with single-frame and contiguous-run allocation.
use vstd::prelude::*;

verus! {

/// The frames `[s, s + cnt)` (indices into `used`) are all free.
pub open spec fn run_free(used: Seq<bool>, s: int, cnt: int) -> bool {
    &&& 0 <= s
    &&& s + cnt <= used.len()
    &&& forall|j: int| s <= j < s + cnt ==> !#[trigger] used[j]
}

/// `used` with the indices `[s, s + cnt)` set to `v`.
pub open spec fn mark(used: Seq<bool>, s: int, cnt: int, v: bool) -> Seq<bool> {
    Seq::new(used.len(), |j: int| if s <= j < s + cnt { v } else { used[j] })
}

/// How far index `j` lies after `start` when walking a ring of `n` slots.
pub open spec fn ring_dist(j: int, start: int, n: int) -> int {
    if j >= start { j - start } else { j + n - start }
}

/// First-fit allocator over a bitmap of used flags.
pub struct FirstFitAllocator {
    used: Vec<bool>,
    base: usize,
    cursor: usize,
}

impl FirstFitAllocator {
    /// Used flags of the managed frames; index `i` is frame `begin() + i`.
    pub closed spec fn used(&self) -> Seq<bool> {
        self.used@
    }

    /// First managed frame number.
    pub closed spec fn begin(&self) -> usize {
        self.base
    }

    /// Index at which the next single-frame search starts.
    pub closed spec fn cursor(&self) -> usize {
        self.cursor
    }

    pub closed spec fn well_formed(&self) -> bool {
        &&& self.base + self.used@.len() <= usize::MAX
        &&& (self.cursor < self.used@.len() || self.cursor == 0)
    }

    /// An allocator that manages no frame yet.
    pub fn new() -> (r: FirstFitAllocator)
        ensures
            r.well_formed(),
            r.used() == Seq::<bool>::empty(),
    {
        FirstFitAllocator { used: Vec::new(), base: 0, cursor: 0 }
    }

    /// Manages the frames `[l, r)`, all free.
    pub fn init(&mut self, l: usize, r: usize)
        requires
            l <= r,
        ensures
            final(self).well_formed(),
            final(self).begin() == l,
            final(self).used() == Seq::new((r - l) as nat, |i: int| false),
            final(self).cursor() == 0,
    {
        let mut used: Vec<bool> = Vec::new();
        let n = r - l;
        let mut i: usize = 0;
        while i < n
            invariant
                i <= n,
                used@ == Seq::new(i as nat, |j: int| false),
            decreases n - i,
        {
            used.push(false);
            i = i + 1;
            proof {
                assert(used@ =~= Seq::new(i as nat, |j: int| false));
            }
        }
        self.used = used;
        self.base = l;
        self.cursor = 0;
    }

    /// Takes one free frame: the first found walking the ring of managed
    /// frames from the cursor, which then moves just past it. `None` when
    /// every frame is used.
    pub fn alloc_frame(&mut self) -> (r: Option<usize>)
        requires
            old(self).well_formed(),
        ensures
            final(self).well_formed(),
            final(self).begin() == old(self).begin(),
            match r {
                None => {
                    &&& forall|j: int| 0 <= j < old(self).used().len() ==> #[trigger] old(self).used()[j]
                    &&& final(self).used() == old(self).used()
                    &&& final(self).cursor() == old(self).cursor()
                },
                Some(f) => {
                    let i = f - old(self).begin();
                    let n = old(self).used().len() as int;
                    let c = old(self).cursor() as int;
                    &&& old(self).begin() <= f < old(self).begin() + n
                    &&& !old(self).used()[i]
                    &&& forall|j: int|
                        0 <= j < n && ring_dist(j, c, n) < ring_dist(i, c, n)
                            ==> #[trigger] old(self).used()[j]
                    &&& final(self).used() == old(self).used().update(i, true)
                    &&& final(self).cursor() == (if i + 1 < n { i + 1 } else { 0 })
                },
            },
    {
        let n = self.used.len();
        let c = self.cursor;
        let mut k: usize = 0;
        while k < n
            invariant
                n == self.used@.len(),
                c == self.cursor,
                self == old(self),
                self.well_formed(),
                k <= n,
                forall|j: int|
                    0 <= j < n && ring_dist(j, c as int, n as int) < k ==> #[trigger] self.used@[j],
            decreases n - k,
        {
            let i = if k < n - c { c + k } else { k - (n - c) };
            proof {
                assert(ring_dist(i as int, c as int, n as int) == k);
            }
            if !self.used[i] {
                self.used.set(i, true);
                self.cursor = if i + 1 < n { i + 1 } else { 0 };
                return Some(self.base + i);
            }
            k = k + 1;
        }
        proof {
            assert forall|j: int| 0 <= j < n implies #[trigger] self.used@[j] by {
                assert(ring_dist(j, c as int, n as int) < n);
            }
        }
        None
    }

    /// Whether frame `f` is managed here and in use.
    pub fn in_use(&self, f: usize) -> (r: bool)
        requires
            self.well_formed(),
        ensures
            r == (self.begin() <= f < self.begin() + self.used().len() && self.used()[f
                - self.begin()]),
    {
        f >= self.base && f - self.base < self.used.len() && self.used[f - self.base]
    }

    /// Gives back frame `f`, which must be in use.
    pub fn dealloc_frame(&mut self, f: usize)
        requires
            old(self).well_formed(),
            old(self).begin() <= f < old(self).begin() + old(self).used().len(),
            old(self).used()[f - old(self).begin()],
        ensures
            final(self).well_formed(),
            final(self).begin() == old(self).begin(),
            final(self).cursor() == old(self).cursor(),
            final(self).used() == old(self).used().update(f - old(self).begin(), false),
    {
        let i = f - self.base;
        self.used.set(i, false);
    }

    /// Whether the `cnt` frames from index `s` on are all free.
    fn run_is_free(&self, s: usize, cnt: usize) -> (r: bool)
        requires
            s + cnt <= self.used@.len(),
        ensures
            r == run_free(self.used@, s as int, cnt as int),
    {
        let n = self.used.len();
        let mut j: usize = 0;
        while j < cnt
            invariant
                s + cnt <= self.used@.len(),
                n == self.used@.len(),
                j <= cnt,
                forall|t: int| s <= t < s + j ==> !#[trigger] self.used@[t],
            decreases cnt - j,
        {
            if self.used[s + j] {
                return false;
            }
            j = j + 1;
        }
        true
    }

    /// Takes the lowest run of `cnt` contiguous free frames and returns
    /// its first frame; `None` when no such run exists.
    pub fn alloc_frames(&mut self, cnt: usize) -> (r: Option<usize>)
        requires
            old(self).well_formed(),
        ensures
            final(self).well_formed(),
            final(self).begin() == old(self).begin(),
            final(self).cursor() == old(self).cursor(),
            match r {
                None => {
                    &&& forall|s: int| !#[trigger] run_free(old(self).used(), s, cnt as int)
                    &&& final(self).used() == old(self).used()
                },
                Some(f) => {
                    let s = f - old(self).begin();
                    &&& old(self).begin() <= f
                    &&& run_free(old(self).used(), s, cnt as int)
                    &&& forall|t: int| 0 <= t < s ==> !#[trigger] run_free(old(self).used(), t, cnt as int)
                    &&& final(self).used() == mark(old(self).used(), s, cnt as int, true)
                },
            },
    {
        let n = self.used.len();
        if cnt > n {
            proof {
                assert forall|s: int| !#[trigger] run_free(self.used@, s, cnt as int) by {}
            }
            return None;
        }
        let mut s: usize = 0;
        while s <= n - cnt
            invariant
                self == old(self),
                self.well_formed(),
                n == self.used@.len(),
                cnt <= n,
                s <= n - cnt + 1,
                forall|t: int| 0 <= t < s ==> !#[trigger] run_free(self.used@, t, cnt as int),
            decreases n - cnt + 1 - s,
        {
            if self.run_is_free(s, cnt) {
                let ghost before = self.used@;
                let mut j: usize = 0;
                while j < cnt
                    invariant
                        s + cnt <= n,
                        n == self.used@.len(),
                        j <= cnt,
                        self.base == old(self).base,
                        self.cursor == old(self).cursor,
                        self.used@ == mark(before, s as int, j as int, true),
                        before == old(self).used@,
                        self.well_formed(),
                    decreases cnt - j,
                {
                    self.used.set(s + j, true);
                    j = j + 1;
                    proof {
                        assert(self.used@ =~= mark(before, s as int, j as int, true));
                    }
                }
                return Some(self.base + s);
            }
            s = s + 1;
        }
        proof {
            assert forall|t: int| !#[trigger] run_free(self.used@, t, cnt as int) by {
                if 0 <= t && t + cnt <= n {
                    assert(t < s);
                }
            }
        }
        None
    }

    /// Gives back the `cnt` frames from `start` on, which must all be in use.
    pub fn dealloc_frames(&mut self, start: usize, cnt: usize)
        requires
            old(self).well_formed(),
            old(self).begin() <= start,
            start + cnt <= old(self).begin() + old(self).used().len(),
            forall|j: int|
                start - old(self).begin() <= j < start - old(self).begin() + cnt
                    ==> #[trigger] old(self).used()[j],
        ensures
            final(self).well_formed(),
            final(self).begin() == old(self).begin(),
            final(self).cursor() == old(self).cursor(),
            final(self).used() == mark(
                old(self).used(),
                start - old(self).begin(),
                cnt as int,
                false,
            ),
    {
        let s = start - self.base;
        let n = self.used.len();
        let ghost before = self.used@;
        let mut j: usize = 0;
        while j < cnt
            invariant
                s + cnt <= self.used@.len(),
                n == self.used@.len(),
                before.len() == self.used@.len(),
                self.well_formed(),
                j <= cnt,
                self.base == old(self).base,
                self.cursor == old(self).cursor,
                self.used@ == mark(before, s as int, j as int, false),
                before == old(self).used@,
                s == start - old(self).base,
            decreases cnt - j,
        {
            self.used.set(s + j, false);
            j = j + 1;
            proof {
                assert(self.used@ =~= mark(before, s as int, j as int, false));
            }
        }
    }
}

} // verus!
