//! Frame allocation through a complete binary tree over the frames: a
//! node is marked full when every frame below it is used, so a free frame
//! is found by walking down from the root through non-full nodes.
use vstd::prelude::*;

verus! {

/// Segment-tree allocator. Node `k` has children `2k` and `2k + 1`; the
/// leaves `m .. 2m` stand for the frames, padding leaves counting as used.
pub struct SegmentTreeAllocator {
    tree: Vec<bool>,
    m: usize,
    n: usize,
    base: usize,
}

/// `q` lies strictly above `p` on the path from `p` to the root.
pub open spec fn above(q: int, p: int) -> bool
    decreases p,
{
    if p <= 1 {
        false
    } else {
        p / 2 == q || above(q, p / 2)
    }
}

impl SegmentTreeAllocator {
    /// Used flags of the managed frames; index `i` is frame `begin() + i`.
    pub closed spec fn used(&self) -> Seq<bool> {
        Seq::new(self.n as nat, |i: int| self.tree@[self.m + i])
    }

    /// First managed frame number.
    pub closed spec fn begin(&self) -> usize {
        self.base
    }

    spec fn node_ok(&self, k: int) -> bool {
        self.tree@[k] == (self.tree@[2 * k] && self.tree@[2 * k + 1])
    }

    spec fn shape_ok(&self) -> bool {
        &&& 1 <= self.m
        &&& self.n <= self.m
        &&& self.tree@.len() == 2 * self.m
        &&& 2 * self.m <= usize::MAX
        &&& self.base + self.n <= usize::MAX
        &&& forall|i: int| self.n <= i < self.m ==> #[trigger] self.tree@[self.m + i]
    }

    pub closed spec fn well_formed(&self) -> bool {
        &&& self.shape_ok()
        &&& forall|k: int| 1 <= k < self.m ==> #[trigger] self.node_ok(k)
    }

    /// An allocator that manages no frame yet.
    pub fn new() -> (r: SegmentTreeAllocator)
        ensures
            r.well_formed(),
            r.used() == Seq::<bool>::empty(),
    {
        let mut tree: Vec<bool> = Vec::new();
        tree.push(true);
        tree.push(true);
        let r = SegmentTreeAllocator { tree, m: 1, n: 0, base: 0 };
        proof {
            assert(r.used() =~= Seq::<bool>::empty());
        }
        r
    }

    /// Manages the frames `[l, r)`, all free. The tree takes up to four
    /// entries per frame, which bounds the range.
    pub fn init(&mut self, l: usize, r: usize)
        requires
            l <= r,
            r - l <= usize::MAX / 4,
        ensures
            final(self).well_formed(),
            final(self).begin() == l,
            final(self).used() == Seq::new((r - l) as nat, |i: int| false),
    {
        let n = r - l;
        let mut m: usize = 1;
        while m < n
            invariant
                1 <= m,
                m <= 2 * n || m == 1,
                n <= usize::MAX / 4,
            decreases 2 * n - m,
        {
            m = m * 2;
        }
        let mut tree: Vec<bool> = Vec::new();
        let mut j: usize = 0;
        while j < 2 * m
            invariant
                n <= m,
                m <= usize::MAX / 2,
                j <= 2 * m,
                tree@.len() == j,
                forall|t: int| m <= t < j ==> #[trigger] tree@[t] == (t - m >= n),
            decreases 2 * m - j,
        {
            tree.push(if j >= m { j - m >= n } else { true });
            j = j + 1;
        }
        let mut k: usize = m;
        while k > 1
            invariant
                n <= m,
                m <= usize::MAX / 2,
                1 <= k <= m,
                tree@.len() == 2 * m,
                forall|t: int| m <= t < 2 * m ==> #[trigger] tree@[t] == (t - m >= n),
                forall|p: int|
                    k <= p < m ==> #[trigger] tree@[p] == (tree@[2 * p] && tree@[2 * p + 1]),
            decreases k,
        {
            k = k - 1;
            let v = tree[2 * k] && tree[2 * k + 1];
            tree.set(k, v);
        }
        self.tree = tree;
        self.m = m;
        self.n = n;
        self.base = l;
        proof {
            assert forall|kk: int| 1 <= kk < self.m implies #[trigger] self.node_ok(kk) by {}
            assert forall|i: int| self.n <= i < self.m implies #[trigger] self.tree@[self.m + i] by {
                assert(self.tree@[self.m + i] == (self.m + i - self.m >= self.n));
            }
            assert(self.used() =~= Seq::new((r - l) as nat, |i: int| false));
        }
    }

    /// Below a full node every node is full.
    proof fn lemma_full_down(&self, j: int)
        requires
            self.well_formed(),
            self.tree@[1],
            1 <= j < 2 * self.m,
        ensures
            self.tree@[j],
        decreases j,
    {
        if j > 1 {
            self.lemma_full_down(j / 2);
            assert(self.node_ok(j / 2));
        }
    }

    /// Recomputes the nodes above `leaf` after the leaf changed.
    fn fix_up(&mut self, leaf: usize)
        requires
            old(self).shape_ok(),
            old(self).m <= leaf < 2 * old(self).m,
            forall|k: int|
                1 <= k < old(self).m && !above(k, leaf as int) ==> #[trigger] old(self).node_ok(k),
        ensures
            final(self).well_formed(),
            final(self).m == old(self).m,
            final(self).n == old(self).n,
            final(self).base == old(self).base,
            forall|t: int| final(self).m <= t < 2 * final(self).m ==> #[trigger] final(self).tree@[t]
                == old(self).tree@[t],
    {
        let m = self.m;
        let mut p: usize = leaf;
        while p > 1
            invariant
                self.shape_ok(),
                self.m == m,
                self.n == old(self).n,
                self.base == old(self).base,
                1 <= p < 2 * m,
                forall|t: int| m <= t < 2 * m ==> #[trigger] self.tree@[t] == old(self).tree@[t],
                forall|k: int| 1 <= k < m && !above(k, p as int) ==> #[trigger] self.node_ok(k),
            decreases p,
        {
            let ghost prev = *self;
            let q = p / 2;
            let v = self.tree[2 * q] && self.tree[2 * q + 1];
            self.tree.set(q, v);
            proof {
                assert forall|k: int| 1 <= k < m && !above(k, q as int) implies #[trigger] self.node_ok(k) by {
                    assert(above(k, p as int) == (k == q || above(k, q as int)));
                    if k != q {
                        assert(prev.node_ok(k));
                        assert(2 * k != q && 2 * k + 1 != q) by {
                            if 2 * k == q || 2 * k + 1 == q {
                                assert(q / 2 == k);
                                assert(q > 1);
                                assert(above(k, q as int));
                            }
                        }
                    }
                }
                assert forall|i: int| self.n <= i < self.m implies #[trigger] self.tree@[self.m + i] by {
                    assert(prev.tree@[self.m + i]);
                }
            }
            p = q;
        }
        proof {
            assert forall|k: int| 1 <= k < m implies #[trigger] self.node_ok(k) by {
                assert(!above(k, 1));
            }
        }
    }

    /// Takes one free frame, found by walking down through non-full nodes;
    /// `None` when every frame is used.
    pub fn alloc_frame(&mut self) -> (r: Option<usize>)
        requires
            old(self).well_formed(),
        ensures
            final(self).well_formed(),
            final(self).begin() == old(self).begin(),
            match r {
                None => {
                    &&& forall|j: int| 0 <= j < old(self).used().len() ==> #[trigger] old(self).used()[j]
                    &&& final(self).used() == old(self).used()
                },
                Some(f) => {
                    let i = f - old(self).begin();
                    &&& old(self).begin() <= f < old(self).begin() + old(self).used().len()
                    &&& !old(self).used()[i]
                    &&& final(self).used() == old(self).used().update(i, true)
                },
            },
    {
        let m = self.m;
        if self.tree[1] {
            proof {
                assert forall|j: int| 0 <= j < self.used().len() implies #[trigger] self.used()[j] by {
                    self.lemma_full_down(m + j);
                }
            }
            return None;
        }
        let mut k: usize = 1;
        while k < m
            invariant
                self == old(self),
                self.well_formed(),
                m == self.m,
                1 <= k < 2 * m,
                !self.tree@[k as int],
            decreases 2 * m - k,
        {
            proof {
                assert(self.node_ok(k as int));
            }
            if !self.tree[2 * k] {
                k = 2 * k;
            } else {
                k = 2 * k + 1;
            }
        }
        let i = k - m;
        proof {
            assert(i < self.n) by {
                if i >= self.n {
                    assert(self.tree@[self.m + i]);
                }
            }
        }
        let ghost before = self.used();
        self.tree.set(k, true);
        proof {
            assert forall|kk: int| 1 <= kk < m && !above(kk, k as int) implies #[trigger] self.node_ok(kk) by {
                assert(old(self).node_ok(kk));
                if 2 * kk == k || 2 * kk + 1 == k {
                    assert(k / 2 == kk);
                }
            }
            assert forall|t: int| self.n <= t < self.m implies #[trigger] self.tree@[self.m + t] by {
                assert(old(self).tree@[self.m + t]);
            }
        }
        self.fix_up(k);
        proof {
            assert(self.used() =~= before.update(i as int, true));
        }
        Some(self.base + i)
    }

    /// Whether frame `f` is managed here and in use.
    pub fn in_use(&self, f: usize) -> (r: bool)
        requires
            self.well_formed(),
        ensures
            r == (self.begin() <= f < self.begin() + self.used().len() && self.used()[f
                - self.begin()]),
    {
        f >= self.base && f - self.base < self.n && self.tree[self.m + (f - self.base)]
    }

    /// Gives back frame `f`, which must be in use.
    pub fn dealloc_frame(&mut self, f: usize)
        requires
            old(self).well_formed(),
            old(self).begin() <= f < old(self).begin() + old(self).used().len(),
            old(self).used()[f - old(self).begin()],
        ensures
            final(self).well_formed(),
            final(self).begin() == old(self).begin(),
            final(self).used() == old(self).used().update(f - old(self).begin(), false),
    {
        let i = f - self.base;
        let k = self.m + i;
        let ghost before = self.used();
        self.tree.set(k, false);
        proof {
            let m = self.m as int;
            assert forall|kk: int| 1 <= kk < m && !above(kk, k as int) implies #[trigger] self.node_ok(kk) by {
                assert(old(self).node_ok(kk));
                if 2 * kk == k || 2 * kk + 1 == k {
                    assert(k / 2 == kk);
                }
            }
            assert forall|t: int| self.n <= t < self.m implies #[trigger] self.tree@[self.m + t] by {
                assert(old(self).tree@[self.m + t]);
            }
        }
        self.fix_up(k);
        proof {
            assert(self.used() =~= before.update(i as int, false));
        }
    }
}

} // verus!
