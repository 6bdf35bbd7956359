//! Kernel-wide memory helpers: the frame allocator's set-up and the linear
//! window through which the kernel reaches physical memory.
use vstd::prelude::*;

use crate::frame_allocator::FirstFitAllocator;

verus! {

/// Distance between a physical address and the kernel virtual address
/// that maps it. Addresses are 64-bit on the target, whatever the width of
/// `usize` where this library is checked.
pub const PHYSICAL_MEMORY_OFFSET: u64 = 0xffff_ffff_4000_0000;

/// A first-fit allocator over the frames `[l, r)`, all free.
pub fn init_allocator(l: usize, r: usize) -> (a: FirstFitAllocator)
    requires
        l <= r,
    ensures
        a.well_formed(),
        a.begin() == l,
        a.used() == Seq::new((r - l) as nat, |i: int| false),
        a.cursor() == 0,
{
    let mut a = FirstFitAllocator::new();
    a.init(l, r);
    a
}

/// The kernel virtual address through which physical address `pa` is
/// reached.
pub fn access_pa_via_va(pa: u64) -> (va: u64)
    requires
        pa + PHYSICAL_MEMORY_OFFSET <= u64::MAX,
    ensures
        va == pa + PHYSICAL_MEMORY_OFFSET,
{
    pa + PHYSICAL_MEMORY_OFFSET
}

} // verus!
