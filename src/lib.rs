//! Resource-management core of a small teaching kernel: physical frame
//! allocation, page-replacement policies, thread schedulers and a
//! condition variable, each with a verified contract.
use vstd::prelude::*;

pub mod condvar;
pub mod frame_allocator;
pub mod memory;
pub mod page_replace;
pub mod processor;
pub mod scheduler;
pub mod segment_tree;

verus! {

/// Thread identifier as handed out by the thread-management layer.
pub type Tid = usize;

} // verus!
