//! Core of a parallel execution framework: a data-driven scheduler that routes
//! bounded packet buffers between typed executor instances.
//!
//! The scheduler's decision logic is verified here as a sequential state
//! machine; worker threads, locks and condition variables live outside the
//! library and drive it one step at a time.

pub mod address;
pub mod objects_pool;
pub mod packet;
pub mod split_queue;
pub mod transform;
pub mod work_manager;

use vstd::prelude::*;

verus! {

} // verus!
