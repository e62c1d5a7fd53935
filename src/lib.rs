//! Process-management core of a small single-core kernel: tasks, the ready
//! queue, the processor's current slot, and the mmap / unmmap region calls.

pub mod memory_set;
pub mod pid;
pub mod task;
pub mod kernel;
