//! The task control block and its saved context.

use vstd::prelude::*;
use crate::memory_set::MemorySet;

verus! {

/// Where a task stands in its life.
#[derive(Clone, Copy, Debug, PartialEq, Eq, Structural)]
pub enum TaskStatus {
    UnInit,
    Ready,
    Running,
    Zombie,
}

/// The saved registers of a suspended execution point.
#[derive(Clone, Copy, Debug)]
pub struct TaskContext {
    pub ra: usize,
    pub sp: usize,
    pub s: [usize; 12],
}

impl TaskContext {
    /// A context with every register zero.
    pub fn zero_init() -> (r: TaskContext)
        ensures
            r.ra == 0,
            r.sp == 0,
            forall|i: int| 0 <= i < 12 ==> r.s@[i] == 0,
    {
        TaskContext { ra: 0, sp: 0, s: [0usize; 12] }
    }

    /// A context that resumes at `entry` on the stack whose top is
    /// `kstack_ptr`.
    pub fn goto_entry(entry: usize, kstack_ptr: usize) -> (r: TaskContext)
        ensures
            r.ra == entry,
            r.sp == kstack_ptr,
            forall|i: int| 0 <= i < 12 ==> r.s@[i] == 0,
    {
        TaskContext { ra: entry, sp: kstack_ptr, s: [0usize; 12] }
    }
}

/// One process. Tasks refer to each other by their slot in the kernel's task
/// table; the parent link is a slot number and owns nothing.
pub struct TaskControlBlock {
    pub pid: usize,
    pub kernel_stack_top: usize,
    pub task_cx: TaskContext,
    pub task_status: TaskStatus,
    pub memory_set: MemorySet,
    pub parent: Option<usize>,
    pub children: Vec<usize>,
    pub exit_code: i32,
    pub prio: u8,
}

} // verus!
