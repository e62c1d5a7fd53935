//! Process identifiers and the kernel stacks derived from them.

use vstd::prelude::*;

verus! {

/// Size of a virtual page, in bytes.
pub const PAGE_SIZE: usize = 4096;
/// Size of one kernel stack, in bytes.
pub const KERNEL_STACK_SIZE: usize = 8192;
/// The highest page of the address space, where the trampoline lives.
pub const TRAMPOLINE: usize = usize::MAX - PAGE_SIZE + 1;
/// The largest pid whose kernel stack still fits below the trampoline.
pub const MAX_PID: usize = 4096;

/// Hands out process identifiers; freed ones are handed out again first.
pub struct PidAllocator {
    pub current: usize,
    pub recycled: Vec<usize>,
}

/// The pid that the next allocation from `a` hands out, if any.
pub open spec fn next_pid(a: PidAllocator) -> Option<usize> {
    if a.recycled@.len() > 0 {
        Some(a.recycled@.last())
    } else if a.current < usize::MAX {
        Some(a.current)
    } else {
        None
    }
}

impl PidAllocator {
    /// Every recycled pid was handed out before, and is recycled once.
    pub open spec fn wf(&self) -> bool {
        &&& forall|i: int| 0 <= i < self.recycled@.len() ==> self.recycled@[i] < self.current
        &&& self.recycled@.no_duplicates()
    }

    /// An allocator that has handed out nothing.
    pub fn new() -> (r: PidAllocator)
        ensures
            r.wf(),
            r.current == 0,
            r.recycled@ == Seq::<usize>::empty(),
    {
        PidAllocator { current: 0, recycled: Vec::new() }
    }

    /// The last freed pid, else the next fresh one; `None` once no fresh pid
    /// is left.
    pub fn alloc_pid(&mut self) -> (r: Option<usize>)
        requires
            old(self).wf(),
        ensures
            final(self).wf(),
            r == next_pid(*old(self)),
            old(self).recycled@.len() > 0 ==> r == Some(old(self).recycled@.last())
                && final(self).recycled@ == old(self).recycled@.drop_last()
                && final(self).current == old(self).current,
            old(self).recycled@.len() == 0 && old(self).current < usize::MAX ==> r == Some(
                old(self).current,
            ) && final(self).current == old(self).current + 1 && final(self).recycled@
                == old(self).recycled@,
            old(self).recycled@.len() == 0 && old(self).current == usize::MAX ==> r.is_none()
                && *final(self) == *old(self),
            r matches Some(p) ==> p < final(self).current && !final(self).recycled@.contains(p),
    {
        if self.recycled.len() > 0 {
            let p = self.recycled.pop().unwrap();
            proof {
                let s = old(self).recycled@;
                assert(s =~= s.drop_last().push(p));
                assert(forall|i: int| 0 <= i < s.len() - 1 ==> s.drop_last()[i] == s[i]);
                assert(!s.drop_last().contains(p)) by {
                    if s.drop_last().contains(p) {
                        let k = choose|k: int| 0 <= k < s.len() - 1 && s.drop_last()[k] == p;
                        assert(s[k] == s[s.len() - 1]);
                    }
                }
            }
            Some(p)
        } else if self.current < usize::MAX {
            let p = self.current;
            self.current = self.current + 1;
            Some(p)
        } else {
            None
        }
    }

    /// Takes back a pid that is in use.
    pub fn dealloc(&mut self, pid: usize)
        requires
            old(self).wf(),
            pid < old(self).current,
            !old(self).recycled@.contains(pid),
        ensures
            final(self).wf(),
            final(self).current == old(self).current,
            final(self).recycled@ == old(self).recycled@.push(pid),
    {
        self.recycled.push(pid);
    }
}

/// Bottom and top of the kernel stack of `pid`: stacks sit below the
/// trampoline, each followed by a guard page.
pub open spec fn kernel_stack_span(pid: usize) -> (int, int) {
    let top = TRAMPOLINE - pid * (KERNEL_STACK_SIZE + PAGE_SIZE);
    (top - KERNEL_STACK_SIZE, top)
}

/// Where the kernel stack of `pid` lies.
pub fn kernel_stack_position(pid: usize) -> (r: (usize, usize))
    requires
        pid <= MAX_PID,
    ensures
        r.0 == kernel_stack_span(pid).0,
        r.1 == kernel_stack_span(pid).1,
{
    proof {
        assert(pid * 12288 <= 4096 * 12288) by (nonlinear_arith)
            requires
                pid <= 4096,
        ;
    }
    let top = TRAMPOLINE - pid * (KERNEL_STACK_SIZE + PAGE_SIZE);
    let bottom = top - KERNEL_STACK_SIZE;
    (bottom, top)
}

} // verus!
