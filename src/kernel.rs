//! The kernel's task state: the task table, the ready queue, the processor's
//! current slot, and the operations that system calls and traps invoke.

use vstd::prelude::*;
use crate::memory_set::{MemorySet, PERM_U, range_map};
use crate::pid::{PidAllocator, MAX_PID, PAGE_SIZE, kernel_stack_position, next_pid};
use crate::task::{TaskContext, TaskControlBlock, TaskStatus};

verus! {

/// Slot of the initial process in the task table.
pub const INITPROC: usize = 0;

/// The kernel's process state. Tasks are named by their slot in `tasks`.
pub struct Kernel {
    pub tasks: Vec<TaskControlBlock>,
    /// The ready queue, front first.
    pub ready: Vec<usize>,
    /// The task the processor runs, if any.
    pub current: Option<usize>,
    /// The scheduler's own saved context.
    pub idle_task_cx: TaskContext,
    pub pids: PidAllocator,
    /// Where a new task first resumes.
    pub trap_entry: usize,
}

/// Default scheduling priority of a new task.
pub const DEFAULT_PRIO: u8 = 16;

/// `t` with status `s`.
pub open spec fn with_status(t: TaskControlBlock, s: TaskStatus) -> TaskControlBlock {
    TaskControlBlock { task_status: s, ..t }
}

/// `t` with address space `m`.
pub open spec fn with_memory_set(t: TaskControlBlock, m: MemorySet) -> TaskControlBlock {
    TaskControlBlock { memory_set: m, ..t }
}

/// `t` with priority `p`.
pub open spec fn with_prio(t: TaskControlBlock, p: u8) -> TaskControlBlock {
    TaskControlBlock { prio: p, ..t }
}

/// First page of the range that starts at address `start`.
pub open spec fn first_page(start: usize) -> usize {
    start / PAGE_SIZE
}

/// Page just past the range of `len` bytes that starts at `start`.
pub open spec fn end_page(start: usize, len: usize) -> usize {
    ((start + len) as usize) / PAGE_SIZE
}

/// A permission request uses only the read, write and execute bits.
pub open spec fn port_valid(port: usize) -> bool {
    port < 8
}

/// The page permission for a request: its bits moved up by one, plus the
/// user bit.
pub open spec fn port_perm(port: usize) -> u8 {
    (port * 2 + PERM_U) as u8
}

/// Some page of `[lo, hi)` is mapped in `m`.
pub open spec fn any_mapped(m: Map<usize, u8>, lo: usize, hi: usize) -> bool {
    exists|v: usize| lo <= v < hi && #[trigger] m.contains_key(v)
}

/// Every page of `[lo, hi)` is mapped in `m`.
pub open spec fn all_mapped(m: Map<usize, u8>, lo: usize, hi: usize) -> bool {
    forall|v: usize| lo <= v < hi ==> #[trigger] m.contains_key(v)
}

/// The pages `[lo, hi)`.
pub open spec fn page_set(lo: usize, hi: usize) -> Set<usize> {
    Set::new(|v: usize| lo <= v < hi)
}

/// A change that keeps the queue, the current slot, the pid pool and every
/// task's status, and leaves only valid links, keeps the invariant.
proof fn lemma_wf_links(a: Kernel, b: Kernel)
    requires
        a.wf(),
        b.tasks@.len() == a.tasks@.len(),
        b.ready@ == a.ready@,
        b.current == a.current,
        b.pids == a.pids,
        forall|t: int|
            0 <= t < a.tasks@.len() ==> #[trigger] b.tasks@[t].task_status == a.tasks@[t].task_status
                && b.tasks@[t].memory_set.wf(),
        forall|t: int, k: int|
            0 <= t < b.tasks@.len() && 0 <= k < b.tasks@[t].children@.len()
                ==> #[trigger] b.tasks@[t].children@[k] < b.tasks@.len(),
        forall|t: int|
            0 <= t < b.tasks@.len() ==> (#[trigger] b.tasks@[t].parent matches Some(p)
                ==> p < b.tasks@.len()),
    ensures
        b.wf(),
{
    assert forall|t: int| 0 <= t < b.tasks@.len() && #[trigger] b.tasks@[t].task_status
        == TaskStatus::Running implies b.current == Some(t as usize) by {
        assert(a.tasks@[t].task_status == TaskStatus::Running);
    }
    assert forall|i: int| 0 <= i < b.ready@.len() implies #[trigger] b.ready@[i] < b.tasks@.len()
        && b.status(b.ready@[i] as int) == TaskStatus::Ready by {
        assert(a.ready@[i] < a.tasks@.len());
        assert(b.tasks@[a.ready@[i] as int].task_status == a.tasks@[a.ready@[i] as int].task_status);
    }
    if let Some(c) = b.current {
        assert(b.tasks@[c as int].task_status == a.tasks@[c as int].task_status);
    }
    assert forall|t: int| 0 <= t < b.tasks@.len() implies #[trigger] b.tasks@[t].memory_set.wf() by {
        assert(b.tasks@[t].task_status == a.tasks@[t].task_status);
    }
}

/// A change that keeps the queue, the current slot, the pid pool, and every
/// task's status and links keeps the invariant.
proof fn lemma_wf_frame(a: Kernel, b: Kernel)
    requires
        a.wf(),
        b.tasks@.len() == a.tasks@.len(),
        b.ready@ == a.ready@,
        b.current == a.current,
        b.pids == a.pids,
        forall|t: int|
            0 <= t < a.tasks@.len() ==> #[trigger] b.tasks@[t].task_status == a.tasks@[t].task_status
                && b.tasks@[t].children@ == a.tasks@[t].children@ && b.tasks@[t].parent
                == a.tasks@[t].parent && b.tasks@[t].memory_set.wf(),
    ensures
        b.wf(),
{
    assert forall|t: int, k: int|
        0 <= t < b.tasks@.len() && 0 <= k < b.tasks@[t].children@.len() implies
        #[trigger] b.tasks@[t].children@[k] < b.tasks@.len() by {
        assert(b.tasks@[t].task_status == a.tasks@[t].task_status);
        assert(a.tasks@[t].children@[k] < a.tasks@.len());
    }
    assert forall|t: int| 0 <= t < b.tasks@.len() implies (#[trigger] b.tasks@[t].parent matches Some(
        p,
    ) ==> p < b.tasks@.len()) by {
        assert(b.tasks@[t].task_status == a.tasks@[t].task_status);
        assert(a.tasks@[t].parent matches Some(p) ==> p < a.tasks@.len());
    }
    assert forall|t: int| 0 <= t < b.tasks@.len() && #[trigger] b.tasks@[t].task_status
        == TaskStatus::Running implies b.current == Some(t as usize) by {
        assert(a.tasks@[t].task_status == TaskStatus::Running);
    }
    assert forall|i: int| 0 <= i < b.ready@.len() implies #[trigger] b.ready@[i] < b.tasks@.len()
        && b.status(b.ready@[i] as int) == TaskStatus::Ready by {
        assert(a.ready@[i] < a.tasks@.len());
        assert(b.tasks@[a.ready@[i] as int].task_status == a.tasks@[a.ready@[i] as int].task_status);
    }
    if let Some(c) = b.current {
        assert(b.tasks@[c as int].task_status == a.tasks@[c as int].task_status);
    }
    assert forall|t: int| 0 <= t < b.tasks@.len() implies #[trigger] b.tasks@[t].memory_set.wf() by {
        assert(b.tasks@[t].task_status == a.tasks@[t].task_status);
    }
}

/// Taking the current task off the processor and giving it a status other
/// than Running leaves a state that meets the invariant with an idle processor.
proof fn lemma_wf_descheduled(a: Kernel, b: Kernel, c: usize)
    requires
        a.wf(),
        a.current == Some(c),
        b.current.is_none(),
        b.tasks@.len() == a.tasks@.len(),
        b.ready@ == a.ready@,
        b.pids == a.pids,
        b.tasks@[c as int].task_status != TaskStatus::Running,
        b.tasks@[c as int].children@ == a.tasks@[c as int].children@,
        b.tasks@[c as int].parent == a.tasks@[c as int].parent,
        b.tasks@[c as int].memory_set == a.tasks@[c as int].memory_set,
        forall|t: int| 0 <= t < a.tasks@.len() && t != c ==> #[trigger] b.tasks@[t] == a.tasks@[t],
    ensures
        b.wf(),
{
    assert forall|t: int| 0 <= t < b.tasks@.len() && #[trigger] b.tasks@[t].task_status
        == TaskStatus::Running implies b.current == Some(t as usize) by {
        if t != c {
            assert(a.tasks@[t] == b.tasks@[t]);
            assert(a.tasks@[t].task_status == TaskStatus::Running);
            assert(a.tasks@.len() == a.tasks.len());
            assert(a.current == Some(t as usize));
        }
    }
    assert forall|i: int| 0 <= i < b.ready@.len() implies #[trigger] b.ready@[i] < b.tasks@.len()
        && b.status(b.ready@[i] as int) == TaskStatus::Ready by {
        assert(a.ready@[i] < a.tasks@.len());
        assert(a.ready@[i] != c);
        assert(b.tasks@[a.ready@[i] as int] == a.tasks@[a.ready@[i] as int]);
    }
    assert forall|t: int| 0 <= t < b.tasks@.len() implies #[trigger] b.tasks@[t].memory_set.wf() by {
        if t != c {
            assert(a.tasks@[t] == b.tasks@[t]);
        }
        assert(a.tasks@[t].memory_set.wf());
    }
    assert forall|t: int, k: int|
        0 <= t < b.tasks@.len() && 0 <= k < b.tasks@[t].children@.len() implies
        #[trigger] b.tasks@[t].children@[k] < b.tasks@.len() by {
        if t != c {
            assert(a.tasks@[t] == b.tasks@[t]);
        }
        assert(a.tasks@[t].children@[k] < a.tasks@.len());
    }
    assert forall|t: int| 0 <= t < b.tasks@.len() implies (#[trigger] b.tasks@[t].parent matches Some(
        p,
    ) ==> p < b.tasks@.len()) by {
        if t != c {
            assert(a.tasks@[t] == b.tasks@[t]);
        }
        assert(a.tasks@[t].parent matches Some(p) ==> p < a.tasks@.len());
    }
}

/// `s` after `n` turns in which the front goes to the back.
pub open spec fn rotate(s: Seq<usize>, n: nat) -> Seq<usize>
    decreases n,
{
    if n == 0 {
        s
    } else {
        let r = rotate(s, (n - 1) as nat);
        r.drop_first().push(r[0])
    }
}

/// Round-robin fairness: when every turn sends the running task to the back
/// of the queue and runs the front, after `n` turns the tasks stand in the
/// order they started in, shifted by `n`; so the one that runs is the
/// `n`-th, counted cyclically.
pub proof fn lemma_round_robin(s: Seq<usize>, n: nat)
    requires
        s.len() > 0,
    ensures
        rotate(s, n).len() == s.len(),
        forall|i: int| 0 <= i < s.len() ==> #[trigger] rotate(s, n)[i] == s[(i + n) % (s.len() as int)],
        rotate(s, n)[0] == s[(n as int) % (s.len() as int)],
    decreases n,
{
    let len = s.len() as int;
    if n == 0 {
        assert forall|i: int| 0 <= i < len implies #[trigger] rotate(s, n)[i] == s[(i + n) % len] by {
            vstd::arithmetic::div_mod::lemma_small_mod(i as nat, len as nat);
        }
    } else {
        let m = (n - 1) as nat;
        lemma_round_robin(s, m);
        let r = rotate(s, m);
        assert forall|i: int| 0 <= i < len implies #[trigger] rotate(s, n)[i] == s[(i + n) % len] by {
            if i < len - 1 {
                assert(rotate(s, n)[i] == r[i + 1]);
            } else {
                assert(rotate(s, n)[i] == r[0]);
                assert(r[0] == s[(0 + m as int) % len]);
                vstd::arithmetic::div_mod::lemma_mod_add_multiples_vanish(m as int, len);
                assert(i + n == len + m);
            }
        }
    }
    assert(rotate(s, n)[0] == s[(0 + n as int) % len]);
}

/// Moving the children of an exiting task under the initial process: when the
/// two child lists hold distinct tasks each and share none, the joined list
/// holds each of them once, and every one of both lists is in it.
pub proof fn lemma_reparent_distinct(prior: Seq<usize>, kids: Seq<usize>)
    requires
        prior.no_duplicates(),
        kids.no_duplicates(),
        forall|t: usize| prior.contains(t) ==> !kids.contains(t),
    ensures
        (prior + kids).no_duplicates(),
        forall|t: usize| prior.contains(t) || kids.contains(t) <==> #[trigger] (prior + kids).contains(t),
{
    let j = prior + kids;
    assert forall|a: int, b: int| 0 <= a < b < j.len() implies j[a] != j[b] by {
        if b >= prior.len() && a < prior.len() {
            assert(prior.contains(j[a]));
            assert(kids.contains(kids[b - prior.len()]));
        } else if a >= prior.len() {
            assert(j[a] == kids[a - prior.len()]);
        }
    }
    assert forall|t: usize| prior.contains(t) || kids.contains(t) <==> #[trigger] j.contains(t) by {
        if prior.contains(t) {
            let k = choose|k: int| 0 <= k < prior.len() && prior[k] == t;
            assert(j[k] == t);
        }
        if kids.contains(t) {
            let k = choose|k: int| 0 <= k < kids.len() && kids[k] == t;
            assert(j[prior.len() + k] == t);
        }
        if j.contains(t) {
            let k = choose|k: int| 0 <= k < j.len() && j[k] == t;
            if k < prior.len() {
                assert(prior[k] == t);
            } else {
                assert(kids[k - prior.len()] == t);
            }
        }
    }
}

/// The invariant admits at most one Running task.
pub proof fn lemma_single_running(k: Kernel, a: int, b: int)
    requires
        k.wf(),
        0 <= a < k.tasks@.len(),
        0 <= b < k.tasks@.len(),
        k.tasks@[a].task_status == TaskStatus::Running,
        k.tasks@[b].task_status == TaskStatus::Running,
    ensures
        a == b,
{
    assert(k.tasks@.len() == k.tasks.len());
}

/// Mapping a range and mapping another that shares page `shared` with it: the
/// second request finds a mapped page, so it is refused, and the first
/// range stays mapped as it was.
pub proof fn lemma_mmap_overlap_rejected(
    m: Map<usize, u8>,
    lo1: usize,
    hi1: usize,
    perm: u8,
    lo2: usize,
    hi2: usize,
    shared: usize,
)
    requires
        lo1 <= shared < hi1,
        lo2 <= shared < hi2,
    ensures
        any_mapped(m.union_prefer_right(range_map(lo1, hi1, perm)), lo2, hi2),
        forall|v: usize| lo1 <= v < hi1 ==> #[trigger] m.union_prefer_right(range_map(lo1, hi1, perm)).contains_key(v)
            && m.union_prefer_right(range_map(lo1, hi1, perm))[v] == perm,
{
    assert(m.union_prefer_right(range_map(lo1, hi1, perm)).contains_key(shared));
}

/// Mapping a free range and then unmapping the same range gives back the
/// address space as it was, and a further unmapping of a non-empty range
/// finds nothing to unmap.
pub proof fn lemma_mmap_unmmap_round_trip(m: Map<usize, u8>, lo: usize, hi: usize, perm: u8)
    requires
        !any_mapped(m, lo, hi),
    ensures
        m.union_prefer_right(range_map(lo, hi, perm)).remove_keys(page_set(lo, hi)) == m,
        lo < hi ==> !all_mapped(m, lo, hi),
{
    assert(m.union_prefer_right(range_map(lo, hi, perm)).remove_keys(page_set(lo, hi)) =~= m);
    if lo < hi {
        assert(!m.contains_key(lo));
    }
}

/// Unmapping a range in which some page is not mapped changes nothing.
pub proof fn lemma_unmmap_partial_rejected(m: Map<usize, u8>, lo: usize, hi: usize, gap: usize)
    requires
        lo <= gap < hi,
        !m.contains_key(gap),
    ensures
        !all_mapped(m, lo, hi),
{
}

impl Kernel {
    /// The tasks in the order they will run: the current one, then the
    /// ready queue from the front.
    pub open spec fn run_order(&self) -> Seq<usize> {
        match self.current {
            Some(c) => seq![c] + self.ready@,
            None => self.ready@,
        }
    }

    /// The status of the task in slot `t`.
    pub open spec fn status(&self, t: int) -> TaskStatus {
        self.tasks@[t].task_status
    }

    /// The state invariant: queued tasks are Ready and queued once; the
    /// current task is Running and not queued; no other task is Running;
    /// every slot a task refers to exists.
    pub open spec fn wf(&self) -> bool {
        &&& self.tasks@.len() > 0
        &&& self.pids.wf()
        &&& self.ready@.no_duplicates()
        &&& forall|i: int|
            0 <= i < self.ready@.len() ==> #[trigger] self.ready@[i] < self.tasks@.len()
                && self.status(self.ready@[i] as int) == TaskStatus::Ready
        &&& self.current matches Some(c) ==> c < self.tasks@.len() && self.status(c as int)
            == TaskStatus::Running && !self.ready@.contains(c)
        &&& forall|t: int|
            0 <= t < self.tasks@.len() && #[trigger] self.tasks@[t].task_status
                == TaskStatus::Running ==> self.current == Some(t as usize)
        &&& forall|t: int| 0 <= t < self.tasks@.len() ==> #[trigger] self.tasks@[t].memory_set.wf()
        &&& forall|t: int, k: int|
            0 <= t < self.tasks@.len() && 0 <= k < self.tasks@[t].children@.len()
                ==> #[trigger] self.tasks@[t].children@[k] < self.tasks@.len()
        &&& forall|t: int|
            0 <= t < self.tasks@.len() ==> (#[trigger] self.tasks@[t].parent matches Some(p)
                ==> p < self.tasks@.len())
    }

    /// A kernel whose only task is the initial process, built on the address
    /// space `init_space`; it is Ready and not yet queued.
    pub fn new(init_space: MemorySet, trap_entry: usize) -> (r: Kernel)
        requires
            init_space.wf(),
        ensures
            r.wf(),
            r.tasks@.len() == 1,
            r.ready@ == Seq::<usize>::empty(),
            r.current.is_none(),
            r.status(INITPROC as int) == TaskStatus::Ready,
            r.tasks@[INITPROC as int].memory_set@ == init_space@,
            r.tasks@[INITPROC as int].parent.is_none(),
            r.tasks@[INITPROC as int].children@.len() == 0,
            r.tasks@[INITPROC as int].exit_code == 0,
    {
        let mut pids = PidAllocator::new();
        let pid = pids.alloc_pid().unwrap();
        let (_bottom, top) = kernel_stack_position(pid);
        let init = TaskControlBlock {
            pid,
            kernel_stack_top: top,
            task_cx: TaskContext::goto_entry(trap_entry, top),
            task_status: TaskStatus::Ready,
            memory_set: init_space,
            parent: None,
            children: Vec::new(),
            exit_code: 0,
            prio: DEFAULT_PRIO,
        };
        let mut tasks = Vec::new();
        tasks.push(init);
        Kernel {
            tasks,
            ready: Vec::new(),
            current: None,
            idle_task_cx: TaskContext::zero_init(),
            pids,
            trap_entry,
        }
    }

    /// Appends task `t` to the back of the ready queue.
    pub fn add_task(&mut self, t: usize)
        requires
            old(self).wf(),
            t < old(self).tasks@.len(),
            old(self).status(t as int) == TaskStatus::Ready,
            !old(self).ready@.contains(t),
        ensures
            final(self).wf(),
            final(self).ready@ == old(self).ready@.push(t),
            final(self).tasks@ == old(self).tasks@,
            final(self).current == old(self).current,
            final(self).pids == old(self).pids,
    {
        self.ready.push(t);
        proof {
            let q = old(self).ready@;
            assert forall|i: int, j: int|
                0 <= i < j < self.ready@.len() implies self.ready@[i] != self.ready@[j] by {
                if j == q.len() {
                    assert(q.contains(q[i]));
                }
            }
            assert(self.ready@[q.len() as int] == t);
            assert forall|i: int|
                0 <= i < self.ready@.len() implies #[trigger] self.ready@[i] < self.tasks@.len()
                    && self.status(self.ready@[i] as int) == TaskStatus::Ready by {
                if i < q.len() {
                    assert(self.ready@[i] == q[i]);
                }
            }
            if let Some(c) = self.current {
                assert(!self.ready@.contains(c)) by {
                    if self.ready@.contains(c) {
                        let k = choose|k: int| 0 <= k < self.ready@.len() && self.ready@[k] == c;
                        if k < q.len() {
                            assert(q[k] == c);
                        }
                    }
                }
            }
        }
    }

    /// Queues the initial process.
    pub fn add_initproc(&mut self)
        requires
            old(self).wf(),
            old(self).status(INITPROC as int) == TaskStatus::Ready,
            !old(self).ready@.contains(INITPROC),
        ensures
            final(self).wf(),
            final(self).ready@ == old(self).ready@.push(INITPROC),
            final(self).tasks@ == old(self).tasks@,
            final(self).current == old(self).current,
    {
        self.add_task(INITPROC);
    }

    /// The task the processor runs, if any.
    pub fn current_task(&self) -> (r: Option<usize>)
        ensures
            r == self.current,
    {
        self.current
    }

    /// Clears the processor's current slot and returns what it held. The task
    /// keeps its status: the caller gives it a new one.
    pub fn take_current_task(&mut self) -> (r: Option<usize>)
        ensures
            r == old(self).current,
            final(self).current.is_none(),
            final(self).tasks@ == old(self).tasks@,
            final(self).ready@ == old(self).ready@,
            final(self).pids == old(self).pids,
    {
        self.current.take()
    }

    /// Removes and returns the front of the ready queue.
    pub fn fetch_task(&mut self) -> (r: Option<usize>)
        ensures
            old(self).ready@.len() == 0 ==> r.is_none() && *final(self) == *old(self),
            old(self).ready@.len() > 0 ==> r == Some(old(self).ready@[0]) && final(self).ready@
                == old(self).ready@.drop_first(),
            *final(self) == (Kernel { ready: final(self).ready, ..*old(self) }),
    {
        if self.ready.len() == 0 {
            None
        } else {
            let t = self.ready.remove(0);
            proof {
                assert(self.ready@ =~= old(self).ready@.drop_first());
            }
            Some(t)
        }
    }

    /// One turn of the scheduler on an idle processor: the front of the ready
    /// queue, if any, becomes Running and current.
    pub fn run_next(&mut self) -> (r: Option<usize>)
        requires
            old(self).wf(),
            old(self).current.is_none(),
        ensures
            final(self).wf(),
            r == final(self).current,
            final(self).pids == old(self).pids,
            old(self).ready@.len() == 0 ==> r.is_none() && *final(self) == *old(self),
            old(self).ready@.len() > 0 ==> r == Some(old(self).ready@[0]) && final(self).ready@
                == old(self).ready@.drop_first() && final(self).tasks@ == old(self).tasks@.update(
                old(self).ready@[0] as int,
                with_status(old(self).tasks@[old(self).ready@[0] as int], TaskStatus::Running),
            ),
    {
        match self.fetch_task() {
            None => None,
            Some(t) => {
                let ghost mid = self.tasks@;
                self.tasks[t].task_status = TaskStatus::Running;
                self.current = Some(t);
                proof {
                    let q = old(self).ready@;
                    assert(self.tasks@ =~= mid.update(t as int, with_status(mid[t as int], TaskStatus::Running)));
                    assert(q[0] == t);
                    assert forall|i: int| 0 <= i < self.ready@.len() implies #[trigger] self.ready@[i] < self.tasks@.len()
                        && self.status(self.ready@[i] as int) == TaskStatus::Ready by {
                        assert(self.ready@[i] == q[i + 1]);
                        assert(q[i + 1] != q[0]);
                    }
                    assert(!self.ready@.contains(t)) by {
                        if self.ready@.contains(t) {
                            let k = choose|k: int| 0 <= k < self.ready@.len() && self.ready@[k] == t;
                            assert(q[k + 1] == q[0]);
                        }
                    }
                    assert forall|a: int| 0 <= a < self.tasks@.len() && #[trigger] self.tasks@[a].task_status
                        == TaskStatus::Running implies self.current == Some(a as usize) by {
                        if a != t as int {
                            assert(old(self).status(a) == TaskStatus::Running);
                        }
                    }
                    assert forall|a: int| 0 <= a < self.tasks@.len() implies #[trigger] self.tasks@[a].memory_set.wf() by {
                        assert(old(self).tasks@[a].memory_set.wf());
                    }
                    assert forall|a: int, k: int| 0 <= a < self.tasks@.len() && 0 <= k < self.tasks@[a].children@.len()
                        implies #[trigger] self.tasks@[a].children@[k] < self.tasks@.len() by {
                        assert(old(self).tasks@[a].children@[k] < old(self).tasks@.len());
                    }
                    assert forall|a: int| 0 <= a < self.tasks@.len() implies (#[trigger] self.tasks@[a].parent matches Some(p)
                        ==> p < self.tasks@.len()) by {
                        assert(old(self).tasks@[a].parent == self.tasks@[a].parent);
                    }
                }
                Some(t)
            },
        }
    }

    /// Maps the pages of `[start, start + len)` into the current task's
    /// address space with the permission that `port` asks for. Returns -1,
    /// changing nothing, when a page of the range is already mapped or `port`
    /// holds other bits than read, write and execute; else 0.
    pub fn mmap(&mut self, start: usize, len: usize, port: usize) -> (r: isize)
        requires
            old(self).wf(),
            old(self).current.is_some(),
            start + len <= usize::MAX,
        ensures
            final(self).wf(),
            final(self).ready == old(self).ready,
            final(self).current == old(self).current,
            final(self).pids == old(self).pids,
            r == 0 || r == -1,
            r == -1 <==> any_mapped(
                old(self).tasks@[old(self).current.unwrap() as int].memory_set@,
                first_page(start),
                end_page(start, len),
            ) || !port_valid(port),
            r == -1 ==> final(self).tasks@ == old(self).tasks@,
            final(self).tasks@ == old(self).tasks@.update(
                old(self).current.unwrap() as int,
                with_memory_set(
                    old(self).tasks@[old(self).current.unwrap() as int],
                    final(self).tasks@[old(self).current.unwrap() as int].memory_set,
                ),
            ),
            r == 0 ==> final(self).tasks@[old(self).current.unwrap() as int].memory_set@
                == old(self).tasks@[old(self).current.unwrap() as int].memory_set@.union_prefer_right(
                range_map(first_page(start), end_page(start, len), port_perm(port)),
            ),
    {
        let c = self.current.unwrap();
        let lo = start / PAGE_SIZE;
        let hi = (start + len) / PAGE_SIZE;
        let ghost m = self.tasks@[c as int].memory_set@;
        let mut v: usize = lo;
        while v < hi
            invariant
                self.wf(),
                *self == *old(self),
                c == old(self).current.unwrap(),
                self.current == Some(c),
                m == self.tasks@[c as int].memory_set@,
                lo == first_page(start),
                hi == end_page(start, len),
                lo <= v,
                forall|w: usize| lo <= w < v ==> !m.contains_key(w),
            decreases hi - v,
        {
            if self.tasks[c].memory_set.find_vpn(v) {
                assert(m.contains_key(v));
                assert(self.tasks@ =~= old(self).tasks@.update(c as int, with_memory_set(old(self).tasks@[c as int], self.tasks@[c as int].memory_set)));
                return -1;
            }
            v = v + 1;
        }
        if port >= 8 {
            proof {
                assert(self.tasks@ =~= old(self).tasks@.update(c as int, with_memory_set(old(self).tasks@[c as int], self.tasks@[c as int].memory_set)));
            }
            return -1;
        }
        let perm: u8 = (port as u8) * 2 + PERM_U;
        let ghost before = *self;
        self.tasks[c].memory_set.insert_framed_area(lo, hi, perm);
        proof {
            lemma_wf_frame(before, *self);
        }
        let ghost n = self.tasks@[c as int].memory_set@;
        let mut v: usize = lo;
        while v < hi
            invariant
                self.wf(),
                c == old(self).current.unwrap(),
                self.current == Some(c),
                n == self.tasks@[c as int].memory_set@,
                n == m.union_prefer_right(range_map(lo, hi, perm)),
                lo <= v,
            decreases hi - v,
        {
            if !self.tasks[c].memory_set.find_vpn(v) {
                assert(range_map(lo, hi, perm).contains_key(v));
                return -1;
            }
            v = v + 1;
        }
        proof {
            assert(self.tasks@ =~= old(self).tasks@.update(c as int, with_memory_set(old(self).tasks@[c as int], self.tasks@[c as int].memory_set)));
        }
        0
    }

    /// Unmaps the pages of `[start, start + len)` from the current task's
    /// address space. Returns -1, changing nothing, when a page of the range
    /// is not mapped; else 0.
    pub fn unmmap(&mut self, start: usize, len: usize) -> (r: isize)
        requires
            old(self).wf(),
            old(self).current.is_some(),
            start + len <= usize::MAX,
        ensures
            final(self).wf(),
            final(self).ready == old(self).ready,
            final(self).current == old(self).current,
            final(self).pids == old(self).pids,
            r == 0 || r == -1,
            r == -1 <==> !all_mapped(
                old(self).tasks@[old(self).current.unwrap() as int].memory_set@,
                first_page(start),
                end_page(start, len),
            ),
            r == -1 ==> final(self).tasks@ == old(self).tasks@,
            final(self).tasks@ == old(self).tasks@.update(
                old(self).current.unwrap() as int,
                with_memory_set(
                    old(self).tasks@[old(self).current.unwrap() as int],
                    final(self).tasks@[old(self).current.unwrap() as int].memory_set,
                ),
            ),
            r == 0 ==> final(self).tasks@[old(self).current.unwrap() as int].memory_set@
                == old(self).tasks@[old(self).current.unwrap() as int].memory_set@.remove_keys(
                page_set(first_page(start), end_page(start, len)),
            ),
    {
        let c = self.current.unwrap();
        let lo = start / PAGE_SIZE;
        let hi = (start + len) / PAGE_SIZE;
        let ghost m = self.tasks@[c as int].memory_set@;
        let mut v: usize = lo;
        while v < hi
            invariant
                self.wf(),
                *self == *old(self),
                c == old(self).current.unwrap(),
                self.current == Some(c),
                m == self.tasks@[c as int].memory_set@,
                lo == first_page(start),
                hi == end_page(start, len),
                lo <= v,
                forall|w: usize| lo <= w < v ==> m.contains_key(w),
            decreases hi - v,
        {
            if !self.tasks[c].memory_set.find_vpn(v) {
                assert(self.tasks@ =~= old(self).tasks@.update(c as int, with_memory_set(old(self).tasks@[c as int], self.tasks@[c as int].memory_set)));
                return -1;
            }
            v = v + 1;
        }
        let mut v: usize = lo;
        while v < hi
            invariant
                self.wf(),
                self.ready == old(self).ready,
                self.current == old(self).current,
                self.pids == old(self).pids,
                c == old(self).current.unwrap(),
                self.current == Some(c),
                lo == first_page(start),
                hi == end_page(start, len),
                lo <= v,
                v <= hi || v == lo,
                v < hi ==> all_mapped(m, lo, hi),
                self.tasks@.len() == old(self).tasks@.len(),
                forall|i: int| 0 <= i < self.tasks@.len() && i != c ==> self.tasks@[i] == old(self).tasks@[i],
                self.tasks@[c as int] == with_memory_set(old(self).tasks@[c as int], self.tasks@[c as int].memory_set),
                self.tasks@[c as int].memory_set@ == m.remove_keys(page_set(lo, if v <= hi { v } else { lo })),
            decreases hi - v,
        {
            let ghost before = *self;
            self.tasks[c].memory_set.delete_pte_from(v);
            proof {
                lemma_wf_frame(before, *self);
                assert(m.remove_keys(page_set(lo, v)).remove(v) =~= m.remove_keys(page_set(lo, (v + 1) as usize)));
            }
            v = v + 1;
        }
        proof {
            if lo < hi {
                assert(v == hi);
            } else {
                assert(page_set(lo, hi) =~= page_set(lo, lo));
            }
            assert(self.tasks@ =~= old(self).tasks@.update(c as int, with_memory_set(old(self).tasks@[c as int], self.tasks@[c as int].memory_set)));
        }
        0
    }

    /// Sets the current task's scheduling priority.
    pub fn set_prio(&mut self, prio: u8)
        requires
            old(self).wf(),
            old(self).current.is_some(),
        ensures
            final(self).wf(),
            final(self).ready == old(self).ready,
            final(self).current == old(self).current,
            final(self).pids == old(self).pids,
            final(self).tasks@ == old(self).tasks@.update(
                old(self).current.unwrap() as int,
                with_prio(old(self).tasks@[old(self).current.unwrap() as int], prio),
            ),
    {
        let c = self.current.unwrap();
        let ghost before = *self;
        self.tasks[c].prio = prio;
        proof {
            lemma_wf_frame(before, *self);
            assert(self.tasks@ =~= old(self).tasks@.update(c as int, with_prio(old(self).tasks@[c as int], prio)));
        }
    }

    /// Suspends the current task: it goes Ready to the back of the ready
    /// queue, and the front of the queue then runs.
    pub fn suspend_current_and_run_next(&mut self)
        requires
            old(self).wf(),
            old(self).current.is_some(),
        ensures
            final(self).wf(),
            ({
                let c = old(self).current.unwrap();
                let q = old(self).ready@.push(c);
                let mid = old(self).tasks@.update(c as int, with_status(old(self).tasks@[c as int], TaskStatus::Ready));
                &&& final(self).current == Some(q[0])
                &&& final(self).ready@ == q.drop_first()
                &&& final(self).tasks@ == mid.update(q[0] as int, with_status(mid[q[0] as int], TaskStatus::Running))
                &&& final(self).run_order() == rotate(old(self).run_order(), 1)
            }),
            final(self).pids == old(self).pids,
    {
        let c = self.take_current_task().unwrap();
        self.tasks[c].task_status = TaskStatus::Ready;
        proof {
            lemma_wf_descheduled(*old(self), *self, c);
        }
        self.add_task(c);
        self.run_next();
        proof {
            let o = old(self).run_order();
            assert(rotate(o, 0) == o);
            assert(o[0] == c);
            assert(o.drop_first() =~= old(self).ready@);
            assert(self.run_order() =~= old(self).ready@.push(c));
        }
    }

    /// Ends the current task with `exit_code`: it becomes a Zombie, its
    /// children move under the initial process, its pages are reclaimed, and
    /// the front of the ready queue, if any, runs.
    pub fn exit_current_and_run_next(&mut self, exit_code: i32)
        requires
            old(self).wf(),
            old(self).current.is_some(),
            old(self).current != Some(INITPROC),
        ensures
            final(self).wf(),
            final(self).tasks@.len() == old(self).tasks@.len(),
            final(self).pids == old(self).pids,
            ({
                let c = old(self).current.unwrap() as int;
                let kids = old(self).tasks@[c].children@;
                let init = INITPROC as int;
                &&& final(self).tasks@[c].task_status == TaskStatus::Zombie
                &&& final(self).tasks@[c].exit_code == exit_code
                &&& final(self).tasks@[c].children@.len() == 0
                &&& final(self).tasks@[c].memory_set@ == Map::<usize, u8>::empty()
                &&& final(self).tasks@[init].children@ == old(self).tasks@[init].children@ + kids
                &&& forall|k: int| 0 <= k < kids.len() ==> #[trigger] final(self).tasks@[kids[k] as int].parent == Some(INITPROC)
                &&& forall|t: int| 0 <= t < old(self).tasks@.len() && !kids.contains(t as usize)
                    ==> #[trigger] final(self).tasks@[t].parent == old(self).tasks@[t].parent
                &&& forall|t: int| 0 <= t < old(self).tasks@.len() && t != c && t != init
                    ==> #[trigger] final(self).tasks@[t].children@ == old(self).tasks@[t].children@
                &&& forall|t: int| 0 <= t < old(self).tasks@.len() && t != c
                    ==> #[trigger] final(self).tasks@[t].memory_set == old(self).tasks@[t].memory_set
                        && final(self).tasks@[t].exit_code == old(self).tasks@[t].exit_code
                        && final(self).tasks@[t].prio == old(self).tasks@[t].prio
                        && final(self).tasks@[t].pid == old(self).tasks@[t].pid
            }),
            old(self).ready@.len() == 0 ==> final(self).current.is_none() && final(self).ready@ == old(self).ready@,
            old(self).ready@.len() > 0 ==> final(self).current == Some(old(self).ready@[0])
                && final(self).ready@ == old(self).ready@.drop_first(),
            forall|t: int| 0 <= t < old(self).tasks@.len() && t != old(self).current.unwrap() && (old(self).ready@.len() == 0 || t != old(self).ready@[0])
                ==> #[trigger] final(self).tasks@[t].task_status == old(self).tasks@[t].task_status,
    {
        let c = self.take_current_task().unwrap();
        self.tasks[c].task_status = TaskStatus::Zombie;
        self.tasks[c].exit_code = exit_code;
        proof {
            lemma_wf_descheduled(*old(self), *self, c);
        }
        let ghost mid = *self;
        let ghost kids = mid.tasks@[c as int].children@;
        let n = self.tasks[c].children.len();
        let mut i: usize = 0;
        while i < n
            invariant
                self.wf(),
                self.current.is_none(),
                self.ready == mid.ready,
                self.pids == mid.pids,
                self.tasks@.len() == mid.tasks@.len(),
                c < mid.tasks@.len(),
                c != INITPROC,
                kids == mid.tasks@[c as int].children@,
                n == kids.len(),
                i <= n,
                self.tasks@[INITPROC as int].children@ == mid.tasks@[INITPROC as int].children@ + kids.subrange(0, i as int),
                forall|t: int| 0 <= t < mid.tasks@.len() && t != INITPROC ==> #[trigger] self.tasks@[t].children@ == mid.tasks@[t].children@,
                forall|t: int| 0 <= t < mid.tasks@.len() ==> #[trigger] self.tasks@[t].task_status == mid.tasks@[t].task_status
                    && self.tasks@[t].memory_set == mid.tasks@[t].memory_set
                    && self.tasks@[t].exit_code == mid.tasks@[t].exit_code
                    && self.tasks@[t].prio == mid.tasks@[t].prio
                    && self.tasks@[t].pid == mid.tasks@[t].pid,
                forall|k: int| 0 <= k < i ==> #[trigger] self.tasks@[kids[k] as int].parent == Some(INITPROC),
                forall|t: int| 0 <= t < mid.tasks@.len() && !kids.subrange(0, i as int).contains(t as usize)
                    ==> #[trigger] self.tasks@[t].parent == mid.tasks@[t].parent,
            decreases n - i,
        {
            let ch = self.tasks[c].children[i];
            let ghost before = *self;
            self.tasks[ch].parent = Some(INITPROC);
            self.tasks[INITPROC].children.push(ch);
            proof {
                assert(kids[i as int] == ch);
                assert(ch < self.tasks@.len());
                assert forall|t: int| 0 <= t < self.tasks@.len() implies #[trigger] self.tasks@[t].task_status == before.tasks@[t].task_status
                    && self.tasks@[t].memory_set.wf() by {
                    assert(before.tasks@[t].memory_set.wf());
                }
                assert forall|t: int, k: int|
                    0 <= t < self.tasks@.len() && 0 <= k < self.tasks@[t].children@.len() implies
                    #[trigger] self.tasks@[t].children@[k] < self.tasks@.len() by {
                    if t == INITPROC && k == before.tasks@[t].children@.len() {
                    } else {
                        assert(before.tasks@[t].children@[k] < before.tasks@.len());
                    }
                }
                assert forall|t: int| 0 <= t < self.tasks@.len() implies (#[trigger] self.tasks@[t].parent matches Some(p)
                    ==> p < self.tasks@.len()) by {
                    assert(before.tasks@[t].parent matches Some(p) ==> p < before.tasks@.len());
                }
                lemma_wf_links(before, *self);
                assert(kids.subrange(0, i + 1) =~= kids.subrange(0, i as int).push(ch));
                assert forall|t: int| 0 <= t < mid.tasks@.len() && !kids.subrange(0, i + 1).contains(t as usize)
                    implies #[trigger] self.tasks@[t].parent == mid.tasks@[t].parent by {
                    if t == ch {
                        assert(kids.subrange(0, i + 1)[i as int] == ch);
                    }
                    if kids.subrange(0, i as int).contains(t as usize) {
                        let k = choose|k: int| 0 <= k < i && kids.subrange(0, i as int)[k] == t as usize;
                        assert(kids.subrange(0, i + 1)[k] == t as usize);
                    }
                }
                assert(self.tasks@[INITPROC as int].children@ =~= mid.tasks@[INITPROC as int].children@ + kids.subrange(0, i + 1));
            }
            i = i + 1;
        }
        let ghost before = *self;
        self.tasks[c].children.clear();
        self.tasks[c].memory_set.recycle_data_pages();
        proof {
            assert(kids.subrange(0, n as int) =~= kids);
            assert forall|t: int| 0 <= t < self.tasks@.len() implies #[trigger] self.tasks@[t].task_status == before.tasks@[t].task_status
                && self.tasks@[t].memory_set.wf() by {
                assert(before.tasks@[t].memory_set.wf());
            }
            assert forall|t: int, k: int|
                0 <= t < self.tasks@.len() && 0 <= k < self.tasks@[t].children@.len() implies
                #[trigger] self.tasks@[t].children@[k] < self.tasks@.len() by {
                assert(before.tasks@[t].children@[k] < before.tasks@.len());
            }
            assert forall|t: int| 0 <= t < self.tasks@.len() implies (#[trigger] self.tasks@[t].parent matches Some(p)
                ==> p < self.tasks@.len()) by {
                assert(before.tasks@[t].parent matches Some(p) ==> p < before.tasks@.len());
            }
            lemma_wf_links(before, *self);
        }
        assert forall|t: int| 0 <= t < self.tasks@.len() && t != c implies #[trigger] self.tasks@[t] == before.tasks@[t] by {}
        let ghost done = *self;
        self.run_next();
        proof {
            let init = INITPROC as int;
            assert(done.tasks@[init].children@ == old(self).tasks@[init].children@ + kids);
            assert forall|k: int| 0 <= k < kids.len() implies #[trigger] self.tasks@[kids[k] as int].parent == Some(INITPROC) by {
                assert(done.tasks@[kids[k] as int].parent == Some(INITPROC));
            }
            assert forall|t: int| 0 <= t < old(self).tasks@.len() && !kids.contains(t as usize)
                implies #[trigger] self.tasks@[t].parent == old(self).tasks@[t].parent by {
                assert(done.tasks@[t].parent == mid.tasks@[t].parent);
            }
            assert forall|t: int| 0 <= t < old(self).tasks@.len() && t != c && t != init
                implies #[trigger] self.tasks@[t].children@ == old(self).tasks@[t].children@ by {
                assert(done.tasks@[t].children@ == mid.tasks@[t].children@);
            }
            assert forall|t: int| 0 <= t < old(self).tasks@.len() && t != c
                implies #[trigger] self.tasks@[t].memory_set == old(self).tasks@[t].memory_set
                    && self.tasks@[t].exit_code == old(self).tasks@[t].exit_code
                    && self.tasks@[t].prio == old(self).tasks@[t].prio
                    && self.tasks@[t].pid == old(self).tasks@[t].pid by {
                assert(before.tasks@[t].task_status == mid.tasks@[t].task_status);
                assert(done.tasks@[t].memory_set == mid.tasks@[t].memory_set);
            }
            assert forall|t: int| 0 <= t < old(self).tasks@.len() && t != c && (old(self).ready@.len() == 0 || t != old(self).ready@[0])
                implies #[trigger] self.tasks@[t].task_status == old(self).tasks@[t].task_status by {
                assert(done.tasks@[t].task_status == mid.tasks@[t].task_status);
            }
        }
    }

    /// Creates a Ready task on the address space `memory_set`, under
    /// `parent` if one is given, and returns its slot; it is not queued.
    /// Returns `None`, creating nothing, when no pid with a kernel stack is
    /// left.
    pub fn new_task(&mut self, memory_set: MemorySet, parent: Option<usize>) -> (r: Option<usize>)
        requires
            old(self).wf(),
            memory_set.wf(),
            parent matches Some(p) ==> p < old(self).tasks@.len(),
        ensures
            final(self).wf(),
            final(self).ready == old(self).ready,
            final(self).current == old(self).current,
            r.is_none() <==> (next_pid(old(self).pids).is_none() || next_pid(old(self).pids).unwrap() > MAX_PID),
            r.is_none() ==> final(self).tasks@ == old(self).tasks@,
            r matches Some(t) ==> ({
                &&& t == old(self).tasks@.len()
                &&& final(self).tasks@.len() == old(self).tasks@.len() + 1
                &&& final(self).tasks@[t as int].pid == next_pid(old(self).pids).unwrap()
                &&& final(self).tasks@[t as int].task_status == TaskStatus::Ready
                &&& final(self).tasks@[t as int].parent == parent
                &&& final(self).tasks@[t as int].children@.len() == 0
                &&& final(self).tasks@[t as int].memory_set@ == memory_set@
                &&& final(self).tasks@[t as int].exit_code == 0
                &&& final(self).tasks@[t as int].prio == DEFAULT_PRIO
                &&& forall|i: int| 0 <= i < old(self).tasks@.len() && parent != Some(i as usize)
                    ==> #[trigger] final(self).tasks@[i] == old(self).tasks@[i]
                &&& parent matches Some(p) ==> final(self).tasks@[p as int] == (TaskControlBlock {
                    children: final(self).tasks@[p as int].children,
                    ..old(self).tasks@[p as int]
                }) && final(self).tasks@[p as int].children@ == old(self).tasks@[p as int].children@.push(t)
            }),
    {
        let pid = match self.pids.alloc_pid() {
            None => return None,
            Some(p) => p,
        };
        if pid > MAX_PID {
            self.pids.dealloc(pid);
            return None;
        }
        let (_bottom, top) = kernel_stack_position(pid);
        let t = self.tasks.len();
        let tcb = TaskControlBlock {
            pid,
            kernel_stack_top: top,
            task_cx: TaskContext::goto_entry(self.trap_entry, top),
            task_status: TaskStatus::Ready,
            memory_set,
            parent,
            children: Vec::new(),
            exit_code: 0,
            prio: DEFAULT_PRIO,
        };
        self.tasks.push(tcb);
        if let Some(p) = parent {
            self.tasks[p].children.push(t);
        }
        Some(t)
    }
}

} // verus!
