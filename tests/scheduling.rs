use task_core::kernel::{Kernel, INITPROC, DEFAULT_PRIO};
use task_core::memory_set::MemorySet;
use task_core::pid::{kernel_stack_position, PidAllocator, KERNEL_STACK_SIZE, PAGE_SIZE, TRAMPOLINE};
use task_core::task::{TaskContext, TaskStatus};

fn running_count(k: &Kernel) -> usize {
    k.tasks.iter().filter(|t| t.task_status == TaskStatus::Running).count()
}

/// The initial process plus two more, all queued; the initial process runs.
fn three_tasks() -> Kernel {
    let mut k = Kernel::new(MemorySet::new_bare(), 0x8000);
    let a = k.new_task(MemorySet::new_bare(), Some(INITPROC)).unwrap();
    let b = k.new_task(MemorySet::new_bare(), Some(INITPROC)).unwrap();
    k.add_initproc();
    k.add_task(a);
    k.add_task(b);
    assert_eq!(k.run_next(), Some(INITPROC));
    k
}

#[test]
fn new_kernel_holds_only_initproc() {
    let k = Kernel::new(MemorySet::new_bare(), 0x8000);
    assert_eq!(k.tasks.len(), 1);
    assert_eq!(k.tasks[INITPROC].task_status, TaskStatus::Ready);
    assert_eq!(k.tasks[INITPROC].pid, 0);
    assert_eq!(k.tasks[INITPROC].task_cx.ra, 0x8000);
    assert_eq!(k.tasks[INITPROC].task_cx.sp, TRAMPOLINE);
    assert!(k.ready.is_empty());
    assert_eq!(k.current_task(), None);
}

#[test]
fn run_next_on_empty_queue_stays_idle() {
    let mut k = Kernel::new(MemorySet::new_bare(), 0);
    assert_eq!(k.run_next(), None);
    assert_eq!(k.current_task(), None);
    assert_eq!(k.tasks[INITPROC].task_status, TaskStatus::Ready);
}

#[test]
fn new_task_links_parent_and_child() {
    let mut k = Kernel::new(MemorySet::new_bare(), 0);
    let a = k.new_task(MemorySet::new_bare(), Some(INITPROC)).unwrap();
    let b = k.new_task(MemorySet::new_bare(), Some(a)).unwrap();
    assert_eq!((a, b), (1, 2));
    assert_eq!(k.tasks[a].pid, 1);
    assert_eq!(k.tasks[b].parent, Some(a));
    assert_eq!(k.tasks[a].children, vec![b]);
    assert_eq!(k.tasks[INITPROC].children, vec![a]);
    assert_eq!(k.tasks[b].task_status, TaskStatus::Ready);
    assert_eq!(k.tasks[b].prio, DEFAULT_PRIO);
    assert_eq!(k.tasks[b].exit_code, 0);
}

#[test]
fn suspend_runs_tasks_in_fifo_order() {
    let mut k = three_tasks();
    let mut seen = vec![k.current_task().unwrap()];
    for _ in 0..6 {
        k.suspend_current_and_run_next();
        seen.push(k.current_task().unwrap());
    }
    assert_eq!(seen, vec![0, 1, 2, 0, 1, 2, 0]);
}

#[test]
fn suspend_alone_runs_the_same_task_again() {
    let mut k = Kernel::new(MemorySet::new_bare(), 0);
    k.add_initproc();
    k.run_next();
    k.suspend_current_and_run_next();
    assert_eq!(k.current_task(), Some(INITPROC));
    assert_eq!(k.tasks[INITPROC].task_status, TaskStatus::Running);
    assert!(k.ready.is_empty());
}

#[test]
fn suspended_task_goes_to_back_of_queue() {
    let mut k = three_tasks();
    k.suspend_current_and_run_next();
    assert_eq!(k.ready, vec![2, 0]);
    assert_eq!(k.tasks[0].task_status, TaskStatus::Ready);
    assert_eq!(k.tasks[1].task_status, TaskStatus::Running);
}

#[test]
fn exit_reparents_children_to_initproc() {
    let mut k = Kernel::new(MemorySet::new_bare(), 0);
    let a = k.new_task(MemorySet::new_bare(), Some(INITPROC)).unwrap();
    let c1 = k.new_task(MemorySet::new_bare(), Some(a)).unwrap();
    let c2 = k.new_task(MemorySet::new_bare(), Some(a)).unwrap();
    k.add_task(a);
    assert_eq!(k.run_next(), Some(a));
    k.exit_current_and_run_next(7);
    assert_eq!(k.tasks[a].task_status, TaskStatus::Zombie);
    assert_eq!(k.tasks[a].exit_code, 7);
    assert!(k.tasks[a].children.is_empty());
    assert_eq!(k.tasks[c1].parent, Some(INITPROC));
    assert_eq!(k.tasks[c2].parent, Some(INITPROC));
    assert_eq!(k.tasks[INITPROC].children, vec![a, c1, c2]);
    assert_eq!(k.current_task(), None);
}

#[test]
fn exit_runs_the_next_ready_task() {
    let mut k = three_tasks();
    k.suspend_current_and_run_next();
    assert_eq!(k.current_task(), Some(1));
    k.exit_current_and_run_next(-3);
    assert_eq!(k.current_task(), Some(2));
    assert_eq!(k.ready, vec![0]);
    assert_eq!(k.tasks[1].task_status, TaskStatus::Zombie);
    assert_eq!(k.tasks[1].exit_code, -3);
}

#[test]
fn exit_reclaims_all_pages() {
    let mut k = three_tasks();
    k.suspend_current_and_run_next();
    assert_eq!(k.mmap(0x10000, 3 * PAGE_SIZE, 3), 0);
    assert!(k.tasks[1].memory_set.find_vpn(0x11));
    k.exit_current_and_run_next(0);
    for vpn in 0x10..0x13 {
        assert!(!k.tasks[1].memory_set.find_vpn(vpn));
    }
}

#[test]
fn at_most_one_task_runs() {
    let mut k = three_tasks();
    assert_eq!(running_count(&k), 1);
    k.suspend_current_and_run_next();
    assert_eq!(running_count(&k), 1);
    k.exit_current_and_run_next(1);
    assert_eq!(running_count(&k), 1);
    k.suspend_current_and_run_next();
    assert_eq!(running_count(&k), 1);
    assert_eq!(k.current_task(), Some(INITPROC));
    k.suspend_current_and_run_next();
    assert_eq!(k.current_task(), Some(2));
    k.exit_current_and_run_next(2);
    assert_eq!(running_count(&k), 1);
    assert_eq!(k.current_task(), Some(INITPROC));
}

#[test]
fn take_current_task_empties_the_slot() {
    let mut k = three_tasks();
    assert_eq!(k.take_current_task(), Some(INITPROC));
    assert_eq!(k.current_task(), None);
}

#[test]
fn set_prio_changes_only_current_task() {
    let mut k = three_tasks();
    k.set_prio(3);
    assert_eq!(k.tasks[INITPROC].prio, 3);
    assert_eq!(k.tasks[1].prio, DEFAULT_PRIO);
}

#[test]
fn pid_allocator_reuses_freed_pids() {
    let mut p = PidAllocator::new();
    assert_eq!(p.alloc_pid(), Some(0));
    assert_eq!(p.alloc_pid(), Some(1));
    assert_eq!(p.alloc_pid(), Some(2));
    p.dealloc(1);
    assert_eq!(p.alloc_pid(), Some(1));
    assert_eq!(p.alloc_pid(), Some(3));
}

#[test]
fn pid_allocator_exhausted() {
    let mut p = PidAllocator { current: usize::MAX, recycled: Vec::new() };
    assert_eq!(p.alloc_pid(), None);
}

#[test]
fn kernel_stack_layout() {
    assert_eq!(kernel_stack_position(0), (TRAMPOLINE - KERNEL_STACK_SIZE, TRAMPOLINE));
    let top = TRAMPOLINE - 2 * (KERNEL_STACK_SIZE + PAGE_SIZE);
    assert_eq!(kernel_stack_position(2), (top - KERNEL_STACK_SIZE, top));
}

#[test]
fn context_constructors() {
    let z = TaskContext::zero_init();
    assert_eq!((z.ra, z.sp, z.s), (0, 0, [0; 12]));
    let g = TaskContext::goto_entry(5, 9);
    assert_eq!((g.ra, g.sp), (5, 9));
}
