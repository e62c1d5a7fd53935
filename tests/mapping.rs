use task_core::kernel::{Kernel, INITPROC};
use task_core::memory_set::{MemorySet, PERM_R, PERM_U, PERM_W, PERM_X};
use task_core::pid::PAGE_SIZE;

fn running_init() -> Kernel {
    let mut k = Kernel::new(MemorySet::new_bare(), 0);
    k.add_initproc();
    k.run_next();
    k
}

fn mapped(k: &Kernel, vpn: usize) -> bool {
    k.tasks[INITPROC].memory_set.find_vpn(vpn)
}

#[test]
fn mmap_maps_each_page_of_range() {
    let mut k = running_init();
    assert_eq!(k.mmap(0x4000, 2 * PAGE_SIZE, 1), 0);
    assert!(!mapped(&k, 3));
    assert!(mapped(&k, 4));
    assert!(mapped(&k, 5));
    assert!(!mapped(&k, 6));
}

#[test]
fn mmap_range_bounds_round_down() {
    let mut k = running_init();
    assert_eq!(k.mmap(0x4800, PAGE_SIZE + 0x100, 1), 0);
    assert!(mapped(&k, 4));
    assert!(!mapped(&k, 5));
    assert_eq!(k.mmap(0x6800, PAGE_SIZE, 1), 0);
    assert!(mapped(&k, 6));
    assert!(!mapped(&k, 7));
}

#[test]
fn mmap_overlap_fails_and_keeps_first() {
    let mut k = running_init();
    assert_eq!(k.mmap(0x4000, 3 * PAGE_SIZE, 3), 0);
    assert_eq!(k.mmap(0x6000, 2 * PAGE_SIZE, 1), -1);
    for vpn in 4..7 {
        assert!(mapped(&k, vpn));
    }
    assert!(!mapped(&k, 7));
}

#[test]
fn mmap_rejects_bad_permission_bits() {
    let mut k = running_init();
    assert_eq!(k.mmap(0x4000, PAGE_SIZE, 8), -1);
    assert!(!mapped(&k, 4));
    assert_eq!(k.mmap(0x4000, PAGE_SIZE, 7), 0);
}

#[test]
fn mmap_then_unmmap_restores_space() {
    let mut k = running_init();
    assert_eq!(k.mmap(0x4000, PAGE_SIZE, 2), 0);
    assert_eq!(k.mmap(0x8000, 2 * PAGE_SIZE, 2), 0);
    assert_eq!(k.unmmap(0x8000, 2 * PAGE_SIZE), 0);
    assert!(mapped(&k, 4));
    assert!(!mapped(&k, 8));
    assert!(!mapped(&k, 9));
    assert_eq!(k.unmmap(0x8000, 2 * PAGE_SIZE), -1);
}

#[test]
fn unmmap_partial_range_fails() {
    let mut k = running_init();
    assert_eq!(k.mmap(0x4000, 2 * PAGE_SIZE, 1), 0);
    assert_eq!(k.unmmap(0x4000, 3 * PAGE_SIZE), -1);
    assert!(mapped(&k, 4));
    assert!(mapped(&k, 5));
    assert!(!mapped(&k, 6));
}

#[test]
fn memory_set_insert_and_delete() {
    let mut m = MemorySet::new_bare();
    m.insert_framed_area(10, 13, PERM_R | PERM_U);
    assert!(m.find_vpn(10) && m.find_vpn(12));
    m.delete_pte_from(11);
    assert!(!m.find_vpn(11));
    assert!(m.find_vpn(10) && m.find_vpn(12));
    m.delete_pte_from(11);
    m.recycle_data_pages();
    assert!(!m.find_vpn(10));
}

#[test]
fn permission_bits() {
    assert_eq!((PERM_R, PERM_W, PERM_X, PERM_U), (2, 4, 8, 16));
}
