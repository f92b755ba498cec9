use std::collections::BTreeMap;

use rcore_os::manager::TaskManager;
use rcore_os::memory::MemorySet;
use rcore_os::process::{LoadedProgram, ProcessControlBlock, TaskControlBlock, TrapContext};

fn two_threads() -> ProcessControlBlock {
    let cx = TrapContext::app_init_context(0, 0, 0, 0, 0);
    let prog = LoadedProgram { memory_set: MemorySet::new(0), ustack_base: 0, ustack_top: 0, entry_point: 0 };
    let mut p = ProcessControlBlock::new(&mut TaskManager::new(), prog, 0, 0, 0);
    p.inner.tasks.push(Some(TaskControlBlock {
        tid: 1,
        ustack_base: 0,
        priority: 16,
        kstack_top: 0,
        trap_cx: cx,
    }));
    p
}

fn row(entries: &[(usize, u8)]) -> BTreeMap<usize, u8> {
    entries.iter().cloned().collect()
}

#[test]
fn btreemap_helpers() {
    let mut m: BTreeMap<usize, BTreeMap<usize, u8>> = BTreeMap::new();
    m.insert(1, row(&[(0, 2)]));
    assert_eq!(ProcessControlBlock::get_from_btreemap(&m, 1, 0), Some(2));
    assert_eq!(ProcessControlBlock::get_from_btreemap(&m, 1, 1), None);
    assert_eq!(ProcessControlBlock::get_from_btreemap(&m, 2, 0), None);
    assert_eq!(ProcessControlBlock::change_from_btreemap(&mut m, 1, 0, 3), Some(5));
    assert_eq!(ProcessControlBlock::get_from_btreemap(&m, 1, 0), Some(5));
    assert_eq!(ProcessControlBlock::change_from_btreemap(&mut m, 1, 4, 3), None);
    assert_eq!(ProcessControlBlock::change_from_btreemap(&mut m, 7, 0, 3), None);
    assert_eq!(m.len(), 1);
    ProcessControlBlock::remove_from_btreemap(&mut m, 1);
    assert!(m.is_empty());
}

#[test]
fn safe_mutex_request() {
    let mut p = two_threads();
    p.inner.mutex_list.push(true);
    p.inner.available_mutex.push(0);
    p.inner.alloc_matrix_for_mutex.insert(0, row(&[(0, 1)]));
    // thread 1 waits for the mutex thread 0 holds; thread 0 can finish first
    assert!(!p.detect_deadlock(1, 0, -1));
    assert_eq!(ProcessControlBlock::get_from_btreemap(&p.inner.need_matrix_for_mutex, 1, 0), Some(1));
}

#[test]
fn crossed_mutex_requests_deadlock() {
    let mut p = two_threads();
    p.inner.mutex_list.push(true);
    p.inner.mutex_list.push(true);
    p.inner.available_mutex.push(0);
    p.inner.available_mutex.push(0);
    p.inner.alloc_matrix_for_mutex.insert(0, row(&[(0, 1)]));
    p.inner.alloc_matrix_for_mutex.insert(1, row(&[(1, 1)]));
    assert!(!p.detect_deadlock(0, 1, -1));
    assert!(p.detect_deadlock(1, 0, -1));
}

#[test]
fn semaphore_requests() {
    let mut p = two_threads();
    p.inner.semaphore_list.push(true);
    p.inner.available_semaphore.push(1);
    assert!(!p.detect_deadlock(0, -1, 0));
    assert!(!p.detect_deadlock(1, -1, 0));
    // thread 0 now needs two units of a semaphore that has one free unit
    // and nobody holds: it can never proceed
    assert!(p.detect_deadlock(0, -1, 0));
    assert_eq!(ProcessControlBlock::get_from_btreemap(&p.inner.need_matrix_for_semaphore, 0, 0), Some(2));
}

#[test]
fn ambiguous_requests_are_ignored() {
    let mut p = two_threads();
    assert!(!p.detect_deadlock(0, -1, -1));
    assert!(!p.detect_deadlock(0, 2, 3));
    assert!(p.inner.need_matrix_for_mutex.is_empty());
    assert!(p.inner.need_matrix_for_semaphore.is_empty());
}
