use rcore_os::file::{FileObject, OSInode};
use rcore_os::manager::TaskManager;
use rcore_os::memory::MemorySet;
use rcore_os::process::{
    stack_string_bytes, LoadedProgram, ProcessControlBlock, RecycleAllocator, TaskControlBlock,
    TrapContext, DEFAULT_PRIORITY,
};
use rcore_os::syscall_process::{
    sys_exec, sys_exit, sys_fork, sys_get_time, sys_getpid, sys_sbrk, sys_set_priority, sys_spawn,
    sys_waitpid,
};
use rcore_os::vfs::EasyFileSystem;

fn start_cx() -> TrapContext {
    TrapContext::app_init_context(0x10000, 0x3000, 0xabc, 0x9000, 0x77)
}

fn program(token: usize) -> LoadedProgram {
    LoadedProgram { memory_set: MemorySet::new(token), ustack_base: 0x1000, ustack_top: 0x3000, entry_point: 0x10000 }
}

/// A manager that has handed out the pids below `n`.
fn manager_after(n: usize) -> TaskManager {
    let mut m = TaskManager::new();
    for _ in 0..n {
        m.pid_alloc();
    }
    m
}

fn process_in(m: &mut TaskManager) -> ProcessControlBlock {
    let token = 0x8000_0000_0000_0000 | m.pids.current;
    ProcessControlBlock::new(m, program(token), 0x9000, 0xabc, 0x77)
}

fn process(pid: usize) -> ProcessControlBlock {
    process_in(&mut manager_after(pid))
}

#[test]
fn new_process_has_console_descriptors_and_one_thread() {
    let p = process(3);
    assert_eq!(p.getpid(), 3);
    assert_eq!(
        p.inner.fd_table,
        vec![Some(FileObject::Stdin), Some(FileObject::Stdout), Some(FileObject::Stdout)]
    );
    assert_eq!(p.inner.thread_count(), 1);
    assert_eq!(
        p.inner.get_task(0),
        TaskControlBlock {
            tid: 0,
            ustack_base: 0x1000,
            priority: DEFAULT_PRIORITY,
            kstack_top: 0x9000,
            trap_cx: start_cx(),
        }
    );
    assert_eq!(
        start_cx(),
        TrapContext { sp: 0x3000, a0: 0, a1: 0, sepc: 0x10000, kernel_satp: 0xabc, kernel_sp: 0x9000, trap_handler: 0x77 }
    );
    assert_eq!(p.inner.get_user_token(), 0x8000_0000_0000_0003);
}

#[test]
fn new_process_takes_a_fresh_pid_and_is_queued() {
    let mut m = TaskManager::new();
    let a = process_in(&mut m);
    let b = process_in(&mut m);
    assert_eq!((a.getpid(), b.getpid()), (0, 1));
    assert_eq!(m.ready_queue, vec![(0, 0), (1, 0)]);
    m.pids.dealloc_id(0);
    let c = process_in(&mut m);
    assert_eq!(c.getpid(), 0);
    assert_eq!(m.fetch_task(), Some((0, 0)));
    assert_eq!(m.fetch_task(), Some((1, 0)));
    assert_eq!(m.fetch_task(), Some((0, 0)));
    assert_eq!(m.fetch_task(), None);
}

#[test]
fn alloc_fd_takes_lowest_free_slot() {
    let mut p = process(1);
    let inner = p.inner_exclusive_access();
    assert_eq!(inner.alloc_fd(), 3);
    assert_eq!(inner.fd_table.len(), 4);
    inner.fd_table[1] = None;
    assert_eq!(inner.alloc_fd(), 1);
    assert_eq!(inner.fd_table.len(), 4);
}

#[test]
fn recycled_ids_come_back_first() {
    let mut a = RecycleAllocator::new();
    assert_eq!(a.alloc_id(), 0);
    assert_eq!(a.alloc_id(), 1);
    assert_eq!(a.alloc_id(), 2);
    a.dealloc_id(1);
    a.dealloc_id(0);
    assert_eq!(a.alloc_id(), 0);
    assert_eq!(a.alloc_id(), 1);
    assert_eq!(a.alloc_id(), 3);
}

#[test]
fn thread_ids_through_the_process() {
    let mut p = process(1);
    // thread 0 exists already
    assert_eq!(p.inner.alloc_tid(), 1);
    p.inner.dealloc_tid(1);
    assert_eq!(p.inner.alloc_tid(), 1);
    assert_eq!(p.inner.alloc_tid(), 2);
}

#[test]
fn deadlock_switch() {
    let mut p = process(1);
    assert!(!p.inner.enable_detect_deadlock);
    p.set_deadlock_detect(true);
    assert!(p.inner.enable_detect_deadlock);
    p.inner.set_deadlock_detect(false);
    assert!(!p.inner.enable_detect_deadlock);
}

#[test]
fn fork_copies_files_and_address_space() {
    let mut m = manager_after(1);
    let mut parent = process_in(&mut m);
    let disk = FileObject::Disk(OSInode { readable: true, writable: false, inode_id: 4, handle: 9 });
    parent.inner.fd_table.push(Some(disk));
    parent.inner.memory_set.insert_framed_area(
        0x10,
        0x12,
        rcore_os::memory::MapPermission { readable: true, writable: true, executable: false, user: true },
    );
    assert_eq!(sys_fork(&mut m, &mut parent, 77, 0xa000), 2);
    // the child's thread is queued once, after the parent's
    assert_eq!(m.ready_queue, vec![(1, 0), (2, 0)]);
    assert_eq!(parent.inner.children.len(), 1);
    let child = &parent.inner.children[0];
    assert_eq!(child.getpid(), 2);
    assert_eq!(child.inner.parent, Some(1));
    assert_eq!(child.inner.fd_table, parent.inner.fd_table);
    assert_eq!(child.inner.memory_set.areas, parent.inner.memory_set.areas);
    assert_eq!(child.inner.memory_set.token, 77);
    assert_eq!(child.inner.thread_count(), 1);
    assert!(!child.inner.is_zombie);
    let t = child.inner.get_task(0);
    assert_eq!(t.kstack_top, 0xa000);
    assert_eq!(t.trap_cx, TrapContext { a0: 0, kernel_sp: 0xa000, ..start_cx() });
    // the parent keeps its own context
    assert_eq!(parent.inner.get_task(0).trap_cx, start_cx());
}

#[test]
fn waitpid_outcomes() {
    let mut m = manager_after(1);
    let mut parent = process_in(&mut m);
    assert_eq!(sys_waitpid(&mut parent.inner, -1), (-1, None));
    assert_eq!(parent.fork(&mut m, 0, 0), 2);
    assert_eq!(parent.fork(&mut m, 0, 0), 3);
    assert_eq!(sys_waitpid(&mut parent.inner, 5), (-1, None));
    assert_eq!(sys_waitpid(&mut parent.inner, 2), (-2, None));
    assert_eq!(sys_waitpid(&mut parent.inner, -1), (-2, None));
    sys_exit(&mut parent.inner.children[1].inner, 42);
    assert_eq!(sys_waitpid(&mut parent.inner, 2), (-2, None));
    assert_eq!(sys_waitpid(&mut parent.inner, -1), (3, Some(42)));
    assert_eq!(parent.inner.children.len(), 1);
    assert_eq!(parent.inner.children[0].getpid(), 2);
    sys_exit(&mut parent.inner.children[0].inner, -7);
    assert_eq!(sys_waitpid(&mut parent.inner, 2), (2, Some(-7)));
    assert!(parent.inner.children.is_empty());
}

#[test]
fn exec_lays_out_arguments() {
    let mut p = process(1);
    let args = vec![String::from("ab"), String::from("c")];
    let prog = LoadedProgram { memory_set: MemorySet::new(99), ustack_base: 0x2000, ustack_top: 4096, entry_point: 0x1_0000 };
    let image = p.exec(prog, 0xabc, 0x77, &args);
    assert_eq!(image.argc, 2);
    assert_eq!(image.argv_base, 4072);
    assert_eq!(image.argv, vec![4069, 4067, 0]);
    assert_eq!(image.user_sp, 4064);
    // "c\0" at 4067, "ab\0" at 4069, up to the vector
    assert_eq!(image.strings_base, 4067);
    assert_eq!(image.strings, b"c\0ab\0".to_vec());
    assert_eq!(p.inner.memory_set.token, 99);
    assert_eq!(p.inner.get_task(0).ustack_base, 0x2000);
    assert_eq!(
        p.inner.get_task(0).trap_cx,
        TrapContext { sp: 4064, a0: 2, a1: 4072, sepc: 0x1_0000, kernel_satp: 0xabc, kernel_sp: 0x9000, trap_handler: 0x77 }
    );
}

#[test]
fn exec_without_arguments() {
    let mut p = process(1);
    let prog = LoadedProgram { memory_set: MemorySet::new(1), ustack_base: 0, ustack_top: 4096, entry_point: 5 };
    let image = p.exec(prog, 6, 7, &Vec::new());
    assert!(image.strings.is_empty());
    assert_eq!(image.strings_base, 4088);
    assert_eq!(image.argc, 0);
    assert_eq!(image.argv_base, 4088);
    assert_eq!(image.argv, vec![0]);
    assert_eq!(image.user_sp, 4088);
    assert_eq!(p.inner.get_task(0).trap_cx.a0, 0);
    assert_eq!(p.inner.get_task(0).trap_cx.sp, 4088);
}

#[test]
fn argument_room_check() {
    use_args_fit();
}

fn use_args_fit() {
    let args = vec![String::from("ab"), String::from("c")];
    // 3 words and 5 bytes of strings
    assert!(rcore_os::process::args_fit_stack(29, &args));
    assert!(!rcore_os::process::args_fit_stack(28, &args));
    assert!(rcore_os::process::args_fit_stack(8, &Vec::new()));
    assert!(!rcore_os::process::args_fit_stack(7, &Vec::new()));
}

#[test]
fn small_syscalls() {
    let mut p = process(12);
    assert_eq!(sys_getpid(&p), 12);
    assert_eq!(sys_sbrk(Some(0x4000)), 0x4000);
    assert_eq!(sys_sbrk(None), -1);
    let tv = sys_get_time(3_250_001);
    assert_eq!((tv.sec, tv.usec), (3, 250_001));
    let mut t = p.inner.get_task(0);
    assert_eq!(sys_set_priority(&mut t, 1), -1);
    assert_eq!(t.priority, DEFAULT_PRIORITY);
    assert_eq!(sys_set_priority(&mut t, 2), 2);
    assert_eq!(t.priority, 2);
}

fn fs_with_program(name: &str, bytes: &[u8]) -> EasyFileSystem {
    let mut fs = EasyFileSystem::new();
    let root = fs.root_inode();
    let f = root.create(&mut fs, name).unwrap();
    f.write_at(&mut fs, 0, bytes);
    fs
}

#[test]
fn spawn_starts_the_named_program() {
    let fs = fs_with_program("app", b"\x7fELF");
    let mut m = manager_after(12);
    let mut p = process_in(&mut m);
    let load = |d: Vec<u8>| {
        assert_eq!(d, b"\x7fELF".to_vec());
        LoadedProgram { memory_set: MemorySet::new(555), ustack_base: 0x100, ustack_top: 0x200, entry_point: 0x300 }
    };
    assert_eq!(sys_spawn(&mut m, &mut p, &fs, "none", load, 0xb000, 1, 2), -1);
    assert!(p.inner.children.is_empty());
    assert_eq!(m.ready_queue, vec![(12, 0)]);
    assert_eq!(sys_spawn(&mut m, &mut p, &fs, "app", load, 0xb000, 1, 2), 13);
    let c = &p.inner.children[0];
    assert_eq!(c.getpid(), 13);
    assert_eq!(c.inner.parent, Some(12));
    assert_eq!(c.inner.memory_set.token, 555);
    assert_eq!(
        c.inner.get_task(0).trap_cx,
        TrapContext { sp: 0x200, a0: 0, a1: 0, sepc: 0x300, kernel_satp: 1, kernel_sp: 0xb000, trap_handler: 2 }
    );
    assert_eq!(c.inner.get_task(0).ustack_base, 0x100);
    assert_eq!(m.ready_queue, vec![(12, 0), (13, 0)]);
}

#[test]
fn exec_replaces_the_program_by_name() {
    let fs = fs_with_program("app", b"code");
    let mut p = process(4);
    let args = vec![String::from("app")];
    let load = |d: Vec<u8>| {
        assert_eq!(d, b"code".to_vec());
        LoadedProgram { memory_set: MemorySet::new(777), ustack_base: 0x100, ustack_top: 4096, entry_point: 0x40 }
    };
    let (r, image) = sys_exec(&mut p, &fs, "missing", &args, load, 1, 2);
    assert_eq!(r, -1);
    assert!(image.is_none());
    assert_eq!(p.inner.get_user_token(), 0x8000_0000_0000_0004);
    let (r, image) = sys_exec(&mut p, &fs, "app", &args, load, 1, 2);
    assert_eq!(r, 0);
    let image = image.unwrap();
    assert_eq!(p.inner.get_user_token(), 777);
    assert_eq!(image.argv, vec![4076, 0]);
    assert_eq!(image.strings, b"app\0".to_vec());
    assert_eq!(p.inner.get_task(0).trap_cx.sepc, 0x40);
    assert_eq!(p.inner.get_task(0).trap_cx.a0, 1);
}

#[test]
fn argument_bytes_on_the_stack() {
    let args = vec![String::from("x"), String::from("yz"), String::from("")];
    assert_eq!(stack_string_bytes(&args), b"\0yz\0x\0".to_vec());
    assert!(stack_string_bytes(&Vec::new()).is_empty());
}
