//! The process-management system calls: what each one decides and how it
//! changes the calling process.
use vstd::prelude::*;
use crate::loader::get_app_data_by_name;
use crate::vfs::{first_match, EasyFileSystem};
use crate::manager::TaskManager;
use crate::process::{
    args_fit, exec_outcome, fresh_process, no_sync_state, same_except, InnerField,
    LoadedProgram, ProcessControlBlock, ProcessControlBlockInner, StackImage, TaskControlBlock,
    TrapContext, DEFAULT_PRIORITY,
};
use crate::memory::{
    area_contains, ceil_vpn, floor_vpn, mmap_conflicts, page_offset, spec_ceil, spec_floor, MapArea,
    MapPermission, MemorySet, PAGE_SIZE,
};

verus! {

/// The content of the program file `path` of the root directory, if any.
pub open spec fn program_data(fs: &EasyFileSystem, path: Seq<char>) -> Option<Seq<u8>> {
    match first_match(fs.root_entries(), path) {
        Some(k) => Some(fs.disk_inode(fs.root_entries()[k].inode_id as int).data@),
        None => None,
    }
}

/// Replaces the program of the calling single-threaded process with the
/// program file `path` of the root directory, which `load` turns into an
/// address space, and passes it `args`.  Gives -1 and changes nothing when
/// there is no such file; otherwise 0 and what goes on the new user stack.
pub fn sys_exec<F: FnOnce(Vec<u8>) -> LoadedProgram>(
    process: &mut ProcessControlBlock,
    fs: &EasyFileSystem,
    path: &str,
    args: &Vec<String>,
    load: F,
    kernel_satp: usize,
    trap_handler: usize,
) -> (r: (isize, Option<StackImage>))
    requires
        fs.wf(),
        program_data(fs, path@) is Some ==> old(process).inner.tasks@.len() == 1 && old(
            process,
        ).inner.tasks@[0] is Some,
        forall|d: Vec<u8>| call_requires(load, (d,)),
        forall|d: Vec<u8>, prog: LoadedProgram|
            call_ensures(load, (d,), prog) ==> args_fit(prog.ustack_top as int, args@),
    ensures
        match program_data(fs, path@) {
            None => r == (-1isize, None::<StackImage>) && *final(process) == *old(process),
            Some(data) => {
                &&& r.0 == 0
                &&& r.1 is Some
                &&& exists|d: Vec<u8>, prog: LoadedProgram|
                    d@ == data && #[trigger] call_ensures(load, (d,), prog) && exec_outcome(
                        *old(process),
                        *final(process),
                        prog,
                        kernel_satp,
                        trap_handler,
                        args@,
                        r.1->0,
                    )
            },
        },
{
    match get_app_data_by_name(fs, path) {
        None => (-1, None),
        Some(data) => {
            let ghost d = data;
            let prog = load(data);
            let ghost p = prog;
            let image = process.exec(prog, kernel_satp, trap_handler, args);
            proof {
                assert(call_ensures(load, (d,), p));
            }
            (0, Some(image))
        },
    }
}

/// A time of day: seconds and microseconds.
#[derive(Clone, Copy, PartialEq, Eq, Debug, Structural)]
pub struct TimeVal {
    pub sec: usize,
    pub usec: usize,
}

/// Microseconds in one second.
pub const MICRO_PER_SEC: usize = 1_000_000;

/// The time `current_time` (in microseconds) as seconds and microseconds.
pub fn sys_get_time(current_time: usize) -> (tv: TimeVal)
    ensures
        tv.sec == current_time / MICRO_PER_SEC,
        tv.usec == current_time % MICRO_PER_SEC,
        tv.sec * MICRO_PER_SEC + tv.usec == current_time,
{
    TimeVal { sec: current_time / MICRO_PER_SEC, usec: current_time % MICRO_PER_SEC }
}

/// The id of the calling process.
pub fn sys_getpid(process: &ProcessControlBlock) -> (r: isize)
    ensures
        r == process.pid as isize,
{
    process.getpid() as isize
}

/// Forks the calling single-threaded process into a child with a fresh
/// pid from `manager`, whose address space is selected by `child_token`
/// and whose thread runs on the kernel stack topped at `child_kstack_top`
/// and is queued to run.  The parent gets the child's pid; the child
/// resumes where the parent did, with 0 as the result.
pub fn sys_fork(
    manager: &mut TaskManager,
    process: &mut ProcessControlBlock,
    child_token: usize,
    child_kstack_top: usize,
) -> (r: isize)
    requires
        old(process).inner.tasks@.len() == 1,
        old(process).inner.tasks@[0] is Some,
        old(manager).wf(),
        old(manager).can_alloc_pid(),
    ensures
        final(manager).wf(),
        final(process).pid == old(process).pid,
        final(process).inner.children@.drop_last() == old(process).inner.children@,
        final(process).inner.children@.len() == old(process).inner.children@.len() + 1,
        ({
            let c = final(process).inner.children@.last();
            let t = old(process).inner.tasks@[0]->0;
            &&& r == c.pid as isize
            &&& !old(manager).pids.allocated().contains(c.pid)
            &&& final(manager).pids.allocated() == old(manager).pids.allocated().insert(c.pid)
            &&& final(manager).ready_queue@ == old(manager).ready_queue@.push((c.pid, 0usize))
            &&& c.inner.parent == Some(old(process).pid)
            &&& !c.inner.is_zombie
            &&& c.inner.exit_code == 0
            &&& c.inner.children@.len() == 0
            &&& c.inner.fd_table@ == old(process).inner.fd_table@
            &&& c.inner.memory_set.areas@ == old(process).inner.memory_set.areas@
            &&& c.inner.memory_set.token == child_token
            &&& c.inner.tasks@ == seq![
                Some(
                    TaskControlBlock {
                        tid: 0,
                        ustack_base: t.ustack_base,
                        priority: DEFAULT_PRIORITY,
                        kstack_top: child_kstack_top,
                        trap_cx: TrapContext { kernel_sp: child_kstack_top, a0: 0, ..t.trap_cx },
                    },
                ),
            ]
            &&& c.inner.task_res_allocator.wf()
            &&& c.inner.task_res_allocator.allocated() == set![0usize]
            &&& no_sync_state(&c.inner)
        }),
        same_except(final(process).inner, old(process).inner, set![InnerField::Children]),
{
    let pid = process.fork(manager, child_token, child_kstack_top);
    let mut child = process.inner.children.pop().unwrap();
    let t = child.inner.get_task(0);
    child.inner.tasks.set(
        0,
        Some(TaskControlBlock { trap_cx: TrapContext { a0: 0, ..t.trap_cx }, ..t }),
    );
    process.inner.children.push(child);
    proof {
        assert(process.inner.children@.drop_last() =~= old(process).inner.children@);
        let c = process.inner.children@.last();
        assert(c.inner.tasks@ =~= seq![
            Some(TaskControlBlock { trap_cx: TrapContext { a0: 0, ..t.trap_cx }, ..t }),
        ]);
    }
    pid as isize
}

/// Child `child` is one that `waitpid(pid, ..)` waits for.
pub open spec fn waits_for(pid: isize, child: ProcessControlBlock) -> bool {
    pid == -1 || pid as usize == child.pid
}

/// The first child that `waitpid(pid, ..)` can reap, if any.
pub open spec fn first_reapable(children: Seq<ProcessControlBlock>, pid: isize) -> Option<int> {
    if exists|k: int| 0 <= k < children.len() && #[trigger] reapable(children[k], pid) {
        Some(
            choose|k: int|
                0 <= k < children.len() && #[trigger] reapable(children[k], pid) && forall|j: int|
                    0 <= j < k ==> !#[trigger] reapable(children[j], pid),
        )
    } else {
        None
    }
}

/// Child `child` has exited and `waitpid(pid, ..)` waits for it.
pub open spec fn reapable(child: ProcessControlBlock, pid: isize) -> bool {
    child.inner.is_zombie && waits_for(pid, child)
}

/// Whether `waitpid(pid, ..)` waits for some of `children`.
fn any_child_waited_for(children: &Vec<ProcessControlBlock>, pid: isize) -> (b: bool)
    ensures
        b == exists|k: int| 0 <= k < children@.len() && #[trigger] waits_for(pid, children@[k]),
{
    let mut k: usize = 0;
    while k < children.len()
        invariant
            k <= children@.len(),
            forall|j: int| 0 <= j < k ==> !#[trigger] waits_for(pid, children@[j]),
        decreases children@.len() - k,
    {
        if pid == -1 || pid as usize == children[k].getpid() {
            assert(waits_for(pid, children@[k as int]));
            return true;
        }
        k = k + 1;
    }
    false
}

/// Waits for child `pid` (any child when `pid` is -1).  Gives -1 and no
/// exit code when no child matches, -2 when the matching children all
/// still run; otherwise removes the first matching exited child and gives
/// its pid and exit code.
pub fn sys_waitpid(inner: &mut ProcessControlBlockInner, pid: isize) -> (r: (isize, Option<i32>))
    ensures
        !(exists|k: int|
            0 <= k < old(inner).children@.len() && #[trigger] waits_for(
                pid,
                old(inner).children@[k],
            )) ==> r == (-1isize, None::<i32>) && *final(inner) == *old(inner),
        (exists|k: int|
            0 <= k < old(inner).children@.len() && #[trigger] waits_for(
                pid,
                old(inner).children@[k],
            )) ==> match first_reapable(old(inner).children@, pid) {
            None => r == (-2isize, None::<i32>) && *final(inner) == *old(inner),
            Some(k) => {
                let child = old(inner).children@[k];
                &&& r == (child.pid as isize, Some(child.inner.exit_code))
                &&& final(inner).children@ == old(inner).children@.remove(k)
                &&& same_except(*final(inner), *old(inner), set![InnerField::Children])
            },
        },
{
    let any = any_child_waited_for(&inner.children, pid);
    if !any {
        return (-1, None);
    }
    let mut k: usize = 0;
    while k < inner.children.len()
        invariant
            k <= inner.children@.len(),
            inner == old(inner),
            forall|j: int| 0 <= j < k ==> !#[trigger] reapable(inner.children@[j], pid),
        decreases inner.children@.len() - k,
    {
        if inner.children[k].inner.is_zombie && (pid == -1 || pid as usize
            == inner.children[k].getpid()) {
            assert(reapable(inner.children@[k as int], pid));
            assert(first_reapable(inner.children@, pid) == Some(k as int)) by {
                let c = choose|c: int|
                    0 <= c < inner.children@.len() && #[trigger] reapable(inner.children@[c], pid)
                        && forall|j: int| 0 <= j < c ==> !#[trigger] reapable(inner.children@[j], pid);
                if c < k {
                } else if c > k {
                    assert(!reapable(inner.children@[k as int], pid));
                }
            }
            let child = inner.children.remove(k);
            let found_pid = child.getpid();
            let exit_code = child.inner.exit_code;
            return (found_pid as isize, Some(exit_code));
        }
        k = k + 1;
    }
    (-2, None)
}

/// Ends the calling process with `exit_code`: it becomes a zombie that its
/// parent can reap.
pub fn sys_exit(inner: &mut ProcessControlBlockInner, exit_code: i32)
    ensures
        final(inner).is_zombie,
        final(inner).exit_code == exit_code,
        same_except(*final(inner), *old(inner), set![InnerField::IsZombie, InnerField::ExitCode]),
{
    inner.is_zombie = true;
    inner.exit_code = exit_code;
}

/// Starts the program file `path` of the root directory, which `load`
/// turns into an address space, as a new child of the calling process,
/// with a fresh pid from `manager` and its thread queued to run on the
/// kernel stack topped at `kstack_top`.  Gives the child's pid, or -1 and
/// changes nothing when there is no such file.
pub fn sys_spawn<F: FnOnce(Vec<u8>) -> LoadedProgram>(
    manager: &mut TaskManager,
    process: &mut ProcessControlBlock,
    fs: &EasyFileSystem,
    path: &str,
    load: F,
    kstack_top: usize,
    kernel_satp: usize,
    trap_handler: usize,
) -> (r: isize)
    requires
        fs.wf(),
        old(manager).wf(),
        old(manager).can_alloc_pid(),
        forall|d: Vec<u8>| call_requires(load, (d,)),
    ensures
        final(process).pid == old(process).pid,
        same_except(final(process).inner, old(process).inner, set![InnerField::Children]),
        match program_data(fs, path@) {
            None => r == -1 && *final(process) == *old(process) && *final(manager) == *old(manager),
            Some(data) => {
                let c = final(process).inner.children@.last();
                &&& final(manager).wf()
                &&& final(process).inner.children@.len() == old(process).inner.children@.len() + 1
                &&& final(process).inner.children@.drop_last() == old(process).inner.children@
                &&& r == c.pid as isize
                &&& !old(manager).pids.allocated().contains(c.pid)
                &&& final(manager).pids.allocated() == old(manager).pids.allocated().insert(c.pid)
                &&& final(manager).ready_queue@ == old(manager).ready_queue@.push((c.pid, 0usize))
                &&& c.inner.parent == Some(old(process).pid)
                &&& exists|d: Vec<u8>, prog: LoadedProgram|
                    d@ == data && #[trigger] call_ensures(load, (d,), prog) && fresh_process(
                        c,
                        prog,
                        kstack_top,
                        kernel_satp,
                        trap_handler,
                    )
            },
        },
{
    match get_app_data_by_name(fs, path) {
        None => -1,
        Some(data) => {
            let ghost d = data;
            let prog = load(data);
            let ghost p = prog;
            let mut child = ProcessControlBlock::new(manager, prog, kstack_top, kernel_satp, trap_handler);
            child.inner.parent = Some(process.getpid());
            let pid = child.getpid();
            process.inner.children.push(child);
            proof {
                assert(process.inner.children@.drop_last() =~= old(process).inner.children@);
                assert(call_ensures(load, (d,), p));
                assert(fresh_process(process.inner.children@.last(), p, kstack_top, kernel_satp, trap_handler));
            }
            pid as isize
        },
    }
}

/// The previous program break after a successful change, -1 after a failed one.
pub fn sys_sbrk(old_brk: Option<usize>) -> (r: isize)
    ensures
        match old_brk {
            Some(b) => r == b as isize,
            None => r == -1,
        },
{
    match old_brk {
        Some(b) => b as isize,
        None => -1,
    }
}

/// Sets the priority of the calling thread.  Priorities below 2 are
/// refused with -1; otherwise the new priority is returned.
pub fn sys_set_priority(task: &mut TaskControlBlock, prio: isize) -> (r: isize)
    ensures
        prio < 2 ==> r == -1 && *final(task) == *old(task),
        prio >= 2 ==> r == prio && *final(task) == (TaskControlBlock { priority: prio, ..*old(task) }),
{
    if prio < 2 {
        return -1;
    }
    task.priority = prio;
    prio
}

/// The permission `mmap` gives for protection bits `port`: bit 0 read,
/// bit 1 write, bit 2 execute; user access always.
pub open spec fn perm_of_port(port: usize) -> MapPermission {
    MapPermission {
        readable: port & 1 != 0,
        writable: port & 2 != 0,
        executable: port & 4 != 0,
        user: true,
    }
}

/// Which accepted protection bits give which permission: ports 1, 3, 5
/// and 7 map readable pages, ports 2, 3, 6 and 7 writable ones, ports 4 to
/// 7 executable ones, every port user-accessible pages; each bit decides
/// its flag whatever the other bits are.
pub proof fn lemma_mmap_permission(port: usize)
    requires
        1 <= port <= 7,
    ensures
        perm_of_port(port).readable <==> (port == 1 || port == 3 || port == 5 || port == 7),
        perm_of_port(port).writable <==> (port == 2 || port == 3 || port == 6 || port == 7),
        perm_of_port(port).executable <==> (4 <= port <= 7),
        perm_of_port(port).user,
        forall|other: usize|
            1 <= other <= 7 && other % 2 == port % 2 ==> #[trigger] perm_of_port(other).readable
                == perm_of_port(port).readable,
        forall|other: usize|
            1 <= other <= 7 && (other / 2) % 2 == (port / 2) % 2 ==> #[trigger] perm_of_port(
                other,
            ).writable == perm_of_port(port).writable,
        forall|other: usize|
            1 <= other <= 7 && other / 4 == port / 4 ==> #[trigger] perm_of_port(other).executable
                == perm_of_port(port).executable,
{
    assert(forall|p: usize|
        1 <= p <= 7 ==> ((p & 1 != 0) <==> (p == 1 || p == 3 || p == 5 || p == 7))) by (bit_vector);
    assert(forall|p: usize|
        1 <= p <= 7 ==> ((p & 2 != 0) <==> (p == 2 || p == 3 || p == 6 || p == 7))) by (bit_vector);
    assert(forall|p: usize| 1 <= p <= 7 ==> ((p & 4 != 0) <==> (4 <= p <= 7))) by (bit_vector);
}

/// `mmap` accepts a page-aligned start and protection bits in `1..=7`.
pub open spec fn mmap_args_valid(start: usize, port: usize) -> bool {
    start % PAGE_SIZE == 0 && 1 <= port <= 7
}

/// Some existing area conflicts with the page range `[s, e)`.
pub open spec fn mmap_refused(ms: &MemorySet, s: int, e: int) -> bool {
    exists|k: int| 0 <= k < ms.areas@.len() && #[trigger] mmap_conflicts(ms.areas@[k], s, e)
}

/// Maps `len` bytes from the page-aligned address `start` with the
/// protection bits `port`.  Returns 0 on success and -1 when the
/// arguments are invalid or a page of the range is already mapped; a zero
/// length maps nothing and succeeds.
pub fn sys_mmap(memory_set: &mut MemorySet, start: usize, len: usize, port: usize) -> (r: isize)
    requires
        old(memory_set).wf(),
        mmap_args_valid(start, port) && len > 0 ==> start + len <= usize::MAX,
    ensures
        final(memory_set).wf(),
        !mmap_args_valid(start, port) ==> r == -1 && *final(memory_set) == *old(memory_set),
        mmap_args_valid(start, port) && len == 0 ==> r == 0 && *final(memory_set) == *old(
            memory_set,
        ),
        mmap_args_valid(start, port) && len > 0 ==> {
            let s = spec_floor(start as int);
            let e = spec_ceil(start + len);
            &&& mmap_refused(old(memory_set), s, e) ==> r == -1 && *final(memory_set) == *old(
                memory_set,
            )
            &&& !mmap_refused(old(memory_set), s, e) ==> {
                &&& r == 0
                &&& final(memory_set).token == old(memory_set).token
                &&& final(memory_set).areas@ == old(memory_set).areas@.push(
                    MapArea { start_vpn: s as usize, end_vpn: e as usize, perm: perm_of_port(port) },
                )
                &&& forall|v: int|
                    #[trigger] final(memory_set).translate(v) == if s <= v < e {
                        Some(perm_of_port(port))
                    } else {
                        old(memory_set).translate(v)
                    }
            }
        },
{
    assert((port & !7usize) != 0 <==> port > 7) by (bit_vector);
    if page_offset(start) != 0 || port == 0 || port & !0x7 != 0 {
        return -1;
    }
    if len == 0 {
        return 0;
    }
    let end_vpn = ceil_vpn(start + len);
    let start_vpn = floor_vpn(start);
    if memory_set.conflicts_with_any(start_vpn, end_vpn) {
        return -1;
    }
    let perm = MapPermission {
        readable: port & 0x1 != 0,
        writable: port & 0x2 != 0,
        executable: port & 0x4 != 0,
        user: true,
    };
    memory_set.insert_framed_area(start_vpn, end_vpn, perm);
    0
}

/// Unmaps `len` bytes from the page-aligned address `start`.  Returns 0 on
/// success and -1 when `start` is not page-aligned or some page of the
/// range is not mapped; a zero length unmaps nothing and succeeds.
pub fn sys_munmap(memory_set: &mut MemorySet, start: usize, len: usize) -> (r: isize)
    requires
        old(memory_set).wf(),
        start % PAGE_SIZE == 0 && len > 0 ==> start + len <= usize::MAX,
    ensures
        final(memory_set).wf(),
        start % PAGE_SIZE != 0 ==> r == -1 && *final(memory_set) == *old(memory_set),
        start % PAGE_SIZE == 0 && len == 0 ==> r == 0 && *final(memory_set) == *old(memory_set),
        start % PAGE_SIZE == 0 && len > 0 ==> {
            let s = spec_floor(start as int);
            let e = spec_ceil(start + len);
            let all = forall|v: int| s <= v < e ==> #[trigger] old(memory_set).is_mapped(v);
            &&& !all ==> r == -1 && *final(memory_set) == *old(memory_set)
            &&& all ==> {
                &&& r == 0
                &&& final(memory_set).token == old(memory_set).token
                &&& forall|v: int|
                    #[trigger] final(memory_set).translate(v) == if s <= v < e {
                        None
                    } else {
                        old(memory_set).translate(v)
                    }
            }
        },
{
    if page_offset(start) != 0 {
        return -1;
    }
    if len == 0 {
        return 0;
    }
    let start_vpn = floor_vpn(start);
    let end_vpn = ceil_vpn(start + len);
    if !memory_set.all_mapped(start_vpn, end_vpn) {
        return -1;
    }
    memory_set.remove_range(start_vpn, end_vpn);
    0
}

/// Unmapping what a successful `mmap` mapped succeeds, gives back the
/// permission of every page as it was before the `mmap`, and lets the same
/// `mmap` succeed again.
pub proof fn lemma_munmap_undoes_mmap(
    before: MemorySet,
    mapped: MemorySet,
    after: MemorySet,
    start: usize,
    len: usize,
    port: usize,
)
    requires
        before.wf(),
        after.wf(),
        mmap_args_valid(start, port),
        len > 0,
        start + len <= usize::MAX,
        !mmap_refused(&before, spec_floor(start as int), spec_ceil(start + len)),
        forall|v: int|
            #[trigger] mapped.translate(v) == if spec_floor(start as int) <= v < spec_ceil(
                start + len,
            ) {
                Some(perm_of_port(port))
            } else {
                before.translate(v)
            },
        forall|v: int|
            #[trigger] after.translate(v) == if spec_floor(start as int) <= v < spec_ceil(
                start + len,
            ) {
                None
            } else {
                mapped.translate(v)
            },
    ensures
        forall|v: int|
            spec_floor(start as int) <= v < spec_ceil(start + len) ==> #[trigger] mapped.is_mapped(
                v,
            ),
        forall|v: int| #[trigger] after.translate(v) == before.translate(v),
        !mmap_refused(&after, spec_floor(start as int), spec_ceil(start + len)),
{
    let s = spec_floor(start as int);
    let e = spec_ceil(start + len);
    assert(s < e);
    after.lemma_conflict_iff_mapped(s, e);
    assert forall|v: int| s <= v < e implies !#[trigger] after.is_mapped(v) by {
        assert(after.translate(v) is None);
    }
    assert forall|v: int| s <= v < e implies #[trigger] mapped.is_mapped(v) by {
        assert(mapped.translate(v) is Some);
    }
    assert forall|v: int| #[trigger] after.translate(v) == before.translate(v) by {
        if s <= v < e && before.is_mapped(v) {
            let k = choose|k: int|
                0 <= k < before.areas@.len() && #[trigger] area_contains(before.areas@[k], v);
            assert(!mmap_conflicts(before.areas@[k], s, e));
            assert(mapped.translate(v) is Some);
        }
    }
}

} // verus!
