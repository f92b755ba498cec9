//! Process control blocks: the state a process owns (address space, open
//! files, children, threads, synchronisation bookkeeping) and the
//! operations on it.
use vstd::prelude::*;
use std::collections::BTreeMap;
use crate::file::FileObject;
use vstd::utf8::encode_utf8;
use crate::manager::TaskManager;
use crate::memory::MemorySet;

verus! {

/// Hands out small integer ids, reusing released ones first.
pub struct RecycleAllocator {
    /// Every id below `current` has been handed out at least once.
    pub current: usize,
    /// Released ids, reused last-in first-out.
    pub recycled: Vec<usize>,
}

impl RecycleAllocator {
    pub open spec fn wf(&self) -> bool {
        &&& self.recycled@.no_duplicates()
        &&& forall|k: int| 0 <= k < self.recycled@.len() ==> #[trigger] self.recycled@[k] < self.current
    }

    /// The ids that are handed out and not yet released.
    pub open spec fn allocated(&self) -> Set<usize> {
        Set::new(|id: usize| id < self.current && !self.recycled@.contains(id))
    }

    /// An allocator that has handed out nothing.
    pub fn new() -> (a: RecycleAllocator)
        ensures
            a.wf(),
            a.current == 0,
            a.recycled@.len() == 0,
            a.allocated() == Set::<usize>::empty(),
    {
        let a = RecycleAllocator { current: 0, recycled: Vec::new() };
        assert(a.allocated() =~= Set::<usize>::empty());
        a
    }

    /// Hands out the most recently released id, or else the next fresh one.
    pub fn alloc_id(&mut self) -> (id: usize)
        requires
            old(self).wf(),
            old(self).recycled@.len() > 0 || old(self).current < usize::MAX,
        ensures
            final(self).wf(),
            !old(self).allocated().contains(id),
            final(self).allocated() == old(self).allocated().insert(id),
            old(self).recycled@.len() > 0 ==> id == old(self).recycled@.last()
                && final(self).recycled@ == old(self).recycled@.drop_last()
                && final(self).current == old(self).current,
            old(self).recycled@.len() == 0 ==> id == old(self).current
                && final(self).current == old(self).current + 1
                && final(self).recycled@.len() == 0,
    {
        match self.recycled.pop() {
            Some(id) => {
                proof {
                    let r = old(self).recycled@;
                    assert(r.drop_last() =~= self.recycled@);
                    assert(r[r.len() - 1] == id);
                    assert forall|x: usize| #[trigger] r.drop_last().contains(x) implies x != id by {
                        let k = choose|k: int| 0 <= k < r.drop_last().len() && r.drop_last()[k] == x;
                        assert(r[k] == x);
                    }
                    assert forall|x: usize| r.contains(x) implies #[trigger] self.recycled@.contains(x)
                        || x == id by {
                        let k = choose|k: int| 0 <= k < r.len() && r[k] == x;
                        if k < r.len() - 1 {
                            assert(self.recycled@[k] == x);
                        }
                    }
                    assert forall|x: usize| #[trigger] self.recycled@.contains(x) implies r.contains(x) by {
                        let k = choose|k: int| 0 <= k < self.recycled@.len() && self.recycled@[k] == x;
                        assert(r[k] == x);
                    }
                    assert(r.contains(id));
                    assert(self.allocated() =~= old(self).allocated().insert(id));
                }
                id
            },
            None => {
                self.current = self.current + 1;
                proof {
                    assert(self.allocated() =~= old(self).allocated().insert(
                        (self.current - 1) as usize,
                    ));
                }
                self.current - 1
            },
        }
    }

    /// Releases `id` so that a later `alloc` hands it out again.
    pub fn dealloc_id(&mut self, id: usize)
        requires
            old(self).wf(),
            old(self).allocated().contains(id),
        ensures
            final(self).wf(),
            final(self).current == old(self).current,
            final(self).recycled@ == old(self).recycled@.push(id),
            final(self).allocated() == old(self).allocated().remove(id),
    {
        self.recycled.push(id);
        proof {
            let r = old(self).recycled@;
            assert forall|x: usize| #[trigger] self.recycled@.contains(x) <==> (r.contains(x) || x == id) by {
                if self.recycled@.contains(x) {
                    let k = choose|k: int| 0 <= k < self.recycled@.len() && self.recycled@[k] == x;
                    if k < r.len() {
                        assert(r[k] == x);
                    }
                }
                if r.contains(x) {
                    let k = choose|k: int| 0 <= k < r.len() && r[k] == x;
                    assert(self.recycled@[k] == x);
                }
                if x == id {
                    assert(self.recycled@[r.len() as int] == x);
                }
            }
            assert(self.allocated() =~= old(self).allocated().remove(id));
        }
    }
}

/// Releasing the id that `alloc_id` just handed out gives back the set of
/// handed-out ids from before.
pub proof fn lemma_dealloc_undoes_alloc(
    before: RecycleAllocator,
    allocated: RecycleAllocator,
    released: RecycleAllocator,
    id: usize,
)
    requires
        !before.allocated().contains(id),
        allocated.allocated() == before.allocated().insert(id),
        released.allocated() == allocated.allocated().remove(id),
    ensures
        released.allocated() == before.allocated(),
{
    assert(released.allocated() =~= before.allocated());
}

/// The user context a thread resumes with when it returns to user mode.
#[derive(Clone, Copy, PartialEq, Eq, Debug, Structural)]
pub struct TrapContext {
    /// The stack pointer (register x2).
    pub sp: usize,
    /// The first argument and return-value register (x10).
    pub a0: usize,
    /// The second argument register (x11).
    pub a1: usize,
    /// Where user execution resumes.
    pub sepc: usize,
    /// The page-table token of the kernel's address space.
    pub kernel_satp: usize,
    /// The top of this thread's kernel stack.
    pub kernel_sp: usize,
    /// The address of the kernel's trap handler.
    pub trap_handler: usize,
}

/// The context a program starts with: at `entry` on stack `sp`, with both
/// argument registers zero.
pub open spec fn initial_context(
    entry: usize,
    sp: usize,
    kernel_satp: usize,
    kernel_sp: usize,
    trap_handler: usize,
) -> TrapContext {
    TrapContext { sp, a0: 0, a1: 0, sepc: entry, kernel_satp, kernel_sp, trap_handler }
}

impl TrapContext {
    /// The context a program starts with: at `entry` on stack `sp`, with
    /// both argument registers zero.
    pub fn app_init_context(
        entry: usize,
        sp: usize,
        kernel_satp: usize,
        kernel_sp: usize,
        trap_handler: usize,
    ) -> (cx: TrapContext)
        ensures
            cx == initial_context(entry, sp, kernel_satp, kernel_sp, trap_handler),
    {
        TrapContext { sp, a0: 0, a1: 0, sepc: entry, kernel_satp, kernel_sp, trap_handler }
    }
}

/// A program loaded into a new address space: the address space, where
/// the user stacks start, the top of the first thread's user stack, and
/// the entry point.
pub struct LoadedProgram {
    pub memory_set: MemorySet,
    pub ustack_base: usize,
    pub ustack_top: usize,
    pub entry_point: usize,
}

/// A thread of a process.
#[derive(Clone, Copy, PartialEq, Eq, Debug, Structural)]
pub struct TaskControlBlock {
    pub tid: usize,
    /// The lowest address of the user stacks of this process.
    pub ustack_base: usize,
    /// The scheduling priority; larger runs more often.
    pub priority: isize,
    /// The top of the thread's kernel stack.
    pub kstack_top: usize,
    /// The saved user context.
    pub trap_cx: TrapContext,
}

/// The priority a new thread starts with.
pub const DEFAULT_PRIORITY: isize = 16;

/// Bytes in one machine word.
pub const WORD_SIZE: usize = 8;

/// The bytes of a program argument.
pub open spec fn arg_bytes(s: String) -> Seq<u8> {
    encode_utf8(s@)
}

/// Bytes that the first `n` arguments take on the user stack, each with its
/// terminating zero.
pub open spec fn strings_size(args: Seq<String>, n: int) -> int
    decreases n,
{
    if n <= 0 {
        0
    } else {
        strings_size(args, n - 1) + arg_bytes(args[n - 1]).len() + 1
    }
}

/// Where the argument vector starts: just below the top of the stack,
/// with room for `argc + 1` words.
pub open spec fn spec_argv_base(ustack_top: int, argc: int) -> int {
    ustack_top - (argc + 1) * WORD_SIZE as int
}

/// Where the string of argument `i` starts: the strings lie below the
/// argument vector, the first one highest.
pub open spec fn arg_address(ustack_top: int, args: Seq<String>, i: int) -> int {
    spec_argv_base(ustack_top, args.len() as int) - strings_size(args, i + 1)
}

/// The stack pointer a new program starts with: below the strings,
/// rounded down to a word boundary.
pub open spec fn spec_user_sp(ustack_top: int, args: Seq<String>) -> int {
    let raw = spec_argv_base(ustack_top, args.len() as int) - strings_size(args, args.len() as int);
    raw - raw % WORD_SIZE as int
}

/// Room for the argument vector and all strings below `ustack_top`.
pub open spec fn args_fit(ustack_top: int, args: Seq<String>) -> bool {
    (args.len() + 1) * WORD_SIZE as int + strings_size(args, args.len() as int) <= ustack_top
}

proof fn lemma_strings_size_mono(args: Seq<String>, i: int, j: int)
    requires
        0 <= i <= j,
    ensures
        0 <= strings_size(args, i) <= strings_size(args, j),
    decreases j,
{
    if i < j {
        lemma_strings_size_mono(args, i, j - 1);
    } else if i > 0 {
        lemma_strings_size_mono(args, i - 1, i - 1);
    }
}

/// The strings lie back to back below the argument vector, each with its
/// zero byte, the first directly below the vector; the stack pointer is
/// word-aligned and lies below every string.
pub proof fn lemma_stack_layout(ustack_top: int, args: Seq<String>)
    requires
        args_fit(ustack_top, args),
    ensures
        forall|i: int|
            0 <= i < args.len() ==> #[trigger] arg_address(ustack_top, args, i) + arg_bytes(
                args[i],
            ).len() + 1 == if i == 0 {
                spec_argv_base(ustack_top, args.len() as int)
            } else {
                arg_address(ustack_top, args, i - 1)
            },
        spec_user_sp(ustack_top, args) % WORD_SIZE as int == 0,
        0 <= spec_user_sp(ustack_top, args),
        forall|i: int|
            0 <= i < args.len() ==> spec_user_sp(ustack_top, args) <= #[trigger] arg_address(
                ustack_top,
                args,
                i,
            ),
{
    let n = args.len() as int;
    assert forall|i: int| 0 <= i < n implies spec_user_sp(ustack_top, args) <= #[trigger] arg_address(
        ustack_top,
        args,
        i,
    ) by {
        lemma_strings_size_mono(args, i + 1, n);
    }
    lemma_strings_size_mono(args, 0, n);
}

/// The strings of `args[i..]` as they lie on the user stack, lowest address
/// first: the last argument lowest, each followed by a zero byte.
pub open spec fn stack_strings(args: Seq<String>, i: int) -> Seq<u8>
    decreases args.len() - i,
{
    if i >= args.len() {
        Seq::empty()
    } else {
        stack_strings(args, i + 1) + arg_bytes(args[i]) + seq![0u8]
    }
}

proof fn lemma_stack_strings_len(args: Seq<String>, i: int)
    requires
        0 <= i <= args.len(),
    ensures
        stack_strings(args, i).len() == strings_size(args, args.len() as int) - strings_size(args, i),
    decreases args.len() - i,
{
    if i < args.len() {
        lemma_stack_strings_len(args, i + 1);
    }
}

proof fn lemma_stack_strings_prefix(args: Seq<String>, k: int, j: int)
    requires
        0 <= k <= j <= args.len(),
    ensures
        stack_strings(args, j).len() <= stack_strings(args, k).len(),
        stack_strings(args, k).subrange(0, stack_strings(args, j).len() as int) == stack_strings(
            args,
            j,
        ),
    decreases j - k,
{
    if k < j {
        lemma_stack_strings_prefix(args, k + 1, j);
        let a = stack_strings(args, k + 1);
        let b = stack_strings(args, k);
        assert(b.subrange(0, a.len() as int) =~= a);
        assert(b.subrange(0, stack_strings(args, j).len() as int) =~= a.subrange(
            0,
            stack_strings(args, j).len() as int,
        ));
    } else {
        assert(stack_strings(args, k).subrange(0, stack_strings(args, k).len() as int) =~= stack_strings(
            args,
            k,
        ));
    }
}

/// In the string area that starts `strings_size(args, n)` bytes below the
/// argument vector, argument `i` lies at its address, followed by a zero byte.
pub proof fn lemma_stack_strings_at(args: Seq<String>, i: int)
    requires
        0 <= i < args.len(),
    ensures
        ({
            let all = stack_strings(args, 0);
            let off = strings_size(args, args.len() as int) - strings_size(args, i + 1);
            let len = arg_bytes(args[i]).len() as int;
            &&& all.len() == strings_size(args, args.len() as int)
            &&& 0 <= off
            &&& off + len < all.len()
            &&& all.subrange(off, off + len) == arg_bytes(args[i])
            &&& all[off + len] == 0
        }),
{
    let n = args.len() as int;
    lemma_stack_strings_len(args, 0);
    lemma_stack_strings_len(args, i + 1);
    lemma_stack_strings_len(args, i);
    lemma_strings_size_mono(args, 0, n);
    lemma_stack_strings_prefix(args, 0, i);
    let all = stack_strings(args, 0);
    let si = stack_strings(args, i);
    let off = strings_size(args, n) - strings_size(args, i + 1);
    let len = arg_bytes(args[i]).len() as int;
    assert(si.len() == off + len + 1);
    assert(all.subrange(0, si.len() as int) == si);
    assert(all.subrange(off, off + len) =~= si.subrange(off, off + len));
    assert(si.subrange(off, off + len) =~= arg_bytes(args[i]));
    assert(all[off + len] == all.subrange(0, si.len() as int)[off + len]);
}

/// Whether the argument vector and all strings of `args` fit below `ustack_top`.
pub fn args_fit_stack(ustack_top: usize, args: &Vec<String>) -> (b: bool)
    ensures
        b == args_fit(ustack_top as int, args@),
{
    let n = args.len();
    if n >= ustack_top / WORD_SIZE {
        proof {
            lemma_strings_size_mono(args@, 0, n as int);
        }
        return false;
    }
    let mut need: usize = (n + 1) * WORD_SIZE;
    let mut i: usize = 0;
    while i < n
        invariant
            n == args@.len(),
            i <= n,
            need == (n + 1) * WORD_SIZE as int + strings_size(args@, i as int),
            need <= ustack_top,
        decreases n - i,
    {
        let len = args[i].as_str().as_bytes().len();
        if len >= ustack_top - need {
            proof {
                lemma_strings_size_mono(args@, i + 1, n as int);
            }
            return false;
        }
        proof {
            assert(len == arg_bytes(args@[i as int]).len());
            assert(strings_size(args@, i + 1) == strings_size(args@, i as int) + len + 1);
        }
        need = need + len + 1;
        i = i + 1;
    }
    true
}

/// A process state without signals, synchronisation objects or lock bookkeeping.
pub open spec fn no_sync_state(inner: &ProcessControlBlockInner) -> bool {
    &&& inner.signals == 0
    &&& inner.mutex_list@.len() == 0
    &&& inner.semaphore_list@.len() == 0
    &&& inner.condvar_list@.len() == 0
    &&& !inner.enable_detect_deadlock
    &&& inner.available_mutex@.len() == 0
    &&& inner.available_semaphore@.len() == 0
    &&& inner.need_matrix_for_mutex@ == Map::<usize, BTreeMap<usize, u8>>::empty()
    &&& inner.need_matrix_for_semaphore@ == Map::<usize, BTreeMap<usize, u8>>::empty()
    &&& inner.alloc_matrix_for_mutex@ == Map::<usize, BTreeMap<usize, u8>>::empty()
    &&& inner.alloc_matrix_for_semaphore@ == Map::<usize, BTreeMap<usize, u8>>::empty()
}

/// How a new program's user stack is laid out: the argument vector at
/// `argv_base` holds `argv` (the string addresses, then a zero word), and
/// the bytes `strings` lie from `strings_base` up to the vector, so that
/// the string of argument `i`, followed by a zero byte, lies at `argv[i]`.
pub struct StackImage {
    pub user_sp: usize,
    pub argv_base: usize,
    pub argc: usize,
    pub argv: Vec<usize>,
    pub strings_base: usize,
    pub strings: Vec<u8>,
}

/// The mutable part of a process control block.
pub struct ProcessControlBlockInner {
    /// Whether the process has exited and waits to be reaped by its parent.
    pub is_zombie: bool,
    /// The address space.
    pub memory_set: MemorySet,
    /// The pid of the parent, if any.
    pub parent: Option<usize>,
    /// The child processes, in the order they were created.
    pub children: Vec<ProcessControlBlock>,
    pub exit_code: i32,
    /// Open files, indexed by file descriptor.
    pub fd_table: Vec<Option<FileObject>>,
    /// Pending signal bits.
    pub signals: u32,
    /// Threads, indexed by thread id.
    pub tasks: Vec<Option<TaskControlBlock>>,
    pub task_res_allocator: RecycleAllocator,
    /// Mutex slots; `true` where a mutex lives.
    pub mutex_list: Vec<bool>,
    /// Semaphore slots; `true` where a semaphore lives.
    pub semaphore_list: Vec<bool>,
    /// Condition-variable slots; `true` where one lives.
    pub condvar_list: Vec<bool>,
    /// Whether lock requests are checked for deadlock.
    pub enable_detect_deadlock: bool,
    /// Free units of each mutex.
    pub available_mutex: Vec<u8>,
    /// Free units of each semaphore.
    pub available_semaphore: Vec<u8>,
    /// Units of each mutex that each thread still requests: thread id to lock id to count.
    pub need_matrix_for_mutex: BTreeMap<usize, BTreeMap<usize, u8>>,
    /// Units of each semaphore that each thread still requests.
    pub need_matrix_for_semaphore: BTreeMap<usize, BTreeMap<usize, u8>>,
    /// Units of each mutex that each thread holds.
    pub alloc_matrix_for_mutex: BTreeMap<usize, BTreeMap<usize, u8>>,
    /// Units of each semaphore that each thread holds.
    pub alloc_matrix_for_semaphore: BTreeMap<usize, BTreeMap<usize, u8>>,
}

/// A process.
pub struct ProcessControlBlock {
    pub pid: usize,
    pub inner: ProcessControlBlockInner,
}

/// A part of a process state, as named in frame conditions.
pub enum InnerField {
    IsZombie,
    MemorySet,
    Parent,
    Children,
    ExitCode,
    FdTable,
    Signals,
    Tasks,
    TaskAllocator,
    SyncLists,
    DetectFlag,
    Available,
    Needs,
    Allocs,
}

/// The two process states are equal in every part outside `changed`.
pub open spec fn same_except(
    a: ProcessControlBlockInner,
    b: ProcessControlBlockInner,
    changed: Set<InnerField>,
) -> bool {
    &&& !changed.contains(InnerField::IsZombie) ==> a.is_zombie == b.is_zombie
    &&& !changed.contains(InnerField::MemorySet) ==> a.memory_set == b.memory_set
    &&& !changed.contains(InnerField::Parent) ==> a.parent == b.parent
    &&& !changed.contains(InnerField::Children) ==> a.children == b.children
    &&& !changed.contains(InnerField::ExitCode) ==> a.exit_code == b.exit_code
    &&& !changed.contains(InnerField::FdTable) ==> a.fd_table == b.fd_table
    &&& !changed.contains(InnerField::Signals) ==> a.signals == b.signals
    &&& !changed.contains(InnerField::Tasks) ==> a.tasks == b.tasks
    &&& !changed.contains(InnerField::TaskAllocator) ==> a.task_res_allocator
        == b.task_res_allocator
    &&& !changed.contains(InnerField::SyncLists) ==> {
        &&& a.mutex_list == b.mutex_list
        &&& a.semaphore_list == b.semaphore_list
        &&& a.condvar_list == b.condvar_list
    }
    &&& !changed.contains(InnerField::DetectFlag) ==> a.enable_detect_deadlock
        == b.enable_detect_deadlock
    &&& !changed.contains(InnerField::Available) ==> {
        &&& a.available_mutex == b.available_mutex
        &&& a.available_semaphore == b.available_semaphore
    }
    &&& !changed.contains(InnerField::Needs) ==> {
        &&& a.need_matrix_for_mutex == b.need_matrix_for_mutex
        &&& a.need_matrix_for_semaphore == b.need_matrix_for_semaphore
    }
    &&& !changed.contains(InnerField::Allocs) ==> {
        &&& a.alloc_matrix_for_mutex == b.alloc_matrix_for_mutex
        &&& a.alloc_matrix_for_semaphore == b.alloc_matrix_for_semaphore
    }
}

impl ProcessControlBlockInner {
    /// The page-table token of the address space.
    pub fn get_user_token(&self) -> (t: usize)
        ensures
            t == self.memory_set.token,
    {
        self.memory_set.token()
    }

    /// The lowest free file descriptor; the table grows by one empty slot
    /// when every slot is taken.
    pub fn alloc_fd(&mut self) -> (fd: usize)
        requires
            old(self).fd_table@.len() < usize::MAX,
        ensures
            fd <= old(self).fd_table@.len(),
            fd < final(self).fd_table@.len(),
            final(self).fd_table@[fd as int] is None,
            forall|k: int| 0 <= k < fd ==> #[trigger] old(self).fd_table@[k] is Some,
            fd < old(self).fd_table@.len() ==> final(self).fd_table@ == old(self).fd_table@,
            fd == old(self).fd_table@.len() ==> final(self).fd_table@ == old(self).fd_table@.push(
                None,
            ),
            same_except(*final(self), *old(self), set![InnerField::FdTable]),
    {
        let mut fd: usize = 0;
        while fd < self.fd_table.len()
            invariant
                0 <= fd <= self.fd_table@.len(),
                self.fd_table@ == old(self).fd_table@,
                forall|k: int| 0 <= k < fd ==> #[trigger] self.fd_table@[k] is Some,
            decreases self.fd_table@.len() - fd,
        {
            if self.fd_table[fd].is_none() {
                return fd;
            }
            fd = fd + 1;
        }
        self.fd_table.push(None);
        self.fd_table.len() - 1
    }

    /// Hands out a thread id.
    pub fn alloc_tid(&mut self) -> (tid: usize)
        requires
            old(self).task_res_allocator.wf(),
            old(self).task_res_allocator.recycled@.len() > 0
                || old(self).task_res_allocator.current < usize::MAX,
        ensures
            final(self).task_res_allocator.wf(),
            !old(self).task_res_allocator.allocated().contains(tid),
            final(self).task_res_allocator.allocated() == old(
                self,
            ).task_res_allocator.allocated().insert(tid),
            old(self).task_res_allocator.recycled@.len() > 0 ==> tid == old(
                self,
            ).task_res_allocator.recycled@.last(),
            old(self).task_res_allocator.recycled@.len() == 0 ==> tid == old(
                self,
            ).task_res_allocator.current,
            same_except(*final(self), *old(self), set![InnerField::TaskAllocator]),
    {
        self.task_res_allocator.alloc_id()
    }

    /// Releases a thread id.
    pub fn dealloc_tid(&mut self, tid: usize)
        requires
            old(self).task_res_allocator.wf(),
            old(self).task_res_allocator.allocated().contains(tid),
        ensures
            final(self).task_res_allocator.wf(),
            final(self).task_res_allocator.allocated() == old(
                self,
            ).task_res_allocator.allocated().remove(tid),
            final(self).task_res_allocator.recycled@ == old(
                self,
            ).task_res_allocator.recycled@.push(tid),
            same_except(*final(self), *old(self), set![InnerField::TaskAllocator]),
    {
        self.task_res_allocator.dealloc_id(tid)
    }

    /// The number of thread slots of this process.
    pub fn thread_count(&self) -> (n: usize)
        ensures
            n == self.tasks@.len(),
    {
        self.tasks.len()
    }

    /// The thread with id `tid`.
    pub fn get_task(&self, tid: usize) -> (t: TaskControlBlock)
        requires
            tid < self.tasks@.len(),
            self.tasks@[tid as int] is Some,
        ensures
            self.tasks@[tid as int] == Some(t),
    {
        self.tasks[tid].unwrap()
    }

    /// Turns deadlock checking of lock requests on or off.
    pub fn set_deadlock_detect(&mut self, enabled: bool)
        ensures
            final(self).enable_detect_deadlock == enabled,
            same_except(*final(self), *old(self), set![InnerField::DetectFlag]),
    {
        self.enable_detect_deadlock = enabled;
    }
}

impl ProcessControlBlockInner {
    /// The state of a fresh process: one thread (id 0) whose user stacks
    /// start at `ustack_base`, the given address space and open files, no
    /// children and no synchronisation objects.
    pub fn new(
        memory_set: MemorySet,
        parent: Option<usize>,
        fd_table: Vec<Option<FileObject>>,
        ustack_base: usize,
        kstack_top: usize,
        trap_cx: TrapContext,
    ) -> (inner: ProcessControlBlockInner)
        ensures
            !inner.is_zombie,
            inner.memory_set == memory_set,
            inner.parent == parent,
            inner.children@.len() == 0,
            inner.exit_code == 0,
            inner.fd_table == fd_table,
            inner.signals == 0,
            inner.tasks@ == seq![
                Some(
                    TaskControlBlock {
                        tid: 0,
                        ustack_base,
                        priority: DEFAULT_PRIORITY,
                        kstack_top,
                        trap_cx,
                    },
                ),
            ],
            inner.task_res_allocator.wf(),
            inner.task_res_allocator.allocated() == set![0usize],
            inner.task_res_allocator.current == 1,
            inner.task_res_allocator.recycled@.len() == 0,
            inner.mutex_list@.len() == 0,
            inner.semaphore_list@.len() == 0,
            inner.condvar_list@.len() == 0,
            !inner.enable_detect_deadlock,
            inner.available_mutex@.len() == 0,
            inner.available_semaphore@.len() == 0,
            inner.need_matrix_for_mutex@ == Map::<usize, BTreeMap<usize, u8>>::empty(),
            inner.need_matrix_for_semaphore@ == Map::<usize, BTreeMap<usize, u8>>::empty(),
            inner.alloc_matrix_for_mutex@ == Map::<usize, BTreeMap<usize, u8>>::empty(),
            inner.alloc_matrix_for_semaphore@ == Map::<usize, BTreeMap<usize, u8>>::empty(),
    {
        let mut allocator = RecycleAllocator::new();
        let tid = allocator.alloc_id();
        assert(allocator.allocated() =~= set![0usize]);
        let mut tasks: Vec<Option<TaskControlBlock>> = Vec::new();
        tasks.push(
            Some(TaskControlBlock { tid, ustack_base, priority: DEFAULT_PRIORITY, kstack_top, trap_cx }),
        );
        ProcessControlBlockInner {
            is_zombie: false,
            memory_set,
            parent,
            children: Vec::new(),
            exit_code: 0,
            fd_table,
            signals: 0,
            tasks,
            task_res_allocator: allocator,
            mutex_list: Vec::new(),
            semaphore_list: Vec::new(),
            condvar_list: Vec::new(),
            enable_detect_deadlock: false,
            available_mutex: Vec::new(),
            available_semaphore: Vec::new(),
            need_matrix_for_mutex: BTreeMap::new(),
            need_matrix_for_semaphore: BTreeMap::new(),
            alloc_matrix_for_mutex: BTreeMap::new(),
            alloc_matrix_for_semaphore: BTreeMap::new(),
        }
    }
}

/// A copy of a descriptor table.
fn copy_fd_table(table: &Vec<Option<FileObject>>) -> (copy: Vec<Option<FileObject>>)
    ensures
        copy@ == table@,
{
    let mut copy: Vec<Option<FileObject>> = Vec::new();
    let mut k: usize = 0;
    while k < table.len()
        invariant
            k <= table@.len(),
            copy@ == table@.take(k as int),
        decreases table@.len() - k,
    {
        copy.push(table[k]);
        k = k + 1;
        assert(copy@ =~= table@.take(k as int));
    }
    assert(copy@ =~= table@);
    copy
}

/// `p` is a process just made to run `program`: no children, descriptors
/// 0, 1 and 2 on the console, and one thread (id 0) that starts at the
/// program's entry point on the top of its user stack, on the kernel stack
/// topped at `kstack_top`.
pub open spec fn fresh_process(
    p: ProcessControlBlock,
    program: LoadedProgram,
    kstack_top: usize,
    kernel_satp: usize,
    trap_handler: usize,
) -> bool {
    &&& p.inner.memory_set == program.memory_set
    &&& !p.inner.is_zombie
    &&& p.inner.children@.len() == 0
    &&& p.inner.fd_table@ == seq![
        Some(FileObject::Stdin),
        Some(FileObject::Stdout),
        Some(FileObject::Stdout),
    ]
    &&& p.inner.tasks@ == seq![
        Some(
            TaskControlBlock {
                tid: 0,
                ustack_base: program.ustack_base,
                priority: DEFAULT_PRIORITY,
                kstack_top,
                trap_cx: initial_context(
                    program.entry_point,
                    program.ustack_top,
                    kernel_satp,
                    kstack_top,
                    trap_handler,
                ),
            },
        ),
    ]
    &&& p.inner.exit_code == 0
    &&& p.inner.task_res_allocator.wf()
    &&& p.inner.task_res_allocator.allocated() == set![0usize]
    &&& no_sync_state(&p.inner)
}

/// `after` is the single-threaded process `before` once its program was
/// replaced by `program` with arguments `args`, and `image` is what goes on
/// the new user stack: the argument vector (the string addresses, then a
/// zero word) at `argv_base`, and below it the strings, each followed by a
/// zero byte, the first argument highest.
pub open spec fn exec_outcome(
    before: ProcessControlBlock,
    after: ProcessControlBlock,
    program: LoadedProgram,
    kernel_satp: usize,
    trap_handler: usize,
    args: Seq<String>,
    image: StackImage,
) -> bool {
    let top = program.ustack_top as int;
    let t = before.inner.tasks@[0]->0;
    &&& after.pid == before.pid
    &&& after.inner.memory_set == program.memory_set
    &&& after.inner.tasks@ == seq![
        Some(
            TaskControlBlock {
                tid: t.tid,
                ustack_base: program.ustack_base,
                priority: t.priority,
                kstack_top: t.kstack_top,
                trap_cx: TrapContext {
                    sp: image.user_sp,
                    a0: image.argc,
                    a1: image.argv_base,
                    sepc: program.entry_point,
                    kernel_satp,
                    kernel_sp: t.kstack_top,
                    trap_handler,
                },
            },
        ),
    ]
    &&& same_except(after.inner, before.inner, set![InnerField::MemorySet, InnerField::Tasks])
    &&& image.argc == args.len()
    &&& image.argv_base == spec_argv_base(top, args.len() as int)
    &&& image.user_sp == spec_user_sp(top, args)
    &&& image.argv@.len() == args.len() + 1
    &&& image.argv@[args.len() as int] == 0
    &&& forall|i: int| 0 <= i < args.len() ==> #[trigger] image.argv@[i] == arg_address(top, args, i)
    &&& image.strings_base == image.argv_base - strings_size(args, args.len() as int)
    &&& image.strings@ == stack_strings(args, 0)
    &&& forall|i: int|
        0 <= i < args.len() ==> {
            let off = #[trigger] arg_address(top, args, i) - image.strings_base;
            let len = arg_bytes(args[i]).len() as int;
            &&& 0 <= off
            &&& off + len < image.strings@.len()
            &&& image.strings@.subrange(off, off + len) == arg_bytes(args[i])
            &&& image.strings@[off + len] == 0
        }
}

/// The bytes of all arguments as they lie on the user stack, lowest
/// address first: the last argument lowest, each followed by a zero byte.
pub fn stack_string_bytes(args: &Vec<String>) -> (bytes: Vec<u8>)
    ensures
        bytes@ == stack_strings(args@, 0),
{
    let mut bytes: Vec<u8> = Vec::new();
    let mut j: usize = args.len();
    while j > 0
        invariant
            j <= args@.len(),
            bytes@ == stack_strings(args@, j as int),
        decreases j,
    {
        j = j - 1;
        let arg = args[j].as_str().as_bytes();
        let ghost before = bytes@;
        let mut q: usize = 0;
        while q < arg.len()
            invariant
                q <= arg@.len(),
                bytes@ == before + arg@.take(q as int),
            decreases arg@.len() - q,
        {
            bytes.push(arg[q]);
            q = q + 1;
            assert(bytes@ =~= before + arg@.take(q as int));
        }
        bytes.push(0);
        assert(arg@.take(arg@.len() as int) =~= arg@);
        assert(bytes@ =~= stack_strings(args@, j as int));
    }
    bytes
}

impl ProcessControlBlock {
    /// A new process running `program`, with a fresh pid from `manager` and
    /// no parent, whose descriptors 0, 1 and 2 are the console's input,
    /// output and error output.  Its one thread starts at the program's
    /// entry point on the top of its user stack, on the kernel stack topped
    /// at `kstack_top`, and is queued to run.
    pub fn new(
        manager: &mut TaskManager,
        program: LoadedProgram,
        kstack_top: usize,
        kernel_satp: usize,
        trap_handler: usize,
    ) -> (p: ProcessControlBlock)
        requires
            old(manager).wf(),
            old(manager).can_alloc_pid(),
        ensures
            final(manager).wf(),
            !old(manager).pids.allocated().contains(p.pid),
            final(manager).pids.allocated() == old(manager).pids.allocated().insert(p.pid),
            final(manager).ready_queue@ == old(manager).ready_queue@.push((p.pid, 0usize)),
            p.inner.parent is None,
            fresh_process(p, program, kstack_top, kernel_satp, trap_handler),
    {
        let LoadedProgram { memory_set, ustack_base, ustack_top, entry_point } = program;
        let pid = manager.pid_alloc();
        let mut fd_table: Vec<Option<FileObject>> = Vec::new();
        fd_table.push(Some(FileObject::Stdin));
        fd_table.push(Some(FileObject::Stdout));
        fd_table.push(Some(FileObject::Stdout));
        let trap_cx = TrapContext::app_init_context(
            entry_point,
            ustack_top,
            kernel_satp,
            kstack_top,
            trap_handler,
        );
        let inner = ProcessControlBlockInner::new(
            memory_set,
            None,
            fd_table,
            ustack_base,
            kstack_top,
            trap_cx,
        );
        manager.add_task(pid, 0);
        let p = ProcessControlBlock { pid, inner };
        proof {
            assert(p.inner.memory_set == program.memory_set);
            assert(p.inner.fd_table@ =~= seq![
                Some(FileObject::Stdin),
                Some(FileObject::Stdout),
                Some(FileObject::Stdout),
            ]);
            assert(no_sync_state(&p.inner));
        }
        p
    }

    /// Creates a child as a copy of this single-threaded process, with a
    /// fresh pid from `manager`: the same address space content (selected
    /// by `child_token`) and the same open files, one thread with the
    /// parent's user stacks and user context, running on the kernel stack
    /// topped at `child_kstack_top`, no children.  The child is appended to
    /// the children, its thread is queued to run, and its pid is returned.
    pub fn fork(&mut self, manager: &mut TaskManager, child_token: usize, child_kstack_top: usize) -> (pid:
        usize)
        requires
            old(self).inner.tasks@.len() == 1,
            old(self).inner.tasks@[0] is Some,
            old(manager).wf(),
            old(manager).can_alloc_pid(),
        ensures
            final(manager).wf(),
            !old(manager).pids.allocated().contains(pid),
            final(manager).pids.allocated() == old(manager).pids.allocated().insert(pid),
            final(manager).ready_queue@ == old(manager).ready_queue@.push((pid, 0usize)),
            final(self).pid == old(self).pid,
            final(self).inner.children@.len() == old(self).inner.children@.len() + 1,
            final(self).inner.children@.drop_last() == old(self).inner.children@,
            ({
                let c = final(self).inner.children@.last();
                let t = old(self).inner.tasks@[0]->0;
                &&& c.pid == pid
                &&& c.inner.parent == Some(old(self).pid)
                &&& !c.inner.is_zombie
                &&& c.inner.exit_code == 0
                &&& c.inner.children@.len() == 0
                &&& c.inner.fd_table@ == old(self).inner.fd_table@
                &&& c.inner.memory_set.token == child_token
                &&& c.inner.memory_set.areas@ == old(self).inner.memory_set.areas@
                &&& c.inner.tasks@ == seq![
                    Some(
                        TaskControlBlock {
                            tid: 0,
                            ustack_base: t.ustack_base,
                            priority: DEFAULT_PRIORITY,
                            kstack_top: child_kstack_top,
                            trap_cx: TrapContext { kernel_sp: child_kstack_top, ..t.trap_cx },
                        },
                    ),
                ]
                &&& c.inner.task_res_allocator.wf()
                &&& c.inner.task_res_allocator.allocated() == set![0usize]
                &&& no_sync_state(&c.inner)
            }),
            same_except(final(self).inner, old(self).inner, set![InnerField::Children]),
    {
        let memory_set = MemorySet::from_existed_user(&self.inner.memory_set, child_token);
        let child_pid = manager.pid_alloc();
        let fd_table = copy_fd_table(&self.inner.fd_table);
        let task = self.inner.get_task(0);
        let trap_cx = TrapContext { kernel_sp: child_kstack_top, ..task.trap_cx };
        let inner = ProcessControlBlockInner::new(
            memory_set,
            Some(self.pid),
            fd_table,
            task.ustack_base,
            child_kstack_top,
            trap_cx,
        );
        let child = ProcessControlBlock { pid: child_pid, inner };
        self.inner.children.push(child);
        proof {
            assert(self.inner.children@.drop_last() =~= old(self).inner.children@);
        }
        manager.add_task(child_pid, 0);
        child_pid
    }

    /// Replaces the program of this single-threaded process with `program`:
    /// the address space becomes the program's, the thread's user stacks
    /// start at its stack base, the arguments are laid out below the top of
    /// its user stack, and the thread resumes at its entry point with the
    /// stack pointer below the arguments, the argument count in `a0` and the
    /// argument vector in `a1`.  The returned image holds what goes on the
    /// new user stack.
    pub fn exec(
        &mut self,
        program: LoadedProgram,
        kernel_satp: usize,
        trap_handler: usize,
        args: &Vec<String>,
    ) -> (image: StackImage)
        requires
            old(self).inner.tasks@.len() == 1,
            old(self).inner.tasks@[0] is Some,
            args_fit(program.ustack_top as int, args@),
        ensures
            exec_outcome(*old(self), *final(self), program, kernel_satp, trap_handler, args@, image),
    {
        let LoadedProgram { memory_set, ustack_base, ustack_top, entry_point } = program;
        proof {
            lemma_strings_size_mono(args@, 0, args@.len() as int);
        }
        let argc = args.len();
        let mut user_sp = ustack_top - (argc + 1) * WORD_SIZE;
        let argv_base = user_sp;
        let mut argv: Vec<usize> = Vec::new();
        let mut i: usize = 0;
        while i < argc
            invariant
                argc == args@.len(),
                i <= argc,
                args_fit(ustack_top as int, args@),
                argv_base == spec_argv_base(ustack_top as int, argc as int),
                user_sp == argv_base - strings_size(args@, i as int),
                argv@.len() == i,
                forall|k: int|
                    0 <= k < i ==> #[trigger] argv@[k] == arg_address(ustack_top as int, args@, k),
            decreases argc - i,
        {
            proof {
                lemma_strings_size_mono(args@, i + 1, argc as int);
                lemma_strings_size_mono(args@, 0, i as int);
            }
            let len = args[i].as_str().len();
            user_sp = user_sp - (len + 1);
            argv.push(user_sp);
            i = i + 1;
        }
        argv.push(0);
        let strings_base = user_sp;
        let strings = stack_string_bytes(args);
        user_sp = user_sp - user_sp % WORD_SIZE;
        self.inner.memory_set = memory_set;
        let task = self.inner.get_task(0);
        let mut trap_cx = TrapContext::app_init_context(
            entry_point,
            user_sp,
            kernel_satp,
            task.kstack_top,
            trap_handler,
        );
        trap_cx.a0 = argc;
        trap_cx.a1 = argv_base;
        self.inner.tasks.set(
            0,
            Some(
                TaskControlBlock {
                    tid: task.tid,
                    ustack_base,
                    priority: task.priority,
                    kstack_top: task.kstack_top,
                    trap_cx,
                },
            ),
        );
        let image = StackImage { user_sp, argv_base, argc, argv, strings_base, strings };
        proof {
            assert(self.inner.tasks@ =~= seq![
                Some(
                    TaskControlBlock {
                        tid: task.tid,
                        ustack_base,
                        priority: task.priority,
                        kstack_top: task.kstack_top,
                        trap_cx,
                    },
                ),
            ]);
            assert forall|i: int| 0 <= i < args@.len() implies {
                let off = #[trigger] arg_address(ustack_top as int, args@, i) - strings_base;
                let len = arg_bytes(args@[i]).len() as int;
                &&& 0 <= off
                &&& off + len < image.strings@.len()
                &&& image.strings@.subrange(off, off + len) == arg_bytes(args@[i])
                &&& image.strings@[off + len] == 0
            } by {
                lemma_stack_strings_at(args@, i);
            }
        }
        image
    }

    /// Exclusive access to the mutable part of the process.
    pub fn inner_exclusive_access(&mut self) -> (inner: &mut ProcessControlBlockInner)
        ensures
            *inner == old(self).inner,
            final(self).pid == old(self).pid,
            final(self).inner == *final(inner),
    {
        &mut self.inner
    }

    /// The process id.
    pub fn getpid(&self) -> (pid: usize)
        ensures
            pid == self.pid,
    {
        self.pid
    }

    /// Turns deadlock checking of lock requests on or off.
    pub fn set_deadlock_detect(&mut self, enabled: bool)
        ensures
            final(self).inner.enable_detect_deadlock == enabled,
            final(self).pid == old(self).pid,
            same_except(final(self).inner, old(self).inner, set![InnerField::DetectFlag]),
    {
        let inner = self.inner_exclusive_access();
        inner.set_deadlock_detect(enabled);
    }
}

} // verus!
