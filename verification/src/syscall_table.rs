//! The system-call numbers this kernel serves, and the decoding of a trap
//! into one request.
use vstd::prelude::*;

verus! {

/// write syscall
pub const SYSCALL_WRITE: usize = 64;
/// exit syscall
pub const SYSCALL_EXIT: usize = 93;
/// yield syscall
pub const SYSCALL_YIELD: usize = 124;
/// gettime syscall
pub const SYSCALL_GET_TIME: usize = 169;
/// trace syscall
pub const SYSCALL_TRACE: usize = 410;
/// Number of served system calls.
pub const SYSCALL_COUNT: usize = 5;
/// The served system-call numbers, in increasing order.
pub const SYSCALL_ID_LIST: [usize; 5] = [64, 93, 124, 169, 410];

/// The served system-call numbers, in increasing order.
pub open spec fn syscall_ids() -> Seq<usize> {
    seq![SYSCALL_WRITE, SYSCALL_EXIT, SYSCALL_YIELD, SYSCALL_GET_TIME, SYSCALL_TRACE]
}

/// Whether `id` is a served system call.
pub open spec fn is_supported_syscall(id: usize) -> bool {
    syscall_ids().contains(id)
}

/// The position of `syscall_id` in the list of served system calls, found
/// by binary search; `None` when it is not served.
pub fn get_syscall_id_index(syscall_id: usize) -> (r: Option<usize>)
    ensures
        match r {
            Some(i) => i < SYSCALL_COUNT && syscall_ids()[i as int] == syscall_id,
            None => !is_supported_syscall(syscall_id),
        },
{
    let list = SYSCALL_ID_LIST;
    assert(list@ == syscall_ids());
    let mut left: usize = 0;
    let mut right: usize = SYSCALL_COUNT;
    while left < right
        invariant
            left <= right <= SYSCALL_COUNT,
            list@ == syscall_ids(),
            forall|k: int| 0 <= k < left ==> #[trigger] list@[k] < syscall_id,
            forall|k: int| right <= k < SYSCALL_COUNT ==> #[trigger] list@[k] > syscall_id,
        decreases right - left,
    {
        let mid = left + (right - left) / 2;
        if list[mid] > syscall_id {
            right = mid;
        } else if list[mid] == syscall_id {
            return Some(mid);
        } else {
            left = mid + 1;
        }
    }
    proof {
        assert forall|k: int| 0 <= k < syscall_ids().len() implies syscall_ids()[k] != syscall_id by {
            assert(list@[k] == syscall_ids()[k]);
        }
    }
    None
}

/// How often each served system call has been made, by its position in the list.
pub struct SyscallTimes {
    pub times: Vec<u32>,
}

impl SyscallTimes {
    /// No call made yet.
    pub fn new() -> (t: SyscallTimes)
        ensures
            t.times@ == seq![0u32, 0u32, 0u32, 0u32, 0u32],
    {
        let mut times: Vec<u32> = Vec::new();
        times.push(0);
        times.push(0);
        times.push(0);
        times.push(0);
        times.push(0);
        assert(times@ =~= seq![0u32, 0u32, 0u32, 0u32, 0u32]);
        SyscallTimes { times }
    }
}

/// Counts one more call of `syscall_id`, if it is served; a count that has
/// reached `u32::MAX` stays there.
pub fn add_syscall_times_once(counter: &mut SyscallTimes, syscall_id: usize)
    requires
        old(counter).times@.len() == SYSCALL_COUNT,
    ensures
        final(counter).times@.len() == SYSCALL_COUNT,
        !is_supported_syscall(syscall_id) ==> final(counter).times@ == old(counter).times@,
        forall|i: int|
            0 <= i < SYSCALL_COUNT && syscall_ids()[i] == syscall_id ==> final(counter).times@ == old(
                counter,
            ).times@.update(i, old(counter).times@[i].saturating_add(1)),
{
    match get_syscall_id_index(syscall_id) {
        Some(i) => {
            let t = counter.times[i];
            counter.times.set(i, t.saturating_add(1));
            proof {
                assert forall|j: int|
                    0 <= j < SYSCALL_COUNT && syscall_ids()[j] == syscall_id implies j == i by {
                    if j != i {
                        assert(syscall_ids()[j] != syscall_ids()[i as int]);
                    }
                }
            }
        },
        None => {},
    }
}

/// One decoded system-call request.
#[derive(Clone, Copy, PartialEq, Eq, Debug, Structural)]
pub enum SyscallRequest {
    Write { fd: usize, buf: usize, len: usize },
    Exit { exit_code: i32 },
    Yield,
    GetTime { ts: usize, tz: usize },
    Trace { request: usize, id: usize, data: usize },
}

/// Counts system call `syscall_id` and decodes it with its three arguments.
pub fn syscall(counter: &mut SyscallTimes, syscall_id: usize, args: [usize; 3]) -> (req: SyscallRequest)
    requires
        is_supported_syscall(syscall_id),
        old(counter).times@.len() == SYSCALL_COUNT,
    ensures
        final(counter).times@.len() == SYSCALL_COUNT,
        forall|i: int|
            0 <= i < SYSCALL_COUNT && syscall_ids()[i] == syscall_id ==> final(counter).times@ == old(
                counter,
            ).times@.update(i, old(counter).times@[i].saturating_add(1)),
        syscall_id == SYSCALL_WRITE ==> req == (SyscallRequest::Write {
            fd: args@[0],
            buf: args@[1],
            len: args@[2],
        }),
        syscall_id == SYSCALL_EXIT ==> req == (SyscallRequest::Exit { exit_code: args@[0] as i32 }),
        syscall_id == SYSCALL_YIELD ==> req == SyscallRequest::Yield,
        syscall_id == SYSCALL_GET_TIME ==> req == (SyscallRequest::GetTime {
            ts: args@[0],
            tz: args@[1],
        }),
        syscall_id == SYSCALL_TRACE ==> req == (SyscallRequest::Trace {
            request: args@[0],
            id: args@[1],
            data: args@[2],
        }),
{
    add_syscall_times_once(counter, syscall_id);
    if syscall_id == SYSCALL_WRITE {
        SyscallRequest::Write { fd: args[0], buf: args[1], len: args[2] }
    } else if syscall_id == SYSCALL_EXIT {
        SyscallRequest::Exit { exit_code: args[0] as i32 }
    } else if syscall_id == SYSCALL_YIELD {
        SyscallRequest::Yield
    } else if syscall_id == SYSCALL_GET_TIME {
        SyscallRequest::GetTime { ts: args[0], tz: args[1] }
    } else {
        assert(syscall_ids()[4] == SYSCALL_TRACE);
        SyscallRequest::Trace { request: args[0], id: args[1], data: args[2] }
    }
}

} // verus!
