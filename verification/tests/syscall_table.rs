use rcore_os::syscall_table::{
    get_syscall_id_index, syscall, SyscallRequest, SyscallTimes, SYSCALL_EXIT, SYSCALL_GET_TIME, SYSCALL_ID_LIST,
    SYSCALL_TRACE, SYSCALL_WRITE, SYSCALL_YIELD,
};

#[test]
fn index_of_each_served_call() {
    for (i, id) in SYSCALL_ID_LIST.iter().enumerate() {
        assert_eq!(get_syscall_id_index(*id), Some(i));
    }
    assert_eq!(get_syscall_id_index(64), Some(0));
    assert_eq!(get_syscall_id_index(410), Some(4));
}

#[test]
fn index_of_unserved_calls_is_none() {
    for id in [0usize, 1, 63, 65, 100, 125, 168, 170, 409, 411, usize::MAX] {
        assert_eq!(get_syscall_id_index(id), None);
    }
}

#[test]
fn decode_each_request() {
    let mut c = SyscallTimes::new();
    assert_eq!(
        syscall(&mut c, SYSCALL_WRITE, [1, 0x1000, 12]),
        SyscallRequest::Write { fd: 1, buf: 0x1000, len: 12 }
    );
    assert_eq!(syscall(&mut c, SYSCALL_EXIT, [3, 0, 0]), SyscallRequest::Exit { exit_code: 3 });
    assert_eq!(
        syscall(&mut c, SYSCALL_EXIT, [usize::MAX, 0, 0]),
        SyscallRequest::Exit { exit_code: -1 }
    );
    assert_eq!(syscall(&mut c, SYSCALL_YIELD, [9, 9, 9]), SyscallRequest::Yield);
    assert_eq!(
        syscall(&mut c, SYSCALL_GET_TIME, [0x2000, 0, 7]),
        SyscallRequest::GetTime { ts: 0x2000, tz: 0 }
    );
    assert_eq!(
        syscall(&mut c, SYSCALL_TRACE, [1, 2, 3]),
        SyscallRequest::Trace { request: 1, id: 2, data: 3 }
    );
}

#[test]
fn calls_are_counted() {
    let mut c = SyscallTimes::new();
    assert_eq!(c.times, vec![0, 0, 0, 0, 0]);
    syscall(&mut c, SYSCALL_YIELD, [0, 0, 0]);
    syscall(&mut c, SYSCALL_YIELD, [0, 0, 0]);
    syscall(&mut c, SYSCALL_WRITE, [1, 0, 0]);
    assert_eq!(c.times, vec![1, 0, 2, 0, 0]);
    rcore_os::syscall_table::add_syscall_times_once(&mut c, 7);
    assert_eq!(c.times, vec![1, 0, 2, 0, 0]);
    c.times[4] = u32::MAX;
    rcore_os::syscall_table::add_syscall_times_once(&mut c, SYSCALL_TRACE);
    assert_eq!(c.times[4], u32::MAX);
}
