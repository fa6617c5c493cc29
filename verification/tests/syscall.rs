use rcore_os::syscall::{
    syscall, SyscallRequest, SyscallTracer, SYSCALL_EXIT, SYSCALL_GET_TIME, SYSCALL_TRACE,
    SYSCALL_WRITE, SYSCALL_YIELD,
};

#[test]
fn fresh_tracer_counts_nothing() {
    let tracer = SyscallTracer::new();
    assert_eq!(tracer.query(64), 0);
    assert_eq!(tracer.query(0), 0);
}

#[test]
fn add_counts_each_id_separately() {
    let mut tracer = SyscallTracer::new();
    tracer.add(64);
    tracer.add(93);
    tracer.add(64);
    tracer.add(64);
    assert_eq!(tracer.query(64), 3);
    assert_eq!(tracer.query(93), 1);
    assert_eq!(tracer.query(124), 0);
}

#[test]
fn syscall_records_and_decodes() {
    let mut tracer = SyscallTracer::new();
    assert_eq!(
        syscall(&mut tracer, SYSCALL_WRITE, [1, 0x1000, 12]),
        SyscallRequest::Write { fd: 1, buf: 0x1000, len: 12 }
    );
    assert_eq!(syscall(&mut tracer, SYSCALL_YIELD, [0, 0, 0]), SyscallRequest::Yield);
    assert_eq!(
        syscall(&mut tracer, SYSCALL_GET_TIME, [0x2000, 0, 0]),
        SyscallRequest::GetTime { ts: 0x2000, tz: 0 }
    );
    assert_eq!(
        syscall(&mut tracer, SYSCALL_TRACE, [2, 64, 0]),
        SyscallRequest::Trace { trace_request: 2, id: 64, data: 0 }
    );
    assert_eq!(syscall(&mut tracer, SYSCALL_WRITE, [1, 0, 0]), SyscallRequest::Write { fd: 1, buf: 0, len: 0 });
    assert_eq!(tracer.query(SYSCALL_WRITE), 2);
    assert_eq!(tracer.query(SYSCALL_YIELD), 1);
    assert_eq!(tracer.query(SYSCALL_TRACE), 1);
    assert_eq!(tracer.query(SYSCALL_EXIT), 0);
}

#[test]
fn exit_code_is_low_32_bits_as_signed() {
    let mut tracer = SyscallTracer::new();
    assert_eq!(syscall(&mut tracer, SYSCALL_EXIT, [3, 0, 0]), SyscallRequest::Exit { exit_code: 3 });
    assert_eq!(
        syscall(&mut tracer, SYSCALL_EXIT, [usize::MAX, 0, 0]),
        SyscallRequest::Exit { exit_code: -1 }
    );
    assert_eq!(tracer.query(SYSCALL_EXIT), 2);
}
