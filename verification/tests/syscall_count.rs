use os::syscall::{
    syscall, SyscallCount, SyscallRequest, SYSCALL_EXIT, SYSCALL_GET_TIME, SYSCALL_MMAP,
    SYSCALL_MUNMAP, SYSCALL_SBRK, SYSCALL_TRACE, SYSCALL_WRITE, SYSCALL_YIELD,
};

const ALL: [usize; 8] = [
    SYSCALL_WRITE,
    SYSCALL_EXIT,
    SYSCALL_YIELD,
    SYSCALL_GET_TIME,
    SYSCALL_SBRK,
    SYSCALL_MUNMAP,
    SYSCALL_MMAP,
    SYSCALL_TRACE,
];

#[test]
fn fresh_counts_are_zero() {
    let counts = SyscallCount::default();
    for id in ALL {
        assert_eq!(counts.get(id), 0);
    }
}

#[test]
fn syscall_numbers_are_the_abi_numbers() {
    assert_eq!(ALL, [64, 93, 124, 169, 214, 215, 222, 410]);
}

#[test]
fn increase_counts_only_that_syscall() {
    let mut counts = SyscallCount::default();
    counts.increase(SYSCALL_MMAP);
    counts.increase(SYSCALL_MMAP);
    counts.increase(SYSCALL_WRITE);
    assert_eq!(counts.get(SYSCALL_MMAP), 2);
    assert_eq!(counts.get(SYSCALL_WRITE), 1);
    for id in [SYSCALL_EXIT, SYSCALL_YIELD, SYSCALL_GET_TIME, SYSCALL_SBRK, SYSCALL_MUNMAP, SYSCALL_TRACE] {
        assert_eq!(counts.get(id), 0);
    }
}

#[test]
fn each_supported_syscall_has_its_own_counter() {
    let mut counts = SyscallCount::default();
    for (k, id) in ALL.iter().enumerate() {
        for _ in 0..=k {
            counts.increase(*id);
        }
    }
    for (k, id) in ALL.iter().enumerate() {
        assert_eq!(counts.get(*id), k as isize + 1);
    }
}

#[test]
fn unsupported_syscall_reads_minus_one_and_is_not_counted() {
    let mut counts = SyscallCount::default();
    counts.increase(63);
    counts.increase(0);
    assert_eq!(counts.get(63), -1);
    assert_eq!(counts.get(0), -1);
    assert_eq!(counts.get(usize::MAX), -1);
    for id in ALL {
        assert_eq!(counts.get(id), 0);
    }
}

#[test]
fn syscall_counts_the_call() {
    let mut counts = SyscallCount::default();
    syscall(&mut counts, SYSCALL_YIELD, [0, 0, 0]);
    syscall(&mut counts, SYSCALL_YIELD, [0, 0, 0]);
    syscall(&mut counts, SYSCALL_SBRK, [4096, 0, 0]);
    assert_eq!(counts.get(SYSCALL_YIELD), 2);
    assert_eq!(counts.get(SYSCALL_SBRK), 1);
    assert_eq!(counts.get(SYSCALL_WRITE), 0);
}

#[test]
fn syscall_decodes_each_number() {
    let mut counts = SyscallCount::default();
    let args = [1, 2, 3];
    assert_eq!(syscall(&mut counts, SYSCALL_WRITE, args), SyscallRequest::Write { fd: 1, buf: 2, len: 3 });
    assert_eq!(syscall(&mut counts, SYSCALL_EXIT, args), SyscallRequest::Exit { exit_code: 1 });
    assert_eq!(syscall(&mut counts, SYSCALL_YIELD, args), SyscallRequest::Yield);
    assert_eq!(syscall(&mut counts, SYSCALL_GET_TIME, args), SyscallRequest::GetTime { ts: 1, tz: 2 });
    assert_eq!(
        syscall(&mut counts, SYSCALL_TRACE, args),
        SyscallRequest::Trace { arg0: 1, arg1: 2, arg2: 3 }
    );
    assert_eq!(
        syscall(&mut counts, SYSCALL_MMAP, args),
        SyscallRequest::Mmap { start: 1, len: 2, prot: 3 }
    );
    assert_eq!(syscall(&mut counts, SYSCALL_MUNMAP, args), SyscallRequest::Munmap { start: 1, len: 2 });
    assert_eq!(syscall(&mut counts, SYSCALL_SBRK, args), SyscallRequest::Sbrk { size: 1 });
    for id in ALL {
        assert_eq!(counts.get(id), 1);
    }
}

#[test]
fn syscall_takes_the_low_32_bits_of_an_int_argument() {
    let mut counts = SyscallCount::default();
    assert_eq!(
        syscall(&mut counts, SYSCALL_EXIT, [0x1_0000_0005, 0, 0]),
        SyscallRequest::Exit { exit_code: 5 }
    );
    assert_eq!(
        syscall(&mut counts, SYSCALL_EXIT, [usize::MAX, 0, 0]),
        SyscallRequest::Exit { exit_code: -1 }
    );
    assert_eq!(
        syscall(&mut counts, SYSCALL_SBRK, [(-4096i64) as usize, 0, 0]),
        SyscallRequest::Sbrk { size: -4096 }
    );
}

#[test]
fn count_equals_number_of_calls() {
    let calls = [SYSCALL_MMAP, SYSCALL_WRITE, 7, SYSCALL_MMAP, SYSCALL_TRACE, SYSCALL_MMAP, 500];
    let mut counts = SyscallCount::default();
    for id in calls {
        counts.increase(id);
    }
    for id in ALL {
        let n = calls.iter().filter(|c| **c == id).count() as isize;
        assert_eq!(counts.get(id), n);
    }
    assert_eq!(counts.get(7), -1);
    assert_eq!(counts.get(500), -1);
}
