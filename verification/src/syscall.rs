//! Syscall numbers, per-task syscall accounting, and the decoding step of
//! the single syscall entry point.
use vstd::prelude::*;

verus! {

/// write syscall
pub const SYSCALL_WRITE: usize = 64;

/// exit syscall
pub const SYSCALL_EXIT: usize = 93;

/// yield syscall
pub const SYSCALL_YIELD: usize = 124;

/// gettime syscall
pub const SYSCALL_GET_TIME: usize = 169;

/// sbrk syscall
pub const SYSCALL_SBRK: usize = 214;

/// munmap syscall
pub const SYSCALL_MUNMAP: usize = 215;

/// mmap syscall
pub const SYSCALL_MMAP: usize = 222;

/// trace syscall
pub const SYSCALL_TRACE: usize = 410;

/// The syscall numbers that the kernel counts and dispatches.
pub open spec fn is_supported_syscall(syscall_id: usize) -> bool {
    ||| syscall_id == SYSCALL_WRITE
    ||| syscall_id == SYSCALL_EXIT
    ||| syscall_id == SYSCALL_YIELD
    ||| syscall_id == SYSCALL_GET_TIME
    ||| syscall_id == SYSCALL_SBRK
    ||| syscall_id == SYSCALL_MUNMAP
    ||| syscall_id == SYSCALL_MMAP
    ||| syscall_id == SYSCALL_TRACE
}

/// Record task's syscall count
#[derive(Clone, Copy)]
pub struct SyscallCount {
    write: isize,
    exit: isize,
    yield_: isize,
    get_time: isize,
    sbrk: isize,
    munmap: isize,
    mmap: isize,
    trace: isize,
}

impl SyscallCount {
    /// Counts only ever start at zero and grow, so none is negative.
    #[verifier::type_invariant]
    spec fn counts_nonnegative(self) -> bool {
        &&& self.write >= 0
        &&& self.exit >= 0
        &&& self.yield_ >= 0
        &&& self.get_time >= 0
        &&& self.sbrk >= 0
        &&& self.munmap >= 0
        &&& self.mmap >= 0
        &&& self.trace >= 0
    }

    /// What `get` reports for `syscall_id`: the number of calls recorded
    /// for a supported syscall, and -1 for any other number.
    pub closed spec fn count_of(self, syscall_id: usize) -> int {
        if syscall_id == SYSCALL_WRITE {
            self.write as int
        } else if syscall_id == SYSCALL_EXIT {
            self.exit as int
        } else if syscall_id == SYSCALL_YIELD {
            self.yield_ as int
        } else if syscall_id == SYSCALL_GET_TIME {
            self.get_time as int
        } else if syscall_id == SYSCALL_SBRK {
            self.sbrk as int
        } else if syscall_id == SYSCALL_MUNMAP {
            self.munmap as int
        } else if syscall_id == SYSCALL_MMAP {
            self.mmap as int
        } else if syscall_id == SYSCALL_TRACE {
            self.trace as int
        } else {
            -1
        }
    }

    /// increase syscall counts
    pub fn increase(&mut self, syscall_id: usize)
        requires
            is_supported_syscall(syscall_id) ==> old(self).count_of(syscall_id) < isize::MAX,
        ensures
            is_supported_syscall(syscall_id) ==> final(self).count_of(syscall_id) == old(
                self,
            ).count_of(syscall_id) + 1,
            forall|other: usize|
                other != syscall_id ==> #[trigger] final(self).count_of(other) == old(
                    self,
                ).count_of(other),
            !is_supported_syscall(syscall_id) ==> *final(self) == *old(self),
            *final(self) == old(self).increased(syscall_id),
    {
        proof {
            use_type_invariant(&*self);
        }
        if syscall_id == SYSCALL_WRITE {
            self.write = self.write + 1;
        } else if syscall_id == SYSCALL_EXIT {
            self.exit = self.exit + 1;
        } else if syscall_id == SYSCALL_YIELD {
            self.yield_ = self.yield_ + 1;
        } else if syscall_id == SYSCALL_GET_TIME {
            self.get_time = self.get_time + 1;
        } else if syscall_id == SYSCALL_SBRK {
            self.sbrk = self.sbrk + 1;
        } else if syscall_id == SYSCALL_MUNMAP {
            self.munmap = self.munmap + 1;
        } else if syscall_id == SYSCALL_MMAP {
            self.mmap = self.mmap + 1;
        } else if syscall_id == SYSCALL_TRACE {
            self.trace = self.trace + 1;
        }
    }

    /// get syscall counts
    pub fn get(&self, syscall_id: usize) -> (count: isize)
        ensures
            count == self.count_of(syscall_id),
            is_supported_syscall(syscall_id) ==> count >= 0,
            !is_supported_syscall(syscall_id) ==> count == -1,
    {
        proof {
            use_type_invariant(self);
        }
        if syscall_id == SYSCALL_WRITE {
            self.write
        } else if syscall_id == SYSCALL_EXIT {
            self.exit
        } else if syscall_id == SYSCALL_YIELD {
            self.yield_
        } else if syscall_id == SYSCALL_GET_TIME {
            self.get_time
        } else if syscall_id == SYSCALL_SBRK {
            self.sbrk
        } else if syscall_id == SYSCALL_MUNMAP {
            self.munmap
        } else if syscall_id == SYSCALL_MMAP {
            self.mmap
        } else if syscall_id == SYSCALL_TRACE {
            self.trace
        } else {
            -1
        }
    }
}

impl SyscallCount {
    /// The counts with one more call of `syscall_id` recorded; an
    /// unsupported number records nothing.
    pub closed spec fn increased(self, syscall_id: usize) -> SyscallCount {
        if syscall_id == SYSCALL_WRITE {
            SyscallCount { write: (self.write + 1) as isize, ..self }
        } else if syscall_id == SYSCALL_EXIT {
            SyscallCount { exit: (self.exit + 1) as isize, ..self }
        } else if syscall_id == SYSCALL_YIELD {
            SyscallCount { yield_: (self.yield_ + 1) as isize, ..self }
        } else if syscall_id == SYSCALL_GET_TIME {
            SyscallCount { get_time: (self.get_time + 1) as isize, ..self }
        } else if syscall_id == SYSCALL_SBRK {
            SyscallCount { sbrk: (self.sbrk + 1) as isize, ..self }
        } else if syscall_id == SYSCALL_MUNMAP {
            SyscallCount { munmap: (self.munmap + 1) as isize, ..self }
        } else if syscall_id == SYSCALL_MMAP {
            SyscallCount { mmap: (self.mmap + 1) as isize, ..self }
        } else if syscall_id == SYSCALL_TRACE {
            SyscallCount { trace: (self.trace + 1) as isize, ..self }
        } else {
            self
        }
    }

    /// The counts of a task that has made no syscall.
    pub closed spec fn zero() -> SyscallCount {
        SyscallCount {
            write: 0,
            exit: 0,
            yield_: 0,
            get_time: 0,
            sbrk: 0,
            munmap: 0,
            mmap: 0,
            trace: 0,
        }
    }

    /// The counts after `default()` and one `increase` per entry of
    /// `syscall_ids`, in order.
    pub open spec fn after_calls(syscall_ids: Seq<usize>) -> SyscallCount
        decreases syscall_ids.len(),
    {
        if syscall_ids.len() == 0 {
            SyscallCount::zero()
        } else {
            SyscallCount::after_calls(syscall_ids.drop_last()).increased(syscall_ids.last())
        }
    }
}

/// How many entries of `syscall_ids` are `syscall_id`.
pub open spec fn occurrences(syscall_ids: Seq<usize>, syscall_id: usize) -> nat
    decreases syscall_ids.len(),
{
    if syscall_ids.len() == 0 {
        0
    } else {
        occurrences(syscall_ids.drop_last(), syscall_id) + if syscall_ids.last() == syscall_id {
            1nat
        } else {
            0nat
        }
    }
}

/// Counting is exact: after `default()` and a run of `increase` calls,
/// `get` reports for each supported syscall the number of calls made with
/// its number, and -1 for every other number.
pub proof fn lemma_count_is_number_of_calls(syscall_ids: Seq<usize>, syscall_id: usize)
    requires
        syscall_ids.len() < isize::MAX,
    ensures
        SyscallCount::after_calls(syscall_ids).count_of(syscall_id) == if is_supported_syscall(
            syscall_id,
        ) {
            occurrences(syscall_ids, syscall_id) as int
        } else {
            -1
        },
    decreases syscall_ids.len(),
{
    if syscall_ids.len() > 0 {
        let prefix = syscall_ids.drop_last();
        lemma_count_is_number_of_calls(prefix, syscall_id);
        lemma_count_bounded(prefix, syscall_ids.last());
    }
}

/// No count exceeds the number of calls made.
proof fn lemma_count_bounded(syscall_ids: Seq<usize>, syscall_id: usize)
    requires
        syscall_ids.len() < isize::MAX,
    ensures
        SyscallCount::after_calls(syscall_ids).count_of(syscall_id) <= syscall_ids.len(),
        SyscallCount::after_calls(syscall_ids).count_of(syscall_id) >= -1,
    decreases syscall_ids.len(),
{
    if syscall_ids.len() > 0 {
        lemma_count_bounded(syscall_ids.drop_last(), syscall_id);
        lemma_count_bounded(syscall_ids.drop_last(), syscall_ids.last());
    }
}

impl Default for SyscallCount {
    fn default() -> (counts: Self)
        ensures
            counts == SyscallCount::zero(),
            forall|syscall_id: usize|
                is_supported_syscall(syscall_id) ==> #[trigger] counts.count_of(syscall_id) == 0,
    {
        SyscallCount {
            write: 0,
            exit: 0,
            yield_: 0,
            get_time: 0,
            sbrk: 0,
            munmap: 0,
            mmap: 0,
            trace: 0,
        }
    }
}

/// A decoded syscall: which handler runs, with the arguments it gets.
#[derive(Clone, Copy, Debug, PartialEq, Eq, Structural)]
pub enum SyscallRequest {
    Write { fd: usize, buf: usize, len: usize },
    Exit { exit_code: i32 },
    Yield,
    GetTime { ts: usize, tz: usize },
    Trace { arg0: usize, arg1: usize, arg2: usize },
    Mmap { start: usize, len: usize, prot: usize },
    Munmap { start: usize, len: usize },
    Sbrk { size: i32 },
}

/// The request that syscall number `syscall_id` with registers `args`
/// stands for; the 32-bit arguments are the low bits of their register.
pub open spec fn request_for(syscall_id: usize, args: [usize; 3]) -> SyscallRequest
    recommends
        is_supported_syscall(syscall_id),
{
    if syscall_id == SYSCALL_WRITE {
        SyscallRequest::Write { fd: args[0], buf: args[1], len: args[2] }
    } else if syscall_id == SYSCALL_EXIT {
        SyscallRequest::Exit { exit_code: args[0] as i32 }
    } else if syscall_id == SYSCALL_YIELD {
        SyscallRequest::Yield
    } else if syscall_id == SYSCALL_GET_TIME {
        SyscallRequest::GetTime { ts: args[0], tz: args[1] }
    } else if syscall_id == SYSCALL_TRACE {
        SyscallRequest::Trace { arg0: args[0], arg1: args[1], arg2: args[2] }
    } else if syscall_id == SYSCALL_MMAP {
        SyscallRequest::Mmap { start: args[0], len: args[1], prot: args[2] }
    } else if syscall_id == SYSCALL_MUNMAP {
        SyscallRequest::Munmap { start: args[0], len: args[1] }
    } else {
        SyscallRequest::Sbrk { size: args[0] as i32 }
    }
}

/// handle syscall exception with `syscall_id` and other arguments: the
/// call is counted in the current task's `counts`, and the request for the
/// matching handler is returned. An unsupported number is a kernel panic,
/// so it is left out.
pub fn syscall(counts: &mut SyscallCount, syscall_id: usize, args: [usize; 3]) -> (request:
    SyscallRequest)
    requires
        is_supported_syscall(syscall_id),
        old(counts).count_of(syscall_id) < isize::MAX,
    ensures
        request == request_for(syscall_id, args),
        final(counts).count_of(syscall_id) == old(counts).count_of(syscall_id) + 1,
        forall|other: usize|
            other != syscall_id ==> #[trigger] final(counts).count_of(other) == old(
                counts,
            ).count_of(other),
{
    counts.increase(syscall_id);
    if syscall_id == SYSCALL_WRITE {
        SyscallRequest::Write { fd: args[0], buf: args[1], len: args[2] }
    } else if syscall_id == SYSCALL_EXIT {
        SyscallRequest::Exit { exit_code: args[0] as i32 }
    } else if syscall_id == SYSCALL_YIELD {
        SyscallRequest::Yield
    } else if syscall_id == SYSCALL_GET_TIME {
        SyscallRequest::GetTime { ts: args[0], tz: args[1] }
    } else if syscall_id == SYSCALL_TRACE {
        SyscallRequest::Trace { arg0: args[0], arg1: args[1], arg2: args[2] }
    } else if syscall_id == SYSCALL_MMAP {
        SyscallRequest::Mmap { start: args[0], len: args[1], prot: args[2] }
    } else if syscall_id == SYSCALL_MUNMAP {
        SyscallRequest::Munmap { start: args[0], len: args[1] }
    } else {
        SyscallRequest::Sbrk { size: args[0] as i32 }
    }
}

/// Decoding hands each handler its argument registers unchanged (the
/// 32-bit arguments as the low bits of their register), and picks the
/// handler by the syscall number.
pub proof fn lemma_decoding_passes_registers(args: [usize; 3])
    ensures
        request_for(SYSCALL_WRITE, args) == (SyscallRequest::Write {
            fd: args[0],
            buf: args[1],
            len: args[2],
        }),
        request_for(SYSCALL_EXIT, args) == (SyscallRequest::Exit { exit_code: args[0] as i32 }),
        request_for(SYSCALL_YIELD, args) == SyscallRequest::Yield,
        request_for(SYSCALL_GET_TIME, args) == (SyscallRequest::GetTime { ts: args[0], tz: args[1] }),
        request_for(SYSCALL_TRACE, args) == (SyscallRequest::Trace {
            arg0: args[0],
            arg1: args[1],
            arg2: args[2],
        }),
        request_for(SYSCALL_MMAP, args) == (SyscallRequest::Mmap {
            start: args[0],
            len: args[1],
            prot: args[2],
        }),
        request_for(SYSCALL_MUNMAP, args) == (SyscallRequest::Munmap { start: args[0], len: args[1] }),
        request_for(SYSCALL_SBRK, args) == (SyscallRequest::Sbrk { size: args[0] as i32 }),
{
}

} // verus!
