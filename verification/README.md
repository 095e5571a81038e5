# os

Verified core of a small RISC-V teaching kernel's syscall layer, written in Verus.

- `src/syscall.rs`: syscall numbers, per-task syscall counts (`SyscallCount`), and
  `syscall`, which counts a call and decodes it into the request for its handler.
- `src/semaphore.rs`: a counting semaphore with a FIFO wait queue. `down` says
  whether the caller must block, `up` names the task to wake; the abstract state
  `SemState` carries the invariant and the laws (FIFO wake-up, down/up round trip).
- `src/memory.rs`: a task's page table as the memory syscalls see it (entries by
  virtual page number, flag bits only), with `translate`, `insert_framed_area` and
  `munmap_vpn_range`.
- `src/process.rs`: the process syscalls as functions of what they read:
  `sys_mmap`/`sys_munmap` (with the laws relating them), `sys_waitpid`/`sys_spawn`,
  `sys_get_time` (splitting the time and writing its bytes across page pieces),
  and the small handlers (`sys_fork`, `sys_exec`, `sys_sbrk`, `sys_set_priority`, ...).

Scheduling, user-memory translation, the clock and the file system belong to the
kernel around this crate; the handlers take their results as arguments.
