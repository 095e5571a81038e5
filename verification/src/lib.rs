//! Verified core of a teaching kernel's process syscalls: per-task syscall
//! accounting and dispatch, a counting semaphore with a FIFO wait queue,
//! the memory-mapping syscalls over a page-table model, and the pure parts
//! of the process-management syscalls.
pub mod syscall;
pub mod semaphore;
pub mod memory;
pub mod process;
