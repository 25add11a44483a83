//! Kernel building blocks for a small teaching operating system: an early
//! two-ended memory allocator, per-process deadlock detection for mutexes and
//! semaphores, POSIX-style signal bookkeeping, the decision logic of a minimal
//! Linux system-call layer, and the planning steps of ELF program loading.

pub mod bits;
pub mod early_allocator;
pub mod deadlock;
pub mod signal;
pub mod syscall;
pub mod process;
