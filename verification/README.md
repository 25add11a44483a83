# oskit

Verified building blocks of a small teaching kernel, written in Verus.

- `early_allocator`: a two-ended early memory allocator (bytes forward from
  the start, pages backward from the end).
- `deadlock`: per-process deadlock detection — a wait-for chain check for
  mutexes and the banker's safety check for semaphores.
- `signal`: signal sets, handlers and the signal-handling state machine run
  before each return to user space.
- `syscall`: the decisions of a minimal Linux system-call layer (call
  numbers and the dispatch outcome of each call, open flags and the UTF-8
  check of paths, `mmap` checks, the descriptor table, the `writev` driver,
  error mapping) and of the user-task trap loop.
- `process`: planning a process image from an ELF program for Sv39.
- `bits`: power-of-two and alignment arithmetic.

`app/` adapts these parts to the traits and types of the surrounding kernels
(`axallocator`, `tg-signal`, `tg-task-manage`, `axerrno`, `axfs-ng-vfs`,
`xmas-elf`), and runs the trap loop and system-call dispatch with the
kernel's own work handed in as closures.
