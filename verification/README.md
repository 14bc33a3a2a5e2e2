# rcore_syscalls

The logic of a teaching kernel's process and synchronisation system calls,
written in Verus with contracts proved against mathematical models.

Each system call takes the process state it works on and whatever the
kernel itself has to produce (a new child's pid, a loaded program, the
clock, the state of the semaphores), and returns the value for user space
together with an `Action`: the blocking, waking or scheduling work that the
kernel then carries out.

## Layout

- `src/memory.rs`: the user address space (mapped pages, permissions and
  frame contents); `mmap`, `munmap` and byte access for `trace`.
- `src/process.rs`: a process and its children; `getpid`, `fork`, `exec`,
  `spawn`, `waitpid`, `mmap`, `munmap`, `trace`, `get_time` (into user
  memory), `sbrk`,
  `set_priority`, `exit`, `yield`.
- `src/sync.rs`: the tables of mutexes, semaphores and condition variables
  and the per-thread hold records; `sleep` and the mutex, semaphore and
  condition-variable calls, with deadlock detection.
- `src/banker.rs`: the banker's safety check that decides whether a
  semaphore request is refused.
- `src/sem_deadlock.rs`: the semaphore deadlock check on the threads'
  wait-for graph.
- `src/wait_graph.rs`: depth-first search for a reachable cycle.
- `src/deadlock.rs`: the mutex deadlock registry (which thread holds which mutex).
- `src/slots.rs`: allocation of table slots.
- `src/action.rs`: `Action` and `Outcome`.
- `app/lib.rs`: the global registry instance (behind `lazy_static`).
