# runroutines

A small M:N runtime for stackful coroutines on x86-64 Linux: tasks with stacks of
their own, worker threads that steal work from each other, timers, and waiting for
file descriptors with epoll.

- `src/` is the verified library. It holds every decision that the runtime makes:
  where a worker looks for its next task, when it polls, how long it sleeps, which
  timers fire, which idle worker is woken, how the first frame of a task is laid out,
  and what a yield, a sleep or a wait does. The contracts are proved with Verus. The
  queues are those of `crossbeam-deque`, and the mask of idle workers is an atomic of
  the standard library, both behind small trusted wrappers. The wrappers say what the
  owner of a queue can rely on while other threads steal from it, and each thread's
  accesses to what all threads share are kept in a ghost record, so that the contracts
  can say which ones are made and in which order.
- `app/` is the runtime around it: threads, the stack switch, epoll, the clock, the
  logging, and the body of the attribute macro `rr_compliant`.
- `tests/` runs the library against the real queues.
