# Shared memory MPMC queue

A lock-free multi-producer multi-consumer (MPMC) ring buffer that lives entirely in POSIX shared
memory, with its logic verified by [Verus](https://github.com/verus-lang/verus). Processes open the
same shared memory object by name and exchange fixed-size `Copy` values.

- `src/` is the verified library. It decides; it makes no system call and touches no shared memory.
  A push, a pop, a creation or an opening is a small state machine that names the next access or
  request and takes the reply.
- `app/` runs those state machines on real shared memory. `app/pub_sub.rs` holds a publisher and a
  subscriber: a program that calls `pub_sub::main` takes `pub 32` in one terminal and `sub 32` in
  another, and sends 32 numbers from the first to the second.
- `tests/` runs the library with a table of objects in place of the system, and with many calls
  interleaved on one region.

What is proved:

- A push succeeds exactly where there is room, and appends its value; a pop succeeds exactly where
  something waits, and removes the oldest item (`queue.rs`).
- However pushes and pops of any number of threads and processes are interleaved, items come out in
  the order in which their positions were claimed, none is lost or taken twice, and no two calls
  touch the same slot at the same time (`interleaving.rs`). Over a whole run, what was popped and
  what still waits is what waited before and what was accepted; each consumer sees the values of
  each producer in their order; and of many pushes at once as many succeed as there is room for
  (`runs.rs`). Accesses are taken to happen one at a
  time; a thread that sleeps while a position counter goes through all values of a machine word is
  left out.
- A creation that succeeds has initialised the whole region; one that fails closes and removes what
  it created, apart from the case of a region that does not fit in the address space (`create.rs`).
  An opening accepts what a creation wrote (`open.rs`).
