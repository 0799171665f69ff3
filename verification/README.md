# rust_internals

Two fundamental systems programming building blocks, written against the Rust
standard library alone, whose bookkeeping is verified with Verus.

## The memory arena

A bump arena hands out memory by moving a pointer forward in a large block and
gives it up all at once, when it is reset or dropped. `src/arena.rs` decides
which chunk serves an allocation, at which offset, when a chunk has to be
obtained and how large it is, and which destructors are owed, newest first. It
works on layouts, bytes and regions; a region is a chunk number and an offset.

Proved of every arena: live regions are aligned, lie within the used part of
their chunk and share no byte; a value stays where it is and as it is until the
arena is reset, however many others follow; the newest chunk serves until it has
no room, and a chunk that is obtained then holds the allocation it was sized
for, whatever its alignment; a reset gives up every destructor once and keeps
every chunk, and each of them serves again before more memory is obtained.

`app/memory_arena.rs` puts values of any type into that memory through raw
pointers, so that `alloc(&self, T) -> &mut T` works as one expects. It stays
within Rust's strict-provenance rules.

## The thread pool

`src/pool.rs` is the job queue, the count of unfinished jobs and the state of
each worker. Each call is one step, made under the caller's lock: a job is
submitted, a worker asks what to do next, a job ends, the pool is told to stop.

Proved of every pool: jobs start in the order of their submission and run once;
the count of unfinished jobs is zero just where every job submitted has ended;
a job that panics leaves its worker ready for the next one; a worker stops only
when no job is waiting; and waiting for the jobs, or for a stopped pool, comes
to an end within a bound that the state at its start gives.

A job's result comes back over a one-shot `std::sync::mpsc` channel. A job and
its handle hold the two ends of one channel, a job that returns sends its result
into its end, and a handle waits on the other. What arrives there is up to
another thread; what a handle makes of it is `JobHandle::outcome`.

`app/thread_pool.rs` adds the threads, the mutex and the condition variables.

## Layout

- `src/`: the verified library
- `tests/`: its tests
- `app/`: typed references, real threads and two short demonstrations
