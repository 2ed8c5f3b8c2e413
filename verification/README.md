# Loom

A userspace buffer manager that gives a process a **bounded RAM footprint**
over a **storage-backed logical arena larger than RAM**, verified with Verus.

```text
Application
     |  allocate / read / write
     v
+----------------------+
|      LOOM ARENA      |  logical address space (capacity, e.g. 128 GiB)
+----------+-----------+
           |  block map + CLOCK residency policy
    +------+------+
    v             v
  HOT           COLD
  frame pool    pool file (sparse, cache-bypassing I/O)
  (budget)      identity-mapped blocks + checksum table
```

## Layout

- `src/` is the verified library: every decision the arena takes. It does no
  I/O. An operation that needs the device returns the action to carry out and
  is resumed with what came of it.
- `app/` carries the actions out: the pool file, the process footprint, the
  two fault handlers, and the `loom` command (`init`, `info`, `prove`).
- `tests/` run the library, the arena against a file in memory.

| module | what it holds |
| --- | --- |
| `arena`, `opening` | the arena: allocation, reading, writing, in-place borrows, syncing, eviction, creating and opening a pool |
| `state`, `steps`, `laws` | the arena as mathematics: its state, what each step does to it, and what every step keeps |
| `runs`, `damage` | what holds of whole runs, and what becomes of a block that was damaged on disk |
| `frames` | the frame pool and its CLOCK policy |
| `superblock`, `checksum`, `words`, `bytes` | the pool file's format |
| `io` | actions, replies and transfers |
| `stats`, `report` | counters, latency histograms, and both in words |
| `faultin`, `faultin_signal` | transparent fault-in: which extents are mapped, dirty, evicted |
| `footprint` | the witness for the hot budget |
| `prove`, `pattern` | the first experiment's decisions and its test patterns |
| `args`, `text`, `error` | arguments, numbers in text, errors that name themselves |

## What is proved

- A read gives back what was written, in however many steps, whatever was
  evicted, prefetched or reloaded in between, and after a sync also across a
  reopen. The same holds of what is left in a mutable borrow.
- Arena bytes in frames never exceed the budget.
- Bytes from the device are admitted only if their checksum matches. A read
  that touches a damaged block names it and copies none of its bytes; other
  reads still succeed, and restoring the bytes clears the error.
- A block that was never written reads as zeros without asking the device.
- A dirty frame is never overwritten by speculation.
- What a program sees through a fault-in pointer is what it wrote, and dirty
  tracking is exact.

What is not proved: the hash is XXH3 from `xxhash-rust`, taken by name, and
two blocks with one checksum are not told apart. The device is expected to
return what was written to it or to fail. A crash between two syncs is out of
scope.
