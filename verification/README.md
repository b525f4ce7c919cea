# pulseos

The verified core of a small operating system kernel, written in Verus. It
holds what decides and computes; hardware, the network stack and file systems
are reached from `app/`.

- `src/mm`: page tables, frames, areas, page faults, forking, moving and
  unmapping memory
- `src/vfs`: directory entries, mounts, propagation of mounts, caches
- `src/task`: tasks, wait queues, futures, timers, locks, trace markers
- `src/cpu`: traps and unaligned accesses
- `src/plat`: the device tree, memory layout, interrupts and CPUs of a board
- `src/block`: buffers lent to block devices, a disk and an SD card
- `src/net`: an Ethernet controller, checksums, sockets and their tables

Each public function states its effect in `ensures`, over spec functions and
views. What holds of several functions together stands beside them as a public
proof function.

State that is shared between CPUs is passed in as `&mut`: a call stands for what
is done under one lock.
