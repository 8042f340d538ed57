# ferret

The core of the FerretOS microkernel for small RISC-V boards, written in
Verus: every function under `src/` carries a contract that Verus proves.

- `capability` — peripheral capability types and the boot-time check that no
  two tasks hold the same peripheral exclusively.
- `scheduler` — the capability contention graph (construction, cycle
  detection), inherited priorities by breadth-first search, the max-heap
  ready queue, switch-latency statistics and the per-tick preemption
  decision of the CA-PIP scheduler, with the no-priority-inversion laws.
  Entries of equal priority leave the ready queue in the order they were
  queued, so a task whose quantum expires goes behind every waiting task of
  its priority (round robin within a priority level).
- `memory` — task descriptors and registry, typed memory regions, stacks
  with an overflow canary, and the PMP register plan.
- `ipc` — fixed-capacity FIFO channels.  A channel is a plain value with a
  single owner: sending and receiving take `&mut self`, so a channel shared
  between an interrupt handler and a task needs the caller's own
  synchronisation (for instance, interrupts masked around the call); the
  library offers no lock-free shared variant.
- `context`, `clint`, `uart` — trap dispatch (an exception resumes after the
  faulting instruction, whose length the caller reads from its first
  16-bit parcel), timer arithmetic and number rendering for the
  diagnostics.
- `generated` — the task schema and the three-task demo configuration.

`app/` is the boot program: MMIO, CSR writes, assembly stubs and printing
around the library.  `tests/` exercises the library on concrete task sets.
