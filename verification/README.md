# rcore_os

The verified core of a small RISC-V (Sv39) batch kernel.

- `src/address.rs`: Sv39 page numbers and virtual addresses.
- `src/frame.rs`: physical memory as a run of 512-word frames with a frame
  allocator that clears what it hands out.
- `src/page_table.rs`: page-table entries and flags, three-level page tables
  (`new`, `from_token`, `map`, `unmap`, `translate`, `token`) and the
  splitting of a user buffer into runs of physical pages.
- `src/walk.rs`: the meaning of a page table (its walk and its mappings),
  the tree shape that `map` and `unmap` keep, and the laws relating them.
- `src/batch.rs`: the application manager and the decision of which
  application runs next and how.
- `src/syscall.rs`: the system-call tracer and the decoding of a call.
- `src/trap.rs`: the trap context of a freshly started application.
- `app/lib.rs`: the global state, the stacks and the steps that touch raw
  memory, registers and the console.
