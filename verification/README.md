# rcore

The core of a small teaching kernel for 64-bit RISC-V, verified with Verus.

- `src/mm`: Sv39 addresses, page table entries, physical memory and its frames,
  page tables, access to user memory, and address spaces made of areas.
- `src/fs`: a file system of inodes and data blocks with one directory of named
  entries; `volume` puts it behind a spin lock.
- `src/sync`: counting semaphores.
- `src/task.rs`, `src/syscall`: what the kernel keeps of a task, and the process
  management system calls.
- `src/bytes.rs`: overwriting stretches of byte sequences.

Functions whose names begin with `law_` are proofs of what holds of the operations
together: what one call undoes, what is read back, what stays as it was.

Memory is a value that is handed to the functions that read or change it, and a task
switch is a result that says what is to happen; `app` holds the scheduler's side of
that, the clock, the system calls with their arguments tested, the conversions to bit
sets and iterators, and a volume whose data blocks are written to a block device. The
file system itself lives in memory: asking that blocks be written back is recorded, and
the inode area, the index blocks and the marks of what is in use are not laid out as
blocks.
