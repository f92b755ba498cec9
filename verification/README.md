# rcore_os

The verified core of a small teaching kernel, written in Verus.

`src/` holds the logic, each function with a contract that Verus proves:

- `syscall_table`: the served system-call numbers, their binary search, and
  the decoding of a trap into a request.
- `process`: process control blocks (descriptor tables, threads and their id
  allocator, children), `fork`, and the argument layout of `exec`, down to
  the bytes that go on the new user stack.
- `manager`: the pid allocator and the ready queue of threads.
- `deadlock`: the banker's safety check behind lock requests; it answers
  "may deadlock" exactly when no order lets every thread finish.
- `memory`: address spaces as disjoint page ranges, with mapping and
  unmapping.
- `vfs`: a flat file system with hard links and an inode bitmap; link counts
  always equal the number of names of a file in use, and freed inodes keep
  their content, so an open descriptor never loses its inode.
- `file`, `loader`, `syscall_fs`, `syscall_process`: open files (whose
  cursors live in a shared table, so forked descriptors share them), the
  opening of files by flags, and the file and process system calls, each
  deciding its result from the process and file-system state.

`app/` is the unverified glue: user memory, console, the file system behind a
`spin::Mutex`, the building of address spaces from program images, and the
dispatch of trapped calls to the library. `tests/`
exercises the library on concrete values.
