# rcore

Verified pieces of a small teaching kernel, written in Verus.

- `banker`: the banker's safety check for deadlock avoidance, proved to
  answer whether some order lets every live thread finish.
- `id`: the recycling thread-id allocator.
- `matrix`: growing and clearing the per-thread resource matrices.
- `process`: the process control block (file descriptors, threads, thread
  ids, deadlock bookkeeping, `fork`, `exec`).
- `user_stack`: the argument layout that `exec` writes to the new user stack.
- `efs`: the inode layer of the file system (directories, files, hard links),
  with `*_in` functions that state the outcome of each operation, refusals
  included, for every state of the file system.
- `vfs`: the shared inode, which takes the file system's spin lock around
  each `*_in` function of the inode layer.

Kernel objects (open files, threads, locks, address spaces) appear as the
handles under which the kernel keeps them. Run the tests with `cargo test`.
