//! Verified core of a teaching kernel: the process control block with its
//! deadlock-avoidance bookkeeping, the thread-id allocator, the user-stack
//! layout that `exec` builds, and the directory layer of the file system.

pub mod banker;
pub mod id;
pub mod matrix;
pub mod process;
pub mod user_stack;
pub mod efs;
pub mod vfs;
