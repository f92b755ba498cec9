//! A verified core of a small teaching kernel: its process control blocks,
//! file-descriptor tables, deadlock detection, memory mappings, a flat
//! file system, and the decision logic of its system calls.
use vstd::prelude::*;

pub mod deadlock;
pub mod file;
pub mod loader;
pub mod manager;
pub mod memory;
pub mod process;
pub mod syscall_fs;
pub mod syscall_process;
pub mod syscall_table;
pub mod vfs;

verus! {

} // verus!
