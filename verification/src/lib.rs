//! A small preemptive kernel core: an arena allocator with corruption
//! cookies, an index-linked list, a process table with its scheduler, and
//! the decisions of the context-switch and system-call traps.

pub mod memory_management;
pub mod utils;
pub mod proc;
pub mod init;
