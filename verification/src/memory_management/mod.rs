//! Memory: the byte codec of machine words, the arena allocator, and the
//! protection regions.

pub mod word;
pub mod model;
pub mod layout;
pub mod carve;
pub mod release;
pub mod heap;
pub mod allocator;
pub mod memory_layout;
pub mod mpu;
pub mod paging;
