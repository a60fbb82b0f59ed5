//! Where the memories of the board lie, and the access attributes of their
//! protection regions.

use vstd::prelude::*;

verus! {

/// Base address of the flash.
pub const REGION_FLASH_ADDR: u32 = 0x0800_0000;

/// Base address of the main memory.
pub const REGION_RAM_ADDR: u32 = 0x2000_0000;

/// Base address of the core-coupled memory.
pub const REGION_CCRAM_ADDR: u32 = 0x1000_0000;

/// Bytes of flash.
pub const REGION_FLASH_LEN: u32 = 1024 * 1024;

/// Bytes of main memory.
pub const REGION_RAM_LEN: u32 = 128 * 1024;

/// Bytes of core-coupled memory.
pub const REGION_CCRAM_LEN: u32 = 64 * 1024;

/// Access attribute: read and write.
pub const ATTR_READ_WRITE: u32 = 0b011;

/// Access attribute: read and execute.
pub const ATTR_READ_EXEC: u32 = 0b101;

} // verus!
