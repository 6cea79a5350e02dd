//! The memory map that the bootloader hands over.
use vstd::prelude::*;

verus! {

/// Kind of a region that is free to use.
pub const MEMMAP_USABLE: u64 = 0;

/// Kind of a region that the bootloader uses until it is reclaimed.
pub const MEMMAP_BOOTLOADER_RECLAIMABLE: u64 = 5;

/// A region of physical memory.
#[derive(Debug, Clone, Copy, PartialEq, Eq, Structural)]
pub struct MemmapEntry {
    /// First address.
    pub base: u64,
    /// Length in bytes.
    pub length: u64,
    /// What the region is for.
    pub kind: u64,
}

} // verus!
