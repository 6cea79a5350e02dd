//! Physical and virtual addresses.
use vstd::prelude::*;

verus! {

/// A physical address.
#[derive(Debug, Clone, Copy, PartialEq, Eq, Structural)]
pub struct PAddr(pub u64);

/// A virtual address.
#[derive(Debug, Clone, Copy, PartialEq, Eq, Structural)]
pub struct VAddr(pub u64);

impl PAddr {
    /// The address as a number.
    pub fn as_u64(self) -> (r: u64)
        ensures
            r == self.0,
    {
        self.0
    }
}

impl VAddr {
    /// The address as a number.
    pub fn as_u64(self) -> (r: u64)
        ensures
            r == self.0,
    {
        self.0
    }
}

} // verus!
