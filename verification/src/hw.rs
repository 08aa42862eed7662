//! The description of the machine that a program is assembled for.

use vstd::prelude::*;
use crate::commands::Selector;

verus! {

/// A region of memory: the addresses `start .. start + size`, the entities
/// that implement it, and the program point of its control logic.
#[derive(Debug)]
pub struct MemoryRegion {
    pub start: u32,
    pub size: u32,
    pub selector: Selector,
    pub label: String,
}

impl MemoryRegion {
    /// The first address past the region.
    pub open spec fn end(&self) -> int {
        self.start + self.size
    }

    /// Whether every address of the region, and the first one past it, is a
    /// non-negative 32-bit signed number.
    pub open spec fn addressable(&self) -> bool {
        self.end() <= i32::MAX
    }

    /// Tests whether the region is addressable.
    pub fn is_addressable(&self) -> (r: bool)
        ensures
            r == self.addressable(),
    {
        self.size <= 0x7fff_ffff && self.start <= 0x7fff_ffff - self.size
    }
}

/// The machine: an ordered collection of memory regions.
#[derive(Debug)]
pub struct Computer {
    pub memory: Vec<MemoryRegion>,
}

impl Computer {
    /// Whether every region of the machine is addressable.
    pub open spec fn addressable(&self) -> bool {
        forall|i: int| 0 <= i < self.memory.len() ==> (#[trigger] self.memory[i]).addressable()
    }

    /// Tests whether every region of the machine is addressable.
    pub fn is_addressable(&self) -> (r: bool)
        ensures
            r == self.addressable(),
    {
        let mut i: usize = 0;
        while i < self.memory.len()
            invariant
                i <= self.memory.len(),
                forall|j: int| 0 <= j < i ==> (#[trigger] self.memory[j]).addressable(),
            decreases self.memory.len() - i,
        {
            if !self.memory[i].is_addressable() {
                return false;
            }
            i += 1;
        }
        true
    }
}

} // verus!
