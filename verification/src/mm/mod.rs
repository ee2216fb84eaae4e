//! Memory management: address types, region arithmetic, physical frames.

pub mod addr;
pub mod address_space;
pub mod discover;
pub mod exact;
pub mod frame;
pub mod keeping;
pub mod kernel_space;
pub mod memory;
pub mod page_table;
pub mod region;
pub mod surveying;
pub mod tlb;
pub mod translation;
pub mod unmapping;

use crate::mm::addr::{PhysAddr, VirtAddr};
use crate::mm::region::RegionList;
use vstd::prelude::*;

verus! {

/// Bound on how many regions any one list holds.
pub const MAX_REGIONS: usize = 32;

pub type Regions = RegionList<MAX_REGIONS>;

/// How physical memory is reached right now: at a fixed offset from its physical
/// address. Zero until paging is on.
#[derive(Clone, Copy, PartialEq, Eq, Structural, Debug)]
pub struct DirectMap {
    pub offset: u64,
}

impl DirectMap {
    /// Physical memory at its own addresses.
    pub fn new() -> (r: Self)
        ensures
            r.offset == 0,
    {
        DirectMap { offset: 0 }
    }

    /// Where a physical address is readable from, right now.
    pub fn phys_to_virt(&self, pa: PhysAddr) -> (r: VirtAddr)
        requires
            pa.0 + self.offset <= u64::MAX,
        ensures
            r.0 == pa.0 + self.offset,
    {
        VirtAddr::new(pa.0 + self.offset)
    }

    /// Inverse of [`DirectMap::phys_to_virt`]. Only valid for addresses inside
    /// the direct map.
    pub fn virt_to_phys(&self, va: VirtAddr) -> (r: PhysAddr)
        requires
            self.offset <= va.0,
        ensures
            r.0 + self.offset == va.0,
    {
        PhysAddr::new(va.0 - self.offset)
    }

    /// Called exactly once, by the switch to paging.
    pub fn set_phys_offset(&mut self, offset: u64)
        ensures
            final(self).offset == offset,
    {
        self.offset = offset;
    }

    pub fn phys_offset(&self) -> (r: u64)
        ensures
            r == self.offset,
    {
        self.offset
    }
}

} // verus!
