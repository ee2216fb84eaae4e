//! Where the linker put the kernel.

use crate::mm::addr::{PhysAddr, KERNEL_VMA};
use crate::mm::region::Region;
use vstd::prelude::*;

verus! {

/// The addresses the linker assigned to the parts of the kernel image.
#[derive(Clone, Copy, PartialEq, Eq, Structural, Debug)]
pub struct Layout {
    pub kernel_start: u64,
    pub kernel_end: u64,
    pub text_start: u64,
    pub text_end: u64,
    pub rodata_start: u64,
    pub rodata_end: u64,
    pub data_start: u64,
    pub data_end: u64,
    pub bss_start: u64,
    pub bss_end: u64,
}

impl Layout {
    /// Whether the parts follow each other in the image, high in the address
    /// space.
    pub open spec fn is_ordered(self) -> bool {
        &&& KERNEL_VMA <= self.kernel_start <= self.text_start
        &&& self.text_start < self.text_end
        &&& self.text_end <= self.rodata_start <= self.rodata_end
        &&& self.rodata_end <= self.data_start <= self.data_end
        &&& self.data_end <= self.bss_start
        &&& self.bss_start < self.bss_end
        &&& self.bss_end <= self.kernel_end
    }

    /// Whether the parts of the image lie one after another, at the kernel's
    /// offset.
    pub fn ordered(&self) -> (r: bool)
        ensures
            r == self.is_ordered(),
    {
        KERNEL_VMA <= self.kernel_start && self.kernel_start <= self.text_start && self.text_start
            < self.text_end && self.text_end <= self.rodata_start && self.rodata_start
            <= self.rodata_end && self.rodata_end <= self.data_start && self.data_start
            <= self.data_end && self.data_end <= self.bss_start && self.bss_start < self.bss_end
            && self.bss_end <= self.kernel_end
    }

    /// The kernel image as a physical region.
    pub fn kernel_phys_range(&self) -> (r: Region)
        requires
            KERNEL_VMA <= self.kernel_start,
            KERNEL_VMA <= self.kernel_end,
        ensures
            r.start.0 == self.kernel_start - KERNEL_VMA,
            r.end.0 == self.kernel_end - KERNEL_VMA,
    {
        Region::new(
            PhysAddr::new(self.kernel_start - KERNEL_VMA),
            PhysAddr::new(self.kernel_end - KERNEL_VMA),
        )
    }
}

} // verus!
