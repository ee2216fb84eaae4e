//! Physical and virtual addresses as distinct types.

use vstd::prelude::*;

verus! {

pub const PAGE_SIZE: u64 = 4096;

pub const PAGE_SHIFT: u64 = 12;

/// Virtual offset of the kernel and of all physical memory.
pub const KERNEL_VMA: u64 = 0xFFFF_FFC0_0000_0000;

/// One past the highest physical address: the machine has 56 address bits.
pub const PHYS_LIMIT: u64 = 0x100_0000_0000_0000;

/// A physical address; not dereferenceable once paging is on.
#[derive(Clone, Copy, PartialEq, Eq, Structural, PartialOrd, Ord, Debug)]
pub struct PhysAddr(pub u64);

/// A virtual address. What the hart actually translates.
#[derive(Clone, Copy, PartialEq, Eq, Structural, PartialOrd, Ord, Debug)]
pub struct VirtAddr(pub u64);

/// `x` rounded down to a multiple of `align`.
pub open spec fn rounded_down(x: int, align: int) -> int {
    x - x % align
}

/// `x` rounded up to a multiple of `align`, or down from the top of the address
/// space where rounding up would leave it.
pub open spec fn rounded_up(x: u64, align: u64) -> int {
    let reach = if x + (align - 1) > u64::MAX {
        u64::MAX as int
    } else {
        x + (align - 1)
    };
    rounded_down(reach, align as int)
}

/// Bytes one entry of a table at `level` covers.
pub open spec fn span(level: nat) -> nat {
    vstd::arithmetic::power2::pow2(12 + 9 * level)
}

/// The index a virtual address uses at page table `level`.
pub open spec fn vpn_of(va: u64, level: nat) -> int {
    (va as nat / span(level)) as int % 512
}

/// Bits 63:39 replicate bit 38.
pub open spec fn canonical(va: u64) -> bool {
    va < 0x40_0000_0000 || va >= 0xFFFF_FFC0_0000_0000
}

/// The three sizes of page, by level.
pub proof fn lemma_spans()
    ensures
        span(0) == 4096,
        span(1) == 0x20_0000,
        span(2) == 0x4000_0000,
{
    crate::bits::lemma_known_powers();
}

proof fn lemma_word(x: u64)
    by (bit_vector)
    ensures
        x >> 12 == x / 4096,
        x & 4095 == x % 4096,
        x & 0x1ff == x % 512,
        (x >> 38 == 0 || x >> 38 == 0x3ff_ffff) == (x < 0x40_0000_0000 || x
            >= 0xFFFF_FFC0_0000_0000),
{
}

fn align_down_word(x: u64, align: u64) -> (r: u64)
    requires
        crate::bits::is_power_of_two(align),
    ensures
        r == rounded_down(x as int, align as int),
{
    proof {
        crate::bits::lemma_mask(x, align);
    }
    x & !(align - 1)
}

fn align_up_word(x: u64, align: u64) -> (r: u64)
    requires
        crate::bits::is_power_of_two(align),
    ensures
        r == rounded_up(x, align),
{
    proof {
        crate::bits::lemma_power_of_two_positive(align);
    }
    let reach: u64 = x.saturating_add(align - 1);
    proof {
        crate::bits::lemma_mask(reach, align);
    }
    reach & !(align - 1)
}

fn is_aligned_word(x: u64, align: u64) -> (r: bool)
    requires
        crate::bits::is_power_of_two(align),
    ensures
        r == (x % align == 0),
{
    proof {
        crate::bits::lemma_mask(x, align);
    }
    x & (align - 1) == 0
}

impl PhysAddr {
    pub fn new(addr: u64) -> (r: Self)
        ensures
            r.0 == addr,
    {
        PhysAddr(addr)
    }

    /// The address as a machine word.
    pub fn as_usize(self) -> (r: u64)
        ensures
            r == self.0,
    {
        self.0
    }

    /// Physical page number: what a page table entry actually stores.
    pub fn page_number(self) -> (r: u64)
        ensures
            r == self.0 / PAGE_SIZE,
    {
        proof {
            lemma_word(self.0);
        }
        self.0 >> PAGE_SHIFT
    }

    pub fn page_offset(self) -> (r: u64)
        ensures
            r == self.0 % PAGE_SIZE,
    {
        proof {
            lemma_word(self.0);
        }
        self.0 & (PAGE_SIZE - 1)
    }

    /// Round down to a multiple of `align`, which must be a power of two.
    pub fn align_down(self, align: u64) -> (r: Self)
        requires
            crate::bits::is_power_of_two(align),
        ensures
            r.0 == rounded_down(self.0 as int, align as int),
    {
        PhysAddr(align_down_word(self.0, align))
    }

    /// Round up to a multiple of `align`, which must be a power of two.
    pub fn align_up(self, align: u64) -> (r: Self)
        requires
            crate::bits::is_power_of_two(align),
        ensures
            r.0 == rounded_up(self.0, align),
    {
        PhysAddr(align_up_word(self.0, align))
    }

    pub fn is_aligned(self, align: u64) -> (r: bool)
        requires
            crate::bits::is_power_of_two(align),
        ensures
            r == (self.0 % align == 0),
    {
        is_aligned_word(self.0, align)
    }

    pub fn offset(self, bytes: u64) -> (r: Self)
        requires
            self.0 + bytes <= u64::MAX,
        ensures
            r.0 == self.0 + bytes,
    {
        PhysAddr(self.0 + bytes)
    }
}

impl VirtAddr {
    pub fn new(addr: u64) -> (r: Self)
        ensures
            r.0 == addr,
    {
        VirtAddr(addr)
    }

    /// The address as a machine word.
    pub fn as_usize(self) -> (r: u64)
        ensures
            r == self.0,
    {
        self.0
    }

    pub fn page_offset(self) -> (r: u64)
        ensures
            r == self.0 % PAGE_SIZE,
    {
        proof {
            lemma_word(self.0);
        }
        self.0 & (PAGE_SIZE - 1)
    }

    /// Round down to a multiple of `align`, which must be a power of two.
    pub fn align_down(self, align: u64) -> (r: Self)
        requires
            crate::bits::is_power_of_two(align),
        ensures
            r.0 == rounded_down(self.0 as int, align as int),
    {
        VirtAddr(align_down_word(self.0, align))
    }

    /// Round up to a multiple of `align`, which must be a power of two.
    pub fn align_up(self, align: u64) -> (r: Self)
        requires
            crate::bits::is_power_of_two(align),
        ensures
            r.0 == rounded_up(self.0, align),
    {
        VirtAddr(align_up_word(self.0, align))
    }

    pub fn is_aligned(self, align: u64) -> (r: bool)
        requires
            crate::bits::is_power_of_two(align),
        ensures
            r == (self.0 % align == 0),
    {
        is_aligned_word(self.0, align)
    }

    pub fn offset(self, bytes: u64) -> (r: Self)
        requires
            self.0 + bytes <= u64::MAX,
        ensures
            r.0 == self.0 + bytes,
    {
        VirtAddr(self.0 + bytes)
    }

    /// The 9-bit index this address uses at page table `level`.
    pub fn vpn(self, level: usize) -> (r: usize)
        requires
            level <= 5,
        ensures
            r == vpn_of(self.0, level as nat),
            r < 512,
    {
        let shift: u64 = PAGE_SHIFT + 9 * (level as u64);
        proof {
            vstd::bits::lemma_u64_shr_is_div(self.0, shift);
            lemma_word(self.0 >> shift);
        }
        ((self.0 >> shift) & 0x1ff) as usize
    }

    /// Whether the address is canonical: bits 63:39 must replicate bit 38.
    pub fn is_canonical(self) -> (r: bool)
        ensures
            r == canonical(self.0),
    {
        proof {
            lemma_word(self.0);
        }
        let top: u64 = self.0 >> 38;
        top == 0 || top == 0x3ff_ffff
    }
}

} // verus!
