//! Sv39 page tables: entries, and the tree they form.

use crate::mm::addr::{PhysAddr, VirtAddr, PAGE_SHIFT, PAGE_SIZE};
use crate::mm::frame::BumpAllocator;
use crate::mm::memory::Memory;
use crate::mm::region::Region;
use vstd::prelude::*;

verus! {

/// Entries per table. 4096 / 8.
pub const ENTRIES: usize = 512;

/// Deepest level index. Sv39 has three levels: 2 (1 GiB), 1 (2 MiB), 0 (4 KiB).
pub const MAX_LEVEL: usize = 2;

/// Bytes mapped by one leaf at `level`.
pub fn page_size(level: usize) -> (r: u64)
    requires
        level <= 5,
    ensures
        r == crate::mm::addr::span(level as nat),
        crate::bits::is_power_of_two(r),
{
    let shift: u64 = 9 * (level as u64);
    proof {
        vstd::arithmetic::power2::lemma_pow2_adds(12, shift as nat);
        crate::bits::lemma_known_powers();
        crate::bits::lemma_pow2_bounds((12 + shift) as nat);
        vstd::bits::lemma_u64_shl_is_mul(PAGE_SIZE, shift);
        assert((12 + shift) as nat == 12 + 9 * (level as nat));
    }
    PAGE_SIZE << shift
}

// --- Flags ---

/// Valid. Without it the hardware ignores every other bit.
pub const V: u64 = 0x01;

pub const R: u64 = 0x02;

pub const W: u64 = 0x04;

pub const X: u64 = 0x08;

/// Reachable from user mode. Kernel mappings must leave this clear.
pub const U: u64 = 0x10;

/// Global: the translation survives an ASID change.
pub const G: u64 = 0x20;

/// Accessed.
pub const A: u64 = 0x40;

/// Dirty.
pub const D: u64 = 0x80;

/// Kernel code: read + execute, never writable, never user-reachable.
pub const KERNEL_RX: u64 = V | R | X | G | A;

/// Kernel read-only data.
pub const KERNEL_RO: u64 = V | R | G | A;

/// Kernel writable data, and the direct map. Never executable.
pub const KERNEL_RW: u64 = V | R | W | G | A | D;

/// User data: never executable, never Global (an ASID switch must drop it).
pub const USER_RW: u64 = V | R | W | U | A | D;

/// User code.
pub const USER_RX: u64 = V | R | X | U | A;

/// User data that is only read.
pub const USER_RO: u64 = V | R | U | A;

/// The permission and status bits of an entry.
#[derive(Clone, Copy, PartialEq, Eq, Structural, Debug)]
pub struct PteFlags(pub u64);

impl PteFlags {
    /// At least one of the read, write and execute bits is set.
    pub open spec fn leaf(self) -> bool {
        self.0 & 0x0e != 0
    }

    /// Not the reserved write-without-read encoding.
    pub open spec fn permitted(self) -> bool {
        self.has(W) ==> self.has(R)
    }

    /// Every bit of `other` is set.
    pub open spec fn has(self, other: u64) -> bool {
        self.0 & other == other
    }

    pub fn bits(self) -> (r: u64)
        ensures
            r == self.0,
    {
        self.0
    }

    pub fn from_bits(bits: u64) -> (r: Self)
        ensures
            r.0 == bits & 0xff,
    {
        PteFlags(bits & 0xff)
    }

    pub fn union(self, other: Self) -> (r: Self)
        ensures
            r.0 == self.0 | other.0,
    {
        PteFlags(self.0 | other.0)
    }

    pub fn contains(self, other: Self) -> (r: bool)
        ensures
            r == self.has(other.0),
    {
        self.0 & other.0 == other.0
    }

    pub fn intersects(self, other: Self) -> (r: bool)
        ensures
            r == (self.0 & other.0 != 0),
    {
        self.0 & other.0 != 0
    }

    /// A leaf is any entry with at least one of R/W/X.
    pub fn is_leaf(self) -> (r: bool)
        ensures
            r == self.leaf(),
    {
        self.0 & 0x0e != 0
    }

    /// `W` without `R` is reserved, not write-only memory.
    pub fn is_valid_combination(self) -> (r: bool)
        ensures
            r == self.permitted(),
    {
        !(self.contains(PteFlags(W)) && !self.contains(PteFlags(R)))
    }
}

/// What the named permission sets allow. No kernel mapping is user-reachable
/// and every one is global; no mapping is both writable and executable; every
/// user mapping is user-reachable and none is global.
pub proof fn named_permissions_are_safe()
    ensures
        forall|f: PteFlags|
            f.0 == KERNEL_RX || f.0 == KERNEL_RO || f.0 == KERNEL_RW ==> !#[trigger] f.has(U)
                && f.has(G) && f.leaf() && f.permitted(),
        forall|f: PteFlags|
            f.0 == USER_RX || f.0 == USER_RO || f.0 == USER_RW ==> #[trigger] f.has(U) && !f.has(G)
                && f.leaf() && f.permitted(),
        forall|f: PteFlags|
            f.0 == KERNEL_RX || f.0 == KERNEL_RO || f.0 == KERNEL_RW || f.0 == USER_RX || f.0
                == USER_RO || f.0 == USER_RW ==> !(#[trigger] f.has(W) && f.has(X)),
        PteFlags(KERNEL_RX).has(X),
        PteFlags(KERNEL_RW).has(W),
        PteFlags(USER_RX).has(X),
        PteFlags(USER_RW).has(W),
{
    lemma_named_permissions();
}

pub proof fn lemma_named_permissions()
    by (bit_vector)
    ensures
        KERNEL_RX == 0x6b,
        KERNEL_RO == 0x63,
        KERNEL_RW == 0xe7,
        USER_RW == 0xd7,
        USER_RX == 0x5b,
        USER_RO == 0x53,
        forall|f: u64|
            f == 0x6b || f == 0x63 || f == 0xe7 ==> #[trigger] (f & 0x10) == 0 && f & 0x20 == 0x20
                && f & 0x0e != 0 && f & 0x02 == 0x02,
        forall|f: u64|
            f == 0xd7 || f == 0x5b || f == 0x53 ==> #[trigger] (f & 0x10) == 0x10 && f & 0x20 == 0
                && f & 0x0e != 0 && f & 0x02 == 0x02,
        forall|f: u64|
            f == 0x6b || f == 0x63 || f == 0xe7 || f == 0xd7 || f == 0x5b || f == 0x53
                ==> #[trigger] (f & 0x04) != 0x04 || f & 0x08 != 0x08,
        0x6bu64 & 0x08 == 0x08,
        0xe7u64 & 0x04 == 0x04,
        0x5bu64 & 0x08 == 0x08,
        0xd7u64 & 0x04 == 0x04,
{
}

// --- Entries ---

const PPN_SHIFT: u64 = 10;

const PPN_MASK: u64 = 0x3f_ffff_ffff_fc00;

/// One page table entry: a page number at bit 10, and the flags below it.
#[derive(Clone, Copy, PartialEq, Eq, Structural, Debug)]
pub struct Pte(pub u64);

impl Pte {
    /// The valid bit is set.
    pub open spec fn valid(self) -> bool {
        self.0 & V != 0
    }

    /// The low eight bits.
    pub open spec fn flags_spec(self) -> PteFlags {
        PteFlags(self.0 & 0xff)
    }

    /// Valid, and maps memory.
    pub open spec fn leaf_entry(self) -> bool {
        self.valid() && self.flags_spec().leaf()
    }

    /// Valid, and points at another table.
    pub open spec fn branch_entry(self) -> bool {
        self.valid() && !self.flags_spec().leaf()
    }

    /// The page number it stores, as an address.
    pub open spec fn target(self) -> u64 {
        (((self.0 as int / 1024) % 0x1000_0000_0000) * 4096) as u64
    }

    /// The entry that maps `pa` with `flags`.
    pub open spec fn leaf_of(pa: u64, flags: u64) -> Pte {
        Pte(((pa / 4096) as u64) << 10 | (flags | V))
    }

    /// The entry that points at the table at `pa`.
    pub open spec fn branch_of(pa: u64) -> Pte {
        Pte(((pa / 4096) as u64) << 10 | V)
    }

    /// An entry that maps nothing.
    pub fn empty() -> (r: Self)
        ensures
            r.0 == 0,
            !r.valid(),
    {
        proof {
            lemma_empty_entry();
        }
        Pte(0)
    }

    pub fn bits(self) -> (r: u64)
        ensures
            r == self.0,
    {
        self.0
    }

    /// A leaf mapping `pa` with `flags`.
    pub fn leaf(pa: PhysAddr, flags: PteFlags) -> (r: Self)
        ensures
            r == Self::leaf_of(pa.0, flags.0),
    {
        Pte((pa.page_number() << PPN_SHIFT) | flags.union(PteFlags(V)).bits())
    }

    /// A branch pointing at the next-level table at `pa`.
    pub fn branch(pa: PhysAddr) -> (r: Self)
        ensures
            r == Self::branch_of(pa.0),
    {
        Pte((pa.page_number() << PPN_SHIFT) | V)
    }

    pub fn is_valid(self) -> (r: bool)
        ensures
            r == self.valid(),
    {
        self.0 & V != 0
    }

    pub fn flags(self) -> (r: PteFlags)
        ensures
            r == self.flags_spec(),
    {
        PteFlags::from_bits(self.0)
    }

    pub fn is_leaf(self) -> (r: bool)
        ensures
            r == self.leaf_entry(),
    {
        self.is_valid() && self.flags().is_leaf()
    }

    pub fn is_branch(self) -> (r: bool)
        ensures
            r == self.branch_entry(),
    {
        self.is_valid() && !self.flags().is_leaf()
    }

    /// Frame for a leaf, next-level table for a branch.
    pub fn phys_addr(self) -> (r: PhysAddr)
        ensures
            r.0 == self.target(),
            r.0 % PAGE_SIZE == 0,
            r.0 < crate::mm::addr::PHYS_LIMIT,
    {
        proof {
            lemma_target(self.0);
        }
        PhysAddr(((self.0 & PPN_MASK) >> PPN_SHIFT) << PAGE_SHIFT)
    }
}

/// A zero word is not a valid entry.
pub proof fn lemma_empty_entry()
    by (bit_vector)
    ensures
        0u64 & 1 == 0,
{
}

proof fn lemma_target(e: u64)
    by (bit_vector)
    ensures
        ((e & 0x3f_ffff_ffff_fc00) >> 10) << 12 == ((e / 1024) % 0x1000_0000_0000) * 4096,
        (((e & 0x3f_ffff_ffff_fc00) >> 10) << 12) % 4096 == 0,
        ((e & 0x3f_ffff_ffff_fc00) >> 10) << 12 < 0x100_0000_0000_0000,
{
}

proof fn lemma_entry_bits(pn: u64, flags: u64)
    by (bit_vector)
    requires
        pn < 0x1000_0000_0000,
        flags <= 0xff,
    ensures
        ((pn << 10 | (flags | 1)) / 1024) % 0x1000_0000_0000 == pn,
        (pn << 10 | (flags | 1)) & 1 != 0,
        (pn << 10 | (flags | 1)) & 0xff == flags | 1,
        (flags | 1) & 0x0e == flags & 0x0e,
        flags | 1 <= 0xff,
        ((pn << 10 | 1) / 1024) % 0x1000_0000_0000 == pn,
        (pn << 10 | 1) & 1 != 0,
        (pn << 10 | 1) & 0xff == 1,
        (1u64 & 0x0e) == 0,
{
}

/// A leaf gives back the page and the flags it was made from.
pub proof fn leaf_entries_round_trip(pa: u64, flags: PteFlags)
    requires
        pa < crate::mm::addr::PHYS_LIMIT,
        pa % 4096 == 0,
        flags.0 <= 0xff,
        flags.leaf(),
    ensures
        Pte::leaf_of(pa, flags.0).leaf_entry(),
        !Pte::leaf_of(pa, flags.0).branch_entry(),
        Pte::leaf_of(pa, flags.0).target() == pa,
        Pte::leaf_of(pa, flags.0).flags_spec().0 == flags.0 | V,
{
    lemma_entry_bits(pa / 4096, flags.0);
}

/// A branch gives back the table it was made from, and carries no permissions.
pub proof fn branch_entries_round_trip(pa: u64)
    requires
        pa < crate::mm::addr::PHYS_LIMIT,
        pa % 4096 == 0,
    ensures
        Pte::branch_of(pa).branch_entry(),
        !Pte::branch_of(pa).leaf_entry(),
        Pte::branch_of(pa).target() == pa,
        Pte::branch_of(pa).flags_spec().0 == V,
{
    lemma_entry_bits(pa / 4096, 0);
}

// --- Tables ---

/// One level of page table: exactly one 4 KiB page.
#[derive(Clone, Copy)]
pub struct PageTable {
    pub entries: [Pte; ENTRIES],
}

impl PageTable {
    pub fn empty() -> (r: Self)
        ensures
            forall|i: int| 0 <= i < ENTRIES ==> (#[trigger] r.entries@[i]).0 == 0,
    {
        PageTable { entries: [Pte(0);ENTRIES] }
    }
}

/// Entry `index` of the table at `table`.
pub open spec fn entry_at(m: Map<int, u64>, table: u64, index: int) -> Pte {
    Pte(m[crate::mm::memory::word_number(table, index)])
}

/// The word that holds the entry `va` uses in a table at `level`.
pub open spec fn entry_word(table: u64, va: u64, level: nat) -> int {
    crate::mm::memory::word_number(table, crate::mm::addr::vpn_of(va, level))
}

/// The entry `va` uses in the table at `table`, a table of `level`.
pub open spec fn entry_for(m: Map<int, u64>, table: u64, va: u64, level: nat) -> Pte {
    Pte(m[entry_word(table, va, level)])
}

// --- Mapping ---

#[derive(Debug, Clone, Copy, PartialEq, Eq, Structural)]
pub enum MapError {
    /// Virtual address is not sign-extended correctly for Sv39.
    NonCanonical,
    /// Level above [`MAX_LEVEL`].
    BadLevel,
    /// Virtual address not aligned to the page size at this level.
    MisalignedVirt,
    /// Physical address not aligned to the page size at this level.
    MisalignedPhys,
    /// Flags describe a branch (no R/W/X), or the reserved W-without-R encoding.
    BadFlags,
    /// Something is already mapped here.
    AlreadyMapped,
    /// Nothing is mapped here.
    NotMapped,
    /// A superpage already covers this address; splitting is not implemented.
    CoveredBySuperpage,
    /// The frame allocator is empty.
    OutOfFrames,
    /// An intermediate page table is missing. Userspace supplies them, so this
    /// is a request for one rather than something the kernel fixes.
    MissingTable,
}

/// Source of page table frames.
pub trait FrameAllocator {
    /// The frames still to come, in order.
    spec fn frames(&self) -> Seq<u64>;

    /// The memory the frames come from.
    spec fn source(&self) -> Seq<Region>;

    /// Hand out one zeroed frame.
    fn alloc_frame(&mut self, mem: &mut Memory) -> (r: Option<PhysAddr>)
        ensures
            final(self).source() == old(self).source(),
            old(self).frames().len() == 0 ==> {
                &&& r is None
                &&& final(self).frames() == old(self).frames()
                &&& final(mem)@ == old(mem)@
            },
            old(self).frames().len() > 0 ==> {
                &&& r == Some(PhysAddr(old(self).frames()[0]))
                &&& final(self).frames() == old(self).frames().drop_first()
                &&& final(mem)@ == crate::mm::memory::with_zero_frame(
                    old(mem)@,
                    old(self).frames()[0],
                )
            },
    ;
}

impl FrameAllocator for BumpAllocator {
    open spec fn frames(&self) -> Seq<u64> {
        self.pending()
    }

    open spec fn source(&self) -> Seq<Region> {
        self.home()
    }

    fn alloc_frame(&mut self, mem: &mut Memory) -> (r: Option<PhysAddr>) {
        BumpAllocator::alloc_frame(self, mem)
    }
}

/// Why a leaf may not be installed, if it may not; checked in this order.
pub open spec fn leaf_refused(va: u64, pa: u64, level: int, flags: PteFlags) -> Option<MapError> {
    if level > MAX_LEVEL {
        Some(MapError::BadLevel)
    } else if !crate::mm::addr::canonical(va) {
        Some(MapError::NonCanonical)
    } else if !flags.leaf() || !flags.permitted() {
        Some(MapError::BadFlags)
    } else if va as nat % crate::mm::addr::span(level as nat) != 0 {
        Some(MapError::MisalignedVirt)
    } else if pa as nat % crate::mm::addr::span(level as nat) != 0 {
        Some(MapError::MisalignedPhys)
    } else {
        None
    }
}

/// Where following an address down a tree of tables leads.
pub enum Walk {
    /// The table that holds the address's entry at the wanted level.
    Table(u64),
    /// A table on the way is missing.
    Missing,
    /// A leaf on the way already covers the address.
    Covered,
}

/// Follow `va` from `table`, a table of level `from`, down to a table of level
/// `to`.
pub open spec fn walk(m: Map<int, u64>, table: u64, va: u64, from: nat, to: nat) -> Walk
    decreases from,
{
    if from <= to {
        Walk::Table(table)
    } else {
        let e = entry_for(m, table, va, from);
        if !e.valid() {
            Walk::Missing
        } else if e.leaf_entry() {
            Walk::Covered
        } else {
            walk(m, e.target(), va, (from - 1) as nat, to)
        }
    }
}

/// Memory, and the outcome, of putting `entry` where `va` belongs at `level`,
/// under tables that must already be there.
pub open spec fn installed(
    m: Map<int, u64>,
    root: u64,
    va: u64,
    level: nat,
    entry: Pte,
) -> (Map<int, u64>, Result<(), MapError>) {
    match walk(m, root, va, MAX_LEVEL as nat, level) {
        Walk::Missing => (m, Err(MapError::MissingTable)),
        Walk::Covered => (m, Err(MapError::CoveredBySuperpage)),
        Walk::Table(table) => if entry_for(m, table, va, level).valid() {
            (m, Err(MapError::AlreadyMapped))
        } else {
            (m.insert(entry_word(table, va, level), entry.0), Ok(()))
        },
    }
}

/// What installing a leaf does when no table may be created.
pub open spec fn leaf_installed(
    m: Map<int, u64>,
    root: u64,
    va: u64,
    pa: u64,
    level: int,
    flags: PteFlags,
) -> (Map<int, u64>, Result<(), MapError>) {
    match leaf_refused(va, pa, level, flags) {
        Some(e) => (m, Err(e)),
        None => installed(m, root, va, level as nat, Pte::leaf_of(pa, flags.0)),
    }
}

/// What installing an intermediate table does.
pub open spec fn table_installed(
    m: Map<int, u64>,
    root: u64,
    va: u64,
    table: u64,
    level: int,
) -> (Map<int, u64>, Result<(), MapError>) {
    if level == 0 || level > MAX_LEVEL {
        (m, Err(MapError::BadLevel))
    } else if !crate::mm::addr::canonical(va) {
        (m, Err(MapError::NonCanonical))
    } else if table % 4096 != 0 {
        (m, Err(MapError::MisalignedPhys))
    } else {
        installed(m, root, va, level as nat, Pte::branch_of(table))
    }
}

/// Memory, the frames still to come, and the outcome, after mapping with
/// missing tables filled in from the allocator.
pub struct Mapped {
    pub mem: Map<int, u64>,
    pub frames: Seq<u64>,
    pub result: Result<(), MapError>,
}

/// Put `leaf` where `va` belongs at `level`, starting at a table of level
/// `from` and creating every table that is missing on the way.
pub open spec fn grown(
    m: Map<int, u64>,
    frames: Seq<u64>,
    table: u64,
    va: u64,
    from: nat,
    level: nat,
    leaf: Pte,
) -> Mapped
    decreases from,
{
    let w = entry_word(table, va, from);
    let e = Pte(m[w]);
    if from <= level {
        if entry_for(m, table, va, level).valid() {
            Mapped { mem: m, frames, result: Err(MapError::AlreadyMapped) }
        } else {
            Mapped { mem: m.insert(entry_word(table, va, level), leaf.0), frames, result: Ok(()) }
        }
    } else if !e.valid() {
        if frames.len() == 0 {
            Mapped { mem: m, frames, result: Err(MapError::OutOfFrames) }
        } else {
            let branch = Pte::branch_of(frames[0]);
            grown(
                crate::mm::memory::with_zero_frame(m, frames[0]).insert(w, branch.0),
                frames.drop_first(),
                branch.target(),
                va,
                (from - 1) as nat,
                level,
                leaf,
            )
        }
    } else if e.leaf_entry() {
        Mapped { mem: m, frames, result: Err(MapError::CoveredBySuperpage) }
    } else {
        grown(m, frames, e.target(), va, (from - 1) as nat, level, leaf)
    }
}

/// What mapping one page does.
#[verifier::opaque]
pub open spec fn mapped(
    m: Map<int, u64>,
    frames: Seq<u64>,
    root: u64,
    va: u64,
    pa: u64,
    level: int,
    flags: PteFlags,
) -> Mapped {
    match leaf_refused(va, pa, level, flags) {
        Some(e) => Mapped { mem: m, frames, result: Err(e) },
        None => grown(
            m,
            frames,
            root,
            va,
            MAX_LEVEL as nat,
            level as nat,
            Pte::leaf_of(pa, flags.0),
        ),
    }
}

/// Whether a page of `level` fits in `remaining` bytes at these addresses.
pub open spec fn fits(va: int, pa: int, remaining: int, level: nat) -> bool {
    &&& crate::mm::addr::span(level) <= remaining
    &&& va % crate::mm::addr::span(level) as int == 0
    &&& pa % crate::mm::addr::span(level) as int == 0
}

/// The largest page that fits.
pub open spec fn best_level(va: int, pa: int, remaining: int) -> nat {
    if fits(va, pa, remaining, 2) {
        2
    } else if fits(va, pa, remaining, 1) {
        1
    } else {
        0
    }
}

/// What mapping the rest of a range does, from `offset` on.
pub open spec fn range_mapped(
    m: Map<int, u64>,
    frames: Seq<u64>,
    root: u64,
    va: u64,
    pa: u64,
    size: u64,
    flags: PteFlags,
    offset: int,
) -> Mapped
    decreases size + 4096 - offset,
    via range_mapped_shrinks
{
    if offset < 0 || offset >= size {
        Mapped { mem: m, frames, result: Ok(()) }
    } else {
        let level = best_level(va + offset, pa + offset, size - offset);
        let step = mapped(
            m,
            frames,
            root,
            (va + offset) as u64,
            (pa + offset) as u64,
            level as int,
            flags,
        );
        if step.result is Err {
            step
        } else {
            range_mapped(
                step.mem,
                step.frames,
                root,
                va,
                pa,
                size,
                flags,
                offset + crate::mm::addr::span(level),
            )
        }
    }
}

#[via_fn]
proof fn range_mapped_shrinks(
    m: Map<int, u64>,
    frames: Seq<u64>,
    root: u64,
    va: u64,
    pa: u64,
    size: u64,
    flags: PteFlags,
    offset: int,
) {
    crate::mm::addr::lemma_spans();
}

/// What the hardware finds at `va` below a table of level `level`: the physical
/// address, the flags of the leaf, and the leaf's level.
pub open spec fn translated_from(m: Map<int, u64>, table: u64, va: u64, level: nat) -> Option<
    (PhysAddr, PteFlags, usize),
>
    decreases level,
{
    let e = entry_for(m, table, va, level);
    if !e.valid() {
        None
    } else if e.leaf_entry() {
        Some(
            (
                PhysAddr(e.target() | (va & ((crate::mm::addr::span(level) - 1) as u64))),
                e.flags_spec(),
                level as usize,
            ),
        )
    } else if level == 0 {
        None
    } else {
        translated_from(m, e.target(), va, (level - 1) as nat)
    }
}

/// What the hardware finds at `va`.
pub open spec fn translated(m: Map<int, u64>, root: u64, va: u64) -> Option<
    (PhysAddr, PteFlags, usize),
> {
    if crate::mm::addr::canonical(va) {
        translated_from(m, root, va, MAX_LEVEL as nat)
    } else {
        None
    }
}

/// What removing the leaf at `va` does, below a table of level `level`.
pub open spec fn unmapped_from(m: Map<int, u64>, table: u64, va: u64, level: nat) -> (
    Map<int, u64>,
    Result<PhysAddr, MapError>,
)
    decreases level,
{
    let e = entry_for(m, table, va, level);
    if !e.valid() {
        (m, Err(MapError::NotMapped))
    } else if e.leaf_entry() {
        (m.insert(entry_word(table, va, level), 0), Ok(PhysAddr(e.target())))
    } else if level == 0 {
        (m, Err(MapError::NotMapped))
    } else {
        unmapped_from(m, e.target(), va, (level - 1) as nat)
    }
}

/// What removing the leaf at `va` does.
pub open spec fn unmapped(m: Map<int, u64>, root: u64, va: u64) -> (
    Map<int, u64>,
    Result<PhysAddr, MapError>,
) {
    if crate::mm::addr::canonical(va) {
        unmapped_from(m, root, va, MAX_LEVEL as nat)
    } else {
        (m, Err(MapError::NonCanonical))
    }
}

/// Whether an entry of a table of level `level` is what a capability to the
/// memory at `pa` installs: a page of its own, or a table.
pub open spec fn is_own_entry(e: Pte, pa: u64, page: bool, level: nat) -> bool {
    &&& e.target() == pa
    &&& if page {
        e.leaf_entry() && level == 0
    } else {
        e.branch_entry() && level > 0
    }
}

/// What removing the entry for the page or table at `pa` from the path of `va`
/// does, below a table of level `level`, and whether there was one.
pub open spec fn removed_from(
    m: Map<int, u64>,
    table: u64,
    va: u64,
    pa: u64,
    page: bool,
    level: nat,
) -> (Map<int, u64>, bool)
    decreases level,
{
    let e = entry_for(m, table, va, level);
    if is_own_entry(e, pa, page, level) {
        (m.insert(entry_word(table, va, level), 0), true)
    } else if e.branch_entry() && level > 0 {
        removed_from(m, e.target(), va, pa, page, (level - 1) as nat)
    } else {
        (m, false)
    }
}

/// What removing the entry for the page or table at `pa` from the path of `va`
/// does.
pub open spec fn removed(m: Map<int, u64>, root: u64, va: u64, pa: u64, page: bool) -> (
    Map<int, u64>,
    Result<(), MapError>,
) {
    if !crate::mm::addr::canonical(va) {
        (m, Err(MapError::NonCanonical))
    } else {
        let done = removed_from(m, root, va, pa, page, MAX_LEVEL as nat);
        (
            done.0,
            if done.1 {
                Ok(())
            } else {
                Err(MapError::NotMapped)
            },
        )
    }
}

/// A page table tree, identified by the physical address of its root.
#[derive(Clone, Copy)]
pub struct Mapper {
    pub root: PhysAddr,
}

impl Mapper {
    /// Wrap an existing root table.
    pub fn from_root(root: PhysAddr) -> (r: Self)
        ensures
            r.root == root,
    {
        Mapper { root }
    }

    /// Allocate a fresh, empty root table.
    pub fn new<F: FrameAllocator>(alloc: &mut F, mem: &mut Memory) -> (r: Result<Self, MapError>)
        ensures
            final(alloc).source() == old(alloc).source(),
            old(alloc).frames().len() == 0 ==> {
                &&& r == Err::<Mapper, MapError>(MapError::OutOfFrames)
                &&& final(alloc).frames() == old(alloc).frames()
                &&& final(mem)@ == old(mem)@
            },
            old(alloc).frames().len() > 0 ==> {
                &&& r == Ok::<Mapper, MapError>(Mapper { root: PhysAddr(old(alloc).frames()[0]) })
                &&& final(alloc).frames() == old(alloc).frames().drop_first()
                &&& final(mem)@ == crate::mm::memory::with_zero_frame(
                    old(mem)@,
                    old(alloc).frames()[0],
                )
            },
    {
        // The allocator zeroes, so a fresh root is entirely invalid entries.
        match alloc.alloc_frame(mem) {
            Some(root) => Ok(Mapper { root }),
            None => Err(MapError::OutOfFrames),
        }
    }

    pub fn root(&self) -> (r: PhysAddr)
        ensures
            r == self.root,
    {
        self.root
    }

    /// The root table itself.
    pub fn root_table(&self, mem: &Memory) -> (r: PageTable)
        ensures
            forall|i: int|
                0 <= i < ENTRIES ==> #[trigger] r.entries@[i] == entry_at(mem@, self.root.0, i),
    {
        let mut table: PageTable = PageTable::empty();
        let mut i: usize = 0;
        while i < ENTRIES
            invariant
                i <= ENTRIES,
                forall|k: int|
                    0 <= k < i ==> #[trigger] table.entries@[k] == entry_at(mem@, self.root.0, k),
            decreases ENTRIES - i,
        {
            table.entries[i] = Pte(mem.read(self.root.0, i as u64));
            i = i + 1;
        }
        table
    }

    /// Map one page of the size implied by `level`.
    pub fn map<F: FrameAllocator>(
        &mut self,
        va: VirtAddr,
        pa: PhysAddr,
        level: usize,
        flags: PteFlags,
        alloc: &mut F,
        mem: &mut Memory,
    ) -> (r: Result<(), MapError>)
        ensures
            *final(self) == *old(self),
            final(alloc).source() == old(alloc).source(),
            r == mapped(
                old(mem)@,
                old(alloc).frames(),
                old(self).root.0,
                va.0,
                pa.0,
                level as int,
                flags,
            ).result,
            final(mem)@ == mapped(
                old(mem)@,
                old(alloc).frames(),
                old(self).root.0,
                va.0,
                pa.0,
                level as int,
                flags,
            ).mem,
            final(alloc).frames() == mapped(
                old(mem)@,
                old(alloc).frames(),
                old(self).root.0,
                va.0,
                pa.0,
                level as int,
                flags,
            ).frames,
    {
        proof {
            reveal(mapped);
        }
        match self.check_leaf(va, pa, level, flags) {
            Ok(()) => {},
            Err(e) => {
                return Err(e);
            },
        }
        let ghost leaf = Pte::leaf_of(pa.0, flags.0);
        let ghost whole = grown(
            mem@,
            alloc.frames(),
            self.root.0,
            va.0,
            MAX_LEVEL as nat,
            level as nat,
            leaf,
        );
        let mut table: PhysAddr = self.root;
        // Descend, creating branches, until we are at the level that will hold the leaf.
        let mut current: usize = MAX_LEVEL;
        while current > level
            invariant
                level <= current <= MAX_LEVEL,
                *self == *old(self),
                alloc.source() == old(alloc).source(),
                leaf == Pte::leaf_of(pa.0, flags.0),
                whole == mapped(
                    old(mem)@,
                    old(alloc).frames(),
                    old(self).root.0,
                    va.0,
                    pa.0,
                    level as int,
                    flags,
                ),
                whole == grown(
                    mem@,
                    alloc.frames(),
                    table.0,
                    va.0,
                    current as nat,
                    level as nat,
                    leaf,
                ),
            decreases current,
        {
            let index: u64 = va.vpn(current) as u64;
            let mut entry: Pte = Pte(mem.read(table.0, index));
            if !entry.is_valid() {
                match alloc.alloc_frame(mem) {
                    Some(frame) => {
                        entry = Pte::branch(frame);
                        mem.write(table.0, index, entry.bits());
                    },
                    None => {
                        return Err(MapError::OutOfFrames);
                    },
                }
            } else if entry.is_leaf() {
                return Err(MapError::CoveredBySuperpage);
            }
            table = entry.phys_addr();
            current = current - 1;
        }
        let index: u64 = va.vpn(level) as u64;
        let entry: Pte = Pte(mem.read(table.0, index));
        if entry.is_valid() {
            return Err(MapError::AlreadyMapped);
        }
        mem.write(table.0, index, Pte::leaf(pa, flags).bits());
        Ok(())
    }

    /// Follow `va` down to the table of `level` that holds its entry.
    fn descend(&self, va: VirtAddr, level: usize, mem: &Memory) -> (r: Result<PhysAddr, MapError>)
        requires
            level <= MAX_LEVEL,
        ensures
            match walk(mem@, self.root.0, va.0, MAX_LEVEL as nat, level as nat) {
                Walk::Table(t) => r == Ok::<PhysAddr, MapError>(PhysAddr(t)),
                Walk::Missing => r == Err::<PhysAddr, MapError>(MapError::MissingTable),
                Walk::Covered => r == Err::<PhysAddr, MapError>(MapError::CoveredBySuperpage),
            },
    {
        let mut table: PhysAddr = self.root;
        let mut current: usize = MAX_LEVEL;
        while current > level
            invariant
                level <= current <= MAX_LEVEL,
                walk(mem@, self.root.0, va.0, MAX_LEVEL as nat, level as nat) == walk(
                    mem@,
                    table.0,
                    va.0,
                    current as nat,
                    level as nat,
                ),
            decreases current,
        {
            let entry: Pte = Pte(mem.read(table.0, va.vpn(current) as u64));
            if !entry.is_valid() {
                return Err(MapError::MissingTable);
            }
            if entry.is_leaf() {
                return Err(MapError::CoveredBySuperpage);
            }
            table = entry.phys_addr();
            current = current - 1;
        }
        Ok(table)
    }

    /// Put `entry` where `va` belongs at `level`.
    fn install(&mut self, va: VirtAddr, level: usize, entry: Pte, mem: &mut Memory) -> (r: Result<
        (),
        MapError,
    >)
        requires
            level <= MAX_LEVEL,
        ensures
            *final(self) == *old(self),
            (final(mem)@, r) == installed(old(mem)@, old(self).root.0, va.0, level as nat, entry),
    {
        let table: PhysAddr = match self.descend(va, level, mem) {
            Ok(t) => t,
            Err(e) => {
                return Err(e);
            },
        };
        let index: u64 = va.vpn(level) as u64;
        let held: Pte = Pte(mem.read(table.0, index));
        if held.is_valid() {
            return Err(MapError::AlreadyMapped);
        }
        mem.write(table.0, index, entry.bits());
        Ok(())
    }

    /// Install a leaf without an allocator, failing if a branch is missing.
    ///
    /// Userspace supplies its own page table objects, so the kernel has nothing
    /// to allocate from here: a missing intermediate table is a
    /// [`MapError::MissingTable`] for the pager to fix, not a frame the kernel
    /// quietly takes.
    pub fn map_leaf(
        &mut self,
        va: VirtAddr,
        pa: PhysAddr,
        level: usize,
        flags: PteFlags,
        mem: &mut Memory,
    ) -> (r: Result<(), MapError>)
        ensures
            *final(self) == *old(self),
            (final(mem)@, r) == leaf_installed(
                old(mem)@,
                old(self).root.0,
                va.0,
                pa.0,
                level as int,
                flags,
            ),
    {
        match self.check_leaf(va, pa, level, flags) {
            Ok(()) => {},
            Err(e) => {
                return Err(e);
            },
        }
        self.install(va, level, Pte::leaf(pa, flags), mem)
    }

    /// Install an intermediate table supplied by userspace at `level`.
    pub fn map_table(
        &mut self,
        va: VirtAddr,
        table_pa: PhysAddr,
        level: usize,
        mem: &mut Memory,
    ) -> (r: Result<(), MapError>)
        ensures
            *final(self) == *old(self),
            (final(mem)@, r) == table_installed(
                old(mem)@,
                old(self).root.0,
                va.0,
                table_pa.0,
                level as int,
            ),
    {
        if level == 0 || level > MAX_LEVEL {
            return Err(MapError::BadLevel);
        }
        if !va.is_canonical() {
            return Err(MapError::NonCanonical);
        }
        proof {
            crate::bits::lemma_known_powers();
        }
        if !table_pa.is_aligned(PAGE_SIZE) {
            return Err(MapError::MisalignedPhys);
        }
        self.install(va, level, Pte::branch(table_pa), mem)
    }

    fn check_leaf(&self, va: VirtAddr, pa: PhysAddr, level: usize, flags: PteFlags) -> (r: Result<
        (),
        MapError,
    >)
        ensures
            match leaf_refused(va.0, pa.0, level as int, flags) {
                Some(e) => r == Err::<(), MapError>(e),
                None => r is Ok,
            },
            r is Ok ==> level <= MAX_LEVEL,
    {
        if level > MAX_LEVEL {
            return Err(MapError::BadLevel);
        }
        if !va.is_canonical() {
            return Err(MapError::NonCanonical);
        }
        if !flags.is_leaf() || !flags.is_valid_combination() {
            return Err(MapError::BadFlags);
        }
        let size: u64 = page_size(level);
        proof {
            crate::bits::lemma_power_of_two_positive(size);
        }
        if !va.is_aligned(size) {
            return Err(MapError::MisalignedVirt);
        }
        if !pa.is_aligned(size) {
            return Err(MapError::MisalignedPhys);
        }
        Ok(())
    }

    /// Map `size` bytes, choosing the largest superpage that fits at each step.
    pub fn map_range<F: FrameAllocator>(
        &mut self,
        va: VirtAddr,
        pa: PhysAddr,
        size: u64,
        flags: PteFlags,
        alloc: &mut F,
        mem: &mut Memory,
    ) -> (r: Result<(), MapError>)
        requires
            va.0 + size <= u64::MAX + 1,
            pa.0 + size <= u64::MAX + 1,
            size <= u64::MAX - 4095,
        ensures
            *final(self) == *old(self),
            final(alloc).source() == old(alloc).source(),
            r == range_mapped(
                old(mem)@,
                old(alloc).frames(),
                old(self).root.0,
                va.0,
                pa.0,
                size,
                flags,
                0,
            ).result,
            final(mem)@ == range_mapped(
                old(mem)@,
                old(alloc).frames(),
                old(self).root.0,
                va.0,
                pa.0,
                size,
                flags,
                0,
            ).mem,
            final(alloc).frames() == range_mapped(
                old(mem)@,
                old(alloc).frames(),
                old(self).root.0,
                va.0,
                pa.0,
                size,
                flags,
                0,
            ).frames,
    {
        proof {
            crate::mm::addr::lemma_spans();
            crate::bits::lemma_known_powers();
        }
        let ghost whole = range_mapped(
            mem@,
            alloc.frames(),
            self.root.0,
            va.0,
            pa.0,
            size,
            flags,
            0,
        );
        let mut offset: u64 = 0;
        while offset < size
            invariant
                *self == *old(self),
                alloc.source() == old(alloc).source(),
                va.0 + size <= u64::MAX + 1,
                pa.0 + size <= u64::MAX + 1,
                size <= u64::MAX - 4095,
                crate::mm::addr::span(0) == 4096,
                crate::mm::addr::span(1) == 0x20_0000,
                crate::mm::addr::span(2) == 0x4000_0000,
                whole == range_mapped(
                    old(mem)@,
                    old(alloc).frames(),
                    old(self).root.0,
                    va.0,
                    pa.0,
                    size,
                    flags,
                    0,
                ),
                whole == range_mapped(
                    mem@,
                    alloc.frames(),
                    self.root.0,
                    va.0,
                    pa.0,
                    size,
                    flags,
                    offset as int,
                ),
            decreases size + 4096 - offset,
        {
            let cur_va: VirtAddr = va.offset(offset);
            let cur_pa: PhysAddr = pa.offset(offset);
            let remaining: u64 = size - offset;
            let mut level: usize = MAX_LEVEL;
            let mut step: u64 = page_size(level);
            while level > 0 && !(step <= remaining && cur_va.is_aligned(step) && cur_pa.is_aligned(
                step,
            ))
                invariant
                    level <= MAX_LEVEL,
                    step == crate::mm::addr::span(level as nat),
                    crate::bits::is_power_of_two(step),
                    best_level(cur_va.0 as int, cur_pa.0 as int, remaining as int) <= level,
                    crate::mm::addr::span(0) == 4096,
                    crate::mm::addr::span(1) == 0x20_0000,
                    crate::mm::addr::span(2) == 0x4000_0000,
                decreases level,
            {
                level = level - 1;
                step = page_size(level);
            }
            assert(level == best_level(cur_va.0 as int, cur_pa.0 as int, remaining as int));
            match self.map(cur_va, cur_pa, level, flags, alloc, mem) {
                Ok(()) => {},
                Err(e) => {
                    return Err(e);
                },
            }
            offset = offset + step;
        }
        Ok(())
    }

    /// Resolve a virtual address the way the hardware would.
    pub fn translate(&self, va: VirtAddr, mem: &Memory) -> (r: Option<(PhysAddr, PteFlags, usize)>)
        ensures
            r == translated(mem@, self.root.0, va.0),
    {
        if !va.is_canonical() {
            return None;
        }
        let mut table: PhysAddr = self.root;
        let mut level: usize = MAX_LEVEL;
        loop
            invariant
                level <= MAX_LEVEL,
                translated_from(mem@, self.root.0, va.0, MAX_LEVEL as nat) == translated_from(
                    mem@,
                    table.0,
                    va.0,
                    level as nat,
                ),
                crate::mm::addr::canonical(va.0),
            decreases level,
        {
            let entry: Pte = Pte(mem.read(table.0, va.vpn(level) as u64));
            if !entry.is_valid() {
                return None;
            }
            if entry.is_leaf() {
                let size: u64 = page_size(level);
                proof {
                    crate::bits::lemma_power_of_two_positive(size);
                }
                let mask: u64 = size - 1;
                let pa: PhysAddr = PhysAddr(entry.phys_addr().0 | (va.0 & mask));
                return Some((pa, entry.flags(), level));
            }
            if level == 0 {
                // A branch at level 0, which the format forbids.
                return None;
            }
            table = entry.phys_addr();
            level = level - 1;
        }
    }

    /// Remove a mapping, returning the physical address it pointed at.
    pub fn unmap(&mut self, va: VirtAddr, mem: &mut Memory) -> (r: Result<PhysAddr, MapError>)
        ensures
            *final(self) == *old(self),
            (final(mem)@, r) == unmapped(old(mem)@, old(self).root.0, va.0),
    {
        if !va.is_canonical() {
            return Err(MapError::NonCanonical);
        }
        let mut table: PhysAddr = self.root;
        let mut level: usize = MAX_LEVEL;
        loop
            invariant
                level <= MAX_LEVEL,
                *self == *old(self),
                mem@ == old(mem)@,
                unmapped_from(mem@, self.root.0, va.0, MAX_LEVEL as nat) == unmapped_from(
                    mem@,
                    table.0,
                    va.0,
                    level as nat,
                ),
                crate::mm::addr::canonical(va.0),
            decreases level,
        {
            let index: u64 = va.vpn(level) as u64;
            let entry: Pte = Pte(mem.read(table.0, index));
            if !entry.is_valid() {
                return Err(MapError::NotMapped);
            }
            if entry.is_leaf() {
                let pa: PhysAddr = entry.phys_addr();
                mem.write(table.0, index, 0);
                return Ok(pa);
            }
            if level == 0 {
                return Err(MapError::NotMapped);
            }
            table = entry.phys_addr();
            level = level - 1;
        }
    }

    /// Remove the entry on the path of `va` that names the page at `pa`, or the
    /// table there. Nothing else that `va` leads to is touched.
    pub fn remove(&mut self, va: VirtAddr, pa: PhysAddr, page: bool, mem: &mut Memory) -> (r: Result<
        (),
        MapError,
    >)
        ensures
            *final(self) == *old(self),
            (final(mem)@, r) == removed(old(mem)@, old(self).root.0, va.0, pa.0, page),
    {
        if !va.is_canonical() {
            return Err(MapError::NonCanonical);
        }
        let mut table: PhysAddr = self.root;
        let mut level: usize = MAX_LEVEL;
        loop
            invariant
                level <= MAX_LEVEL,
                *self == *old(self),
                mem@ == old(mem)@,
                removed_from(mem@, self.root.0, va.0, pa.0, page, MAX_LEVEL as nat) == removed_from(
                    mem@,
                    table.0,
                    va.0,
                    pa.0,
                    page,
                    level as nat,
                ),
                crate::mm::addr::canonical(va.0),
            decreases level,
        {
            let index: u64 = va.vpn(level) as u64;
            let entry: Pte = Pte(mem.read(table.0, index));
            let own: bool = if page {
                entry.is_leaf() && level == 0
            } else {
                entry.is_branch() && level > 0
            };
            if own && entry.phys_addr().0 == pa.0 {
                mem.write(table.0, index, 0);
                return Ok(());
            }
            if level == 0 || !entry.is_branch() {
                return Err(MapError::NotMapped);
            }
            table = entry.phys_addr();
            level = level - 1;
        }
    }
}

} // verus!
