//! Address spaces: what a thread runs in.

use crate::mm::addr::{PhysAddr, VirtAddr};
use crate::mm::memory::Memory;
use crate::mm::page_table::{
    page_size, FrameAllocator, MapError, Mapper, PteFlags, ENTRIES, MAX_LEVEL, U,
};
use vstd::prelude::*;

verus! {

/// First root-table index belonging to the kernel half.
pub const KERNEL_ROOT_FIRST: usize = 256;

/// Where the user half ends: the first address that is not a user address.
pub const USER_TOP: u64 = 0x40_0000_0000;

pub const SATP_SV39: u64 = 0x8000_0000_0000_0000;

pub const SATP_ASID_SHIFT: u64 = 44;

/// An address space identifier: `satp`'s ASID field, 16 bits on RV64.
#[derive(Debug, Clone, Copy, PartialEq, Eq, Structural, PartialOrd, Ord)]
pub struct Asid(pub u16);

/// What every space uses until it is given an identifier of its own: such spaces
/// are kept apart by flushing.
pub const UNASSIGNED: u16 = 0;

impl Asid {
    pub fn new(value: u16) -> (r: Self)
        ensures
            r.0 == value,
    {
        Asid(value)
    }

    pub fn as_u16(self) -> (r: u16)
        ensures
            r == self.0,
    {
        self.0
    }
}

#[derive(Debug, Clone, Copy, PartialEq, Eq, Structural)]
pub enum AddressSpaceError {
    /// The address lies in the kernel half, which a user space may not touch.
    KernelHalf,
    /// The mapping lacks `U`, so userspace could not reach it in any case.
    NotUserAccessible,
    Mapping(MapError),
}

/// Whether an address belongs to the kernel's half of the root table.
pub open spec fn in_kernel_half(va: u64) -> bool {
    crate::mm::addr::vpn_of(va, MAX_LEVEL as nat) >= KERNEL_ROOT_FIRST
}

/// The last address of a range, or the top of the address space.
pub open spec fn last_of(va: u64, size: u64) -> u64 {
    let more = if size == 0 {
        0
    } else {
        size - 1
    };
    if va + more > u64::MAX {
        u64::MAX
    } else {
        (va + more) as u64
    }
}

/// Why a user mapping of `size` bytes at `va` is refused, if it is: all of it
/// has to lie in the user half.
pub open spec fn user_refused(va: u64, size: u64) -> Option<AddressSpaceError> {
    if !crate::mm::addr::canonical(va) {
        Some(AddressSpaceError::Mapping(MapError::NonCanonical))
    } else if last_of(va, size) >= USER_TOP {
        Some(AddressSpaceError::KernelHalf)
    } else {
        None
    }
}

/// Why a user mapping with these permissions is refused, if it is.
pub open spec fn mapping_refused(va: u64, size: u64, flags: PteFlags) -> Option<AddressSpaceError> {
    match user_refused(va, size) {
        Some(e) => Some(e),
        None => if !flags.has(U) {
            Some(AddressSpaceError::NotUserAccessible)
        } else {
            None
        },
    }
}

/// A mapping error, as an address space reports it.
pub open spec fn lifted<T>(r: Result<T, MapError>) -> Result<T, AddressSpaceError> {
    match r {
        Ok(v) => Ok(v),
        Err(e) => Err(AddressSpaceError::Mapping(e)),
    }
}

/// Memory with the kernel's root entries copied into the table at `root`.
pub open spec fn with_kernel_half(m: Map<int, u64>, root: u64, kernel_root: u64) -> Map<int, u64> {
    let first = crate::mm::memory::word_number(root, 0);
    Map::total(
        |w: int|
            if first + KERNEL_ROOT_FIRST <= w < first + ENTRIES {
                m[crate::mm::memory::word_number(kernel_root, w - first)]
            } else {
                m[w]
            },
    )
}

/// One step of the fingerprint: rotate left by seven, then mix in an entry.
pub open spec fn mixed(acc: u64, entry: u64) -> u64 {
    ((acc << 7) | (acc >> 57)) ^ entry
}

/// The fingerprint of the kernel's root entries below `index`.
pub open spec fn fingerprint_to(m: Map<int, u64>, kernel_root: u64, index: int) -> u64
    decreases index,
{
    if index <= KERNEL_ROOT_FIRST {
        0
    } else {
        mixed(
            fingerprint_to(m, kernel_root, index - 1),
            m[crate::mm::memory::word_number(kernel_root, index - 1)],
        )
    }
}

/// The fingerprint of the kernel's root entries.
pub open spec fn fingerprint(m: Map<int, u64>, kernel_root: u64) -> u64 {
    fingerprint_to(m, kernel_root, ENTRIES as int)
}

/// A cheap summary of the kernel's root entries, to detect a changed kernel half.
pub fn kernel_half_fingerprint(kernel: &Mapper, mem: &Memory) -> (r: u64)
    ensures
        r == fingerprint(mem@, kernel.root.0),
{
    let mut acc: u64 = 0;
    let mut i: usize = KERNEL_ROOT_FIRST;
    while i < ENTRIES
        invariant
            KERNEL_ROOT_FIRST <= i <= ENTRIES,
            acc == fingerprint_to(mem@, kernel.root.0, i as int),
        decreases ENTRIES - i,
    {
        acc = ((acc << 7) | (acc >> 57)) ^ mem.read(kernel.root.0, i as u64);
        i = i + 1;
    }
    acc
}

/// The `satp` that installs `root` under `asid`.
pub open spec fn satp_of(root: u64, asid: Asid) -> u64 {
    SATP_SV39 | ((asid.0 as u64) << SATP_ASID_SHIFT) | (root / 4096)
}

/// The `satp` that installs `root` under `asid`.
///
/// Separate from [`AddressSpace`] because a userspace-built address space is a
/// retyped page table and a capability, not an `AddressSpace` value.
pub fn satp_for(root: PhysAddr, asid: Asid) -> (r: u64)
    ensures
        r == satp_of(root.0, asid),
{
    SATP_SV39 | ((asid.as_u16() as u64) << SATP_ASID_SHIFT) | root.page_number()
}

/// The fields of a `satp` value are the mode, the identifier and the page
/// number it was made from.
pub proof fn satp_holds_its_fields(root: u64, asid: Asid)
    requires
        root < crate::mm::addr::PHYS_LIMIT,
    ensures
        satp_of(root, asid) >> 60 == 8,
        (satp_of(root, asid) >> 44) & 0xffff == asid.0,
        satp_of(root, asid) & 0xfff_ffff_ffff == root / 4096,
{
    lemma_satp_fields(root / 4096, asid.0);
}

proof fn lemma_satp_fields(page: u64, asid: u16)
    by (bit_vector)
    requires
        page < 0x1000_0000_0000,
    ensures
        (0x8000_0000_0000_0000u64 | ((asid as u64) << 44) | page) >> 60 == 8,
        ((0x8000_0000_0000_0000u64 | ((asid as u64) << 44) | page) >> 44) & 0xffff == asid as u64,
        (0x8000_0000_0000_0000u64 | ((asid as u64) << 44) | page) & 0xfff_ffff_ffff == page,
{
}

/// Copy the kernel's root entries into a page table that is about to become an
/// address space root.
///
/// Every user root table needs these: RISC-V does not switch `satp` on a trap,
/// so the trap handler runs with the faulting thread's table installed and must
/// be mapped in it.
pub fn install_kernel_half(root: PhysAddr, kernel_root: PhysAddr, mem: &mut Memory)
    ensures
        final(mem)@ == with_kernel_half(old(mem)@, root.0, kernel_root.0),
{
    let ghost m = mem@;
    proof {
        mem.is_total();
    }
    let upper = Mapper::from_root(kernel_root).root_table(mem);
    let mut i: usize = KERNEL_ROOT_FIRST;
    let ghost first = crate::mm::memory::word_number(root.0, 0);
    while i < ENTRIES
        invariant
            KERNEL_ROOT_FIRST <= i <= ENTRIES,
            first == crate::mm::memory::word_number(root.0, 0),
            forall|k: int|
                0 <= k < ENTRIES ==> (#[trigger] upper.entries@[k]).0
                    == m[crate::mm::memory::word_number(kernel_root.0, k)],
            forall|w: int| #[trigger] mem@.dom().contains(w),
            forall|w: int| #[trigger]
                mem@[w] == if first + KERNEL_ROOT_FIRST <= w < first + i {
                    m[crate::mm::memory::word_number(kernel_root.0, w - first)]
                } else {
                    m[w]
                },
        decreases ENTRIES - i,
    {
        mem.write(root.0, i as u64, upper.entries[i].bits());
        i = i + 1;
    }
    assert(mem@ =~= with_kernel_half(m, root.0, kernel_root.0));
}

/// A user address space: an empty lower half over a shared copy of the kernel's.
///
/// Reclaiming the page table frames is revocation's business.
#[derive(Clone, Copy)]
pub struct AddressSpace {
    pub mapper: Mapper,
    pub asid: Asid,
    pub kernel_fingerprint: u64,
}

impl AddressSpace {
    /// Build a fresh space sharing `kernel`'s upper half.
    pub fn new<F: FrameAllocator>(kernel: &Mapper, alloc: &mut F, mem: &mut Memory) -> (r: Result<
        Self,
        MapError,
    >)
        ensures
            final(alloc).source() == old(alloc).source(),
            old(alloc).frames().len() == 0 ==> {
                &&& r == Err::<AddressSpace, MapError>(MapError::OutOfFrames)
                &&& final(alloc).frames() == old(alloc).frames()
                &&& final(mem)@ == old(mem)@
            },
            old(alloc).frames().len() > 0 ==> {
                let root = old(alloc).frames()[0];
                &&& r == Ok::<AddressSpace, MapError>(
                    AddressSpace {
                        mapper: Mapper { root: PhysAddr(root) },
                        asid: Asid(UNASSIGNED),
                        kernel_fingerprint: fingerprint(final(mem)@, kernel.root.0),
                    },
                )
                &&& final(alloc).frames() == old(alloc).frames().drop_first()
                &&& final(mem)@ == with_kernel_half(
                    crate::mm::memory::with_zero_frame(old(mem)@, root),
                    root,
                    kernel.root.0,
                )
            },
    {
        let mapper: Mapper = match Mapper::new(alloc, mem) {
            Ok(m) => m,
            Err(e) => {
                return Err(e);
            },
        };
        install_kernel_half(mapper.root(), kernel.root(), mem);
        Ok(
            AddressSpace {
                mapper,
                asid: Asid(UNASSIGNED),
                kernel_fingerprint: kernel_half_fingerprint(kernel, mem),
            },
        )
    }

    pub fn root(&self) -> (r: PhysAddr)
        ensures
            r == self.mapper.root,
    {
        self.mapper.root()
    }

    pub fn asid(&self) -> (r: Asid)
        ensures
            r == self.asid,
    {
        self.asid
    }

    /// Bind an ASID. The ASID pool is what hands these out.
    pub fn set_asid(&mut self, asid: Asid)
        ensures
            *final(self) == (AddressSpace { asid, ..*old(self) }),
    {
        self.asid = asid;
    }

    /// The `satp` value that makes this space current.
    pub fn satp(&self) -> (r: u64)
        ensures
            r == satp_of(self.mapper.root.0, self.asid),
    {
        satp_for(self.root(), self.asid)
    }

    /// Map one page. Rejects anything the kernel half owns, or without `U`.
    pub fn map<F: FrameAllocator>(
        &mut self,
        va: VirtAddr,
        pa: PhysAddr,
        level: usize,
        flags: PteFlags,
        alloc: &mut F,
        mem: &mut Memory,
    ) -> (r: Result<(), AddressSpaceError>)
        ensures
            *final(self) == *old(self),
            final(alloc).source() == old(alloc).source(),
            ({
                let shown = if level <= MAX_LEVEL {
                    level as nat
                } else {
                    MAX_LEVEL as nat
                };
                let done = crate::mm::page_table::mapped(
                    old(mem)@,
                    old(alloc).frames(),
                    old(self).mapper.root.0,
                    va.0,
                    pa.0,
                    level as int,
                    flags,
                );
                match mapping_refused(va.0, crate::mm::addr::span(shown) as u64, flags) {
                    Some(e) => {
                        &&& r == Err::<(), AddressSpaceError>(e)
                        &&& final(mem)@ == old(mem)@
                        &&& final(alloc).frames() == old(alloc).frames()
                    },
                    None => {
                        &&& r == lifted(done.result)
                        &&& final(mem)@ == done.mem
                        &&& final(alloc).frames() == done.frames
                    },
                }
            }),
    {
        let shown: usize = if level <= MAX_LEVEL {
            level
        } else {
            MAX_LEVEL
        };
        match check_user(va, page_size(shown)) {
            Ok(()) => {},
            Err(e) => {
                return Err(e);
            },
        }
        if !flags.contains(PteFlags(U)) {
            return Err(AddressSpaceError::NotUserAccessible);
        }
        match self.mapper.map(va, pa, level, flags, alloc, mem) {
            Ok(u) => Ok(u),
            Err(e) => Err(AddressSpaceError::Mapping(e)),
        }
    }

    pub fn map_range<F: FrameAllocator>(
        &mut self,
        va: VirtAddr,
        pa: PhysAddr,
        size: u64,
        flags: PteFlags,
        alloc: &mut F,
        mem: &mut Memory,
    ) -> (r: Result<(), AddressSpaceError>)
        requires
            pa.0 + size <= u64::MAX + 1,
        ensures
            *final(self) == *old(self),
            final(alloc).source() == old(alloc).source(),
            ({
                let done = crate::mm::page_table::range_mapped(
                    old(mem)@,
                    old(alloc).frames(),
                    old(self).mapper.root.0,
                    va.0,
                    pa.0,
                    size,
                    flags,
                    0,
                );
                match mapping_refused(va.0, size, flags) {
                    Some(e) => {
                        &&& r == Err::<(), AddressSpaceError>(e)
                        &&& final(mem)@ == old(mem)@
                        &&& final(alloc).frames() == old(alloc).frames()
                    },
                    None => {
                        &&& r == lifted(done.result)
                        &&& final(mem)@ == done.mem
                        &&& final(alloc).frames() == done.frames
                    },
                }
            }),
    {
        match check_user(va, size) {
            Ok(()) => {},
            Err(e) => {
                return Err(e);
            },
        }
        if !flags.contains(PteFlags(U)) {
            return Err(AddressSpaceError::NotUserAccessible);
        }
        proof {
            lemma_user_range(va.0, size);
        }
        match self.mapper.map_range(va, pa, size, flags, alloc, mem) {
            Ok(u) => Ok(u),
            Err(e) => Err(AddressSpaceError::Mapping(e)),
        }
    }

    /// Remove a user mapping, returning the frame it pointed at.
    pub fn unmap(&mut self, va: VirtAddr, mem: &mut Memory) -> (r: Result<
        PhysAddr,
        AddressSpaceError,
    >)
        ensures
            *final(self) == *old(self),
            match user_refused(va.0, 1) {
                Some(e) => r == Err::<PhysAddr, AddressSpaceError>(e) && final(mem)@ == old(mem)@,
                None => {
                    let done = crate::mm::page_table::unmapped(
                        old(mem)@,
                        old(self).mapper.root.0,
                        va.0,
                    );
                    final(mem)@ == done.0 && r == lifted(done.1)
                },
            },
    {
        match check_user(va, 1) {
            Ok(()) => {},
            Err(e) => {
                return Err(e);
            },
        }
        match self.mapper.unmap(va, mem) {
            Ok(pa) => Ok(pa),
            Err(e) => Err(AddressSpaceError::Mapping(e)),
        }
    }

    /// Resolve an address the way the hardware would. Kernel addresses resolve too.
    pub fn translate(&self, va: VirtAddr, mem: &Memory) -> (r: Option<(PhysAddr, PteFlags, usize)>)
        ensures
            r == crate::mm::page_table::translated(mem@, self.mapper.root.0, va.0),
    {
        self.mapper.translate(va, mem)
    }

    /// Whether `kernel` has gained mappings this space did not copy.
    pub fn kernel_half_is_stale(&self, kernel: &Mapper, mem: &Memory) -> (r: bool)
        ensures
            r == (fingerprint(mem@, kernel.root.0) != self.kernel_fingerprint),
    {
        kernel_half_fingerprint(kernel, mem) != self.kernel_fingerprint
    }
}

/// Whether `va`, and `size` bytes after it, stay clear of the kernel's root entries.
fn check_user(va: VirtAddr, size: u64) -> (r: Result<(), AddressSpaceError>)
    ensures
        match user_refused(va.0, size) {
            Some(e) => r == Err::<(), AddressSpaceError>(e),
            None => r is Ok,
        },
{
    if !va.is_canonical() {
        return Err(AddressSpaceError::Mapping(MapError::NonCanonical));
    }
    let last: u64 = va.0.saturating_add(size.saturating_sub(1));
    if last >= USER_TOP {
        return Err(AddressSpaceError::KernelHalf);
    }
    Ok(())
}

/// A range that is accepted ends where the user half does, at the latest.
pub proof fn lemma_user_range(va: u64, size: u64)
    requires
        user_refused(va, size) is None,
    ensures
        va < USER_TOP,
        va + size <= USER_TOP,
{
}

// --- The wall between the halves ---

/// No byte of a range that is accepted belongs to the kernel half, and a range
/// with such a byte is refused as one that touches it.
pub proof fn user_ranges_stay_clear_of_the_kernel(va: u64, size: u64, a: u64)
    requires
        va <= a < va + size,
    ensures
        user_refused(va, size) is None ==> !in_kernel_half(a) && crate::mm::addr::canonical(a),
        crate::mm::addr::canonical(va) && in_kernel_half(a) ==> user_refused(va, size) == Some(
            AddressSpaceError::KernelHalf,
        ),
{
    crate::mm::addr::lemma_spans();
    assert(crate::mm::addr::span(MAX_LEVEL as nat) == 0x4000_0000);
}

/// A table that was given the kernel's root entries translates every kernel
/// address as the kernel's own table does.
pub proof fn the_kernel_half_is_shared(m: Map<int, u64>, root: u64, kernel_root: u64, a: u64)
    requires
        root % 4096 == 0,
        kernel_root % 4096 == 0,
        in_kernel_half(a),
    ensures
        crate::mm::page_table::translated(with_kernel_half(m, root, kernel_root), root, a)
            == crate::mm::page_table::translated(
            with_kernel_half(m, root, kernel_root),
            kernel_root,
            a,
        ),
{
    let m2 = with_kernel_half(m, root, kernel_root);
    let level = MAX_LEVEL as nat;
    let i = crate::mm::addr::vpn_of(a, level) as int;
    let here = crate::mm::memory::word_number(root, i);
    let there = crate::mm::memory::word_number(kernel_root, i);
    crate::mm::addr::lemma_spans();
    assert(KERNEL_ROOT_FIRST <= i < ENTRIES);
    assert(m2[here] == m[there]);
    if root != kernel_root {
        assert(root as int / 8 + 512 <= kernel_root as int / 8 || kernel_root as int / 8 + 512
            <= root as int / 8);
    }
    assert(m2[there] == m[there]);
    assert(crate::mm::page_table::entry_for(m2, root, a, level)
        == crate::mm::page_table::entry_for(m2, kernel_root, a, level));
}

/// A fresh space maps nothing in its user half.
pub proof fn a_fresh_user_half_is_empty(m: Map<int, u64>, root: u64, kernel_root: u64, a: u64)
    requires
        !in_kernel_half(a),
    ensures
        crate::mm::page_table::translated(
            with_kernel_half(
                crate::mm::memory::with_zero_frame(m, root),
                root,
                kernel_root,
            ),
            root,
            a,
        ) is None,
{
    crate::mm::page_table::lemma_empty_entry();
    let m2 = with_kernel_half(crate::mm::memory::with_zero_frame(m, root), root, kernel_root);
    let w = crate::mm::page_table::entry_word(root, a, MAX_LEVEL as nat);
    assert(0 <= crate::mm::addr::vpn_of(a, MAX_LEVEL as nat) < 512);
    assert(m2[w] == 0);
}

/// Mapping a user page never changes a root entry of the kernel half.
pub proof fn user_mappings_leave_the_kernel_half_alone(
    m: Map<int, u64>,
    frames: Seq<u64>,
    root: u64,
    va: u64,
    pa: u64,
    level: int,
    flags: PteFlags,
    i: int,
)
    requires
        0 <= level,
        KERNEL_ROOT_FIRST <= i < ENTRIES,
        !in_kernel_half(va),
        crate::mm::translation::is_tree(m, root),
        crate::mm::translation::proper_frames(frames),
        crate::mm::translation::path_avoids(m, frames, root, va, MAX_LEVEL as nat),
    ensures
        crate::mm::page_table::entry_at(
            crate::mm::page_table::mapped(m, frames, root, va, pa, level, flags).mem,
            root,
            i,
        ) == crate::mm::page_table::entry_at(m, root, i),
{
    let w = crate::mm::memory::word_number(root, i);
    crate::mm::translation::lemma_entry_outside_frames(frames, root, i);
    lemma_path_stays_below_root(m, root, va, 2, root, w);
    crate::mm::translation::mapping_changes_only_what_it_reads(
        m,
        frames,
        root,
        va,
        pa,
        level,
        flags,
        w,
    );
}

/// Translating a user address reads no kernel entry of the root table.
proof fn lemma_path_stays_below_root(
    m: Map<int, u64>,
    root: u64,
    va: u64,
    level: nat,
    table: u64,
    w: int,
)
    requires
        level <= MAX_LEVEL,
        !in_kernel_half(va),
        crate::mm::translation::is_tree(m, root),
        crate::mm::translation::reaches(m, root, va, level, table),
        crate::mm::memory::word_number(root, KERNEL_ROOT_FIRST as int) <= w
            < crate::mm::memory::word_number(root, ENTRIES as int),
    ensures
        !crate::mm::translation::reads(m, table, va, level, w),
    decreases level,
{
    let e = crate::mm::page_table::entry_for(m, table, va, level);
    assert(crate::mm::translation::reaches(m, root, va, MAX_LEVEL as nat, root));
    assert(0 <= crate::mm::addr::vpn_of(va, level) < 512);
    if level < MAX_LEVEL {
        assert(table != root);
        crate::mm::translation::lemma_walk_aligned(m, root, va, MAX_LEVEL as nat, level);
    }
    if e.branch_entry() && level > 0 {
        crate::mm::translation::lemma_walk_step(m, root, va, MAX_LEVEL as nat, level, table);
        lemma_path_stays_below_root(m, root, va, (level - 1) as nat, e.target(), w);
    }
}

/// A space is reported stale only if one of the kernel's root entries changed.
pub proof fn only_a_changed_kernel_half_is_stale(m: Map<int, u64>, n: Map<int, u64>, kernel_root: u64)
    requires
        forall|i: int|
            KERNEL_ROOT_FIRST <= i < ENTRIES ==> #[trigger] crate::mm::page_table::entry_at(
                m,
                kernel_root,
                i,
            ) == crate::mm::page_table::entry_at(n, kernel_root, i),
    ensures
        fingerprint(m, kernel_root) == fingerprint(n, kernel_root),
{
    lemma_same_fingerprint(m, n, kernel_root, ENTRIES as int);
}

proof fn lemma_same_fingerprint(m: Map<int, u64>, n: Map<int, u64>, kernel_root: u64, index: int)
    requires
        index <= ENTRIES,
        forall|i: int|
            KERNEL_ROOT_FIRST <= i < ENTRIES ==> #[trigger] crate::mm::page_table::entry_at(
                m,
                kernel_root,
                i,
            ) == crate::mm::page_table::entry_at(n, kernel_root, i),
    ensures
        fingerprint_to(m, kernel_root, index) == fingerprint_to(n, kernel_root, index),
    decreases index,
{
    if index > KERNEL_ROOT_FIRST {
        assert(crate::mm::page_table::entry_at(m, kernel_root, index - 1)
            == crate::mm::page_table::entry_at(n, kernel_root, index - 1));
        lemma_same_fingerprint(m, n, kernel_root, index - 1);
    }
}

} // verus!
