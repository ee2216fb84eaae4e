//! Building the kernel's own address space.

use crate::layout::Layout;
use crate::mm::addr::{PhysAddr, VirtAddr, KERNEL_VMA, PAGE_SIZE};
use crate::mm::discover::MemoryMap;
use crate::mm::memory::Memory;
use crate::mm::page_table::{
    FrameAllocator, MapError, Mapped, Mapper, PteFlags, G, KERNEL_RO, KERNEL_RW, KERNEL_RX, U, V, W, X,
};
use crate::mm::region::{CapacityExceeded, Region, RegionList};
use crate::mm::{Regions, MAX_REGIONS};
use crate::plic::PlicInfo;
use crate::qemu::SIFIVE_TEST_PHYS;
use crate::uart::UART0_PHYS;
use vstd::prelude::*;

verus! {

#[derive(Debug, Clone, Copy, PartialEq, Eq, Structural)]
pub enum BuildError {
    Mapping(MapError),
    Capacity(CapacityExceeded),
}

/// One contiguous piece of the kernel image, and how it should be mapped.
#[derive(Clone, Copy)]
pub struct Section {
    pub name: &'static str,
    /// Virtual range, already rounded outward to whole pages.
    pub start: VirtAddr,
    pub end: VirtAddr,
    pub flags: PteFlags,
}

impl Section {
    pub fn len(&self) -> (r: u64)
        requires
            self.start.0 <= self.end.0,
        ensures
            r == self.end.0 - self.start.0,
    {
        self.end.0 - self.start.0
    }

    pub fn phys_start(&self) -> (r: PhysAddr)
        requires
            KERNEL_VMA <= self.start.0,
        ensures
            r.0 == self.start.0 - KERNEL_VMA,
    {
        PhysAddr::new(self.start.0 - KERNEL_VMA)
    }
}

/// The pages that `[start, end)` touches.
fn page_range(start: u64, end: u64) -> (r: (VirtAddr, VirtAddr))
    ensures
        r.0.0 == crate::mm::addr::rounded_down(start as int, PAGE_SIZE as int),
        r.1.0 == crate::mm::addr::rounded_up(end, PAGE_SIZE),
{
    proof {
        crate::bits::lemma_known_powers();
    }
    (VirtAddr::new(start).align_down(PAGE_SIZE), VirtAddr::new(end).align_up(PAGE_SIZE))
}

/// A section covering the pages that `[start, end)` touches.
pub open spec fn is_section(s: Section, name: Seq<char>, start: u64, end: u64, flags: u64) -> bool {
    &&& s.name@ == name
    &&& s.start.0 == crate::mm::addr::rounded_down(start as int, PAGE_SIZE as int)
    &&& s.end.0 == crate::mm::addr::rounded_up(end, PAGE_SIZE)
    &&& s.flags == PteFlags(flags)
}

/// The kernel image, split by permission.
pub fn sections(layout: &Layout) -> (r: [Section; 3])
    ensures
        is_section(r@[0], ".text"@, layout.text_start, layout.text_end, KERNEL_RX),
        is_section(r@[1], ".rodata"@, layout.rodata_start, layout.rodata_end, KERNEL_RO),
        is_section(r@[2], ".data+.bss"@, layout.data_start, layout.bss_end, KERNEL_RW),
{
    let (text_start, text_end) = page_range(layout.text_start, layout.text_end);
    let (rodata_start, rodata_end) = page_range(layout.rodata_start, layout.rodata_end);
    let (data_start, data_end) = page_range(layout.data_start, layout.bss_end);
    [
        Section { name: ".text", start: text_start, end: text_end, flags: PteFlags(KERNEL_RX) },
        Section {
            name: ".rodata",
            start: rodata_start,
            end: rodata_end,
            flags: PteFlags(KERNEL_RO),
        },
        Section {
            name: ".data+.bss",
            start: data_start,
            end: data_end,
            flags: PteFlags(KERNEL_RW),
        },
    ]
}

/// MMIO the kernel itself needs; everything else belongs to a userspace driver.
pub fn devices() -> (r: [(&'static str, u64); 2])
    ensures
        r@[0].0@ == "uart0"@ && r@[0].1 == UART0_PHYS,
        r@[1].0@ == "sifive-test"@ && r@[1].1 == SIFIVE_TEST_PHYS,
{
    [("uart0", UART0_PHYS), ("sifive-test", SIFIVE_TEST_PHYS)]
}

// --- Building ---

/// One range of the kernel's address space.
#[derive(Clone, Copy, PartialEq, Eq, Structural, Debug)]
pub struct Mapping {
    pub va: u64,
    pub pa: u64,
    pub size: u64,
    pub flags: PteFlags,
}

impl Mapping {
    /// Whether both ends lie inside their address spaces.
    pub open spec fn is_inside(self) -> bool {
        &&& self.va + self.size <= u64::MAX + 1
        &&& self.pa + self.size <= crate::mm::addr::PHYS_LIMIT
    }
}

/// The range `[start, end)` of physical memory, mapped at the kernel's offset.
pub open spec fn direct(start: u64, end: u64) -> Mapping {
    Mapping {
        va: (KERNEL_VMA + start) as u64,
        pa: start,
        size: (end - start) as u64,
        flags: PteFlags(KERNEL_RW),
    }
}

/// The pages that `[start, end)` of the kernel image touches, at the addresses
/// they were linked for.
pub open spec fn linked(start: u64, end: u64, flags: u64) -> Mapping {
    let first = crate::mm::addr::rounded_down(start as int, PAGE_SIZE as int);
    Mapping {
        va: first as u64,
        pa: (first - KERNEL_VMA) as u64,
        size: (crate::mm::addr::rounded_up(end, PAGE_SIZE) - first) as u64,
        flags: PteFlags(flags),
    }
}

/// The kernel image.
pub open spec fn image_ranges(layout: Layout) -> Seq<Mapping> {
    seq![
        linked(layout.text_start, layout.text_end, KERNEL_RX),
        linked(layout.rodata_start, layout.rodata_end, KERNEL_RO),
        linked(layout.data_start, layout.bss_end, KERNEL_RW),
    ]
}

/// All RAM except the kernel image, which has a mapping of its own.
pub open spec fn ram_left(layout: Layout, ram: Seq<Region>) -> Seq<Region> {
    let image = Region {
        start: PhysAddr((layout.kernel_start - KERNEL_VMA) as u64),
        end: PhysAddr((layout.kernel_end - KERNEL_VMA) as u64),
    };
    crate::mm::region::remainders(ram, crate::mm::region::normal_form(seq![image]))
}

/// The devices the kernel drives, each at the kernel's offset.
pub open spec fn device_ranges(plic: Option<PlicInfo>) -> Seq<Mapping> {
    let fixed = seq![
        direct(UART0_PHYS, (UART0_PHYS + PAGE_SIZE) as u64),
        direct(SIFIVE_TEST_PHYS, (SIFIVE_TEST_PHYS + PAGE_SIZE) as u64),
    ];
    match plic {
        Some(p) => fixed.push(direct(p.region.start.0, p.region.end.0)),
        None => fixed,
    }
}

/// RAM and devices, each at the kernel's offset.
pub open spec fn direct_ranges(layout: Layout, ram: Seq<Region>, plic: Option<PlicInfo>) -> Seq<
    Mapping,
> {
    let left = ram_left(layout, ram);
    Seq::new(left.len(), |i: int| direct(left[i].start.0, left[i].end.0)) + device_ranges(plic)
}

/// What mapping the ranges in order does, up to the first that fails.
pub open spec fn all_mapped(
    m: Map<int, u64>,
    frames: Seq<u64>,
    root: u64,
    ranges: Seq<Mapping>,
) -> Mapped
    decreases ranges.len(),
{
    if ranges.len() == 0 {
        Mapped { mem: m, frames, result: Ok(()) }
    } else {
        let before = all_mapped(m, frames, root, ranges.drop_last());
        let r = ranges.last();
        if before.result is Err {
            before
        } else {
            crate::mm::page_table::range_mapped(
                before.mem,
                before.frames,
                root,
                r.va,
                r.pa,
                r.size,
                r.flags,
                0,
            )
        }
    }
}

/// Memory, the frames still to come, and the outcome of building the kernel's
/// address space.
pub struct Built {
    pub mem: Map<int, u64>,
    pub frames: Seq<u64>,
    pub result: Result<Mapper, BuildError>,
}

/// What building the kernel's address space does.
pub open spec fn built(
    m: Map<int, u64>,
    frames: Seq<u64>,
    layout: Layout,
    ram: Seq<Region>,
    plic: Option<PlicInfo>,
) -> Built {
    if frames.len() == 0 {
        Built { mem: m, frames, result: Err(BuildError::Mapping(MapError::OutOfFrames)) }
    } else {
        let root = frames[0];
        let image = all_mapped(
            crate::mm::memory::with_zero_frame(m, root),
            frames.drop_first(),
            root,
            image_ranges(layout),
        );
        if image.result is Err {
            Built {
                mem: image.mem,
                frames: image.frames,
                result: Err(BuildError::Mapping(image.result->Err_0)),
            }
        } else if ram_left(layout, ram).len() > MAX_REGIONS {
            Built {
                mem: image.mem,
                frames: image.frames,
                result: Err(BuildError::Capacity(CapacityExceeded)),
            }
        } else {
            let all = all_mapped(image.mem, image.frames, root, direct_ranges(layout, ram, plic));
            Built {
                mem: all.mem,
                frames: all.frames,
                result: match all.result {
                    Ok(()) => Ok(Mapper { root: PhysAddr(root) }),
                    Err(e) => Err(BuildError::Mapping(e)),
                },
            }
        }
    }
}

/// The bytes of the address space from the kernel's offset up.
pub const DIRECT_MAP_SIZE: u64 = 0x40_0000_0000;

/// Whether the kernel's offset can be added to every address of a region, and
/// the region is not backwards.
pub open spec fn fits_direct_map(r: Region) -> bool {
    r.start.0 <= r.end.0 <= DIRECT_MAP_SIZE && r.start.0 < DIRECT_MAP_SIZE
}

/// Whether everything the kernel maps lies low enough to be mapped at its
/// offset.
pub open spec fn can_be_mapped(layout: Layout, ram: Seq<Region>, plic: Option<PlicInfo>) -> bool {
    &&& layout.is_ordered()
    &&& layout.kernel_end - KERNEL_VMA < DIRECT_MAP_SIZE
    &&& forall|i: int| 0 <= i < ram.len() ==> fits_direct_map(#[trigger] ram[i])
    &&& plic matches Some(p) ==> fits_direct_map(p.region)
}

fn lies_in_direct_map(r: Region) -> (ok: bool)
    ensures
        ok == fits_direct_map(r),
{
    r.start.0 <= r.end.0 && r.end.0 <= DIRECT_MAP_SIZE && r.start.0 < DIRECT_MAP_SIZE
}

/// Whether everything the kernel maps lies low enough to be mapped at its
/// offset, so that [`build`] can be asked to map it.
pub fn is_mappable(layout: &Layout, map: &MemoryMap) -> (r: bool)
    ensures
        r == can_be_mapped(*layout, map.ram@, map.plic),
{
    if !layout.ordered() || layout.kernel_end - KERNEL_VMA >= DIRECT_MAP_SIZE {
        return false;
    }
    let count: usize = map.ram.len();
    let mut i: usize = 0;
    while i < count
        invariant
            i <= count,
            count == map.ram@.len(),
            forall|k: int| 0 <= k < i ==> fits_direct_map(#[trigger] map.ram@[k]),
        decreases count - i,
    {
        if !lies_in_direct_map(map.ram.get(i)) {
            assert(!fits_direct_map(map.ram@[i as int]));
            return false;
        }
        i = i + 1;
    }
    match map.plic {
        Some(p) => lies_in_direct_map(p.region),
        None => true,
    }
}

fn map_all<F: FrameAllocator>(
    mapper: &mut Mapper,
    ranges: &Vec<Mapping>,
    alloc: &mut F,
    mem: &mut Memory,
) -> (r: Result<(), MapError>)
    requires
        forall|i: int| 0 <= i < ranges@.len() ==> (#[trigger] ranges@[i]).is_inside(),
    ensures
        *final(mapper) == *old(mapper),
        final(alloc).source() == old(alloc).source(),
        ({
            let done = all_mapped(old(mem)@, old(alloc).frames(), old(mapper).root.0, ranges@);
            &&& r == done.result
            &&& final(mem)@ == done.mem
            &&& final(alloc).frames() == done.frames
        }),
{
    let ghost m = mem@;
    let ghost frames = alloc.frames();
    let count: usize = ranges.len();
    let mut i: usize = 0;
    while i < count
        invariant
            i <= count,
            count == ranges@.len(),
            forall|i: int| 0 <= i < ranges@.len() ==> (#[trigger] ranges@[i]).is_inside(),
            *mapper == *old(mapper),
            alloc.source() == old(alloc).source(),
            m == old(mem)@,
            frames == old(alloc).frames(),
            ({
                let done = all_mapped(m, frames, mapper.root.0, ranges@.take(i as int));
                &&& done.result == Ok::<(), MapError>(())
                &&& mem@ == done.mem
                &&& alloc.frames() == done.frames
            }),
        decreases count - i,
    {
        let range: Mapping = ranges[i];
        proof {
            assert(ranges@.take(i + 1).drop_last() =~= ranges@.take(i as int));
        }
        let mapped: Result<(), MapError> = mapper.map_range(
            VirtAddr(range.va),
            PhysAddr(range.pa),
            range.size,
            range.flags,
            alloc,
            mem,
        );
        match mapped {
            Ok(u) => {
                assert(u == ());
            },
            Err(e) => {
                proof {
                    lemma_all_mapped_stops(m, frames, mapper.root.0, ranges@, i + 1);
                }
                return Err(e);
            },
        }
        i = i + 1;
    }
    assert(ranges@.take(count as int) =~= ranges@);
    Ok(())
}

proof fn lemma_all_mapped_stops(
    m: Map<int, u64>,
    frames: Seq<u64>,
    root: u64,
    ranges: Seq<Mapping>,
    n: int,
)
    requires
        0 <= n <= ranges.len(),
        all_mapped(m, frames, root, ranges.take(n)).result is Err,
    ensures
        all_mapped(m, frames, root, ranges) == all_mapped(m, frames, root, ranges.take(n)),
    decreases ranges.len(),
{
    if n == ranges.len() {
        assert(ranges.take(n) =~= ranges);
    } else {
        assert(ranges.drop_last().take(n) =~= ranges.take(n));
        lemma_all_mapped_stops(m, frames, root, ranges.drop_last(), n);
    }
}

/// The ranges of the kernel image.
fn list_image(layout: &Layout) -> (r: Vec<Mapping>)
    requires
        layout.is_ordered(),
        layout.kernel_end - KERNEL_VMA < DIRECT_MAP_SIZE,
    ensures
        r@ == image_ranges(*layout),
        forall|i: int| 0 <= i < r@.len() ==> (#[trigger] r@[i]).is_inside(),
{
    let parts: [Section; 3] = sections(layout);
    let mut ranges: Vec<Mapping> = Vec::new();
    let mut i: usize = 0;
    while i < 3
        invariant
            i <= 3,
            layout.is_ordered(),
            layout.kernel_end - KERNEL_VMA < DIRECT_MAP_SIZE,
            is_section(parts@[0], ".text"@, layout.text_start, layout.text_end, KERNEL_RX),
            is_section(parts@[1], ".rodata"@, layout.rodata_start, layout.rodata_end, KERNEL_RO),
            is_section(parts@[2], ".data+.bss"@, layout.data_start, layout.bss_end, KERNEL_RW),
            ranges@ == image_ranges(*layout).take(i as int),
            forall|k: int| 0 <= k < i ==> (#[trigger] ranges@[k]).is_inside(),
        decreases 3 - i,
    {
        let section: Section = parts[i];
        ranges.push(
            Mapping {
                va: section.start.0,
                pa: section.phys_start().0,
                size: section.len(),
                flags: section.flags,
            },
        );
        assert(ranges@ =~= image_ranges(*layout).take(i + 1));
        i = i + 1;
    }
    assert(image_ranges(*layout).take(3) =~= image_ranges(*layout));
    ranges
}

fn direct_mapping(start: u64, end: u64) -> (r: Mapping)
    requires
        start <= end <= DIRECT_MAP_SIZE,
        start < DIRECT_MAP_SIZE,
    ensures
        r == direct(start, end),
        r.is_inside(),
{
    Mapping {
        va: KERNEL_VMA + start,
        pa: start,
        size: end - start,
        flags: PteFlags(KERNEL_RW),
    }
}

/// The ranges of RAM and devices.
fn list_direct(left: &Regions, plic: Option<PlicInfo>) -> (r: Vec<Mapping>)
    requires
        forall|i: int|
            0 <= i < left@.len() ==> fits_direct_map(#[trigger] left@[i]) && !left@[i].empty(),
        plic matches Some(p) ==> fits_direct_map(p.region),
    ensures
        r@ == Seq::new(left@.len(), |i: int| direct(left@[i].start.0, left@[i].end.0))
            + device_ranges(plic),
        forall|i: int| 0 <= i < r@.len() ==> (#[trigger] r@[i]).is_inside(),
{
    let mut ranges: Vec<Mapping> = Vec::new();
    let count: usize = left.len();
    let mut i: usize = 0;
    while i < count
        invariant
            i <= count,
            count == left@.len(),
            forall|i: int|
                0 <= i < left@.len() ==> fits_direct_map(#[trigger] left@[i]) && !left@[i].empty(),
            ranges@.len() == i,
            forall|k: int|
                0 <= k < i ==> #[trigger] ranges@[k] == direct(left@[k].start.0, left@[k].end.0)
                    && ranges@[k].is_inside(),
        decreases count - i,
    {
        let region: Region = left.get(i);
        ranges.push(direct_mapping(region.start.0, region.end.0));
        i = i + 1;
    }
    let fixed: [(&'static str, u64); 2] = devices();
    ranges.push(direct_mapping(fixed[0].1, fixed[0].1 + PAGE_SIZE));
    ranges.push(direct_mapping(fixed[1].1, fixed[1].1 + PAGE_SIZE));
    // The interrupt controller, whose size the device tree reports: 6 MiB on
    // QEMU virt, because the per-context register blocks are 4 KiB apart.
    match plic {
        Some(p) => {
            ranges.push(direct_mapping(p.region.start.0, p.region.end.0));
        },
        None => {},
    }
    assert(ranges@ =~= Seq::new(left@.len(), |i: int| direct(left@[i].start.0, left@[i].end.0))
        + device_ranges(plic));
    ranges
}

/// Construct the kernel address space. Does not activate it.
pub fn build<F: FrameAllocator>(
    layout: &Layout,
    map: &MemoryMap,
    alloc: &mut F,
    mem: &mut Memory,
) -> (r: Result<Mapper, BuildError>)
    requires
        can_be_mapped(*layout, map.ram@, map.plic),
    ensures
        final(alloc).source() == old(alloc).source(),
        ({
            let done = built(old(mem)@, old(alloc).frames(), *layout, map.ram@, map.plic);
            &&& r == done.result
            &&& final(mem)@ == done.mem
            &&& final(alloc).frames() == done.frames
        }),
{
    let mut mapper: Mapper = match Mapper::new(alloc, mem) {
        Ok(m) => m,
        Err(e) => {
            return Err(BuildError::Mapping(e));
        },
    };
    // Kernel sections, at their linked addresses.
    match map_all(&mut mapper, &list_image(layout), alloc, mem) {
        Ok(()) => {},
        Err(e) => {
            return Err(BuildError::Mapping(e));
        },
    }
    // Direct map of all RAM except the kernel image, which is already mapped.
    let mut carve: Regions = RegionList::new();
    let pushed: Result<(), CapacityExceeded> = carve.push(layout.kernel_phys_range());
    assert(carve@ =~= seq![
        Region {
            start: PhysAddr((layout.kernel_start - KERNEL_VMA) as u64),
            end: PhysAddr((layout.kernel_end - KERNEL_VMA) as u64),
        },
    ]);
    let left: Regions = match map.ram.subtract(&carve) {
        Ok(l) => l,
        Err(e) => {
            return Err(BuildError::Capacity(e));
        },
    };
    proof {
        lemma_left_fits(map.ram@, left@);
    }
    // RAM, then device MMIO, at the same KERNEL_VMA offset.
    match map_all(&mut mapper, &list_direct(&left, map.plic), alloc, mem) {
        Ok(()) => Ok(mapper),
        Err(e) => Err(BuildError::Mapping(e)),
    }
}

/// What is left of regions that fit fits as well.
proof fn lemma_left_fits(ram: Seq<Region>, left: Seq<Region>)
    requires
        forall|i: int| 0 <= i < ram.len() ==> fits_direct_map(#[trigger] ram[i]),
        crate::mm::region::none_empty(left),
        forall|a: int| #[trigger]
            crate::mm::region::covered(left, a) ==> crate::mm::region::covered(ram, a),
    ensures
        forall|i: int| 0 <= i < left.len() ==> fits_direct_map(#[trigger] left[i]),
{
    assert forall|i: int| 0 <= i < left.len() implies fits_direct_map(#[trigger] left[i]) by {
        let last = left[i].end.0 - 1;
        assert(left[i].covers(last));
        assert(crate::mm::region::covered(left, last));
        assert(crate::mm::region::covered(ram, last));
    }
}

/// The physical addresses the direct map spans, for diagnostics.
pub fn direct_map_range(map: &MemoryMap) -> (r: Option<Region>)
    ensures
        map.ram@.len() == 0 <==> r is None,
        r matches Some(all) ==> {
            &&& forall|i: int|
                0 <= i < map.ram@.len() ==> all.start.0 <= (#[trigger] map.ram@[i]).start.0
                    && map.ram@[i].end.0 <= all.end.0
            &&& exists|i: int| 0 <= i < map.ram@.len() && (#[trigger] map.ram@[i]).start == all.start
            &&& exists|i: int| 0 <= i < map.ram@.len() && (#[trigger] map.ram@[i]).end == all.end
        },
{
    let count: usize = map.ram.len();
    if count == 0 {
        return None;
    }
    let mut first: PhysAddr = map.ram.get(0).start;
    let mut last: PhysAddr = map.ram.get(0).end;
    let mut i: usize = 1;
    while i < count
        invariant
            1 <= i <= count,
            count == map.ram@.len(),
            forall|k: int|
                0 <= k < i ==> first.0 <= (#[trigger] map.ram@[k]).start.0 && map.ram@[k].end.0
                    <= last.0,
            exists|k: int| 0 <= k < i && (#[trigger] map.ram@[k]).start == first,
            exists|k: int| 0 <= k < i && (#[trigger] map.ram@[k]).end == last,
        decreases count - i,
    {
        let region: Region = map.ram.get(i);
        assert(map.ram@[i as int] == region);
        if region.start.0 < first.0 {
            first = region.start;
        }
        if region.end.0 > last.0 {
            last = region.end;
        }
        i = i + 1;
    }
    Some(Region::new(first, last))
}

/// The root of the live kernel table.
#[derive(Clone, Copy, PartialEq, Eq, Structural, Debug)]
pub struct KernelRoot {
    /// Its physical address, or 0 before one exists.
    pub pa: u64,
}

impl KernelRoot {
    /// No table is live yet.
    pub fn new() -> (r: Self)
        ensures
            r.pa == 0,
    {
        KernelRoot { pa: 0 }
    }

    pub fn root(&self) -> (r: Option<PhysAddr>)
        ensures
            r == if self.pa == 0 {
                None
            } else {
                Some(PhysAddr(self.pa))
            },
    {
        if self.pa == 0 {
            None
        } else {
            Some(PhysAddr::new(self.pa))
        }
    }

    /// Record `mapper` as the live table, and return the `satp` value that makes
    /// it so.
    pub fn activate(&mut self, mapper: &Mapper) -> (satp: u64)
        ensures
            final(self).pa == mapper.root.0,
            satp == crate::boot::satp_of(mapper.root.0),
    {
        self.pa = mapper.root.0;
        crate::boot::satp_value(mapper.root.0)
    }
}

// --- What the kernel's address space maps ---

/// Whether the table maps every byte of a range where it should be, with the
/// permissions asked for.
pub open spec fn is_covered(m: Map<int, u64>, root: u64, range: Mapping) -> bool {
    forall|a: u64|
        range.va <= a < range.va + range.size ==> {
            &&& #[trigger] crate::mm::page_table::translated(m, root, a) matches Some(found)
            &&& found.0 == PhysAddr((range.pa + (a - range.va)) as u64)
            &&& found.1 == PteFlags(range.flags.0 | V)
        }
}

proof fn lemma_all_mapped(m: Map<int, u64>, frames: Seq<u64>, root: u64, ranges: Seq<Mapping>)
    requires
        crate::mm::translation::proper_frames(frames),
        crate::mm::translation::tables_avoid(m, frames, root),
        forall|i: int|
            0 <= i < ranges.len() ==> (#[trigger] ranges[i]).is_inside() && ranges[i].flags.0
                <= 0xff,
        all_mapped(m, frames, root, ranges).result is Ok,
    ensures
        ({
            let done = all_mapped(m, frames, root, ranges);
            &&& crate::mm::translation::proper_frames(done.frames)
            &&& crate::mm::translation::tables_avoid(done.mem, done.frames, root)
            &&& forall|range: Mapping| #[trigger]
                is_covered(m, root, range) ==> is_covered(done.mem, root, range)
            &&& forall|i: int|
                0 <= i < ranges.len() ==> is_covered(done.mem, root, #[trigger] ranges[i])
        }),
    decreases ranges.len(),
{
    if ranges.len() > 0 {
        let before = all_mapped(m, frames, root, ranges.drop_last());
        let done = all_mapped(m, frames, root, ranges);
        let r = ranges.last();
        assert forall|i: int| 0 <= i < ranges.drop_last().len() implies (
        #[trigger] ranges.drop_last()[i]).is_inside() && ranges.drop_last()[i].flags.0 <= 0xff by {
            assert(ranges[i].is_inside());
        }
        lemma_all_mapped(m, frames, root, ranges.drop_last());
        assert(ranges[ranges.len() - 1].is_inside());
        crate::mm::translation::mapping_a_range_keeps_frames_apart(
            before.mem,
            before.frames,
            root,
            r.va,
            r.pa,
            r.size,
            r.flags,
            0,
        );
        assert forall|range: Mapping| #[trigger] is_covered(before.mem, root, range) implies
            is_covered(done.mem, root, range) by {
            assert forall|a: u64| range.va <= a < range.va + range.size implies {
                &&& #[trigger] crate::mm::page_table::translated(done.mem, root, a) matches Some(
                    found,
                )
                &&& found.0 == PhysAddr((range.pa + (a - range.va)) as u64)
                &&& found.1 == PteFlags(range.flags.0 | V)
            } by {
                assert(crate::mm::page_table::translated(before.mem, root, a) is Some);
                crate::mm::translation::translations_survive_a_mapped_range(
                    before.mem,
                    before.frames,
                    root,
                    r.va,
                    r.pa,
                    r.size,
                    r.flags,
                    a,
                );
            }
        }
        assert(is_covered(done.mem, root, r)) by {
            assert forall|a: u64| r.va <= a < r.va + r.size implies {
                &&& #[trigger] crate::mm::page_table::translated(done.mem, root, a) matches Some(
                    found,
                )
                &&& found.0 == PhysAddr((r.pa + (a - r.va)) as u64)
                &&& found.1 == PteFlags(r.flags.0 | V)
            } by {
                crate::mm::translation::a_mapped_range_is_covered(
                    before.mem,
                    before.frames,
                    root,
                    r.va,
                    r.pa,
                    r.size,
                    r.flags,
                    a,
                );
            }
        }
        assert forall|i: int| 0 <= i < ranges.len() implies is_covered(
            done.mem,
            root,
            #[trigger] ranges[i],
        ) by {
            if i < ranges.len() - 1 {
                assert(ranges.drop_last()[i] == ranges[i]);
                assert(is_covered(before.mem, root, ranges[i]));
            }
        }
    }
}

/// Every range the kernel maps lies inside both address spaces, from the
/// kernel's offset on.
proof fn lemma_ranges_inside(layout: Layout, ram: Seq<Region>, plic: Option<PlicInfo>)
    requires
        can_be_mapped(layout, ram, plic),
    ensures
        ({
            let image = image_ranges(layout);
            let direct = direct_ranges(layout, ram, plic);
            &&& forall|i: int|
                0 <= i < image.len() ==> (#[trigger] image[i]).is_inside() && image[i].pa
                    == image[i].va - KERNEL_VMA
            &&& forall|i: int|
                0 <= i < direct.len() ==> (#[trigger] direct[i]).is_inside() && direct[i].pa
                    == direct[i].va - KERNEL_VMA
        }),
{
    let direct = direct_ranges(layout, ram, plic);
    let left = ram_left(layout, ram);
    let carve = seq![
        Region {
            start: PhysAddr((layout.kernel_start - KERNEL_VMA) as u64),
            end: PhysAddr((layout.kernel_end - KERNEL_VMA) as u64),
        },
    ];
    assert(crate::mm::region::is_normal_form(carve, carve));
    crate::mm::region::lemma_normal_form(carve, carve);
    crate::mm::region::lemma_remainders(ram, carve);
    assert forall|a: int| #[trigger] crate::mm::region::covered(left, a) implies
        crate::mm::region::covered(ram, a) by {
    }
    lemma_left_fits(ram, left);
    assert forall|i: int| 0 <= i < direct.len() implies (#[trigger] direct[i]).is_inside()
        && direct[i].pa == direct[i].va - KERNEL_VMA by {
        if i < left.len() {
            assert(fits_direct_map(left[i]));
        }
    }
}

/// A kernel address space that was built maps the whole kernel image with the
/// permissions of each section, and all other RAM and every device the kernel
/// drives at the kernel's offset. The frames that are left are none of its
/// tables.
pub proof fn a_built_space_maps_the_kernel(
    m: Map<int, u64>,
    frames: Seq<u64>,
    layout: Layout,
    ram: Seq<Region>,
    plic: Option<PlicInfo>,
)
    requires
        crate::mm::translation::proper_frames(frames),
        can_be_mapped(layout, ram, plic),
        built(m, frames, layout, ram, plic).result is Ok,
    ensures
        ({
            let done = built(m, frames, layout, ram, plic);
            let root = frames[0];
            let image = image_ranges(layout);
            let direct = direct_ranges(layout, ram, plic);
            &&& done.result == Ok::<Mapper, BuildError>(Mapper { root: PhysAddr(root) })
            &&& forall|i: int| 0 <= i < image.len() ==> is_covered(done.mem, root, #[trigger] image[i])
            &&& forall|i: int|
                0 <= i < direct.len() ==> is_covered(done.mem, root, #[trigger] direct[i])
            &&& crate::mm::keeping::apart(done.mem, done.frames, root)
        }),
{
    reveal(crate::mm::keeping::apart);
    let root = frames[0];
    let first = crate::mm::memory::with_zero_frame(m, root);
    let rest = frames.drop_first();
    let image = image_ranges(layout);
    crate::mm::translation::a_fresh_root_is_apart(m, frames);
    crate::mm::page_table::lemma_named_permissions();
    lemma_ranges_inside(layout, ram, plic);
    lemma_all_mapped(first, rest, root, image);
    let done = all_mapped(first, rest, root, image);
    lemma_all_mapped(done.mem, done.frames, root, direct_ranges(layout, ram, plic));
}

/// The permissions of the kernel's own pages.
pub open spec fn kernel_permissions() -> Set<PteFlags> {
    set![PteFlags(KERNEL_RX), PteFlags(KERNEL_RO), PteFlags(KERNEL_RW)]
}

proof fn lemma_all_permitted(m: Map<int, u64>, frames: Seq<u64>, root: u64, ranges: Seq<Mapping>)
    requires
        crate::mm::keeping::apart(m, frames, root),
        crate::mm::keeping::permits(m, root, kernel_permissions()),
        forall|i: int|
            0 <= i < ranges.len() ==> (#[trigger] ranges[i]).is_inside()
                && kernel_permissions().contains(ranges[i].flags),
        all_mapped(m, frames, root, ranges).result is Ok,
    ensures
        crate::mm::keeping::permits(
            all_mapped(m, frames, root, ranges).mem,
            root,
            kernel_permissions(),
        ),
        crate::mm::keeping::apart(
            all_mapped(m, frames, root, ranges).mem,
            all_mapped(m, frames, root, ranges).frames,
            root,
        ),
    decreases ranges.len(),
{
    reveal(crate::mm::keeping::apart);
    if ranges.len() > 0 {
        let before = all_mapped(m, frames, root, ranges.drop_last());
        let r = ranges.last();
        assert forall|i: int| 0 <= i < ranges.drop_last().len() implies (
        #[trigger] ranges.drop_last()[i]).is_inside() && kernel_permissions().contains(
            ranges.drop_last()[i].flags,
        ) by {
            assert(ranges[i].is_inside());
        }
        lemma_all_permitted(m, frames, root, ranges.drop_last());
        assert(ranges[ranges.len() - 1].is_inside());
        crate::mm::page_table::lemma_named_permissions();
        lemma_valid_already();
        crate::mm::keeping::mapping_a_range_adds_only_its_own_permissions(
            before.mem,
            before.frames,
            root,
            r.va,
            r.pa,
            r.size,
            r.flags,
            0,
            kernel_permissions(),
        );
        crate::mm::translation::mapping_a_range_keeps_frames_apart(
            before.mem,
            before.frames,
            root,
            r.va,
            r.pa,
            r.size,
            r.flags,
            0,
        );
    }
}

/// In a kernel address space that was built, no page at all is reachable from
/// userspace, every page is global, and none is both writable and executable.
pub proof fn a_built_space_is_closed_to_userspace(
    m: Map<int, u64>,
    frames: Seq<u64>,
    layout: Layout,
    ram: Seq<Region>,
    plic: Option<PlicInfo>,
    a: u64,
)
    requires
        crate::mm::translation::proper_frames(frames),
        can_be_mapped(layout, ram, plic),
        built(m, frames, layout, ram, plic).result is Ok,
    ensures
        crate::mm::page_table::translated(
            built(m, frames, layout, ram, plic).mem,
            frames[0],
            a,
        ) matches Some(found) ==> {
            &&& !found.1.has(U)
            &&& found.1.has(G)
            &&& !(found.1.has(W) && found.1.has(X))
        },
        crate::mm::keeping::permits(
            built(m, frames, layout, ram, plic).mem,
            frames[0],
            kernel_permissions(),
        ),
{
    reveal(crate::mm::keeping::apart);
    let root = frames[0];
    let first = crate::mm::memory::with_zero_frame(m, root);
    let rest = frames.drop_first();
    let image = image_ranges(layout);
    let direct = direct_ranges(layout, ram, plic);
    crate::mm::translation::a_fresh_root_is_apart(m, frames);
    crate::mm::page_table::lemma_empty_entry();
    assert forall|b: u64| #[trigger]
        crate::mm::keeping::within(first, root, b, 2, kernel_permissions()) by {
        let w = crate::mm::page_table::entry_word(root, b, 2);
        assert(0 <= crate::mm::addr::vpn_of(b, 2) < 512);
        assert(first[w] == 0);
    }
    lemma_ranges_inside(layout, ram, plic);
    lemma_all_permitted(first, rest, root, image);
    let done = all_mapped(first, rest, root, image);
    lemma_all_permitted(done.mem, done.frames, root, direct);
    let all = built(m, frames, layout, ram, plic);
    assert(crate::mm::keeping::within(all.mem, root, a, 2, kernel_permissions()));
    crate::mm::page_table::named_permissions_are_safe();
}

proof fn lemma_all_shifted(m: Map<int, u64>, frames: Seq<u64>, root: u64, ranges: Seq<Mapping>)
    requires
        crate::mm::keeping::apart(m, frames, root),
        crate::mm::translation::is_tree(m, root),
        crate::mm::exact::is_shifted(m, root, KERNEL_VMA as int),
        forall|i: int|
            0 <= i < ranges.len() ==> (#[trigger] ranges[i]).is_inside() && ranges[i].pa
                == ranges[i].va - KERNEL_VMA && ranges[i].flags.0 <= 0xff,
        all_mapped(m, frames, root, ranges).result is Ok,
    ensures
        ({
            let done = all_mapped(m, frames, root, ranges);
            &&& crate::mm::keeping::apart(done.mem, done.frames, root)
            &&& crate::mm::translation::is_tree(done.mem, root)
            &&& crate::mm::exact::is_shifted(done.mem, root, KERNEL_VMA as int)
        }),
    decreases ranges.len(),
{
    if ranges.len() > 0 {
        let before = all_mapped(m, frames, root, ranges.drop_last());
        let r = ranges.last();
        assert forall|i: int| 0 <= i < ranges.drop_last().len() implies (
        #[trigger] ranges.drop_last()[i]).is_inside() && ranges.drop_last()[i].pa
            == ranges.drop_last()[i].va - KERNEL_VMA && ranges.drop_last()[i].flags.0 <= 0xff by {
            assert(ranges[i].is_inside());
        }
        lemma_all_shifted(m, frames, root, ranges.drop_last());
        assert(ranges[ranges.len() - 1].is_inside());
        crate::mm::exact::mapping_a_range_keeps_the_offset(
            before.mem,
            before.frames,
            root,
            r.va,
            r.pa,
            r.size,
            r.flags,
            0,
            KERNEL_VMA as int,
        );
        assert(crate::mm::keeping::apart(
            all_mapped(m, frames, root, ranges).mem,
            all_mapped(m, frames, root, ranges).frames,
            root,
        )) by {
            reveal(crate::mm::keeping::apart);
            crate::mm::translation::mapping_a_range_keeps_frames_apart(
                before.mem,
                before.frames,
                root,
                r.va,
                r.pa,
                r.size,
                r.flags,
                0,
            );
        }
    }
}

/// In a kernel address space that was built, whatever is mapped is mapped at the
/// kernel's offset: no physical address is reachable at two addresses. Its tables
/// are a tree, and the frames left over are apart from them.
pub proof fn a_built_space_has_no_aliases(
    m: Map<int, u64>,
    frames: Seq<u64>,
    layout: Layout,
    ram: Seq<Region>,
    plic: Option<PlicInfo>,
    a: u64,
)
    requires
        crate::mm::translation::proper_frames(frames),
        can_be_mapped(layout, ram, plic),
        built(m, frames, layout, ram, plic).result is Ok,
    ensures
        crate::mm::page_table::translated(
            built(m, frames, layout, ram, plic).mem,
            frames[0],
            a,
        ) matches Some(found) ==> found.0.0 == a - KERNEL_VMA,
        crate::mm::translation::is_tree(built(m, frames, layout, ram, plic).mem, frames[0]),
        crate::mm::keeping::apart(
            built(m, frames, layout, ram, plic).mem,
            built(m, frames, layout, ram, plic).frames,
            frames[0],
        ),
{
    let root = frames[0];
    let first = crate::mm::memory::with_zero_frame(m, root);
    let rest = frames.drop_first();
    let image = image_ranges(layout);
    let direct = direct_ranges(layout, ram, plic);
    assert(crate::mm::keeping::apart(first, rest, root)) by {
        reveal(crate::mm::keeping::apart);
        crate::mm::translation::a_fresh_root_is_apart(m, frames);
    }
    crate::mm::exact::a_fresh_root_is_a_tree(m, root);
    crate::mm::page_table::lemma_empty_entry();
    assert forall|b: u64| (#[trigger] crate::mm::page_table::translated(first, root, b)) is None by {
        let w = crate::mm::page_table::entry_word(root, b, 2);
        assert(0 <= crate::mm::addr::vpn_of(b, 2) < 512);
        assert(first[w] == 0);
    }
    crate::mm::page_table::lemma_named_permissions();
    lemma_ranges_inside(layout, ram, plic);
    lemma_all_shifted(first, rest, root, image);
    let done = all_mapped(first, rest, root, image);
    lemma_all_shifted(done.mem, done.frames, root, direct);
}

/// In a kernel address space that was built, every address that leads into a
/// section of the image has that section's permissions: there is no writable
/// alias of the kernel's text, nor of its constants.
pub proof fn kernel_sections_keep_their_permissions(
    m: Map<int, u64>,
    frames: Seq<u64>,
    layout: Layout,
    ram: Seq<Region>,
    plic: Option<PlicInfo>,
    i: int,
    a: u64,
)
    requires
        crate::mm::translation::proper_frames(frames),
        can_be_mapped(layout, ram, plic),
        built(m, frames, layout, ram, plic).result is Ok,
        0 <= i < image_ranges(layout).len(),
    ensures
        ({
            let section = image_ranges(layout)[i];
            crate::mm::page_table::translated(
                built(m, frames, layout, ram, plic).mem,
                frames[0],
                a,
            ) matches Some(found) ==> section.pa <= found.0.0 < section.pa + section.size
                ==> found.1 == section.flags
        }),
{
    let section = image_ranges(layout)[i];
    a_built_space_has_no_aliases(m, frames, layout, ram, plic, a);
    a_built_space_maps_the_kernel(m, frames, layout, ram, plic);
    assert(is_covered(built(m, frames, layout, ram, plic).mem, frames[0], section));
    lemma_ranges_inside(layout, ram, plic);
    lemma_valid_already();
}

proof fn lemma_valid_already()
    by (bit_vector)
    ensures
        KERNEL_RX | V == KERNEL_RX,
        KERNEL_RO | V == KERNEL_RO,
        KERNEL_RW | V == KERNEL_RW,
{
}

/// What the kernel's address space leads to at `a`: a physical address and the
/// permissions there.
pub open spec fn leads(m: Map<int, u64>, root: u64, a: u64, pa: int, flags: u64) -> bool {
    &&& crate::mm::page_table::translated(m, root, a) matches Some(found)
    &&& found.0.0 == pa
    &&& found.1.0 == flags
}

proof fn lemma_image_found(
    m: Map<int, u64>,
    frames: Seq<u64>,
    layout: Layout,
    ram: Seq<Region>,
    plic: Option<PlicInfo>,
    i: int,
    a: u64,
)
    requires
        crate::mm::translation::proper_frames(frames),
        can_be_mapped(layout, ram, plic),
        built(m, frames, layout, ram, plic).result is Ok,
        0 <= i < 3,
        image_ranges(layout)[i].va <= a < image_ranges(layout)[i].va + image_ranges(layout)[i].size,
    ensures
        leads(
            built(m, frames, layout, ram, plic).mem,
            frames[0],
            a,
            a - KERNEL_VMA,
            image_ranges(layout)[i].flags.0 | V,
        ),
{
    let section = image_ranges(layout)[i];
    a_built_space_maps_the_kernel(m, frames, layout, ram, plic);
    lemma_ranges_inside(layout, ram, plic);
    assert(is_covered(built(m, frames, layout, ram, plic).mem, frames[0], section));
}

/// The kernel finds its image where it was linked, its text to be read and run,
/// its constants to be read, its data to be read and written, and none of it from
/// user mode. The last page of the address space is not part of an image.
pub proof fn the_kernel_finds_its_image(
    m: Map<int, u64>,
    frames: Seq<u64>,
    layout: Layout,
    ram: Seq<Region>,
    plic: Option<PlicInfo>,
    a: u64,
)
    requires
        crate::mm::translation::proper_frames(frames),
        can_be_mapped(layout, ram, plic),
        built(m, frames, layout, ram, plic).result is Ok,
        layout.kernel_end <= 0xffff_ffff_ffff_f000,
    ensures
        ({
            let now = built(m, frames, layout, ram, plic).mem;
            let root = frames[0];
            let pa = a - 0xffff_ffc0_0000_0000;
            &&& layout.text_start <= a < layout.text_end ==> leads(now, root, a, pa, 0x6b)
            &&& layout.rodata_start <= a < layout.rodata_end ==> leads(now, root, a, pa, 0x63)
            &&& layout.data_start <= a < layout.bss_end ==> leads(now, root, a, pa, 0xe7)
        }),
{
    lemma_valid_already();
    crate::mm::page_table::lemma_named_permissions();
    if layout.text_start <= a < layout.text_end {
        lemma_image_found(m, frames, layout, ram, plic, 0, a);
    }
    if layout.rodata_start <= a < layout.rodata_end {
        lemma_image_found(m, frames, layout, ram, plic, 1, a);
    }
    if layout.data_start <= a < layout.bss_end {
        lemma_image_found(m, frames, layout, ram, plic, 2, a);
    }
}

proof fn lemma_direct_found(
    m: Map<int, u64>,
    frames: Seq<u64>,
    layout: Layout,
    ram: Seq<Region>,
    plic: Option<PlicInfo>,
    i: int,
    p: int,
)
    requires
        crate::mm::translation::proper_frames(frames),
        can_be_mapped(layout, ram, plic),
        built(m, frames, layout, ram, plic).result is Ok,
        0 <= i < direct_ranges(layout, ram, plic).len(),
        direct_ranges(layout, ram, plic)[i].pa <= p < direct_ranges(layout, ram, plic)[i].pa
            + direct_ranges(layout, ram, plic)[i].size,
    ensures
        leads(
            built(m, frames, layout, ram, plic).mem,
            frames[0],
            (KERNEL_VMA + p) as u64,
            p,
            direct_ranges(layout, ram, plic)[i].flags.0 | V,
        ),
{
    let range = direct_ranges(layout, ram, plic)[i];
    a_built_space_maps_the_kernel(m, frames, layout, ram, plic);
    lemma_ranges_inside(layout, ram, plic);
    assert(is_covered(built(m, frames, layout, ram, plic).mem, frames[0], range));
}

/// The kernel finds all memory beside its image, and every device it drives, at
/// its offset: the console, the shutdown register and the interrupt controller.
pub proof fn the_kernel_finds_memory_and_devices(
    m: Map<int, u64>,
    frames: Seq<u64>,
    layout: Layout,
    ram: Seq<Region>,
    plic: Option<PlicInfo>,
    p: int,
)
    requires
        crate::mm::translation::proper_frames(frames),
        can_be_mapped(layout, ram, plic),
        built(m, frames, layout, ram, plic).result is Ok,
        ({
            let a = p + 0xffff_ffc0_0000_0000;
            ||| crate::mm::region::covered(ram, p) && !(layout.kernel_start <= a
                < layout.kernel_end)
            ||| 0x1000_0000 <= p < 0x1000_1000
            ||| 0x10_0000 <= p < 0x10_1000
            ||| plic matches Some(info) && info.region.start.0 <= p < info.region.end.0
        }),
    ensures
        leads(
            built(m, frames, layout, ram, plic).mem,
            frames[0],
            (0xffff_ffc0_0000_0000 + p) as u64,
            p,
            0xe7,
        ),
{
    lemma_valid_already();
    crate::mm::page_table::lemma_named_permissions();
    let left = ram_left(layout, ram);
    let direct = direct_ranges(layout, ram, plic);
    let n = left.len() as int;
    if 0x1000_0000 <= p < 0x1000_1000 {
        assert(direct[n].pa == 0x1000_0000);
        lemma_direct_found(m, frames, layout, ram, plic, n, p);
    } else if 0x10_0000 <= p < 0x10_1000 {
        assert(direct[n + 1].pa == 0x10_0000);
        lemma_direct_found(m, frames, layout, ram, plic, n + 1, p);
    } else if plic is Some && plic->Some_0.region.start.0 <= p < plic->Some_0.region.end.0 {
        assert(direct[n + 2].pa == plic->Some_0.region.start.0);
        lemma_direct_found(m, frames, layout, ram, plic, n + 2, p);
    } else {
        let carve = seq![
            Region {
                start: PhysAddr((layout.kernel_start - KERNEL_VMA) as u64),
                end: PhysAddr((layout.kernel_end - KERNEL_VMA) as u64),
            },
        ];
        assert(crate::mm::region::is_normal_form(carve, carve));
        crate::mm::region::lemma_normal_form(carve, carve);
        crate::mm::region::lemma_remainders(ram, carve);
        assert(!crate::mm::region::covered(carve, p));
        assert(crate::mm::region::covered(left, p));
        let i = choose|i: int| 0 <= i < left.len() && (#[trigger] left[i]).covers(p);
        assert(direct[i].pa == left[i].start.0);
        assert(direct[i].flags.0 == KERNEL_RW);
        lemma_direct_found(m, frames, layout, ram, plic, i, p);
    }
}

/// Every address from the kernel's offset on goes through the upper half of the
/// root table.
proof fn lemma_upper_half(a: u64)
    requires
        KERNEL_VMA <= a,
    ensures
        256 <= crate::mm::addr::vpn_of(a, 2) < 512,
{
    crate::mm::addr::lemma_spans();
}

proof fn lemma_all_upper(m: Map<int, u64>, frames: Seq<u64>, root: u64, ranges: Seq<Mapping>)
    requires
        crate::mm::keeping::rooted(m, frames, root),
        forall|i: int|
            0 <= i < ranges.len() ==> (#[trigger] ranges[i]).is_inside() && ranges[i].flags.0
                <= 0xff && KERNEL_VMA <= ranges[i].va,
        all_mapped(m, frames, root, ranges).result is Ok,
    ensures
        ({
            let done = all_mapped(m, frames, root, ranges);
            &&& crate::mm::keeping::rooted(done.mem, done.frames, root)
            &&& forall|w: int|
                root as int / 8 <= w < root as int / 8 + 256 ==> #[trigger] done.mem[w] == m[w]
        }),
    decreases ranges.len(),
{
    if ranges.len() > 0 {
        let before = all_mapped(m, frames, root, ranges.drop_last());
        let r = ranges.last();
        assert forall|i: int| 0 <= i < ranges.drop_last().len() implies (
        #[trigger] ranges.drop_last()[i]).is_inside() && ranges.drop_last()[i].flags.0 <= 0xff
            && KERNEL_VMA <= ranges.drop_last()[i].va by {
            assert(ranges[i].is_inside());
        }
        lemma_all_upper(m, frames, root, ranges.drop_last());
        assert(ranges[ranges.len() - 1].is_inside());
        assert forall|a: u64| r.va <= a < r.va + r.size implies 256
            <= #[trigger] crate::mm::addr::vpn_of(a, 2) by {
            lemma_upper_half(a);
        }
        crate::mm::keeping::mapping_a_range_changes_no_earlier_root_entry(
            before.mem,
            before.frames,
            root,
            r.va,
            r.pa,
            r.size,
            r.flags,
            0,
            256,
        );
        let done = all_mapped(m, frames, root, ranges);
        assert forall|w: int| root as int / 8 <= w < root as int / 8 + 256 implies #[trigger]
            done.mem[w] == m[w] by {
            assert(before.mem[w] == m[w]);
        }
    }
}

/// A kernel address space that was built maps nothing below the kernel's offset:
/// no identity mapping survives into it.
pub proof fn a_built_space_leaves_the_low_half_empty(
    m: Map<int, u64>,
    frames: Seq<u64>,
    layout: Layout,
    ram: Seq<Region>,
    plic: Option<PlicInfo>,
    a: u64,
)
    requires
        crate::mm::translation::proper_frames(frames),
        can_be_mapped(layout, ram, plic),
        built(m, frames, layout, ram, plic).result is Ok,
        a < KERNEL_VMA,
    ensures
        crate::mm::page_table::translated(
            built(m, frames, layout, ram, plic).mem,
            frames[0],
            a,
        ) is None,
{
    let root = frames[0];
    let first = crate::mm::memory::with_zero_frame(m, root);
    let rest = frames.drop_first();
    let image = image_ranges(layout);
    let direct = direct_ranges(layout, ram, plic);
    crate::mm::keeping::lemma_fresh_is_rooted(m, frames);
    crate::mm::page_table::lemma_named_permissions();
    lemma_ranges_inside(layout, ram, plic);
    lemma_all_upper(first, rest, root, image);
    let done = all_mapped(first, rest, root, image);
    lemma_all_upper(done.mem, done.frames, root, direct);
    let all = built(m, frames, layout, ram, plic);
    if crate::mm::addr::canonical(a) {
        crate::mm::addr::lemma_spans();
        let w = crate::mm::page_table::entry_word(root, a, 2);
        assert(0 <= crate::mm::addr::vpn_of(a, 2) < 256);
        assert(root % 4096 == 0);
        assert(first[w] == 0);
        assert(done.mem[w] == 0);
        assert(all.mem[w] == 0);
        crate::mm::page_table::lemma_empty_entry();
    }
}

} // verus!
