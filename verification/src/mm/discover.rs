//! Reading the memory map out of the device tree.

use crate::fdt::{read_cells, Fdt, FdtError, Property};
use crate::mm::addr::{PhysAddr, PAGE_SIZE};
use crate::mm::frame::BumpAllocator;
use crate::mm::region::{CapacityExceeded, Region, RegionList};
use crate::mm::{Regions, MAX_REGIONS};
use crate::plic::PlicInfo;
use crate::qemu::SIFIVE_TEST_PHYS;
use crate::uart::UART0_PHYS;
use vstd::prelude::*;

verus! {

#[derive(Debug, Clone, Copy, PartialEq, Eq, Structural)]
pub enum DiscoverError {
    Fdt(FdtError),
    /// More regions than [`MAX_REGIONS`]. Raise the bound; do not silently drop.
    TooManyRegions,
    /// The device tree described no usable RAM, which cannot be true.
    NoMemory,
}

/// What physical memory exists and what is already spoken for.
#[derive(Clone, Copy)]
pub struct MemoryMap {
    /// Everything the device tree calls RAM.
    pub ram: Regions,
    /// Everything that must not be handed out.
    pub reserved: Regions,
    /// `ram - reserved`, trimmed to whole pages. What the allocator may use.
    pub free: Regions,
    /// Physical regions that are devices rather than memory, one per `reg`
    /// entry in the device tree, grown outward to whole pages.
    ///
    /// Deliberately *not* coalesced: adjacent devices stay separate
    /// capabilities, so retyping the untyped for one transport hands you that
    /// transport's page and not its neighbour's.
    pub devices: Regions,
    /// The interrupt controller, if the device tree describes one.
    pub plic: Option<PlicInfo>,
    /// The device tree itself.
    pub fdt: Region,
}

/// A memory map, with its lists as sequences.
pub struct MapView {
    pub ram: Seq<Region>,
    pub reserved: Seq<Region>,
    pub free: Seq<Region>,
    /// The devices, in the order the device tree lists them.
    pub devices: Seq<Region>,
    pub plic: Option<PlicInfo>,
    pub fdt: Region,
}

/// What a `reg` property describes.
#[derive(Clone, Copy, PartialEq, Eq, Structural, Debug)]
pub enum BankKind {
    /// `/memory*` at depth 1.
    Ram,
    /// Anything under `/reserved-memory`.
    Reserved,
    /// A child of `/soc`, or a top-level node with a unit address that is not
    /// memory.
    ///
    /// Nodes deeper than that are behind a bus with its own cell counts, and
    /// `/cpus/cpu@0`'s `reg` is a hart id, so neither is read with the root's
    /// cells.
    Device,
}

/// What the node a property belongs to is, as far as memory goes.
pub open spec fn bank_kind(p: crate::fdt::PropertyView) -> Option<BankKind> {
    if p.depth == 1 && (p.node == crate::text::bytes_of("memory"@) || crate::text::begins(
        p.node,
        crate::text::bytes_of("memory@"@),
    )) {
        Some(BankKind::Ram)
    } else if p.depth == 2 && p.parent == crate::text::bytes_of("reserved-memory"@) {
        Some(BankKind::Reserved)
    } else if (p.depth == 2 && p.parent == crate::text::bytes_of("soc"@)) || (p.depth == 1
        && p.node.contains(0x40u8)) {
        Some(BankKind::Device)
    } else {
        None
    }
}

/// The value the root node gives a cell count, or two where it gives none.
pub open spec fn root_cells(props: Seq<crate::fdt::PropertyView>, name: Seq<char>) -> u64
    decreases props.len(),
{
    if props.len() == 0 {
        2
    } else if props.last().depth == 0 && props.last().name == crate::text::bytes_of(name)
        && crate::fdt::cells_at(props.last().value, 0, 1) is Some {
        crate::fdt::cells_at(props.last().value, 0, 1)->0
    } else {
        root_cells(props.drop_last(), name)
    }
}

/// The `(address, size)` pairs of a `reg` value from `off` on, those of size
/// zero left out. A node may describe several banks.
pub open spec fn pairs_from(value: Seq<u8>, address_cells: u64, size_cells: u64, off: int) -> Seq<
    (u64, u64),
>
    decreases value.len() - off,
{
    let entry = (address_cells + size_cells) * 4;
    if entry == 0 || off < 0 || off + entry > value.len() {
        Seq::empty()
    } else {
        let rest = pairs_from(value, address_cells, size_cells, off + entry);
        match (
            crate::fdt::cells_at(value, off, address_cells as nat),
            crate::fdt::cells_at(value, off + address_cells * 4, size_cells as nat),
        ) {
            (Some(base), Some(size)) => if size == 0 {
                rest
            } else {
                seq![(base, size)] + rest
            },
            _ => rest,
        }
    }
}

/// The region a pair describes. A device's is grown to whole pages.
pub open spec fn bank(pair: (u64, u64), kind: BankKind) -> Region {
    let r = Region { start: PhysAddr(pair.0), end: PhysAddr((pair.0 + pair.1) as u64) };
    if kind is Device {
        r.outer_pages()
    } else {
        r
    }
}

/// The banks of one kind that one property describes.
pub open spec fn banks_in(
    p: crate::fdt::PropertyView,
    address_cells: u64,
    size_cells: u64,
    kind: BankKind,
) -> Seq<Region> {
    if p.name == crate::text::bytes_of("reg"@) && bank_kind(p) == Some(kind) {
        let pairs = pairs_from(p.value, address_cells, size_cells, 0);
        Seq::new(pairs.len(), |i: int| bank(pairs[i], kind))
    } else {
        Seq::empty()
    }
}

/// The banks of one kind that the whole tree describes, in order.
pub open spec fn banks(
    props: Seq<crate::fdt::PropertyView>,
    address_cells: u64,
    size_cells: u64,
    kind: BankKind,
) -> Seq<Region>
    decreases props.len(),
{
    if props.len() == 0 {
        Seq::empty()
    } else {
        banks(props.drop_last(), address_cells, size_cells, kind) + banks_in(
            props.last(),
            address_cells,
            size_cells,
            kind,
        )
    }
}

/// Whether every pair of a `reg` value stays inside the address space.
pub open spec fn pairs_fit(value: Seq<u8>, address_cells: u64, size_cells: u64) -> bool {
    forall|k: int|
        0 <= k < pairs_from(value, address_cells, size_cells, 0).len() ==> (#[trigger] pairs_from(
            value,
            address_cells,
            size_cells,
            0,
        )[k]).0 + pairs_from(value, address_cells, size_cells, 0)[k].1 <= u64::MAX
}

/// Whether every bank the tree describes stays inside the address space.
pub open spec fn banks_fit(
    props: Seq<crate::fdt::PropertyView>,
    address_cells: u64,
    size_cells: u64,
) -> bool {
    forall|i: int|
        0 <= i < props.len() && (#[trigger] props[i]).name == crate::text::bytes_of("reg"@)
            && bank_kind(props[i]) is Some ==> pairs_fit(props[i].value, address_cells, size_cells)
}

/// A list with one region appended, if there is room; an empty region needs
/// none.
pub open spec fn appended(list: Seq<Region>, r: Region) -> Option<Seq<Region>> {
    if r.empty() {
        Some(list)
    } else if list.len() < MAX_REGIONS {
        Some(list.push(r))
    } else {
        None
    }
}

/// A list with as many of the reservations appended as there is room for.
pub open spec fn with_reservations(list: Seq<Region>, more: Seq<(u64, u64)>) -> Seq<Region>
    decreases more.len(),
{
    if more.len() == 0 {
        list
    } else {
        let before = with_reservations(list, more.drop_last());
        let r = Region {
            start: PhysAddr(more.last().0),
            end: PhysAddr((more.last().0 + more.last().1) as u64),
        };
        match appended(before, r) {
            Some(l) => l,
            None => before,
        }
    }
}

/// Whether a device region may be handed to userspace.
///
/// One overlapping RAM is a device tree we do not understand, and one
/// overlapping a device the kernel drives is the console, the shutdown register
/// or the interrupt controller.
pub open spec fn may_hand_out(d: Region, ram: Seq<Region>, plic: Option<PlicInfo>) -> bool {
    &&& forall|i: int| 0 <= i < ram.len() ==> !(#[trigger] ram[i]).meets(d)
    &&& !d.covers(UART0_PHYS as int)
    &&& !d.covers(SIFIVE_TEST_PHYS as int)
    &&& (plic matches Some(p) ==> !d.meets(p.region))
}

/// The devices that may be handed to userspace, in order.
pub open spec fn handed_out(
    devices: Seq<Region>,
    ram: Seq<Region>,
    plic: Option<PlicInfo>,
) -> Seq<Region>
    decreases devices.len(),
{
    if devices.len() == 0 {
        Seq::empty()
    } else if may_hand_out(devices.last(), ram, plic) {
        handed_out(devices.drop_last(), ram, plic).push(devices.last())
    } else {
        handed_out(devices.drop_last(), ram, plic)
    }
}

/// The whole pages of each region.
pub open spec fn trimmed(s: Seq<Region>) -> Seq<Region> {
    Seq::new(s.len(), |i: int| s[i].inner_pages())
}

/// The memory map for the given lists of RAM, reserved memory and devices.
pub open spec fn settled(
    ram: Seq<Region>,
    reserved: Seq<Region>,
    devices: Seq<Region>,
    plic: Option<PlicInfo>,
    entries: Seq<(u64, u64)>,
    fdt: Region,
    kernel: Region,
) -> Result<MapView, DiscoverError> {
    match appended(with_reservations(reserved, entries), kernel) {
        None => Err(DiscoverError::TooManyRegions),
        Some(with_kernel) => match appended(with_kernel, fdt) {
            None => Err(DiscoverError::TooManyRegions),
            Some(all_reserved) => {
                let ram = crate::mm::region::normal_form(ram);
                let reserved = crate::mm::region::normal_form(all_reserved);
                let left = crate::mm::region::remainders(ram, reserved);
                if ram.len() == 0 {
                    Err(DiscoverError::NoMemory)
                } else if left.len() > MAX_REGIONS {
                    Err(DiscoverError::TooManyRegions)
                } else {
                    Ok(
                        MapView {
                            ram,
                            reserved,
                            free: crate::mm::region::without_empty(trimmed(left)),
                            devices: handed_out(devices, ram, plic),
                            plic,
                            fdt,
                        },
                    )
                }
            },
        },
    }
}

/// The memory map that a list of properties and reservations describes.
pub open spec fn mapped_out(
    props: Seq<crate::fdt::PropertyView>,
    reservations: (Seq<(u64, u64)>, Result<(), FdtError>),
    fdt: Region,
    kernel: Region,
) -> Result<MapView, DiscoverError> {
    let ac = root_cells(props, "#address-cells"@);
    let sc = root_cells(props, "#size-cells"@);
    let ram = crate::mm::region::without_empty(banks(props, ac, sc, BankKind::Ram));
    let reserved = crate::mm::region::without_empty(banks(props, ac, sc, BankKind::Reserved));
    let devices = crate::mm::region::without_empty(banks(props, ac, sc, BankKind::Device));
    if ram.len() > MAX_REGIONS || reserved.len() > MAX_REGIONS || devices.len() > MAX_REGIONS {
        Err(DiscoverError::TooManyRegions)
    } else if reservations.1 is Err {
        Err(DiscoverError::Fdt(reservations.1->Err_0))
    } else {
        settled(
            ram,
            reserved,
            devices,
            crate::plic::controller(props),
            reservations.0,
            fdt,
            kernel,
        )
    }
}

/// Whether `free` is made of whole, separate pages of `ram` that nothing in
/// `reserved` touches.
pub open spec fn is_free(free: Seq<Region>, ram: Seq<Region>, reserved: Seq<Region>) -> bool {
    &&& forall|a: int| #[trigger]
        crate::mm::region::covered(free, a) ==> crate::mm::region::covered(ram, a)
            && !crate::mm::region::covered(reserved, a)
    &&& forall|i: int|
        0 <= i < free.len() ==> (#[trigger] free[i]).start.0 % PAGE_SIZE == 0 && free[i].end.0
            % PAGE_SIZE == 0 && free[i].start.0 < free[i].end.0
    &&& crate::mm::region::disjoint(free)
}

/// What is promised of every discovered map: the free memory is made of whole,
/// separate pages of RAM; neither the kernel nor the device tree lies in it;
/// no device handed out overlaps RAM or anything the kernel drives.
pub open spec fn is_safe(map: MemoryMap, kernel: Region) -> bool {
    &&& is_free(map.free@, map.ram@, map.reserved@)
    &&& forall|a: int|
        kernel.covers(a) || map.fdt.covers(a) ==> #[trigger] crate::mm::region::covered(
            map.reserved@,
            a,
        )
    &&& forall|i: int|
        0 <= i < map.devices@.len() ==> may_hand_out(
            #[trigger] map.devices@[i],
            map.ram@,
            map.plic,
        )
}

/// Whether a discovered map is the one described, with its devices sorted.
pub open spec fn is_map(
    r: Result<MemoryMap, DiscoverError>,
    view: Result<MapView, DiscoverError>,
) -> bool {
    match (r, view) {
        (Ok(map), Ok(view)) => {
            &&& map.ram@ == view.ram
            &&& map.reserved@ == view.reserved
            &&& map.free@ == view.free
            &&& map.devices@.to_multiset() == view.devices.to_multiset()
            &&& crate::mm::region::ordered(map.devices@)
            &&& map.plic == view.plic
            &&& map.fdt == view.fdt
        },
        (Err(e), Err(f)) => e == f,
        _ => false,
    }
}

/// The memory map that the device tree `bytes`, found at `dtb`, describes for a
/// kernel that occupies `kernel`.
pub open spec fn discovered(bytes: Seq<u8>, dtb: PhysAddr, kernel: Region) -> Result<
    MapView,
    DiscoverError,
> {
    match crate::fdt::refused(bytes) {
        Some(e) => Err(DiscoverError::Fdt(e)),
        None => match crate::fdt::properties_of(bytes).1 {
            Err(e) => Err(DiscoverError::Fdt(e)),
            Ok(()) => mapped_out(
                crate::fdt::properties_of(bytes).0,
                crate::fdt::reservations_of(bytes),
                Region {
                    start: dtb,
                    end: PhysAddr((dtb.0 + crate::fdt::header_field(bytes, 1)) as u64),
                },
                kernel,
            ),
        },
    }
}

/// Whether every region the device tree gives stays inside the address space. A
/// tree that cannot be walked gives none.
pub open spec fn addressable(bytes: Seq<u8>, dtb: PhysAddr) -> bool {
    let props = crate::fdt::properties_of(bytes).0;
    let reservations = crate::fdt::reservations_of(bytes).0;
    crate::fdt::refused(bytes) is None && crate::fdt::properties_of(bytes).1 is Ok ==> {
        &&& banks_fit(
            props,
            root_cells(props, "#address-cells"@),
            root_cells(props, "#size-cells"@),
        )
        &&& crate::plic::wide_regs_fit(props)
        &&& forall|i: int|
            0 <= i < reservations.len() ==> (#[trigger] reservations[i]).0 + reservations[i].1
                <= u64::MAX
        &&& dtb.0 + crate::fdt::header_field(bytes, 1) <= u64::MAX
    }
}

// --- Reading banks ---

fn kind_of(p: &Property) -> (r: Option<BankKind>)
    ensures
        r == bank_kind(p@),
{
    if p.depth == 1 && (crate::text::is(p.node, "memory") || crate::text::starts_with(
        p.node,
        "memory@",
    )) {
        Some(BankKind::Ram)
    } else if p.depth == 2 && crate::text::is(p.parent, "reserved-memory") {
        Some(BankKind::Reserved)
    } else if (p.depth == 2 && crate::text::is(p.parent, "soc")) || (p.depth == 1
        && crate::text::contains_byte(p.node, 0x40)) {
        Some(BankKind::Device)
    } else {
        None
    }
}

fn read_root_cells(props: &Vec<Property>, name: &str) -> (r: u64)
    ensures
        r == root_cells(crate::fdt::views(props@), name@),
        r <= u32::MAX,
{
    let ghost seen = crate::fdt::views(props@);
    let count: usize = props.len();
    let mut cells: u64 = 2;
    let mut i: usize = 0;
    while i < count
        invariant
            i <= count,
            count == props@.len(),
            seen == crate::fdt::views(props@),
            cells == root_cells(seen.take(i as int), name@),
            cells <= u32::MAX,
        decreases count - i,
    {
        let p: Property = props[i];
        proof {
            assert(seen.take(i + 1).drop_last() =~= seen.take(i as int));
            assert(seen[i as int] == p@);
            reveal_with_fuel(crate::fdt::cells_at, 2);
        }
        if p.depth == 0 && crate::text::is(p.name, name) {
            match read_cells(p.value, 0, 1) {
                Ok(v) => {
                    cells = v;
                },
                Err(_) => {},
            }
        }
        i = i + 1;
    }
    assert(seen.take(count as int) =~= seen);
    cells
}

fn read_pairs(value: &[u8], address_cells: u64, size_cells: u64) -> (r: Vec<(u64, u64)>)
    requires
        address_cells <= u32::MAX,
        size_cells <= u32::MAX,
    ensures
        r@ == pairs_from(value@, address_cells, size_cells, 0),
{
    let mut pairs: Vec<(u64, u64)> = Vec::new();
    let entry: u64 = (address_cells + size_cells) * 4;
    if entry == 0 {
        return pairs;
    }
    let total: u64 = value.len() as u64;
    let mut off: u64 = 0;
    assert(pairs@ + pairs_from(value@, address_cells, size_cells, 0) =~= pairs_from(
        value@,
        address_cells,
        size_cells,
        0,
    ));
    while entry <= total - off
        invariant
            total == value@.len(),
            off <= total,
            entry == (address_cells + size_cells) * 4,
            entry > 0,
            address_cells <= u32::MAX,
            size_cells <= u32::MAX,
            pairs_from(value@, address_cells, size_cells, 0) == pairs@ + pairs_from(
                value@,
                address_cells,
                size_cells,
                off as int,
            ),
        decreases total - off,
    {
        let ghost here = pairs_from(value@, address_cells, size_cells, off as int);
        let ghost rest = pairs_from(value@, address_cells, size_cells, off + entry);
        let ghost before = pairs@;
        let base: Result<u64, FdtError> = read_cells(value, off, address_cells);
        let size: Result<u64, FdtError> = read_cells(value, off + address_cells * 4, size_cells);
        match (base, size) {
            (Ok(base), Ok(size)) => {
                if size != 0 {
                    pairs.push((base, size));
                    assert(before + here =~= pairs@ + rest);
                }
            },
            _ => {},
        }
        off = off + entry;
    }
    assert(pairs@ + Seq::<(u64, u64)>::empty() =~= pairs@);
    pairs
}

fn read_banks(props: &Vec<Property>, address_cells: u64, size_cells: u64, kind: BankKind) -> (r:
    Vec<Region>)
    requires
        address_cells <= u32::MAX,
        size_cells <= u32::MAX,
        banks_fit(crate::fdt::views(props@), address_cells, size_cells),
    ensures
        r@ == banks(crate::fdt::views(props@), address_cells, size_cells, kind),
{
    let ghost seen = crate::fdt::views(props@);
    let count: usize = props.len();
    let mut found: Vec<Region> = Vec::new();
    let mut i: usize = 0;
    while i < count
        invariant
            i <= count,
            count == props@.len(),
            seen == crate::fdt::views(props@),
            address_cells <= u32::MAX,
            size_cells <= u32::MAX,
            banks_fit(seen, address_cells, size_cells),
            found@ == banks(seen.take(i as int), address_cells, size_cells, kind),
        decreases count - i,
    {
        let p: Property = props[i];
        proof {
            assert(seen.take(i + 1).drop_last() =~= seen.take(i as int));
            assert(seen[i as int] == p@);
        }
        let ghost before = found@;
        let ghost here = banks_in(p@, address_cells, size_cells, kind);
        if crate::text::is(p.name, "reg") && kind_of(&p) == Some(kind) {
            let pairs: Vec<(u64, u64)> = read_pairs(p.value, address_cells, size_cells);
            let n: usize = pairs.len();
            let mut k: usize = 0;
            assert(before + here.take(0) =~= before);
            while k < n
                invariant
                    k <= n,
                    n == pairs@.len(),
                    pairs@ == pairs_from(p@.value, address_cells, size_cells, 0),
                    0 <= i < seen.len(),
                    seen[i as int] == p@,
                    pairs_fit(p@.value, address_cells, size_cells),
                    here.len() == n,
                    forall|j: int| 0 <= j < n ==> #[trigger] here[j] == bank(pairs@[j], kind),
                    found@ == before + here.take(k as int),
                decreases n - k,
            {
                let (base, size) = pairs[k];
                assert(pairs_from(seen[i as int].value, address_cells, size_cells, 0)[k as int]
                    == (base, size));
                let whole: Region = Region::from_start_len(PhysAddr(base), size);
                let region: Region = match kind {
                    BankKind::Device => whole.page_aligned_out(),
                    _ => whole,
                };
                found.push(region);
                assert(here[k as int] == region);
                assert(before + here.take(k + 1) =~= (before + here.take(k as int)).push(region));
                k = k + 1;
            }
            assert(here.take(n as int) =~= here);
        } else {
            assert(before + here =~= before);
        }
        i = i + 1;
    }
    assert(seen.take(count as int) =~= seen);
    found
}

/// The regions of a list that are not empty, if there is room for them all.
fn fill(all: &Vec<Region>) -> (r: Option<Regions>)
    ensures
        crate::mm::region::without_empty(all@).len() > MAX_REGIONS ==> r is None,
        crate::mm::region::without_empty(all@).len() <= MAX_REGIONS ==> r is Some && r->0@
            == crate::mm::region::without_empty(all@),
{
    let mut list: Regions = RegionList::new();
    let count: usize = all.len();
    let mut i: usize = 0;
    while i < count
        invariant
            i <= count,
            count == all@.len(),
            list@ == crate::mm::region::without_empty(all@.take(i as int)),
        decreases count - i,
    {
        assert(all@.take(i + 1).drop_last() =~= all@.take(i as int));
        match list.push(all[i]) {
            Ok(()) => {},
            Err(_) => {
                proof {
                    lemma_without_empty_grows(all@, i + 1);
                }
                return None;
            },
        }
        i = i + 1;
    }
    assert(all@.take(count as int) =~= all@);
    let _room: usize = list.len();
    Some(list)
}

proof fn lemma_without_empty_grows(s: Seq<Region>, n: int)
    requires
        0 <= n <= s.len(),
    ensures
        crate::mm::region::without_empty(s.take(n)).len() <= crate::mm::region::without_empty(
            s,
        ).len(),
    decreases s.len(),
{
    if n == s.len() {
        assert(s.take(n) =~= s);
    } else {
        assert(s.drop_last().take(n) =~= s.take(n));
        lemma_without_empty_grows(s.drop_last(), n);
    }
}

proof fn lemma_without_empty(s: Seq<Region>)
    ensures
        crate::mm::region::none_empty(crate::mm::region::without_empty(s)),
    decreases s.len(),
{
    if s.len() > 0 {
        lemma_without_empty(s.drop_last());
    }
}

pub(crate) proof fn lemma_with_reservations(list: Seq<Region>, more: Seq<(u64, u64)>)
    requires
        crate::mm::region::none_empty(list),
    ensures
        crate::mm::region::none_empty(with_reservations(list, more)),
    decreases more.len(),
{
    if more.len() > 0 {
        lemma_with_reservations(list, more.drop_last());
    }
}

/// A sorted, merged list is its own sorted, merged form.
proof fn lemma_normal_form_of_normal_form(s: Seq<Region>)
    requires
        crate::mm::region::none_empty(s),
        crate::mm::region::is_normal_form(s, crate::mm::region::normal_form(s)),
    ensures
        crate::mm::region::normal_form(crate::mm::region::normal_form(s))
            == crate::mm::region::normal_form(s),
{
    let n = crate::mm::region::normal_form(s);
    assert(crate::mm::region::is_normal_form(n, n));
    crate::mm::region::lemma_normal_form(n, n);
}

proof fn lemma_handed_out(devices: Seq<Region>, ram: Seq<Region>, plic: Option<PlicInfo>)
    ensures
        forall|i: int|
            0 <= i < handed_out(devices, ram, plic).len() ==> may_hand_out(
                #[trigger] handed_out(devices, ram, plic)[i],
                ram,
                plic,
            ),
    decreases devices.len(),
{
    if devices.len() > 0 {
        lemma_handed_out(devices.drop_last(), ram, plic);
        let before = handed_out(devices.drop_last(), ram, plic);
        assert forall|i: int| 0 <= i < handed_out(devices, ram, plic).len() implies may_hand_out(
            #[trigger] handed_out(devices, ram, plic)[i],
            ram,
            plic,
        ) by {
            if i < before.len() {
                assert(may_hand_out(before[i], ram, plic));
            }
        }
    }
}

/// The whole pages of a region lie in it.
proof fn lemma_inner_pages(r: Region)
    ensures
        r.inner_pages().start.0 % PAGE_SIZE == 0,
        r.inner_pages().end.0 % PAGE_SIZE == 0,
        r.inner_pages().end.0 <= r.end.0,
        !r.inner_pages().empty() ==> r.start.0 <= r.inner_pages().start.0,
{
}

proof fn lemma_trimmed(s: Seq<Region>)
    requires
        crate::mm::region::none_empty(s),
        crate::mm::region::disjoint(s),
    ensures
        ({
            let free = crate::mm::region::without_empty(trimmed(s));
            &&& forall|a: int| #[trigger]
                crate::mm::region::covered(free, a) ==> crate::mm::region::covered(s, a)
            &&& forall|i: int|
                0 <= i < free.len() ==> (#[trigger] free[i]).start.0 % PAGE_SIZE == 0
                    && free[i].end.0 % PAGE_SIZE == 0 && free[i].start.0 < free[i].end.0
            &&& crate::mm::region::disjoint(free)
            &&& free.len() > 0 && s.len() > 0 ==> free.last().end.0 <= s.last().end.0
        }),
    decreases s.len(),
{
    let free = crate::mm::region::without_empty(trimmed(s));
    if s.len() > 0 {
        let before = crate::mm::region::without_empty(trimmed(s.drop_last()));
        lemma_trimmed(s.drop_last());
        lemma_inner_pages(s.last());
        assert(trimmed(s).drop_last() =~= trimmed(s.drop_last()));
        assert forall|a: int| #[trigger]
            crate::mm::region::covered(free, a) implies crate::mm::region::covered(s, a) by {
            let i = choose|i: int| 0 <= i < free.len() && (#[trigger] free[i]).covers(a);
            if i < before.len() {
                assert(before[i].covers(a));
                assert(crate::mm::region::covered(before, a));
                let j = choose|j: int|
                    0 <= j < s.drop_last().len() && (#[trigger] s.drop_last()[j]).covers(a);
                assert(s[j].covers(a));
            } else {
                assert(s[s.len() - 1].covers(a));
            }
        }
        if before.len() > 0 {
            assert(s.len() > 1);
            assert(s[s.len() - 2].end.0 <= s[s.len() - 1].start.0);
        }
    }
}

fn usable(d: &Region, ram: &Regions, plic: Option<PlicInfo>) -> (r: bool)
    ensures
        r == may_hand_out(*d, ram@, plic),
{
    let count: usize = ram.len();
    let mut i: usize = 0;
    while i < count
        invariant
            i <= count,
            count == ram@.len(),
            forall|k: int| 0 <= k < i ==> !(#[trigger] ram@[k]).meets(*d),
        decreases count - i,
    {
        let bank: Region = ram.get(i);
        if bank.overlaps(d) {
            return false;
        }
        i = i + 1;
    }
    if d.contains(PhysAddr(UART0_PHYS)) || d.contains(PhysAddr(SIFIVE_TEST_PHYS)) {
        return false;
    }
    match plic {
        Some(p) => !d.overlaps(&p.region),
        None => true,
    }
}

/// Append as many of the reservations as there is room for.
fn add_reservations(reserved: &mut Regions, entries: &Vec<(u64, u64)>)
    requires
        forall|i: int|
            0 <= i < entries@.len() ==> (#[trigger] entries@[i]).0 + entries@[i].1 <= u64::MAX,
    ensures
        final(reserved)@ == with_reservations(old(reserved)@, entries@),
{
    let ghost listed = reserved@;
    let count: usize = entries.len();
    let mut i: usize = 0;
    while i < count
        invariant
            i <= count,
            count == entries@.len(),
            forall|k: int|
                0 <= k < count ==> (#[trigger] entries@[k]).0 + entries@[k].1 <= u64::MAX,
            reserved@ == with_reservations(listed, entries@.take(i as int)),
        decreases count - i,
    {
        let (addr, size) = entries[i];
        assert(entries@.take(i + 1).drop_last() =~= entries@.take(i as int));
        let _ = reserved.push(Region::from_start_len(PhysAddr(addr), size));
        i = i + 1;
    }
    assert(entries@.take(count as int) =~= entries@);
}

/// What is left of `ram` without `reserved`, in whole pages.
fn free_pages(ram: &Regions, reserved: &Regions) -> (r: Result<Regions, CapacityExceeded>)
    requires
        crate::mm::region::none_empty(ram@),
        crate::mm::region::none_empty(reserved@),
        crate::mm::region::disjoint(ram@),
        crate::mm::region::normal_form(reserved@) == reserved@,
    ensures
        r matches Ok(free) ==> is_free(free@, ram@, reserved@),
        match r {
            Ok(free) => crate::mm::region::remainders(ram@, reserved@).len() <= MAX_REGIONS
                && free@ == crate::mm::region::without_empty(
                trimmed(crate::mm::region::remainders(ram@, reserved@)),
            ),
            Err(_) => crate::mm::region::remainders(ram@, reserved@).len() > MAX_REGIONS,
        },
{
    // Subtract first, then trim to page boundaries.
    let mut free: Regions = match ram.subtract(reserved) {
        Ok(f) => f,
        Err(e) => {
            return Err(e);
        },
    };
    let ghost left = free@;
    let count: usize = free.len();
    let mut i: usize = 0;
    while i < count
        invariant
            i <= count,
            count == free@.len(),
            left.len() == count,
            forall|k: int| 0 <= k < i ==> #[trigger] free@[k] == left[k].inner_pages(),
            forall|k: int| i <= k < count ==> #[trigger] free@[k] == left[k],
        decreases count - i,
    {
        let whole: Region = free.get(i).page_aligned();
        free.set(i, whole);
        i = i + 1;
    }
    assert(free@ =~= trimmed(left));
    free.drop_empty();
    proof {
        lemma_trimmed(left);
        assert forall|a: int| #[trigger]
            crate::mm::region::covered(free@, a) implies crate::mm::region::covered(ram@, a)
            && !crate::mm::region::covered(reserved@, a) by {
            assert(crate::mm::region::covered(left, a));
        }
    }
    Ok(free)
}

/// The devices userspace may have, lowest first.
fn keep_usable(devices: &Regions, ram: &Regions, plic: Option<PlicInfo>) -> (r: Regions)
    requires
        devices@.len() <= MAX_REGIONS,
        crate::mm::region::none_empty(devices@),
    ensures
        r@.to_multiset() == handed_out(devices@, ram@, plic).to_multiset(),
        forall|i: int|
            0 <= i < r@.len() ==> may_hand_out(#[trigger] r@[i], ram@, plic),
        crate::mm::region::ordered(r@),
{
    let mut kept: Regions = RegionList::new();
    let count: usize = devices.len();
    let mut i: usize = 0;
    while i < count
        invariant
            i <= count,
            count == devices@.len(),
            count <= MAX_REGIONS,
            crate::mm::region::none_empty(devices@),
            kept@ == handed_out(devices@.take(i as int), ram@, plic),
            kept@.len() <= i,
        decreases count - i,
    {
        let d: Region = devices.get(i);
        assert(devices@.take(i + 1).drop_last() =~= devices@.take(i as int));
        if usable(&d, ram, plic) {
            let _ = kept.push(d);
        }
        i = i + 1;
    }
    assert(devices@.take(count as int) =~= devices@);
    let ghost found = kept@;
    kept.sort();
    proof {
        lemma_handed_out(devices@, ram@, plic);
        assert forall|i: int| 0 <= i < kept@.len() implies may_hand_out(
            #[trigger] kept@[i],
            ram@,
            plic,
        ) by {
            kept@.to_multiset_ensures();
            found.to_multiset_ensures();
            assert(kept@.to_multiset().contains(kept@[i]));
            assert(found.contains(kept@[i]));
        }
    }
    kept
}

/// Work out what is free, from the lists the device tree gives.
fn settle(
    listed: (Regions, Regions, Regions),
    plic: Option<PlicInfo>,
    entries: &Vec<(u64, u64)>,
    fdt: Region,
    kernel: Region,
) -> (r: Result<MemoryMap, DiscoverError>)
    requires
        crate::mm::region::none_empty(listed.0@),
        crate::mm::region::none_empty(listed.1@),
        crate::mm::region::none_empty(listed.2@),
        listed.2@.len() <= MAX_REGIONS,
        forall|i: int|
            0 <= i < entries@.len() ==> (#[trigger] entries@[i]).0 + entries@[i].1 <= u64::MAX,
    ensures
        is_map(r, settled(listed.0@, listed.1@, listed.2@, plic, entries@, fdt, kernel)),
        r matches Ok(map) ==> is_safe(map, kernel),
{
    let (mut ram, mut reserved, devices) = listed;
    add_reservations(&mut reserved, entries);
    proof {
        lemma_with_reservations(listed.1@, entries@);
    }
    match reserved.push(kernel) {
        Ok(()) => {},
        Err(_) => {
            return Err(DiscoverError::TooManyRegions);
        },
    }
    match reserved.push(fdt) {
        Ok(()) => {},
        Err(_) => {
            return Err(DiscoverError::TooManyRegions);
        },
    }
    let ghost all_reserved = reserved@;
    ram.normalize();
    reserved.normalize();
    if ram.is_empty() {
        return Err(DiscoverError::NoMemory);
    }
    proof {
        lemma_normal_form_of_normal_form(all_reserved);
    }
    match free_pages(&ram, &reserved) {
        Ok(free) => {
            let kept: Regions = keep_usable(&devices, &ram, plic);
            proof {
                assert forall|a: int| kernel.covers(a) || fdt.covers(a) implies #[trigger]
                crate::mm::region::covered(reserved@, a) by {
                    assert(crate::mm::region::covered(all_reserved, a)) by {
                        let n = with_reservations(listed.1@, entries@).len();
                        if kernel.covers(a) {
                            assert(all_reserved[n as int] == kernel);
                        } else {
                            assert(all_reserved.last() == fdt);
                        }
                    }
                }
            }
            Ok(MemoryMap { ram, reserved, free, devices: kept, plic, fdt })
        },
        Err(_) => Err(DiscoverError::TooManyRegions),
    }
}

fn pairs_are_addressable(value: &[u8], address_cells: u64, size_cells: u64) -> (r: bool)
    requires
        address_cells <= u32::MAX,
        size_cells <= u32::MAX,
    ensures
        r == pairs_fit(value@, address_cells, size_cells),
{
    let pairs: Vec<(u64, u64)> = read_pairs(value, address_cells, size_cells);
    sums_fit(&pairs)
}

/// Whether no pair of a base and a size runs past the address space.
fn sums_fit(pairs: &Vec<(u64, u64)>) -> (r: bool)
    ensures
        r == forall|k: int|
            0 <= k < pairs@.len() ==> (#[trigger] pairs@[k]).0 + pairs@[k].1 <= u64::MAX,
{
    let n: usize = pairs.len();
    let mut k: usize = 0;
    while k < n
        invariant
            k <= n,
            n == pairs@.len(),
            forall|j: int|
                0 <= j < k ==> (#[trigger] pairs@[j]).0 + pairs@[j].1 <= u64::MAX,
        decreases n - k,
    {
        let (base, size) = pairs[k];
        if base.checked_add(size).is_none() {
            assert(pairs@[k as int].0 + pairs@[k as int].1 > u64::MAX);
            return false;
        }
        k = k + 1;
    }
    true
}

fn banks_are_addressable(props: &Vec<Property>, address_cells: u64, size_cells: u64) -> (r: bool)
    requires
        address_cells <= u32::MAX,
        size_cells <= u32::MAX,
    ensures
        r == banks_fit(crate::fdt::views(props@), address_cells, size_cells),
{
    let ghost seen = crate::fdt::views(props@);
    let count: usize = props.len();
    let mut i: usize = 0;
    while i < count
        invariant
            i <= count,
            count == props@.len(),
            seen == crate::fdt::views(props@),
            address_cells <= u32::MAX,
            size_cells <= u32::MAX,
            forall|k: int|
                0 <= k < i && (#[trigger] seen[k]).name == crate::text::bytes_of("reg"@)
                    && bank_kind(seen[k]) is Some ==> pairs_fit(
                    seen[k].value,
                    address_cells,
                    size_cells,
                ),
        decreases count - i,
    {
        let p: Property = props[i];
        assert(seen[i as int] == p@);
        if crate::text::is(p.name, "reg") && kind_of(&p).is_some() && !pairs_are_addressable(
            p.value,
            address_cells,
            size_cells,
        ) {
            return false;
        }
        i = i + 1;
    }
    true
}

/// Whether every region the device tree at `dtb` gives stays inside the address
/// space, so that [`discover`] can be asked to read it.
pub fn is_addressable(bytes: &[u8], dtb: PhysAddr) -> (r: bool)
    ensures
        r == addressable(bytes@, dtb),
{
    let fdt: Fdt = match Fdt::from_ptr(bytes) {
        Ok(f) => f,
        Err(_) => {
            return true;
        },
    };
    let (props, walked) = fdt.for_each_property();
    if walked.is_err() {
        return true;
    }
    let address_cells: u64 = read_root_cells(&props, "#address-cells");
    let size_cells: u64 = read_root_cells(&props, "#size-cells");
    let (entries, _complete) = fdt.for_each_reservation();
    banks_are_addressable(&props, address_cells, size_cells) && crate::plic::registers_fit(&props)
        && sums_fit(&entries) && dtb.as_usize().checked_add(fdt.total_size()).is_some()
}

/// Read the memory map out of the device tree.
///
/// `bytes` is the blob firmware left at the physical address `dtb`, and `kernel`
/// is where the kernel image is.
pub fn discover(bytes: &[u8], dtb: PhysAddr, kernel: Region) -> (r: Result<
    MemoryMap,
    DiscoverError,
>)
    requires
        addressable(bytes@, dtb),
    ensures
        is_map(r, discovered(bytes@, dtb, kernel)),
        r matches Ok(map) ==> is_safe(map, kernel),
{
    let fdt: Fdt = match Fdt::from_ptr(bytes) {
        Ok(f) => f,
        Err(e) => {
            return Err(DiscoverError::Fdt(e));
        },
    };
    let (props, walked) = fdt.for_each_property();
    match walked {
        Ok(()) => {},
        Err(e) => {
            return Err(DiscoverError::Fdt(e));
        },
    }
    // Cell counts come from the root node.
    let address_cells: u64 = read_root_cells(&props, "#address-cells");
    let size_cells: u64 = read_root_cells(&props, "#size-cells");
    let ram: Option<Regions> = fill(&read_banks(&props, address_cells, size_cells, BankKind::Ram));
    let reserved: Option<Regions> = fill(
        &read_banks(&props, address_cells, size_cells, BankKind::Reserved),
    );
    let devices: Option<Regions> = fill(
        &read_banks(&props, address_cells, size_cells, BankKind::Device),
    );
    let listed: (Regions, Regions, Regions) = match (ram, reserved, devices) {
        (Some(a), Some(b), Some(c)) => (a, b, c),
        _ => {
            return Err(DiscoverError::TooManyRegions);
        },
    };
    let (entries, complete) = fdt.for_each_reservation();
    match complete {
        Ok(()) => {},
        Err(e) => {
            return Err(DiscoverError::Fdt(e));
        },
    }
    proof {
        let seen = crate::fdt::views(props@);
        lemma_without_empty(banks(seen, address_cells, size_cells, BankKind::Ram));
        lemma_without_empty(banks(seen, address_cells, size_cells, BankKind::Reserved));
        lemma_without_empty(banks(seen, address_cells, size_cells, BankKind::Device));
    }
    let blob: Region = Region::from_start_len(dtb, fdt.total_size());
    let plic: Option<PlicInfo> = crate::plic::find(&fdt);
    settle(listed, plic, &entries, blob, kernel)
}

/// Discover memory and arm the frame allocator.
pub fn init(bytes: &[u8], dtb: PhysAddr, kernel: Region, frames: &mut BumpAllocator) -> (r: Result<
    MemoryMap,
    DiscoverError,
>)
    requires
        addressable(bytes@, dtb),
    ensures
        is_map(r, discovered(bytes@, dtb, kernel)),
        r matches Ok(map) ==> is_safe(map, kernel),
        match discovered(bytes@, dtb, kernel) {
            Err(e) => *final(frames) == *old(frames),
            Ok(view) => final(frames).handed_out() == 0 && final(frames).home() == view.free
                && final(frames).left() == crate::mm::region::without_empty(view.free)
                && final(frames).pending() == crate::mm::frame::frames_from(
                view.free,
                0,
                if view.free.len() > 0 {
                    view.free[0].start.0
                } else {
                    0
                },
            ),
        },
{
    match discover(bytes, dtb, kernel) {
        Ok(map) => {
            frames.init(&map.free);
            Ok(map)
        },
        Err(e) => Err(e),
    }
}

} // verus!
