//! Loading the root task: the last thing the kernel creates by itself.

pub mod belongings;
pub mod blocks;
pub mod endowment;
pub mod handover;
pub mod isolation;
pub mod laws;
pub mod pages;
pub mod starting;
pub mod telling;

use crate::abi::bootinfo::{
    BootInfo, BootInfoView, ModuleDesc, UntypedDesc, FDT_VADDR, MAX_UNTYPED, VADDR,
};
use crate::abi::object::{ObjectType, PAGE_BITS};
use crate::abi::rights::{ALL, READ};
use crate::abi::slot;
use crate::cap::cspace::{init_cnode, CSpace};
use crate::cap::slot::Derivation;
use crate::cap::slot_table::SlotTable;
use crate::cap::vspace::vspace_cap;
use crate::cap::{CapError, RawCap};
use crate::elf::{Elf, ElfError, Segment};
use crate::irq::{Entry, IrqTable};
use crate::mm::addr::{PhysAddr, VirtAddr, PHYS_LIMIT};
use crate::mm::address_space::{AddressSpace, Asid};
use crate::mm::discover::MemoryMap;
use crate::mm::frame::BumpAllocator;
use crate::mm::memory::Memory;
use crate::mm::page_table::{Mapper, PteFlags, USER_RO};
use crate::mm::region::Region;
use crate::mm::Regions;
use crate::objects::ObjectsView;
use crate::root::blocks::{alloc_aligned, split};
use crate::root::pages::{
    map_blank, map_modules, map_segments, map_stack, map_tree, Loading, Module, STACK_PAGES,
    STACK_TOP,
};
use crate::sched::{Kernel, KernelView};
use crate::thread::{Ids, Tcb, TcbView, ThreadId};
use vstd::prelude::*;

verus! {

/// The lowest address the kernel maps nothing at, and the root task's to use.
pub const FREE_VADDR: u64 = 0x4000_0000;

/// 2^8 slots of 2^7 bytes: a 32 KiB root CNode.
pub const CNODE_BITS: u8 = 15;

/// Address bits the root CNode consumes.
pub const CNODE_RADIX: u8 = 8;

/// Slots in the root CNode.
pub const CNODE_SLOTS: u64 = 256;

#[derive(Debug, Clone, Copy, PartialEq, Eq, Structural)]
pub enum RootError {
    Elf(ElfError),
    /// A segment asks to be both writable and executable.
    WriteExecute,
    /// Two segments share a page, so mapping one would overwrite the other.
    OverlappingSegments,
    /// A segment lands in the kernel half, or above the boot info page.
    BadAddress,
    OutOfMemory,
    Cap(CapError),
    Asid,
}

impl From<ElfError> for RootError {
    fn from(e: ElfError) -> (r: Self) {
        RootError::Elf(e)
    }
}

impl vstd::std_specs::convert::FromSpecImpl<ElfError> for RootError {
    open spec fn obeys_from_spec() -> bool {
        true
    }

    open spec fn from_spec(e: ElfError) -> RootError {
        RootError::Elf(e)
    }
}

impl From<CapError> for RootError {
    fn from(e: CapError) -> (r: Self) {
        RootError::Cap(e)
    }
}

impl vstd::std_specs::convert::FromSpecImpl<CapError> for RootError {
    open spec fn obeys_from_spec() -> bool {
        true
    }

    open spec fn from_spec(e: CapError) -> RootError {
        RootError::Cap(e)
    }
}

/// What was built, for the boot log to print.
#[derive(Clone, Copy)]
pub struct RootTask {
    pub id: ThreadId,
    pub entry: u64,
    pub image: (u64, u64),
    pub space: AddressSpace,
    pub cnode: RawCap,
    pub untypeds: usize,
    pub untyped_bytes: u64,
    /// How many of `untypeds` are device regions rather than RAM.
    pub devices: usize,
    /// Boot modules mapped read-only for the root task to load.
    pub modules: usize,
}

/// What the root task is made from.
pub struct Given<'a> {
    pub kernel_root: u64,
    pub image: Seq<u8>,
    pub modules: Seq<Module<'a>>,
    pub fdt: Region,
    pub devices: Seq<Region>,
    pub max_irq: u64,
}

// --- Its address space ---

/// What filling a fresh address space does: the image, the stack, a page for
/// the boot info, the device tree, the modules. It comes to the frame of the
/// boot info page.
#[verifier::opaque]
pub open spec fn space_filled(l: Loading, root: u64, g: Given) -> (Loading, Result<u64, RootError>) {
    let segments = crate::elf::loadable(g.image, crate::elf::table_len(g.image));
    match pages::segments_loaded(l, root, segments, segments.len() as int) {
        (w, Err(e)) => (w, Err(e)),
        (imaged, Ok(_)) => match pages::stack_loaded(imaged, root, STACK_PAGES as int) {
            (w, Err(e)) => (w, Err(e)),
            (stacked, Ok(_)) => match pages::page_loaded(
                stacked,
                root,
                VADDR,
                0,
                Seq::empty(),
                PteFlags(USER_RO),
            ) {
                (w, Err(e)) => (w, Err(e)),
                (told, Ok(_)) => match pages::tree_shared(
                    told,
                    root,
                    g.fdt,
                    pages::pages_in(g.fdt),
                ) {
                    (w, Err(e)) => (w, Err(e)),
                    (shared, Ok(_)) => match pages::modules_loaded(
                        shared,
                        root,
                        g.modules,
                        pages::module_count(g.modules),
                    ) {
                        (w, Err(e)) => (w, Err(e)),
                        (w, Ok(_)) => (w, Ok(stacked.frames[0])),
                    },
                },
            },
        },
    }
}

/// What taking memory for the root CNode and the thread does.
pub open spec fn objects_taken(l: Loading) -> (Loading, Result<(u64, u64), RootError>) {
    match blocks::frames_for(l.frames, CNODE_BITS) {
        None => (
            Loading {
                mem: blocks::frames_zeroed(l.mem, l.frames, l.frames.len() as int),
                frames: Seq::empty(),
            },
            Err(RootError::OutOfMemory),
        ),
        Some(n) => {
            let cnode = l.frames[n - blocks::frames_in_block(CNODE_BITS)];
            let w = Loading {
                mem: blocks::frames_zeroed(l.mem, l.frames, n),
                frames: l.frames.skip(n),
            };
            if w.frames.len() == 0 {
                (w, Err(RootError::OutOfMemory))
            } else {
                (
                    Loading {
                        mem: crate::mm::memory::with_zero_frame(w.mem, w.frames[0]),
                        frames: w.frames.drop_first(),
                    },
                    Ok((cnode, w.frames[0])),
                )
            }
        },
    }
}

// --- Its capabilities ---

/// The capability for the root CNode.
pub open spec fn cnode_cap(cnode: u64) -> RawCap {
    RawCap::plain(ObjectType::CNode, ALL, CNODE_BITS, PhysAddr(cnode))
}

/// The root CNode with what the kernel always puts in it.
///
/// It is not derived from any untyped the root task holds, so revoking one of
/// them can not destroy the space it is stored in.
pub open spec fn furnished(
    d: Derivation,
    cnode: u64,
    root: u64,
    asid: Asid,
    tcb: u64,
    info: u64,
) -> Derivation {
    let at = |i: u64| crate::cap::slot::slot_address(cnode, i as int);
    d.wiped_range(cnode, CNODE_SLOTS as nat).with_cap(at(slot::CNODE), cnode_cap(cnode)).with_cap(
        at(slot::VSPACE),
        (RawCap {
            asid: asid.0,
            ..RawCap::plain(ObjectType::PageTable, ALL, PAGE_BITS, PhysAddr(root))
        }),
    ).with_cap(
        at(slot::TCB),
        RawCap::plain(ObjectType::Tcb, ALL, PAGE_BITS, PhysAddr(tcb)),
    ).with_cap(
        at(slot::IRQ_CONTROL),
        RawCap::plain(ObjectType::IrqControl, ALL, 0, PhysAddr(0)),
    ).with_cap(
        at(slot::BOOTINFO),
        (RawCap {
            w0: root,
            w1: VADDR,
            ..RawCap::plain(ObjectType::Frame, READ, PAGE_BITS, PhysAddr(info))
        }),
    )
}

/// The blocks of some regions, region by region.
pub open spec fn blocks_of(regions: Seq<Region>, is_device: bool) -> Seq<UntypedDesc>
    decreases regions.len(),
{
    if regions.len() == 0 {
        Seq::empty()
    } else {
        blocks_of(regions.drop_last(), is_device) + blocks::blocks(
            regions.last().start.0 as int,
            regions.last().end.0 as int,
            is_device,
        )
    }
}

/// The blocks the root task is given: RAM first, then devices, as many as there
/// is room to describe.
pub open spec fn handed_over(left: Seq<Region>, devices: Seq<Region>) -> Seq<UntypedDesc> {
    let all = blocks_of(left, false) + blocks_of(devices, true);
    all.take(
        if all.len() < MAX_UNTYPED {
            all.len() as int
        } else {
            MAX_UNTYPED as int
        },
    )
}

/// The capability for a block.
pub open spec fn block_cap(d: UntypedDesc) -> RawCap {
    RawCap::plain(
        if d.is_device != 0 {
            ObjectType::DeviceUntyped
        } else {
            ObjectType::Untyped
        },
        ALL,
        d.size_bits,
        PhysAddr(d.paddr),
    )
}

/// The root CNode with capabilities for the first `n` blocks in it.
pub open spec fn blocks_placed(d: Derivation, cnode: u64, descs: Seq<UntypedDesc>, n: int) -> Derivation
    decreases n,
{
    if n <= 0 {
        d
    } else {
        blocks_placed(d, cnode, descs, n - 1).with_cap(
            crate::cap::slot::slot_address(cnode, slot::FIRST_UNTYPED + n - 1),
            block_cap(descs[n - 1]),
        )
    }
}

/// Bytes of RAM in the first `n` blocks.
pub open spec fn ram_bytes(descs: Seq<UntypedDesc>, n: int) -> nat
    decreases n,
{
    if n <= 0 {
        0
    } else {
        ram_bytes(descs, n - 1) + if descs[n - 1].is_device != 0 {
            0
        } else {
            descs[n - 1].size()
        }
    }
}

/// How many of the first `n` blocks are devices.
pub open spec fn device_count(descs: Seq<UntypedDesc>, n: int) -> nat
    decreases n,
{
    if n <= 0 {
        0
    } else {
        device_count(descs, n - 1) + if descs[n - 1].is_device != 0 {
            1nat
        } else {
            0
        }
    }
}

// --- What it is told ---

/// The boot info page.
pub open spec fn told(g: Given, span: (u64, u64), descs: Seq<UntypedDesc>) -> BootInfoView {
    BootInfoView {
        untyped_count: descs.len() as u32,
        cnode_radix: CNODE_RADIX as u64,
        cnode_slots: CNODE_SLOTS,
        first_free_slot: (slot::FIRST_UNTYPED + descs.len()) as u64,
        image_start: span.0,
        image_end: span.1,
        stack_bottom: (STACK_TOP - STACK_PAGES * 4096) as u64,
        stack_top: STACK_TOP,
        fdt_vaddr: (FDT_VADDR + (g.fdt.start.0 - g.fdt.outer_pages().start.0)) as u64,
        fdt_size: g.fdt.size() as u64,
        max_irq: g.max_irq,
        free_vaddr: FREE_VADDR,
        module_count: pages::module_count(g.modules) as u64,
        modules: pages::module_table(g.modules, pages::module_count(g.modules)),
        untyped: Seq::new(
            MAX_UNTYPED as nat,
            |i: int|
                if i < descs.len() {
                    descs[i]
                } else {
                    UntypedDesc { paddr: 0, size_bits: 0, is_device: 0 }
                },
        ),
        ..BootInfoView::empty()
    }
}

// --- All of it ---

/// What loading the root task leaves behind.
pub struct Loaded {
    pub kernel: KernelView,
    pub frames: Seq<u64>,
    pub irqs: Seq<Entry>,
    pub result: Result<RootTask, RootError>,
}

/// A kernel with other memory.
pub open spec fn with_memory(k: KernelView, mem: Map<int, u64>) -> KernelView {
    KernelView { objects: ObjectsView { mem, ..k.objects }, ..k }
}

/// The root task's thread, ready to run, and everything it starts out with.
pub open spec fn installed(
    k: KernelView,
    l: Loading,
    g: Given,
    left: Seq<Region>,
    space: AddressSpace,
    info: u64,
    cnode: u64,
    tcb: u64,
    span: (u64, u64),
) -> Loaded {
    let descs = handed_over(left, g.devices);
    let n = descs.len() as int;
    let root = space.mapper.root.0;
    let id = k.objects.ids.next;
    let entry = crate::elf::double_at(g.image, 24);
    let slots = blocks_placed(
        furnished(k.objects.slots, cnode, root, space.asid, tcb, info),
        cnode,
        descs,
        n,
    );
    let thread = TcbView {
        cspace: cnode_cap(cnode),
        ..TcbView::ready(
            PhysAddr(tcb),
            id,
            crate::mm::address_space::satp_of(root, space.asid),
            entry,
            STACK_TOP,
        )
    };
    let objects = ObjectsView {
        slots,
        mem: crate::abi::bootinfo::with_info(l.mem, info, told(g, span, descs)),
        ids: Ids { next: crate::bits::one_more(id) },
        threads: k.objects.threads.insert(tcb, thread),
        ..k.objects
    };
    Loaded {
        kernel: crate::sched::enlisted(KernelView { objects, ..k }, tcb),
        frames: l.frames,
        irqs: Seq::new(crate::irq::MAX_IRQ as nat, |i: int| crate::irq::unclaimed()),
        result: Ok(
            RootTask {
                id,
                entry,
                image: span,
                space,
                cnode: cnode_cap(cnode),
                untypeds: descs.len() as usize,
                untyped_bytes: ram_bytes(descs, n) as u64,
                devices: device_count(descs, n) as usize,
                modules: pages::module_count(g.modules) as usize,
            },
        ),
    }
}

/// What loading the root task does, `left` being the memory that is left over.
#[verifier::opaque]
pub open spec fn loaded(
    k: KernelView,
    frames: Seq<u64>,
    irqs: Seq<Entry>,
    g: Given,
    left: Seq<Region>,
) -> Loaded {
    let failed = |k: KernelView, frames: Seq<u64>, e: RootError|
        Loaded { kernel: k, frames, irqs, result: Err(e) };
    match crate::elf::refused(g.image) {
        Some(e) => failed(k, frames, RootError::Elf(e)),
        None => match crate::elf::image_span(g.image) {
            Err(e) => failed(k, frames, RootError::Elf(e)),
            Ok(span) => if frames.len() == 0 {
                failed(k, frames, RootError::OutOfMemory)
            } else {
                let root = frames[0];
                let fresh = Loading {
                    mem: crate::mm::address_space::with_kernel_half(
                        crate::mm::memory::with_zero_frame(k.objects.mem, root),
                        root,
                        g.kernel_root,
                    ),
                    frames: frames.drop_first(),
                };
                let (asids, assigned) = k.objects.asids.assigned();
                let named = KernelView { objects: ObjectsView { asids, ..k.objects }, ..k };
                match assigned {
                    Err(_) => failed(with_memory(named, fresh.mem), fresh.frames, RootError::Asid),
                    Ok(asid) => match space_filled(fresh, root, g) {
                        (l, Err(e)) => failed(with_memory(named, l.mem), l.frames, e),
                        (filled, Ok(info)) => match objects_taken(filled) {
                            (l, Err(e)) => failed(with_memory(named, l.mem), l.frames, e),
                            (l, Ok((cnode, tcb))) => installed(
                                named,
                                l,
                                g,
                                left,
                                AddressSpace {
                                    mapper: Mapper { root: PhysAddr(root) },
                                    asid,
                                    kernel_fingerprint: crate::mm::address_space::fingerprint(
                                        fresh.mem,
                                        g.kernel_root,
                                    ),
                                },
                                info,
                                cnode,
                                tcb,
                                span,
                            ),
                        },
                    },
                }
            },
        },
    }
}

/// Whether regions lie where physical memory can be.
pub open spec fn in_physical_memory(regions: Seq<Region>) -> bool {
    forall|i: int|
        0 <= i < regions.len() ==> (#[trigger] regions[i]).end.0 <= crate::mm::addr::PHYS_LIMIT
}

// --- Doing it ---

/// Whether the machine has an address for every byte of every region.
pub fn lie_in_physical_memory(regions: &Regions) -> (r: bool)
    ensures
        r == in_physical_memory(regions@),
{
    let count: usize = regions.len();
    let mut i: usize = 0;
    while i < count
        invariant
            i <= count,
            count == regions@.len(),
            forall|k: int|
                0 <= k < i ==> (#[trigger] regions@[k]).end.0 <= crate::mm::addr::PHYS_LIMIT,
        decreases count - i,
    {
        if regions.get(i).end.as_usize() > PHYS_LIMIT {
            assert(regions@[i as int].end.0 > PHYS_LIMIT);
            return false;
        }
        i = i + 1;
    }
    true
}

/// Fill a fresh address space.
fn fill_space(
    space: &mut AddressSpace,
    elf: &Elf,
    fdt: Region,
    modules: &[Module],
    frames: &mut BumpAllocator,
    mem: &mut Memory,
    Ghost(g): Ghost<Given>,
) -> (r: Result<(PhysAddr, [ModuleDesc; crate::abi::bootinfo::MAX_MODULES]), RootError>)
    requires
        g.image == elf@,
        g.fdt == fdt,
        g.modules == modules@,
    ensures
        *final(space) == *old(space),
        final(frames).home() == old(frames).home(),
        ({
            let done = space_filled(
                Loading { mem: old(mem)@, frames: old(frames).pending() },
                old(space).mapper.root.0,
                g,
            );
            &&& final(mem)@ == done.0.mem
            &&& final(frames).pending() == done.0.frames
            &&& match done.1 {
                Ok(info) => {
                    &&& r is Ok
                    &&& r->Ok_0.0.0 == info
                    &&& pages::table_view(r->Ok_0.1@) == pages::module_table(
                        g.modules,
                        pages::module_count(g.modules),
                    )
                },
                Err(e) => r is Err && r->Err_0 == e,
            }
        }),
{
    proof {
        reveal(space_filled);
    }
    let segments: Vec<Result<Segment, ElfError>> = elf.segments();
    proof {
        assert forall|i: int| 0 <= i < segments@.len() && (#[trigger] segments@[i]) is Ok implies
            segments@[i]->Ok_0.data@.len() <= segments@[i]->Ok_0.mem_size by {
            let all = crate::elf::loadable(g.image, crate::elf::table_len(g.image));
            assert(all[i] == crate::elf::seen(segments@[i]));
            crate::elf::lemma_loadable(g.image, crate::elf::table_len(g.image), i);
        }
    }
    match map_segments(space, &segments, frames, mem) {
        Ok(_) => {},
        Err(e) => {
            return Err(e);
        },
    }
    match map_stack(space, frames, mem) {
        Ok(_) => {},
        Err(e) => {
            return Err(e);
        },
    }
    let info: PhysAddr = match map_blank(space, VADDR, PteFlags(USER_RO), frames, mem) {
        Ok(frame) => frame,
        Err(e) => {
            return Err(e);
        },
    };
    // The device tree, read-only, at its own address.
    match map_tree(space, fdt, frames, mem) {
        Ok(_) => {},
        Err(e) => {
            return Err(e);
        },
    }
    match map_modules(space, modules, frames, mem) {
        Ok(table) => Ok((info, table)),
        Err(e) => Err(e),
    }
}

/// Take memory for the root CNode and the thread.
fn take_objects(frames: &mut BumpAllocator, mem: &mut Memory) -> (r: Result<
    (PhysAddr, PhysAddr),
    RootError,
>)
    ensures
        final(frames).home() == old(frames).home(),
        ({
            let done = objects_taken(Loading { mem: old(mem)@, frames: old(frames).pending() });
            &&& final(mem)@ == done.0.mem
            &&& final(frames).pending() == done.0.frames
            &&& match done.1 {
                Ok((cnode, tcb)) => r == Ok::<(PhysAddr, PhysAddr), RootError>(
                    (PhysAddr(cnode), PhysAddr(tcb)),
                ),
                Err(e) => r is Err && r->Err_0 == e,
            }
        }),
{
    let cnode: PhysAddr = match alloc_aligned(CNODE_BITS, frames, mem) {
        Some(pa) => pa,
        None => {
            assert(frames.pending() =~= Seq::<u64>::empty());
            return Err(RootError::OutOfMemory);
        },
    };
    match frames.alloc_frame(mem) {
        Some(tcb) => Ok((cnode, tcb)),
        None => Err(RootError::OutOfMemory),
    }
}

/// An address below the number of slots names that slot of the root CNode.
proof fn lemma_root_slot(caps: Map<u64, RawCap>, cnode: u64, i: u64)
    requires
        cnode_cap(cnode).is_sound(),
        i < CNODE_SLOTS,
    ensures
        crate::cap::cspace::located(caps, cnode_cap(cnode), i, CNODE_RADIX) == Ok::<
            u64,
            crate::cap::ResolveError,
        >(crate::cap::slot::slot_address(cnode, i as int)),
        crate::cap::cspace::slots_in(CNODE_BITS) == CNODE_SLOTS,
{
    vstd::arithmetic::power2::lemma2_to64();
    vstd::arithmetic::div_mod::lemma_small_mod(i as nat, 256);
    assert(i as nat / vstd::arithmetic::power2::pow2(0) == i);
}

/// No two slots of the root CNode share an address.
proof fn lemma_slots_differ(cnode: u64, i: int, j: int)
    requires
        cnode_cap(cnode).is_sound(),
        0 <= i < CNODE_SLOTS,
        0 <= j < CNODE_SLOTS,
        i != j,
    ensures
        crate::cap::slot::slot_address(cnode, i) != crate::cap::slot::slot_address(cnode, j),
{
    vstd::arithmetic::power2::lemma2_to64();
}

/// Put a capability in a slot of the root CNode that is still empty.
fn place(cs: &CSpace, slots: &mut SlotTable, at: u64, cap: RawCap) -> (r: Result<(), RootError>)
    requires
        cs.root == cnode_cap(cs.root.paddr.0),
        cs.root.is_sound(),
        old(slots).wf(),
        cap.is_sound(),
        at < CNODE_SLOTS,
        old(slots)@.caps[crate::cap::slot::slot_address(cs.root.paddr.0, at as int)].kind is Null,
    ensures
        final(slots).wf(),
        final(slots)@ == old(slots)@.with_cap(
            crate::cap::slot::slot_address(cs.root.paddr.0, at as int),
            cap,
        ),
        r is Ok,
{
    proof {
        lemma_root_slot(slots@.caps, cs.root.paddr.0, at);
    }
    match cs.insert(slots, at, CNODE_RADIX, cap, None) {
        Ok(_) => Ok(()),
        Err(e) => Err(RootError::Cap(e)),
    }
}

/// Whether the slots of the root CNode from `from` on are empty.
pub open spec fn empty_from(d: Derivation, cnode: u64, from: int) -> bool {
    forall|i: int|
        from <= i < CNODE_SLOTS ==> d.caps[#[trigger] crate::cap::slot::slot_address(
            cnode,
            i,
        )].kind is Null
}

/// Lay out the root CNode, and put in it what the kernel always does.
fn furnish(
    slots: &mut SlotTable,
    cnode: PhysAddr,
    space: &AddressSpace,
    tcb: PhysAddr,
    info: PhysAddr,
) -> (r: Result<CSpace, RootError>)
    requires
        old(slots).wf(),
        cnode_cap(cnode.0).is_sound(),
    ensures
        final(slots).wf(),
        final(slots)@ == furnished(
            old(slots)@,
            cnode.0,
            space.mapper.root.0,
            space.asid,
            tcb.0,
            info.0,
        ),
        r is Ok,
        r->Ok_0.root == cnode_cap(cnode.0),
        empty_from(final(slots)@, cnode.0, slot::FIRST_UNTYPED as int),
{
    proof {
        vstd::arithmetic::power2::lemma2_to64();
        lemma_root_slot(slots@.caps, cnode.0, 0);
    }
    init_cnode(slots, cnode, CNODE_BITS);
    proof {
        assert forall|i: int| 0 <= i < CNODE_SLOTS implies slots@.caps[
            #[trigger] crate::cap::slot::slot_address(cnode.0, i)
        ].kind is Null by {
            crate::cap::cspace::lemma_wiped_range(old(slots)@, cnode.0, CNODE_SLOTS as nat, i);
        }
        assert forall|i: int, j: int|
            0 <= i < CNODE_SLOTS && 0 <= j < CNODE_SLOTS && i != j implies
            #[trigger] crate::cap::slot::slot_address(cnode.0, i)
            != #[trigger] crate::cap::slot::slot_address(cnode.0, j) by {
            lemma_slots_differ(cnode.0, i, j);
        }
    }
    let cap: RawCap = RawCap::new(ObjectType::CNode, ALL, CNODE_BITS, cnode);
    let cs: CSpace = match CSpace::new(cap) {
        Ok(cs) => cs,
        Err(e) => {
            return Err(RootError::Cap(e));
        },
    };
    let mut vspace: RawCap = vspace_cap(space.root());
    vspace.asid = space.asid().as_u16();
    let mut page: RawCap = RawCap::new(ObjectType::Frame, READ, PAGE_BITS, info);
    page.set_mapping(space.root(), VADDR);
    let thread: RawCap = RawCap::new(ObjectType::Tcb, ALL, PAGE_BITS, tcb);
    let control: RawCap = RawCap::new(ObjectType::IrqControl, ALL, 0, PhysAddr::new(0));
    match place(&cs, slots, slot::CNODE, cap) {
        Ok(_) => {},
        Err(e) => {
            return Err(e);
        },
    }
    match place(&cs, slots, slot::VSPACE, vspace) {
        Ok(_) => {},
        Err(e) => {
            return Err(e);
        },
    }
    match place(&cs, slots, slot::TCB, thread) {
        Ok(_) => {},
        Err(e) => {
            return Err(e);
        },
    }
    match place(&cs, slots, slot::IRQ_CONTROL, control) {
        Ok(_) => {},
        Err(e) => {
            return Err(e);
        },
    }
    match place(&cs, slots, slot::BOOTINFO, page) {
        Ok(_) => Ok(cs),
        Err(e) => Err(e),
    }
}

/// The blocks of some regions lie in physical memory, and are of a size the
/// kernel hands out.
proof fn lemma_blocks_of(regions: Seq<Region>, is_device: bool, k: int)
    requires
        in_physical_memory(regions),
        0 <= k < blocks_of(regions, is_device).len(),
    ensures
        ({
            let d = blocks_of(regions, is_device)[k];
            &&& (d.is_device != 0) == is_device
            &&& d.size_bits <= blocks::MAX_UNTYPED_BITS
            &&& d.size() <= 0x4000_0000
            &&& block_cap(d).is_sound()
        }),
    decreases regions.len(),
{
    let before = blocks_of(regions.drop_last(), is_device);
    let last = regions.last();
    if k < before.len() {
        assert(in_physical_memory(regions.drop_last())) by {
            assert forall|i: int| 0 <= i < regions.drop_last().len() implies (
            #[trigger] regions.drop_last()[i]).end.0 <= crate::mm::addr::PHYS_LIMIT by {
                assert(regions[i].end.0 <= crate::mm::addr::PHYS_LIMIT);
            }
        }
        lemma_blocks_of(regions.drop_last(), is_device, k);
    } else {
        let j = k - before.len();
        let d = blocks_of(regions, is_device)[k];
        assert(regions[regions.len() - 1].end.0 <= crate::mm::addr::PHYS_LIMIT);
        blocks::blocks_are_as_large_as_they_can_be(
            last.start.0 as int,
            last.end.0 as int,
            is_device,
            j,
        );
        vstd::arithmetic::power2::lemma2_to64();
        if d.size_bits < 30 {
            vstd::arithmetic::power2::lemma_pow2_strictly_increases(d.size_bits as nat, 30);
        }
    }
}

/// The blocks of some regions.
fn list_blocks(regions: &Regions, is_device: bool, out: &mut Vec<UntypedDesc>)
    ensures
        final(out)@ == old(out)@ + blocks_of(regions@, is_device),
{
    let ghost before = out@;
    let count: usize = regions.len();
    let mut i: usize = 0;
    assert(regions@.take(0) =~= Seq::<Region>::empty());
    assert(before + Seq::<UntypedDesc>::empty() =~= before);
    while i < count
        invariant
            i <= count,
            count == regions@.len(),
            out@ == before + blocks_of(regions@.take(i as int), is_device),
        decreases count - i,
    {
        let region: Region = regions.get(i);
        let mut cut: Vec<UntypedDesc> = split(region, is_device);
        proof {
            assert(regions@.take(i + 1).drop_last() =~= regions@.take(i as int));
            assert(regions@.take(i + 1).last() == region);
            let done = blocks_of(regions@.take(i as int), is_device);
            assert((before + done) + cut@ =~= before + (done + cut@));
        }
        out.append(&mut cut);
        i = i + 1;
    }
    assert(regions@.take(count as int) =~= regions@);
}

/// What was handed over: how many blocks, how many bytes of RAM, and how many of
/// the blocks are devices.
struct Handed {
    count: usize,
    bytes: u64,
    devices: usize,
}

/// Hand the root task what memory is left, RAM first, then devices, so that the
/// boot log reads in the order the root task will care about them.
fn hand_over(
    cs: &CSpace,
    slots: &mut SlotTable,
    free: &Regions,
    devices: &Regions,
    info: &mut BootInfo,
) -> (r: Result<Handed, RootError>)
    requires
        cs.root == cnode_cap(cs.root.paddr.0),
        cs.root.is_sound(),
        old(slots).wf(),
        empty_from(old(slots)@, cs.root.paddr.0, slot::FIRST_UNTYPED as int),
        in_physical_memory(free@),
        in_physical_memory(devices@),
        old(info)@.untyped == BootInfoView::empty().untyped,
    ensures
        final(slots).wf(),
        ({
            let descs = handed_over(free@, devices@);
            let n = descs.len() as int;
            &&& final(slots)@ == blocks_placed(old(slots)@, cs.root.paddr.0, descs, n)
            &&& final(info)@ == (BootInfoView {
                untyped: Seq::new(
                    MAX_UNTYPED as nat,
                    |i: int|
                        if i < descs.len() {
                            descs[i]
                        } else {
                            UntypedDesc { paddr: 0, size_bits: 0, is_device: 0 }
                        },
                ),
                ..old(info)@
            })
            &&& r is Ok
            &&& r->Ok_0.count == n <= MAX_UNTYPED
            &&& r->Ok_0.bytes == ram_bytes(descs, n)
            &&& r->Ok_0.devices == device_count(descs, n)
        }),
{
    let mut all: Vec<UntypedDesc> = Vec::new();
    list_blocks(free, false, &mut all);
    list_blocks(devices, true, &mut all);
    let ghost descs = handed_over(free@, devices@);
    let ghost base = cs.root.paddr.0;
    proof {
        assert(all@ =~= blocks_of(free@, false) + blocks_of(devices@, true));
        assert forall|i: int| 0 <= i < all@.len() implies {
            &&& block_cap(#[trigger] all@[i]).is_sound()
            &&& all@[i].size_bits <= 30
            &&& all@[i].size() <= 0x4000_0000
        } by {
            if i < blocks_of(free@, false).len() {
                lemma_blocks_of(free@, false, i);
            } else {
                lemma_blocks_of(devices@, true, i - blocks_of(free@, false).len());
            }
        }
    }
    let mut count: usize = 0;
    let mut bytes: u64 = 0;
    let mut found: usize = 0;
    let limit: usize = if all.len() < MAX_UNTYPED {
        all.len()
    } else {
        MAX_UNTYPED
    };
    while count < limit
        invariant
            count <= limit <= MAX_UNTYPED,
            limit <= all@.len(),
            limit == descs.len(),
            descs == all@.take(limit as int),
            forall|i: int|
                0 <= i < all@.len() ==> {
                    &&& block_cap(#[trigger] all@[i]).is_sound()
                    &&& all@[i].size_bits <= 30
                    &&& all@[i].size() <= 0x4000_0000
                },
            cs.root == cnode_cap(cs.root.paddr.0),
            cs.root.is_sound(),
            base == cs.root.paddr.0,
            slots.wf(),
            slots@ == blocks_placed(old(slots)@, base, descs, count as int),
            empty_from(slots@, base, slot::FIRST_UNTYPED + count),
            info@ == (BootInfoView { untyped: info@.untyped, ..old(info)@ }),
            info@.untyped.len() == MAX_UNTYPED,
            forall|i: int|
                0 <= i < MAX_UNTYPED ==> #[trigger] info@.untyped[i] == if i < count {
                    descs[i]
                } else {
                    UntypedDesc { paddr: 0, size_bits: 0, is_device: 0 }
                },
            bytes == ram_bytes(descs, count as int),
            bytes <= count * 0x4000_0000,
            found == device_count(descs, count as int),
            found <= count,
        decreases limit - count,
    {
        let desc: UntypedDesc = all[count];
        let paddr: PhysAddr = PhysAddr::new(desc.paddr);
        let cap: RawCap = if desc.is_device != 0 {
            RawCap::device_untyped(paddr, desc.size_bits, ALL)
        } else {
            RawCap::untyped(paddr, desc.size_bits, ALL)
        };
        let ghost before = slots@;
        let at: u64 = slot::FIRST_UNTYPED + count as u64;
        proof {
            assert(descs[count as int] == desc);
            assert(cap == block_cap(desc));
            assert(before.caps[crate::cap::slot::slot_address(base, at as int)].kind is Null);
        }
        match place(cs, slots, at, cap) {
            Ok(_) => {},
            Err(e) => {
                return Err(e);
            },
        }
        proof {
            assert forall|i: int| at + 1 <= i < CNODE_SLOTS implies slots@.caps[
                #[trigger] crate::cap::slot::slot_address(base, i)
            ].kind is Null by {
                lemma_slots_differ(base, at as int, i);
                assert(before.caps[crate::cap::slot::slot_address(base, i)].kind is Null);
            }
        }
        let ghost table = info@.untyped;
        info.untyped[count] = desc;
        assert(info@.untyped =~= table.update(count as int, desc));
        assert(info@ =~= (BootInfoView { untyped: info@.untyped, ..old(info)@ }));
        if desc.is_device != 0 {
            found = found + 1;
        } else {
            bytes = bytes + desc.bytes();
        }
        count = count + 1;
    }
    proof {
        assert(info@.untyped =~= Seq::new(
            MAX_UNTYPED as nat,
            |i: int|
                if i < descs.len() {
                    descs[i]
                } else {
                    UntypedDesc { paddr: 0, size_bits: 0, is_device: 0 }
                },
        ));
    }
    Ok(Handed { count, bytes, devices: found })
}

/// The block the root CNode is laid out in lies in physical memory.
proof fn lemma_cnode_sound(frames: Seq<u64>, n: int)
    requires
        blocks::frames_for(frames, CNODE_BITS) == Some(n),
        forall|k: int|
            0 <= k < frames.len() ==> (#[trigger] frames[k]) + 4096 <= crate::mm::addr::PHYS_LIMIT,
    ensures
        0 <= n - blocks::frames_in_block(CNODE_BITS) < frames.len(),
        cnode_cap(frames[n - blocks::frames_in_block(CNODE_BITS)]).is_sound(),
{
    vstd::arithmetic::power2::lemma2_to64();
    assert(blocks::frames_in_block(CNODE_BITS) == 8);
    blocks::a_taken_block_is_whole(frames, CNODE_BITS, 7);
    assert(frames[n - 1] + 4096 <= crate::mm::addr::PHYS_LIMIT);
}

/// Build the root task's address space, capability space and thread, and put it
/// on the run queue.
pub fn load(
    k: &mut Kernel,
    irqs: &mut IrqTable,
    frames: &mut BumpAllocator,
    kernel: &Mapper,
    map: &MemoryMap,
    image: &[u8],
    modules: &[Module],
) -> (r: Result<RootTask, RootError>)
    requires
        old(k).wf(),
        in_physical_memory(old(frames).home()),
        in_physical_memory(map.devices@),
    ensures
        final(k).wf(),
        final(frames).home() == old(frames).home(),
        r is Ok ==> final(frames).is_accounted(),
        ({
            let done = loaded(
                old(k)@,
                old(frames).pending(),
                old(irqs)@,
                (Given {
                    kernel_root: kernel.root.0,
                    image: image@,
                    modules: modules@,
                    fdt: map.fdt,
                    devices: map.devices@,
                    max_irq: match map.plic {
                        Some(p) => p.ndev,
                        None => 0,
                    },
                }),
                final(frames).left(),
            );
            &&& final(k)@ == done.kernel
            &&& final(frames).pending() == done.frames
            &&& final(irqs)@ == done.irqs
            &&& r == done.result
        }),
{
    proof {
        reveal(loaded);
    }
    let max_irq: u64 = match map.plic {
        Some(p) => p.ndev,
        None => 0,
    };
    let ghost g = Given {
        kernel_root: kernel.root.0,
        image: image@,
        modules: modules@,
        fdt: map.fdt,
        devices: map.devices@,
        max_irq,
    };
    let elf: Elf = match Elf::parse(image) {
        Ok(e) => e,
        Err(e) => {
            return Err(RootError::from(e));
        },
    };
    let span: (u64, u64) = match elf.image_range() {
        Ok(s) => s,
        Err(e) => {
            return Err(RootError::from(e));
        },
    };
    let mut space: AddressSpace = match AddressSpace::new(kernel, frames, &mut k.objects.mem) {
        Ok(s) => s,
        Err(_) => {
            return Err(RootError::OutOfMemory);
        },
    };
    let ghost fresh = Loading { mem: k.objects.mem@, frames: frames.pending() };
    // Without an ASID the space is not an address space: a `Configure` naming
    // it would be refused, and the root task could never make a thread.
    match k.objects.asids.assign_global() {
        Ok(asid) => space.set_asid(asid),
        Err(_) => {
            return Err(RootError::Asid);
        },
    }
    let (info_frame, table) = match fill_space(
        &mut space,
        &elf,
        map.fdt,
        modules,
        frames,
        &mut k.objects.mem,
        Ghost(g),
    ) {
        Ok(built) => built,
        Err(e) => {
            return Err(e);
        },
    };
    let ghost filled = Loading { mem: k.objects.mem@, frames: frames.pending() };
    proof {
        assert forall|i: int| 0 <= i < filled.frames.len() implies (#[trigger] filled.frames[i])
            + 4096 <= crate::mm::addr::PHYS_LIMIT by {
            frames.pending_frames_lie_in_memory(crate::mm::addr::PHYS_LIMIT as int, i);
        }
    }
    let (cnode, tcb_pa) = match take_objects(frames, &mut k.objects.mem) {
        Ok(taken) => taken,
        Err(e) => {
            return Err(e);
        },
    };
    proof {
        lemma_cnode_sound(
            filled.frames,
            blocks::frames_for(filled.frames, CNODE_BITS)->Some_0,
        );
        frames.what_is_left_is_what_is_pending();
        assert forall|i: int| 0 <= i < frames.left().len() implies (#[trigger] frames.left()[i]).end.0
            <= crate::mm::addr::PHYS_LIMIT by {
            let j = choose|j: int|
                0 <= j < frames.home().len() && frames.left()[i].end == (
                #[trigger] frames.home()[j]).end;
            assert(frames.home()[j].end.0 <= crate::mm::addr::PHYS_LIMIT);
        }
    }
    // Every allocation the kernel makes for the root task is now behind us, so
    // what is left is exactly what the root task gets.
    let free: Regions = frames.remaining();
    let cs: CSpace = match furnish(&mut k.objects.slots, cnode, &space, tcb_pa, info_frame) {
        Ok(cs) => cs,
        Err(e) => {
            return Err(e);
        },
    };
    // Every interrupt source starts unclaimed; the root task is the only holder
    // of the right to claim any of them.
    irqs.reset();
    let mut info: BootInfo = BootInfo::empty();
    info.fdt_vaddr = FDT_VADDR + (map.fdt.start.as_usize()
        - map.fdt.page_aligned_out().start.as_usize());
    info.fdt_size = map.fdt.len();
    info.max_irq = max_irq;
    info.cnode_radix = CNODE_RADIX as u64;
    info.cnode_slots = CNODE_SLOTS;
    info.image_start = span.0;
    info.image_end = span.1;
    info.stack_bottom = STACK_TOP - STACK_PAGES * 4096;
    info.stack_top = STACK_TOP;
    info.free_vaddr = FREE_VADDR;
    let module_count: usize = if modules.len() < crate::abi::bootinfo::MAX_MODULES {
        modules.len()
    } else {
        crate::abi::bootinfo::MAX_MODULES
    };
    info.module_count = module_count as u64;
    info.modules = table;
    let handed: Handed = match hand_over(
        &cs,
        &mut k.objects.slots,
        &free,
        &map.devices,
        &mut info,
    ) {
        Ok(h) => h,
        Err(e) => {
            return Err(e);
        },
    };
    info.untyped_count = handed.count as u32;
    info.first_free_slot = slot::FIRST_UNTYPED + handed.count as u64;
    let ghost descs = handed_over(free@, map.devices@);
    proof {
        assert(pages::table_view(table@) =~= info@.modules);
        assert(info@ =~= told(g, span, descs));
    }
    info.write(info_frame, &mut k.objects.mem);
    let id: ThreadId = k.objects.ids.next_id();
    let mut tcb: Tcb = Tcb::create(
        tcb_pa,
        id,
        &space,
        VirtAddr::new(elf.entry()),
        VirtAddr::new(STACK_TOP),
    );
    tcb.cspace = cs.root;
    k.objects.threads.put(tcb_pa.as_usize(), tcb);
    k.enlist(tcb_pa.as_usize());
    Ok(
        RootTask {
            id,
            entry: elf.entry(),
            image: span,
            space,
            cnode: cs.root,
            untypeds: handed.count,
            untyped_bytes: handed.bytes,
            devices: handed.devices,
            modules: module_count,
        },
    )
}

} // verus!
