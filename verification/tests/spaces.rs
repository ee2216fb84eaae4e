//! Address spaces: the kernel's own, and user spaces with a shared kernel half,
//! a private user half, and a wall between.

use tessera::boot::{build_early_table, map_gigapage, satp_value, EARLY_FLAGS};
use tessera::layout::Layout;
use tessera::mm::addr::{PhysAddr, VirtAddr, KERNEL_VMA, PAGE_SIZE};
use tessera::mm::address_space::{
    kernel_half_fingerprint, AddressSpace, AddressSpaceError, Asid, KERNEL_ROOT_FIRST, UNASSIGNED,
};
use tessera::mm::discover::MemoryMap;
use tessera::mm::frame::BumpAllocator;
use tessera::mm::kernel_space::{build, devices, direct_map_range, sections, BuildError, KernelRoot};
use tessera::mm::memory::Memory;
use tessera::mm::page_table::{
    page_size, MapError, Mapper, PteFlags, ENTRIES, G, KERNEL_RW, MAX_LEVEL, U, USER_RW, W, X,
};
use tessera::mm::region::{Region, RegionList};
use tessera::mm::{DirectMap, Regions};
use tessera::plic::PlicInfo;
use tessera::uart::UART0_PHYS;

const IMAGE: u64 = KERNEL_VMA + 0x8020_0000;

fn layout() -> Layout {
    Layout {
        kernel_start: IMAGE,
        kernel_end: IMAGE + 0x8000,
        text_start: IMAGE,
        text_end: IMAGE + 0x3000,
        rodata_start: IMAGE + 0x3000,
        rodata_end: IMAGE + 0x5000,
        data_start: IMAGE + 0x5000,
        data_end: IMAGE + 0x6000,
        bss_start: IMAGE + 0x6000,
        bss_end: IMAGE + 0x8000,
    }
}

fn region(start: u64, end: u64) -> Region {
    Region::new(PhysAddr::new(start), PhysAddr::new(end))
}

fn list(regions: &[(u64, u64)]) -> Regions {
    let mut out: Regions = RegionList::new();
    for (start, end) in regions {
        out.push(region(*start, *end)).unwrap();
    }
    out
}

fn memory_map() -> MemoryMap {
    MemoryMap {
        ram: list(&[(0x8000_0000, 0x8800_0000)]),
        reserved: list(&[]),
        free: list(&[(0x8040_0000, 0x87e0_0000)]),
        devices: list(&[]),
        plic: Some(PlicInfo { region: region(0x0c00_0000, 0x0c60_0000), context: 1, ndev: 95 }),
        fdt: region(0x87e0_0000, 0x87e0_1000),
    }
}

struct World {
    mem: Memory,
    frames: BumpAllocator,
    kernel: Mapper,
}

impl World {
    fn new() -> World {
        let map = memory_map();
        let mut frames = BumpAllocator::new();
        frames.init(&map.free);
        let mut mem = Memory::new();
        let kernel = build(&layout(), &map, &mut frames, &mut mem).expect("could not build kernel space");
        World { mem, frames, kernel }
    }

    fn at(&self, va: u64) -> Option<(PhysAddr, PteFlags, usize)> {
        self.kernel.translate(VirtAddr::new(va), &self.mem)
    }

    fn flags(&self, va: u64) -> PteFlags {
        self.at(va).expect("unmapped").1
    }

    fn space(&mut self) -> AddressSpace {
        AddressSpace::new(&self.kernel, &mut self.frames, &mut self.mem).expect("could not build address space")
    }

    fn frame(&mut self) -> PhysAddr {
        self.frames.alloc_frame(&mut self.mem).expect("no free frames")
    }
}

fn has(flags: PteFlags, bit: u64) -> bool {
    flags.contains(PteFlags(bit))
}

/// A user virtual address well clear of the kernel half.
const USER_VA: u64 = 0x2000_0000;

// --- W^X ---

#[test]
fn kernel_text_is_executable_and_not_writable() {
    let flags = World::new().flags(layout().text_start);
    assert!(has(flags, X), ".text is not executable");
    assert!(!has(flags, W), ".text is writable, so W^X is broken");
}

#[test]
fn rodata_is_neither_writable_nor_executable() {
    let flags = World::new().flags(layout().rodata_start);
    assert!(!has(flags, W), ".rodata is writable");
    assert!(!has(flags, X), ".rodata is executable");
}

#[test]
fn data_is_writable_and_not_executable() {
    let flags = World::new().flags(layout().data_start);
    assert!(has(flags, W), ".data is not writable");
    assert!(!has(flags, X), ".data is executable");
}

#[test]
fn the_whole_of_text_is_covered_and_none_of_it_is_writable() {
    let w = World::new();
    let mut va = layout().text_start;
    while va < layout().text_end {
        assert!(has(w.flags(va), X), "{va:#x} in .text is not executable");
        assert!(!has(w.flags(va), W), "{va:#x} in .text is writable");
        va += PAGE_SIZE;
    }
}

#[test]
fn there_is_no_writable_alias_of_kernel_text() {
    let w = World::new();
    let text_phys = layout().text_start - KERNEL_VMA;
    let (pa, flags, _) = w.at(KERNEL_VMA + text_phys).expect("unmapped");
    assert_eq!(pa, PhysAddr::new(text_phys));
    assert!(!has(flags, W), "kernel text has a writable alias");
}

#[test]
fn the_sections_are_listed_with_their_permissions() {
    let all = sections(&layout());
    assert_eq!([all[0].name, all[1].name, all[2].name], [".text", ".rodata", ".data+.bss"]);
    assert_eq!(all[0].start, VirtAddr::new(IMAGE));
    assert_eq!(all[0].phys_start(), PhysAddr::new(0x8020_0000));
    assert_eq!(all[0].len(), 0x3000);
    assert_eq!(all[2].len(), 0x3000);
}

// --- The direct map ---

#[test]
fn direct_map_covers_free_memory_read_write() {
    let w = World::new();
    let frame = memory_map().free.get(0).start;
    let (pa, flags, _) = w.at(KERNEL_VMA + frame.as_usize()).expect("frame unmapped");
    assert_eq!(pa, frame);
    assert!(has(flags, W), "direct map is not writable");
    assert!(!has(flags, X), "direct map is executable");
}

#[test]
fn direct_map_agrees_with_phys_to_virt() {
    let w = World::new();
    let mut direct = DirectMap::new();
    direct.set_phys_offset(KERNEL_VMA);
    let frame = memory_map().free.get(0).start;
    let va = direct.phys_to_virt(frame);
    assert_eq!(w.at(va.as_usize()).expect("unmapped").0, frame);
    assert_eq!(direct.virt_to_phys(va), frame);
}

#[test]
fn direct_map_spans_every_ram_region() {
    let w = World::new();
    for r in memory_map().ram.iter() {
        for pa in [r.start.as_usize(), r.end.as_usize() - PAGE_SIZE] {
            assert!(w.at(KERNEL_VMA + pa).is_some(), "{pa:#x} is not in the direct map");
        }
    }
    let all = direct_map_range(&memory_map()).unwrap();
    assert_eq!((all.start.as_usize(), all.end.as_usize()), (0x8000_0000, 0x8800_0000));
}

// --- What must not be mapped ---

#[test]
fn the_low_half_is_empty() {
    let w = World::new();
    for va in [0x8020_0000u64, 0x8000_0000, 0x1000_0000, 0x0010_0000, 0x87e0_0000] {
        assert!(w.at(va).is_none(), "{va:#x} is identity-mapped in the kernel table");
    }
}

#[test]
fn nothing_in_the_kernel_space_is_user_reachable() {
    let w = World::new();
    for va in [layout().text_start, layout().rodata_start, layout().data_start, KERNEL_VMA + UART0_PHYS] {
        assert!(!has(w.flags(va), U), "{va:#x} is user-reachable");
    }
}

#[test]
fn kernel_mappings_are_global() {
    let w = World::new();
    for va in [layout().text_start, layout().data_start] {
        assert!(has(w.flags(va), G), "{va:#x} is not global");
    }
}

#[test]
fn devices_are_mapped_read_write_and_not_executable() {
    let w = World::new();
    for (name, pa) in devices() {
        let (got, flags, _) = w.at(KERNEL_VMA + pa).expect(name);
        assert_eq!(got, PhysAddr::new(pa), "{name} maps to the wrong frame");
        assert!(has(flags, W), "{name} is not writable");
        assert!(!has(flags, X), "{name} is executable");
    }
}

#[test]
fn the_interrupt_controller_is_mapped_whole() {
    let w = World::new();
    for pa in [0x0c00_0000u64, 0x0c20_1000, 0x0c5f_f000] {
        let (got, flags, _) = w.at(KERNEL_VMA + pa).expect("unmapped");
        assert_eq!(got, PhysAddr::new(pa));
        assert!(has(flags, W) && !has(flags, X));
    }
    assert!(w.at(KERNEL_VMA + 0x0c60_0000).is_none());
}

#[test]
fn the_live_table_is_the_one_that_was_activated() {
    let w = World::new();
    let mut root = KernelRoot::new();
    assert_eq!(root.root(), None);
    let satp = root.activate(&w.kernel);
    assert_eq!(satp >> 60, 8, "not in Sv39 mode");
    assert_eq!((satp & ((1 << 44) - 1)) << 12, w.kernel.root().as_usize());
    assert_eq!(root.root(), Some(w.kernel.root()));
}

#[test]
fn building_without_frames_is_refused() {
    let mut mem = Memory::new();
    let mut none = BumpAllocator::new();
    assert_eq!(
        build(&layout(), &memory_map(), &mut none, &mut mem).err(),
        Some(BuildError::Mapping(MapError::OutOfFrames))
    );
}

// --- The bootstrap table ---

#[test]
fn the_bootstrap_table_maps_both_halves_to_the_same_place() {
    let mut mem = Memory::new();
    let root = PhysAddr::new(0x8030_0000);
    let satp = build_early_table(root, &mut mem);
    assert_eq!(satp, satp_value(root.as_usize()));
    assert_eq!(satp, 0x8000_0000_0008_0300);
    let m = Mapper::from_root(root);
    for a in [0x8020_0040u64, 0xbfff_fff8, 0x1000_0000, 0] {
        let low = m.translate(VirtAddr::new(a), &mem);
        assert_eq!(low, Some((PhysAddr::new(a), PteFlags(EARLY_FLAGS), MAX_LEVEL)));
        assert_eq!(m.translate(VirtAddr::new(KERNEL_VMA + a), &mem), low);
    }
    assert_eq!(m.translate(VirtAddr::new(0x4000_0000), &mem), None);
    map_gigapage(root, 0x4000_0000, 0x8000_0000, &mut mem);
    assert_eq!(m.translate(VirtAddr::new(0x4000_1234), &mem).unwrap().0, PhysAddr::new(0x8000_1234));
}

// --- The kernel half of a user space ---

#[test]
fn kernel_half_starts_at_the_middle_of_the_root_table() {
    assert_eq!(KERNEL_ROOT_FIRST, 256);
    assert_eq!(KERNEL_ROOT_FIRST, ENTRIES / 2);
    assert_eq!(VirtAddr::new(KERNEL_VMA).vpn(MAX_LEVEL), KERNEL_ROOT_FIRST);
}

#[test]
fn a_new_space_can_reach_the_kernel() {
    let mut w = World::new();
    let space = w.space();
    for section in sections(&layout()) {
        let want = w.kernel.translate(section.start, &w.mem).expect("kernel section unmapped");
        let got = space.translate(section.start, &w.mem).expect("section missing from user space");
        assert_eq!(want, got, "{} does not match the kernel table", section.name);
    }
}

#[test]
fn the_direct_map_is_shared_too() {
    let mut w = World::new();
    let space = w.space();
    let va = VirtAddr::new(KERNEL_VMA + 0x8000_0000);
    assert_eq!(w.kernel.translate(va, &w.mem), space.translate(va, &w.mem));
}

#[test]
fn the_user_half_starts_empty() {
    let mut w = World::new();
    let space = w.space();
    for va in [0u64, 0x1000, USER_VA, 0x10_0000_0000] {
        assert!(space.translate(VirtAddr::new(va), &w.mem).is_none(), "{va:#x} is mapped in a fresh space");
    }
}

#[test]
fn distinct_spaces_have_distinct_roots() {
    let mut w = World::new();
    let a = w.space();
    let b = w.space();
    assert_ne!(a.root(), b.root());
    assert_ne!(a.root(), w.kernel.root());
}

// --- The wall ---

#[test]
fn mapping_into_the_kernel_half_is_refused() {
    let mut w = World::new();
    let mut space = w.space();
    let frame = w.frame();
    for va in [KERNEL_VMA, KERNEL_VMA + 0x8000_0000, u64::MAX & !(PAGE_SIZE - 1)] {
        assert_eq!(
            space.map(VirtAddr::new(va), frame, 0, PteFlags(USER_RW), &mut w.frames, &mut w.mem),
            Err(AddressSpaceError::KernelHalf),
            "{va:#x} was accepted"
        );
    }
}

#[test]
fn a_range_that_runs_into_the_kernel_half_is_refused() {
    let mut w = World::new();
    let mut space = w.space();
    let frame = w.frame();
    // Starts in the user half, ends past the top of it.
    let va = VirtAddr::new((KERNEL_ROOT_FIRST as u64 - 1) * page_size(MAX_LEVEL));
    assert_eq!(
        space.map_range(va, frame, 2 * page_size(MAX_LEVEL), PteFlags(USER_RW), &mut w.frames, &mut w.mem),
        Err(AddressSpaceError::KernelHalf)
    );
}

#[test]
fn a_range_that_runs_through_the_kernel_half_is_refused() {
    let mut w = World::new();
    let mut space = w.space();
    let left = w.frames.frames_allocated();
    // Comes out on the far side, where the root index is that of a user address.
    for size in [(1 << 39) + 1, (1 << 39) + PAGE_SIZE, u64::MAX] {
        assert_eq!(
            space.map_range(VirtAddr::new(0), PhysAddr::new(0), size, PteFlags(USER_RW), &mut w.frames, &mut w.mem),
            Err(AddressSpaceError::KernelHalf),
            "{size:#x} bytes were accepted"
        );
    }
    assert_eq!(space.translate(VirtAddr::new(0), &w.mem), None);
    assert_eq!(w.frames.frames_allocated(), left);
    // The whole user half is still a user range.
    assert_eq!(
        space.map_range(VirtAddr::new(0), PhysAddr::new(0), 1 << 38, PteFlags(USER_RW), &mut w.frames, &mut w.mem),
        Ok(())
    );
    assert_eq!(space.translate(VirtAddr::new((1 << 38) - 1), &w.mem).unwrap().2, MAX_LEVEL);
}

#[test]
fn a_mapping_without_the_user_bit_is_refused() {
    let mut w = World::new();
    let mut space = w.space();
    let frame = w.frame();
    assert_eq!(
        space.map(VirtAddr::new(USER_VA), frame, 0, PteFlags(KERNEL_RW), &mut w.frames, &mut w.mem),
        Err(AddressSpaceError::NotUserAccessible)
    );
}

#[test]
fn unmapping_the_kernel_half_is_refused() {
    let mut w = World::new();
    let mut space = w.space();
    assert_eq!(
        space.unmap(VirtAddr::new(layout().text_start), &mut w.mem),
        Err(AddressSpaceError::KernelHalf)
    );
}

#[test]
fn a_space_without_a_frame_for_its_root_is_refused() {
    let mut w = World::new();
    let mut none = BumpAllocator::new();
    assert_eq!(
        AddressSpace::new(&w.kernel, &mut none, &mut w.mem).err(),
        Some(MapError::OutOfFrames)
    );
}

// --- User mappings ---

#[test]
fn a_user_mapping_round_trips() {
    let mut w = World::new();
    let mut space = w.space();
    let frame = w.frame();
    let va = VirtAddr::new(USER_VA);
    space.map(va, frame, 0, PteFlags(USER_RW), &mut w.frames, &mut w.mem).expect("map failed");
    let (pa, flags, level) = space.translate(va, &w.mem).expect("mapping vanished");
    assert_eq!(pa, frame);
    assert_eq!(level, 0);
    assert!(has(flags, U), "the user bit did not survive");
    assert!(!has(flags, G), "a user mapping must not be global");
    assert_eq!(space.unmap(va, &mut w.mem), Ok(frame));
    assert!(space.translate(va, &w.mem).is_none(), "the mapping outlived unmap");
    assert_eq!(space.unmap(va, &mut w.mem), Err(AddressSpaceError::Mapping(MapError::NotMapped)));
}

#[test]
fn user_mappings_are_private_to_their_space() {
    let mut w = World::new();
    let mut a = w.space();
    let b = w.space();
    let frame = w.frame();
    let va = VirtAddr::new(USER_VA);
    a.map(va, frame, 0, PteFlags(USER_RW), &mut w.frames, &mut w.mem).expect("map failed");
    assert!(a.translate(va, &w.mem).is_some());
    assert!(b.translate(va, &w.mem).is_none(), "a user mapping leaked into another space");
}

#[test]
fn user_mappings_do_not_disturb_the_kernel_half() {
    let mut w = World::new();
    let mut space = w.space();
    let frame = w.frame();
    let text = VirtAddr::new(layout().text_start);
    let before = w.kernel.translate(text, &w.mem);
    space.map(VirtAddr::new(USER_VA), frame, 0, PteFlags(USER_RW), &mut w.frames, &mut w.mem).expect("map failed");
    assert_eq!(w.kernel.translate(text, &w.mem), before, "the kernel table was modified");
    assert_eq!(space.translate(text, &w.mem), before);
    assert!(!space.kernel_half_is_stale(&w.kernel, &w.mem), "the kernel half drifted");
}

#[test]
fn a_changed_kernel_half_is_detected() {
    let mut w = World::new();
    let space = w.space();
    assert!(!space.kernel_half_is_stale(&w.kernel, &w.mem));
    // A new kernel root entry is exactly what a copied half cannot see.
    let frame = w.frame();
    let va = VirtAddr::new(KERNEL_VMA + 44 * page_size(MAX_LEVEL));
    w.kernel.map(va, frame, 0, PteFlags(KERNEL_RW), &mut w.frames, &mut w.mem).expect("kernel map failed");
    assert_ne!(kernel_half_fingerprint(&w.kernel, &w.mem), 0);
    assert!(space.kernel_half_is_stale(&w.kernel, &w.mem), "a new kernel entry went unnoticed");
}

// --- satp ---

#[test]
fn a_fresh_space_has_no_asid() {
    let mut w = World::new();
    let space = w.space();
    assert_eq!(space.asid(), Asid::new(UNASSIGNED));
    assert_eq!((space.satp() >> 44) & 0xffff, 0);
}

#[test]
fn satp_encodes_sv39_and_the_root() {
    let mut w = World::new();
    let mut space = w.space();
    assert_eq!(space.satp() >> 60, 8, "satp MODE is not Sv39");
    assert_eq!(space.satp() & ((1 << 44) - 1), space.root().page_number());
    space.set_asid(Asid::new(0x2a));
    assert_eq!(space.asid().as_u16(), 0x2a);
    assert_eq!((space.satp() >> 44) & 0xffff, 0x2a);
    assert_eq!(space.satp() >> 60, 8, "setting an ASID disturbed MODE");
}

#[test]
fn a_non_canonical_address_is_rejected_before_anything_else() {
    let mut w = World::new();
    let mut space = w.space();
    let frame = w.frame();
    // Bits 63:39 do not replicate bit 38.
    let va = VirtAddr::new(0x0000_0080_0000_0000);
    assert!(!va.is_canonical());
    assert_eq!(
        space.map(va, frame, 0, PteFlags(USER_RW), &mut w.frames, &mut w.mem),
        Err(AddressSpaceError::Mapping(MapError::NonCanonical))
    );
}

#[test]
fn the_kernel_image_is_where_its_addresses_say() {
    let image = layout().kernel_phys_range();
    assert_eq!(image.start.as_usize(), 0x8020_0000);
    assert_eq!(image.end.as_usize(), 0x8020_8000);
}
