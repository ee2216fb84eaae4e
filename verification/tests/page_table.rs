use tessera::mm::addr::{PhysAddr, VirtAddr, PAGE_SIZE};
use tessera::mm::frame::BumpAllocator;
use tessera::mm::memory::Memory;
use tessera::mm::page_table::{
    page_size, MapError, Mapper, Pte, PteFlags, A, D, KERNEL_RO, KERNEL_RW, KERNEL_RX, MAX_LEVEL, R,
    U, V, W, X,
};
use tessera::mm::region::{Region, RegionList};
use tessera::mm::Regions;

const KVA: u64 = 0xFFFF_FFD0_0000_0000;

const RW: PteFlags = PteFlags(KERNEL_RW);

fn machine(frames: u64) -> (Memory, BumpAllocator) {
    let mut free: Regions = RegionList::new();
    let start = 0x8040_0000;
    free.push(Region::new(PhysAddr::new(start), PhysAddr::new(start + frames * PAGE_SIZE))).unwrap();
    let mut alloc = BumpAllocator::new();
    alloc.init(&free);
    (Memory::new(), alloc)
}

/// A fresh, empty address space, its memory and the allocator that feeds it.
fn with_mapper() -> (Mapper, Memory, BumpAllocator) {
    let (mut mem, mut alloc) = machine(64);
    let m = Mapper::new(&mut alloc, &mut mem).expect("no frames for a root table");
    (m, mem, alloc)
}

fn va(a: u64) -> VirtAddr {
    VirtAddr::new(a)
}

fn pa(a: u64) -> PhysAddr {
    PhysAddr::new(a)
}

#[test]
fn flags_distinguish_leaf_from_branch() {
    assert!(PteFlags(KERNEL_RX).is_leaf());
    assert!(PteFlags(KERNEL_RW).is_leaf());
    // V alone is a branch: no R, W or X.
    assert!(!PteFlags(V).is_leaf());
}

#[test]
fn write_without_read_is_rejected() {
    // Reserved encoding in the spec, not write-only memory.
    let bad = PteFlags(V).union(PteFlags(W));
    assert!(!bad.is_valid_combination());
    assert!(PteFlags(KERNEL_RW).is_valid_combination());
}

#[test]
fn kernel_flags_are_never_user_reachable() {
    for f in [KERNEL_RX, KERNEL_RO, KERNEL_RW] {
        assert!(!PteFlags(f).contains(PteFlags(U)), "kernel mapping is user-reachable");
    }
}

#[test]
fn kernel_text_is_never_writable() {
    assert!(!PteFlags(KERNEL_RX).contains(PteFlags(W)));
    assert!(!PteFlags(KERNEL_RO).contains(PteFlags(W)));
}

#[test]
fn entry_round_trips_address_and_flags() {
    let at = pa(0x8123_4000);
    let pte = Pte::leaf(at, RW);
    assert_eq!(pte.phys_addr(), at, "PPN field did not round trip");
    assert!(pte.is_leaf());
    assert!(!pte.is_branch());
    assert!(pte.flags().contains(PteFlags(V)));
}

#[test]
fn an_entry_has_the_bits_the_hardware_reads() {
    assert_eq!(Pte::leaf(pa(0x8123_4000), RW).bits(), (0x81234 << 10) | KERNEL_RW);
    assert_eq!(Pte::branch(pa(0x8100_0000)).bits(), (0x81000 << 10) | V);
    assert_eq!(KERNEL_RW, 0xe7);
}

#[test]
fn branch_entry_has_no_permission_bits() {
    // The spec requires R/W/X and A/D/U to be zero in a non-leaf.
    let pte = Pte::branch(pa(0x8100_0000));
    assert!(pte.is_branch());
    assert!(!pte.is_leaf());
    assert!(!pte.flags().intersects(PteFlags(R | W | X)));
    assert!(!pte.flags().intersects(PteFlags(A | D | U)));
}

#[test]
fn map_then_translate_a_4k_page() {
    let (mut m, mut mem, mut alloc) = with_mapper();
    m.map(va(KVA), pa(0x8100_0000), 0, RW, &mut alloc, &mut mem).unwrap();
    let (got, flags, level) = m.translate(va(KVA), &mem).expect("translation failed");
    assert_eq!(got, pa(0x8100_0000));
    assert_eq!(level, 0);
    assert!(flags.contains(PteFlags(W)));
}

#[test]
fn translation_carries_the_offset_within_the_page() {
    let (mut m, mut mem, mut alloc) = with_mapper();
    m.map(va(KVA), pa(0x8100_0000), 0, RW, &mut alloc, &mut mem).unwrap();
    let (got, _, _) = m.translate(va(KVA).offset(0x321), &mem).unwrap();
    assert_eq!(got, pa(0x8100_0000).offset(0x321));
}

#[test]
fn megapage_maps_two_megabytes() {
    let (mut m, mut mem, mut alloc) = with_mapper();
    let at = pa(0x8020_0000);
    m.map(va(KVA), at, 1, RW, &mut alloc, &mut mem).unwrap();
    let (_, _, level) = m.translate(va(KVA), &mem).unwrap();
    assert_eq!(level, 1, "expected a level-1 leaf");
    // The offset mask must come from the level, not from PAGE_SIZE.
    let last = page_size(1) - 1;
    let (got, _, _) = m.translate(va(KVA).offset(last), &mem).unwrap();
    assert_eq!(got, at.offset(last));
}

#[test]
fn gigapage_lives_in_the_root_table() {
    let (mut m, mut mem, mut alloc) = with_mapper();
    // A 1 GiB leaf sits in the root itself, so this must consume no intermediate tables at all.
    let before = alloc.frames_allocated();
    m.map(va(KVA), pa(0x8000_0000), MAX_LEVEL, RW, &mut alloc, &mut mem).unwrap();
    assert_eq!(alloc.frames_allocated(), before, "a gigapage allocated a table");
    let (got, _, level) = m.translate(va(KVA), &mem).unwrap();
    assert_eq!(level, MAX_LEVEL);
    assert_eq!(got, pa(0x8000_0000));
}

#[test]
fn a_fresh_4k_mapping_costs_two_tables() {
    let (mut m, mut mem, mut alloc) = with_mapper();
    let before = alloc.frames_allocated();
    m.map(va(KVA), pa(0x8100_0000), 0, RW, &mut alloc, &mut mem).unwrap();
    // Levels 1 and 0; the root already existed.
    assert_eq!(alloc.frames_allocated() - before, 2);
}

#[test]
fn a_second_mapping_nearby_reuses_the_tables() {
    let (mut m, mut mem, mut alloc) = with_mapper();
    m.map(va(KVA), pa(0x8100_0000), 0, RW, &mut alloc, &mut mem).unwrap();
    let before = alloc.frames_allocated();
    m.map(va(KVA + PAGE_SIZE), pa(0x8100_1000), 0, RW, &mut alloc, &mut mem).unwrap();
    assert_eq!(alloc.frames_allocated(), before, "adjacent page allocated new tables");
}

#[test]
fn unmapped_addresses_do_not_translate() {
    let (m, mem, _) = with_mapper();
    assert!(m.translate(va(KVA), &mem).is_none());
}

#[test]
fn unmap_removes_the_translation() {
    let (mut m, mut mem, mut alloc) = with_mapper();
    m.map(va(KVA), pa(0x8100_0000), 0, RW, &mut alloc, &mut mem).unwrap();
    assert_eq!(m.unmap(va(KVA), &mut mem).unwrap(), pa(0x8100_0000));
    assert!(m.translate(va(KVA), &mem).is_none());
}

#[test]
fn unmap_removes_exactly_the_page_around_an_address() {
    let (mut m, mut mem, mut alloc) = with_mapper();
    let two = page_size(1);
    m.map_range(va(KVA), pa(0x8000_0000), 2 * two + PAGE_SIZE, RW, &mut alloc, &mut mem).unwrap();
    // Anywhere in a superpage, the whole of it goes and its start comes back.
    assert_eq!(m.unmap(va(KVA + two + 0x1234), &mut mem), Ok(pa(0x8000_0000 + two)));
    for gone in [KVA + two, KVA + 2 * two - 1] {
        assert!(m.translate(va(gone), &mem).is_none());
    }
    for kept in [0, two - 1, 2 * two, 2 * two + PAGE_SIZE - 1] {
        assert_eq!(m.translate(va(KVA + kept), &mem).unwrap().0, pa(0x8000_0000 + kept));
    }
    assert_eq!(m.unmap(va(1 << 40), &mut mem), Err(MapError::NonCanonical));
}

#[test]
fn a_failed_mapping_changes_no_translation() {
    let (mut mem, mut alloc) = machine(2);
    let mut m = Mapper::new(&mut alloc, &mut mem).unwrap();
    // One frame is left, and two tables are needed.
    assert_eq!(m.map(va(KVA), pa(0x8100_0000), 0, RW, &mut alloc, &mut mem), Err(MapError::OutOfFrames));
    assert_eq!(alloc.frames_allocated(), 2);
    for a in [0, PAGE_SIZE, page_size(1), page_size(2)] {
        assert!(m.translate(va(KVA + a), &mem).is_none());
    }
}

#[test]
fn unmapping_nothing_is_an_error() {
    let (mut m, mut mem, _) = with_mapper();
    assert_eq!(m.unmap(va(KVA), &mut mem), Err(MapError::NotMapped));
}

#[test]
fn double_mapping_is_rejected() {
    let (mut m, mut mem, mut alloc) = with_mapper();
    m.map(va(KVA), pa(0x8100_0000), 0, RW, &mut alloc, &mut mem).unwrap();
    assert_eq!(
        m.map(va(KVA), pa(0x8200_0000), 0, RW, &mut alloc, &mut mem),
        Err(MapError::AlreadyMapped)
    );
    // The refusal changed nothing.
    assert_eq!(m.translate(va(KVA), &mem).unwrap().0, pa(0x8100_0000));
}

#[test]
fn misaligned_superpage_is_rejected() {
    let (mut m, mut mem, mut alloc) = with_mapper();
    // A 2 MiB leaf whose physical address is only 4 KiB aligned.
    assert_eq!(
        m.map(va(KVA), pa(0x8000_1000), 1, RW, &mut alloc, &mut mem),
        Err(MapError::MisalignedPhys)
    );
    assert_eq!(
        m.map(va(KVA + PAGE_SIZE), pa(0x8020_0000), 1, RW, &mut alloc, &mut mem),
        Err(MapError::MisalignedVirt)
    );
}

#[test]
fn non_canonical_addresses_are_rejected() {
    let (mut m, mut mem, mut alloc) = with_mapper();
    // Bit 39 set, bits above it clear: not a sign extension of bit 38.
    let bad = va(1 << 39);
    assert!(!bad.is_canonical());
    assert_eq!(
        m.map(bad, pa(0x8100_0000), 0, RW, &mut alloc, &mut mem),
        Err(MapError::NonCanonical)
    );
    assert!(m.translate(bad, &mem).is_none());
}

#[test]
fn branch_flags_are_not_a_valid_leaf() {
    let (mut m, mut mem, mut alloc) = with_mapper();
    assert_eq!(
        m.map(va(KVA), pa(0x8100_0000), 0, PteFlags(V), &mut alloc, &mut mem),
        Err(MapError::BadFlags)
    );
}

#[test]
fn write_only_mapping_is_refused() {
    let (mut m, mut mem, mut alloc) = with_mapper();
    assert_eq!(
        m.map(va(KVA), pa(0x8100_0000), 0, PteFlags(V | W), &mut alloc, &mut mem),
        Err(MapError::BadFlags)
    );
}

#[test]
fn mapping_inside_a_superpage_is_refused() {
    let (mut m, mut mem, mut alloc) = with_mapper();
    m.map(va(KVA), pa(0x8000_0000), 1, RW, &mut alloc, &mut mem).unwrap();
    // Splitting a live superpage is unimplemented; say so rather than corrupt the tree.
    assert_eq!(
        m.map(va(KVA).offset(PAGE_SIZE), pa(0x8100_0000), 0, RW, &mut alloc, &mut mem),
        Err(MapError::CoveredBySuperpage)
    );
}

#[test]
fn bad_level_is_rejected() {
    let (mut m, mut mem, mut alloc) = with_mapper();
    assert_eq!(
        m.map(va(KVA), pa(0x8000_0000), 3, RW, &mut alloc, &mut mem),
        Err(MapError::BadLevel)
    );
}

#[test]
fn a_mapping_without_frames_for_its_tables_is_refused() {
    let (mut mem, mut alloc) = machine(2);
    let mut m = Mapper::new(&mut alloc, &mut mem).unwrap();
    assert_eq!(
        m.map(va(KVA), pa(0x8100_0000), 0, RW, &mut alloc, &mut mem),
        Err(MapError::OutOfFrames)
    );
    assert_eq!(Mapper::new(&mut alloc, &mut mem).err(), Some(MapError::OutOfFrames));
}

#[test]
fn tables_installed_by_hand_carry_a_page() {
    let (mut m, mut mem, _) = with_mapper();
    let at = va(0x4000_0000);
    // Nothing below the root yet.
    assert_eq!(m.map_leaf(at, pa(0x8100_0000), 0, RW, &mut mem), Err(MapError::MissingTable));
    m.map_table(at, pa(0x8200_0000), 2, &mut mem).unwrap();
    m.map_table(at, pa(0x8200_1000), 1, &mut mem).unwrap();
    m.map_leaf(at, pa(0x8100_0000), 0, RW, &mut mem).unwrap();
    assert_eq!(m.translate(at, &mem).unwrap().0, pa(0x8100_0000));
    // And a mapped page touches nothing next to it.
    assert!(m.translate(at.offset(PAGE_SIZE), &mem).is_none());
    assert_eq!(m.map_table(at, pa(0x8200_2000), 1, &mut mem), Err(MapError::AlreadyMapped));
}

#[test]
fn map_range_uses_a_gigapage_when_it_can() {
    let (mut m, mut mem, mut alloc) = with_mapper();
    let before = alloc.frames_allocated();
    m.map_range(va(KVA), pa(0x8000_0000), page_size(MAX_LEVEL), RW, &mut alloc, &mut mem).unwrap();
    // One 1 GiB leaf in the root: no tables at all.
    assert_eq!(alloc.frames_allocated(), before);
    assert_eq!(m.translate(va(KVA), &mem).unwrap().2, MAX_LEVEL);
}

#[test]
fn map_range_falls_back_to_smaller_pages() {
    let (mut m, mut mem, mut alloc) = with_mapper();
    // 4 KiB past a gigapage boundary, so the mapper must step down to level 0.
    let at = va(KVA + PAGE_SIZE);
    m.map_range(at, pa(0x8000_1000), PAGE_SIZE * 4, RW, &mut alloc, &mut mem).unwrap();
    for i in 0..4 {
        let (got, _, level) = m.translate(at.offset(i * PAGE_SIZE), &mem).unwrap();
        assert_eq!(level, 0);
        assert_eq!(got, pa(0x8000_1000 + i * PAGE_SIZE));
    }
}

#[test]
fn map_range_covers_every_byte_it_promised() {
    let (mut m, mut mem, mut alloc) = with_mapper();
    let size = 6 * PAGE_SIZE;
    m.map_range(va(KVA), pa(0x8020_0000), size, RW, &mut alloc, &mut mem).unwrap();
    // Every page in the range, and nothing past the end.
    for i in 0..6 {
        assert!(m.translate(va(KVA).offset(i * PAGE_SIZE), &mem).is_some(), "page {} missing", i);
    }
    assert!(m.translate(va(KVA).offset(size), &mem).is_none(), "mapped past the end");
}

#[test]
fn independent_address_spaces_do_not_share_mappings() {
    let (mut mem, mut alloc) = machine(64);
    let mut a = Mapper::new(&mut alloc, &mut mem).unwrap();
    let mut b = Mapper::new(&mut alloc, &mut mem).unwrap();
    assert_ne!(a.root(), b.root());

    a.map(va(KVA), pa(0x8100_0000), 0, RW, &mut alloc, &mut mem).unwrap();
    assert!(a.translate(va(KVA), &mem).is_some());
    assert!(b.translate(va(KVA), &mem).is_none(), "mapping leaked between address spaces");

    b.map(va(KVA), pa(0x8200_0000), 0, RW, &mut alloc, &mut mem).unwrap();
    assert_eq!(a.translate(va(KVA), &mem).unwrap().0, pa(0x8100_0000));
    assert_eq!(b.translate(va(KVA), &mem).unwrap().0, pa(0x8200_0000));
}

#[test]
fn addresses_split_into_the_fields_the_hardware_uses() {
    let a = va(0x40_8060_5123 & 0x3f_ffff_ffff);
    assert_eq!(a.vpn(0), ((a.as_usize() >> 12) & 0x1ff) as usize);
    assert_eq!(a.vpn(1), ((a.as_usize() >> 21) & 0x1ff) as usize);
    assert_eq!(a.vpn(2), ((a.as_usize() >> 30) & 0x1ff) as usize);
    assert_eq!(a.page_offset(), 0x123);
    assert_eq!(pa(0x8123_4567).page_number(), 0x81234);
    assert_eq!(pa(0x8123_4567).align_down(PAGE_SIZE), pa(0x8123_4000));
    assert_eq!(pa(0x8123_4567).align_up(PAGE_SIZE), pa(0x8123_5000));
    assert!(va(0x3f_ffff_ffff).is_canonical());
    assert!(!va(0x40_0000_0000).is_canonical());
    assert!(va(0xFFFF_FFC0_0000_0000).is_canonical());
}

#[test]
fn memory_is_words_and_bytes_at_once() {
    let mut mem = Memory::new();
    mem.write(0x1000, 0, 0x8877_6655_4433_2211);
    mem.write_byte(0x1002, 0xee);
    assert_eq!(mem.read(0x1000, 0), 0x8877_6655_44ee_2211);
    mem.copy_in(0x1007, &[1, 2, 3, 4], 1, 2);
    assert_eq!(mem.read(0x1000, 0), 0x0277_6655_44ee_2211);
    assert_eq!(mem.read(0x1000, 1), 0x03);
    // Clearing bytes that straddle two words leaves the rest of both alone.
    mem.write(0x2000, 0, u64::MAX);
    mem.write(0x2000, 1, u64::MAX);
    mem.zero_bytes(0x2006, 3);
    assert_eq!(mem.read(0x2000, 0), 0x0000_ffff_ffff_ffff);
    assert_eq!(mem.read(0x2000, 1), 0xffff_ffff_ffff_ff00);
}
