use tessera::fdt::{read_cells, Fdt, FdtError};
use tessera::irq::{IrqError, IrqTable, MAX_IRQ};
use tessera::layout::Layout;
use tessera::mm::addr::{PhysAddr, VirtAddr, KERNEL_VMA, PAGE_SIZE};
use tessera::mm::discover::{discover, init, is_addressable, DiscoverError, MemoryMap};
use tessera::mm::frame::BumpAllocator;
use tessera::mm::kernel_space::{devices, is_mappable};
use tessera::mm::memory::Memory;
use tessera::mm::region::{Region, RegionList};
use tessera::mm::Regions;
use tessera::plic::{find, Plic, RegOp};
use tessera::root::lie_in_physical_memory;
use tessera::sbi::{probe_extension, set_timer, Call, SbiRet, EID_BASE, EID_TIME};
use tessera::time::{Arm, Timer, DEFAULT_HZ, TIMESLICE_MS};
use tessera::uart::UART0_PHYS;

const DTB: u64 = 0x87e0_0000;

/// Assembles a flattened device tree.
struct Tree {
    structure: Vec<u8>,
    strings: Vec<u8>,
    reservations: Vec<u8>,
}

impl Tree {
    fn new() -> Tree {
        Tree { structure: Vec::new(), strings: Vec::new(), reservations: Vec::new() }
    }

    fn word(&mut self, w: u32) {
        self.structure.extend_from_slice(&w.to_be_bytes());
    }

    fn pad(&mut self) {
        while self.structure.len() % 4 != 0 {
            self.structure.push(0);
        }
    }

    fn begin(&mut self, name: &str) {
        self.word(1);
        self.structure.extend_from_slice(name.as_bytes());
        self.structure.push(0);
        self.pad();
    }

    fn end(&mut self) {
        self.word(2);
    }

    fn prop(&mut self, name: &str, value: &[u8]) {
        let at = self.strings.len() as u32;
        self.strings.extend_from_slice(name.as_bytes());
        self.strings.push(0);
        self.word(3);
        self.word(value.len() as u32);
        self.word(at);
        self.structure.extend_from_slice(value);
        self.pad();
    }

    fn cells(&mut self, name: &str, cells: &[u32]) {
        let mut value = Vec::new();
        for c in cells {
            value.extend_from_slice(&c.to_be_bytes());
        }
        self.prop(name, &value);
    }

    fn reserve(&mut self, at: u64, size: u64) {
        self.reservations.extend_from_slice(&at.to_be_bytes());
        self.reservations.extend_from_slice(&size.to_be_bytes());
    }

    fn finish(mut self) -> Vec<u8> {
        self.word(9);
        self.reserve(0, 0);
        let rsvmap = 40usize;
        let structure = rsvmap + self.reservations.len();
        let strings = structure + self.structure.len();
        let total = strings + self.strings.len();
        let mut out = Vec::new();
        for w in [
            0xd00d_feedu32,
            total as u32,
            structure as u32,
            strings as u32,
            rsvmap as u32,
            17,
            16,
            0,
            self.strings.len() as u32,
            self.structure.len() as u32,
        ] {
            out.extend_from_slice(&w.to_be_bytes());
        }
        out.extend_from_slice(&self.reservations);
        out.extend_from_slice(&self.structure);
        out.extend_from_slice(&self.strings);
        out
    }
}

/// The board the kernel boots on: 128 MiB, eight transports, a console, a
/// shutdown register, an interrupt controller, firmware at the bottom of RAM.
fn virt_tree() -> Vec<u8> {
    let mut t = Tree::new();
    t.reserve(0x8000_0000, 0x4_0000);
    t.begin("");
    t.cells("#address-cells", &[2]);
    t.cells("#size-cells", &[2]);
    t.begin("reserved-memory");
    t.begin("mmode_resv0@80000000");
    t.cells("reg", &[0, 0x8000_0000, 0, 0x4_0000]);
    t.end();
    t.end();
    t.begin("memory@80000000");
    t.cells("reg", &[0, 0x8000_0000, 0, 0x0800_0000]);
    t.end();
    t.begin("cpus");
    t.cells("timebase-frequency", &[10_000_000]);
    t.begin("cpu@0");
    t.prop("riscv,isa-extensions", b"i\0m\0a\0sstc\0zicsr\0");
    t.end();
    t.end();
    t.begin("soc");
    for i in 0..8u32 {
        t.begin(&format!("virtio_mmio@1000{}000", i + 1));
        t.cells("reg", &[0, 0x1000_1000 + i * 0x1000, 0, 0x1000]);
        t.end();
    }
    t.begin("serial@10000000");
    t.cells("reg", &[0, 0x1000_0000, 0, 0x100]);
    t.end();
    t.begin("test@100000");
    t.cells("reg", &[0, 0x10_0000, 0, 0x1000]);
    t.end();
    t.begin("plic@c000000");
    t.cells("riscv,ndev", &[95]);
    t.cells("reg", &[0, 0x0c00_0000, 0, 0x0060_0000]);
    t.cells("interrupts-extended", &[3, 11, 3, 9]);
    t.prop("compatible", b"sifive,plic-1.0.0\0riscv,plic0\0");
    t.end();
    t.end();
    t.end();
    t.finish()
}

fn kernel_range() -> Region {
    Region::new(PhysAddr::new(0x8020_0000), PhysAddr::new(0x8030_0000))
}

fn map() -> MemoryMap {
    discover(&virt_tree(), PhysAddr::new(DTB), kernel_range()).expect("discovery failed")
}

fn armed() -> (Memory, BumpAllocator) {
    let mut frames = BumpAllocator::new();
    init(&virt_tree(), PhysAddr::new(DTB), kernel_range(), &mut frames).expect("discovery failed");
    (Memory::new(), frames)
}

#[test]
fn a_tree_says_how_large_it_is() {
    let blob = virt_tree();
    let fdt = Fdt::from_ptr(&blob).unwrap();
    assert_eq!(fdt.text(), format!("Fdt({} bytes)", fdt.total_size()));
}

/// A board with one bank of memory, and a bus node whose `reg` is not a
/// physical address.
fn small_board(bank: [u32; 4]) -> Vec<u8> {
    let mut t = Tree::new();
    t.begin("");
    t.begin("memory@80000000");
    t.cells("reg", &bank);
    t.end();
    t.begin("pci");
    t.begin("bridge");
    t.cells("reg", &[0xffff_ffff, 0xffff_ffff, 0xffff_ffff, 0xffff_ffff]);
    t.cells("ranges", &[0xffff_ffff, 0xffff_ffff, 0xffff_ffff, 0xffff_ffff]);
    t.end();
    t.end();
    t.end();
    t.finish()
}

#[test]
fn only_what_is_read_as_memory_has_to_fit() {
    let dtb = PhysAddr::new(DTB);
    let fits = small_board([0, 0x8000_0000, 0, 0x1000_0000]);
    assert!(is_addressable(&fits, dtb));
    let m = discover(&fits, dtb, kernel_range()).unwrap();
    assert_eq!(m.ram.total_bytes(), 0x1000_0000);

    assert!(!is_addressable(&small_board([0xffff_ffff, 0xffff_f000, 0, 0x1000]), dtb));
    assert!(is_addressable(&small_board([0xffff_ffff, 0xffff_f000, 0, 0xfff]), dtb));
    assert!(!is_addressable(&fits, PhysAddr::new(u64::MAX)));
    // Nothing is read out of a blob that is not a tree.
    assert!(is_addressable(&[0; 64], PhysAddr::new(u64::MAX)));
}

#[test]
fn memory_out_of_reach_of_the_kernel_is_noticed() {
    let at = KERNEL_VMA + 0x8020_0000;
    let image = Layout {
        kernel_start: at,
        kernel_end: at + 0x5000,
        text_start: at,
        text_end: at + 0x1000,
        rodata_start: at + 0x1000,
        rodata_end: at + 0x2000,
        data_start: at + 0x2000,
        data_end: at + 0x3000,
        bss_start: at + 0x3000,
        bss_end: at + 0x5000,
    };
    assert!(image.ordered());
    let near = discover(
        &small_board([0, 0x8000_0000, 0, 0x1000_0000]),
        PhysAddr::new(DTB),
        kernel_range(),
    )
    .unwrap();
    assert!(is_mappable(&image, &near));
    assert!(lie_in_physical_memory(&near.ram));
    assert!(!is_mappable(&Layout { text_start: at + 0x2000, ..image }, &near));
    let far = discover(
        &small_board([0x100_0000, 0, 0, 0x1000_0000]),
        PhysAddr::new(DTB),
        kernel_range(),
    )
    .unwrap();
    assert!(!is_mappable(&image, &far));
    assert!(!lie_in_physical_memory(&far.ram));
}

#[test]
fn device_tree_reports_ram() {
    let m = map();
    assert!(!m.ram.is_empty(), "no RAM in the device tree");
    assert_eq!(m.ram.as_slice()[0].start, PhysAddr::new(0x8000_0000));
    assert_eq!(m.ram.total_bytes(), 128 * 1024 * 1024);
}

#[test]
fn kernel_image_is_reserved() {
    let kernel = kernel_range();
    assert!(
        map().reserved.iter().any(|r| r.start <= kernel.start && r.end >= kernel.end),
        "the kernel image is not reserved, so it could be handed out as a free frame"
    );
}

#[test]
fn device_tree_blob_is_reserved() {
    assert!(map().reserved.iter().any(|r| r.contains(PhysAddr::new(DTB))));
}

#[test]
fn firmware_reservation_is_honoured() {
    assert!(map().reserved.iter().any(|r| r.contains(PhysAddr::new(0x8000_0000))));
}

#[test]
fn free_never_intersects_reserved() {
    let m = map();
    for free in m.free.iter() {
        for res in m.reserved.iter() {
            assert!(!free.overlaps(res), "{:?} overlaps {:?}", free, res);
        }
    }
}

#[test]
fn free_is_inside_ram() {
    let m = map();
    for free in m.free.iter() {
        assert!(m.ram.iter().any(|r| r.start <= free.start && free.end <= r.end));
    }
}

#[test]
fn free_regions_are_page_aligned() {
    for r in map().free.iter() {
        assert!(r.start.is_aligned(PAGE_SIZE));
        assert!(r.end.is_aligned(PAGE_SIZE));
        assert!(!r.is_empty(), "empty region left in the free list");
    }
}

#[test]
fn free_regions_are_disjoint_and_ordered() {
    let m = map();
    for w in m.free.as_slice().windows(2) {
        assert!(w[0].end <= w[1].start);
    }
}

#[test]
fn accounting_adds_up() {
    // Free + reserved must equal RAM, modulo sub-page fragments lost to alignment.
    let m = map();
    let free = m.free.total_bytes();
    let ram = m.ram.total_bytes();
    assert!(free < ram, "free cannot exceed RAM");
    let lost = ram - free - m.reserved.total_bytes();
    assert!(lost <= PAGE_SIZE * m.free.len() as u64, "lost {} bytes to rounding", lost);
}

#[test]
fn allocator_returns_distinct_frames() {
    let (mut mem, mut frames) = armed();
    let a = frames.alloc_frame(&mut mem).expect("out of frames");
    let b = frames.alloc_frame(&mut mem).expect("out of frames");
    let c = frames.alloc_frame(&mut mem).expect("out of frames");
    assert_ne!(a, b);
    assert_ne!(b, c);
    assert!(a < b && b < c, "bump allocator handed out addresses out of order");
}

#[test]
fn allocated_frames_are_page_aligned() {
    let (mut mem, mut frames) = armed();
    assert!(frames.alloc_frame(&mut mem).expect("out of frames").is_aligned(PAGE_SIZE));
}

#[test]
fn allocated_frames_are_inside_free_memory() {
    let (mut mem, mut frames) = armed();
    let f = frames.alloc_frame(&mut mem).expect("out of frames");
    assert!(map().free.iter().any(|r| r.contains(f)));
}

#[test]
fn allocated_frames_are_zeroed() {
    // Page tables depend on this.
    let (mut mem, mut frames) = armed();
    for i in 0..512 {
        mem.write(0x8004_0000, i, u64::MAX);
    }
    let f = frames.alloc_frame(&mut mem).expect("out of frames");
    assert_eq!(f, PhysAddr::new(0x8004_0000));
    for i in 0..512 {
        assert_eq!(mem.read(f.as_usize(), i), 0, "word {} of a fresh frame is not zero", i);
    }
}

#[test]
fn dirty_frames_are_zeroed_on_the_next_allocation() {
    // Proves zeroing happens per allocation, not once at init.
    let (mut mem, mut frames) = armed();
    let f = frames.alloc_frame(&mut mem).expect("out of frames");
    mem.write(f.as_usize() + PAGE_SIZE, 0, 0xaa);
    let g = frames.alloc_frame(&mut mem).expect("out of frames");
    assert_eq!(mem.read(g.as_usize(), 0), 0);
}

#[test]
fn allocation_shrinks_what_is_left_for_userspace() {
    let (mut mem, mut frames) = armed();
    let before = frames.bytes_remaining();
    frames.alloc_frame(&mut mem).expect("out of frames");
    assert_eq!(before - frames.bytes_remaining(), PAGE_SIZE);
    assert_eq!(frames.frames_allocated(), 1);
    assert_eq!(frames.bytes_allocated(), PAGE_SIZE);
}

#[test]
fn what_is_handed_out_and_what_is_left_add_up() {
    let (mut mem, mut frames) = armed();
    let total = frames.bytes_remaining();
    for n in 1..10 {
        let f = frames.alloc_frame(&mut mem).expect("out of frames");
        assert_eq!(frames.bytes_remaining() + frames.bytes_allocated(), total);
        assert_eq!(frames.bytes_allocated(), n * PAGE_SIZE);
        assert!(frames.remaining().as_slice().iter().all(|r| !r.contains(f)));
    }
}

#[test]
fn a_rest_that_is_too_small_for_a_frame_is_passed_over() {
    let mut free: Regions = RegionList::new();
    for (start, end) in [(0x1000, 0x2100), (0x4000, 0x4100), (0x8000, 0x9000)] {
        free.push(Region::new(PhysAddr::new(start), PhysAddr::new(end))).unwrap();
    }
    let mut frames = BumpAllocator::new();
    frames.init(&free);
    let mut mem = Memory::new();
    assert_eq!(frames.alloc_frame(&mut mem), Some(PhysAddr::new(0x1000)));
    assert_eq!(frames.bytes_remaining(), 0x1200);
    assert_eq!(frames.alloc_frame(&mut mem), Some(PhysAddr::new(0x8000)));
    assert_eq!(frames.bytes_remaining(), 0);
    assert_eq!(frames.alloc_frame(&mut mem), None);
    assert_eq!(frames.frames_allocated(), 2);
}

#[test]
fn frames_from_regions_in_any_order_are_not_left() {
    let mut free: Regions = RegionList::new();
    for (start, end) in [(0x8000, 0xa000), (0x1000, 0x3000), (0x5000, 0x6000)] {
        free.push(Region::new(PhysAddr::new(start), PhysAddr::new(end))).unwrap();
    }
    let mut frames = BumpAllocator::new();
    frames.init(&free);
    let mut mem = Memory::new();
    let mut taken: Vec<PhysAddr> = Vec::new();
    for expected in [0x8000, 0x9000, 0x1000, 0x2000, 0x5000] {
        taken.push(frames.alloc_frame(&mut mem).expect("out of frames"));
        assert_eq!(taken[taken.len() - 1].as_usize(), expected);
        for f in &taken {
            assert!(frames.remaining().as_slice().iter().all(|r| !r.contains(*f)));
        }
    }
    assert_eq!(frames.alloc_frame(&mut mem), None);
}

#[test]
fn an_empty_allocator_hands_out_nothing() {
    let mut frames = BumpAllocator::new();
    assert_eq!(frames.alloc_frame(&mut Memory::new()), None);
    assert!(frames.remaining().is_empty());
}

// --- Devices ---

#[test]
fn the_device_tree_describes_devices_as_well_as_memory() {
    assert!(!map().devices.is_empty(), "no device regions were discovered");
}

#[test]
fn every_device_region_is_whole_pages() {
    for d in map().devices.iter() {
        assert_eq!(d.start.as_usize() % PAGE_SIZE, 0);
        assert_eq!(d.len() % PAGE_SIZE, 0);
    }
}

#[test]
fn no_device_region_overlaps_ram() {
    let m = map();
    for d in m.devices.iter() {
        for r in m.ram.iter() {
            assert!(!d.overlaps(r));
        }
    }
}

#[test]
fn the_kernels_own_devices_are_not_handed_out() {
    // The console and the shutdown register.
    let m = map();
    for (name, pa) in devices() {
        assert!(
            !m.devices.iter().any(|d| d.contains(PhysAddr::new(pa))),
            "{} was handed out as a device untyped",
            name
        );
    }
}

#[test]
fn the_virtio_transports_are_each_their_own_region() {
    let m = map();
    for i in 0..8 {
        let base = 0x1000_1000 + i * PAGE_SIZE;
        let found = m.devices.iter().find(|d| d.start.as_usize() == base);
        assert_eq!(found.expect("no such device region").len(), PAGE_SIZE);
    }
}

#[test]
fn the_uart_is_grown_to_a_page_but_still_excluded() {
    // Its `reg` is 0x100 long, which page-aligns outward onto the UART page --
    // and that page is the kernel's, so the region must be gone entirely.
    assert!(!map().devices.iter().any(|d| d.contains(PhysAddr::new(UART0_PHYS))));
}

#[test]
fn the_device_tree_itself_is_remembered() {
    let m = map();
    assert_eq!(m.fdt.start, PhysAddr::new(DTB));
    assert_eq!(m.fdt.len(), virt_tree().len() as u64);
}

// --- Refusals ---

#[test]
fn a_tree_without_memory_is_refused() {
    let mut t = Tree::new();
    t.begin("");
    t.end();
    let r = discover(&t.finish(), PhysAddr::new(DTB), kernel_range());
    assert_eq!(r.err(), Some(DiscoverError::NoMemory));
}

#[test]
fn a_tree_with_more_regions_than_fit_is_refused() {
    let mut t = Tree::new();
    t.begin("");
    t.begin("memory@80000000");
    let mut cells = Vec::new();
    for i in 0..64u32 {
        cells.extend_from_slice(&[0, 0x8000_0000 + i * 0x10_0000, 0, 0x1000]);
    }
    t.cells("reg", &cells);
    t.end();
    t.end();
    let r = discover(&t.finish(), PhysAddr::new(DTB), kernel_range());
    assert_eq!(r.err(), Some(DiscoverError::TooManyRegions));
}

#[test]
fn something_that_is_not_a_tree_is_refused() {
    let mut bytes = virt_tree();
    bytes[0] = 0;
    assert_eq!(Fdt::from_ptr(&bytes).err(), Some(FdtError::BadMagic));
    let r = discover(&bytes, PhysAddr::new(DTB), kernel_range());
    assert_eq!(r.err(), Some(DiscoverError::Fdt(FdtError::BadMagic)));
    assert_eq!(Fdt::from_ptr(&virt_tree()[..20]).err(), Some(FdtError::Truncated));
}

#[test]
fn a_corrupt_stream_is_reported_where_it_breaks() {
    let mut t = Tree::new();
    t.begin("");
    t.word(7);
    let bytes = t.finish();
    let fdt = Fdt::from_ptr(&bytes).unwrap();
    assert_eq!(fdt.for_each_property().1, Err(FdtError::BadToken(7)));

    let mut t = Tree::new();
    for _ in 0..20 {
        t.begin("n");
    }
    let bytes = t.finish();
    assert_eq!(Fdt::from_ptr(&bytes).unwrap().for_each_property().1, Err(FdtError::TooDeep));
}

#[test]
fn names_that_are_not_text_are_refused() {
    let mut t = Tree::new();
    t.begin("");
    t.word(1);
    t.structure.extend_from_slice(&[0xff, 0xfe, 0x41, 0]);
    t.end();
    t.end();
    let bytes = t.finish();
    assert_eq!(Fdt::from_ptr(&bytes).unwrap().for_each_property().1, Err(FdtError::BadString));

    // Text that is not ASCII is still text.
    let mut t = Tree::new();
    t.begin("");
    t.prop("na\u{ef}ve", &[1]);
    t.end();
    let bytes = t.finish();
    let (props, walked) = Fdt::from_ptr(&bytes).unwrap().for_each_property();
    assert_eq!(walked, Ok(()));
    assert_eq!(props[0].name, "na\u{ef}ve".as_bytes());
}

#[test]
fn properties_come_with_where_they_are() {
    let bytes = virt_tree();
    let fdt = Fdt::from_ptr(&bytes).unwrap();
    assert_eq!(fdt.total_size(), bytes.len() as u64);
    let (props, walked) = fdt.for_each_property();
    assert_eq!(walked, Ok(()));
    let resv = props.iter().find(|p| p.node == b"mmode_resv0@80000000").unwrap();
    assert_eq!(resv.depth, 2);
    assert_eq!(resv.parent, b"reserved-memory");
    assert_eq!(resv.name, b"reg");
    assert_eq!(fdt.for_each_reservation().0, vec![(0x8000_0000, 0x4_0000)]);
}

#[test]
fn cells_are_big_endian() {
    let value = [0, 0, 0, 1, 0x80, 0, 0, 0];
    assert_eq!(read_cells(&value, 0, 1), Ok(1));
    assert_eq!(read_cells(&value, 0, 2), Ok(0x1_8000_0000));
    assert_eq!(read_cells(&value, 4, 2), Err(FdtError::Truncated));
}

// --- The interrupt controller ---

#[test]
fn the_device_tree_names_an_interrupt_controller() {
    let info = map().plic.expect("no interrupt controller was found");
    assert_eq!(info.ndev, 95);
    assert_eq!(info.region.len() % PAGE_SIZE, 0);
}

#[test]
fn the_supervisor_context_is_read_not_assumed() {
    assert_eq!(map().plic.expect("no controller").context, 1);
}

#[test]
fn the_controller_is_never_handed_out_as_a_device() {
    let m = map();
    let plic = m.plic.expect("no controller");
    assert!(!m.devices.iter().any(|d| d.overlaps(&plic.region)));
}

#[test]
fn the_table_has_room_for_every_source_the_platform_has() {
    assert!(map().plic.expect("no controller").ndev < MAX_IRQ as u64);
}

#[test]
fn a_tree_without_a_controller_has_none() {
    let mut t = Tree::new();
    t.begin("");
    t.end();
    let bytes = t.finish();
    assert!(find(&Fdt::from_ptr(&bytes).unwrap()).is_none());
}

/// A controller's registers, as the kernel sees them.
struct Registers {
    words: Vec<(u64, u32)>,
}

impl Registers {
    fn read(&self, offset: u64) -> u32 {
        match self.words.iter().find(|w| w.0 == offset) {
            Some(w) => w.1,
            None => 0,
        }
    }

    fn apply(&mut self, op: RegOp) {
        let value = op.apply(self.read(op.offset()));
        self.words.retain(|w| w.0 != op.offset());
        self.words.push((op.offset(), value));
    }
}

fn controller() -> (Plic, Registers) {
    let mut plic = Plic::new();
    assert!(!plic.is_ready());
    let mut regs = Registers { words: Vec::new() };
    for op in plic.init(map().plic.unwrap(), VirtAddr::new(0xFFFF_FFC0_0C00_0000)) {
        regs.apply(op);
    }
    assert!(plic.is_ready());
    (plic, regs)
}

fn is_enabled(plic: &Plic, regs: &Registers, irq: u64) -> bool {
    plic.is_enabled(irq, regs.read(plic.enable(irq).offset()))
}

#[test]
fn every_source_starts_masked() {
    let (plic, regs) = controller();
    for irq in [1, 8, 11, 30] {
        assert!(!is_enabled(&plic, &regs, irq), "source {} was enabled", irq);
        assert_eq!(regs.read(irq * 4), 1, "source {} has no priority", irq);
    }
}

#[test]
fn enabling_and_masking_a_source_round_trips() {
    let (plic, mut regs) = controller();
    regs.apply(plic.enable(40));
    assert!(is_enabled(&plic, &regs, 40));
    regs.apply(plic.disable(40));
    assert!(!is_enabled(&plic, &regs, 40));
}

#[test]
fn masking_one_source_leaves_its_neighbours_alone() {
    let (plic, mut regs) = controller();
    regs.apply(plic.enable(41));
    regs.apply(plic.enable(42));
    regs.apply(plic.disable(41));
    assert!(!is_enabled(&plic, &regs, 41));
    assert!(is_enabled(&plic, &regs, 42));
}

#[test]
fn a_claim_of_zero_means_nothing_is_pending() {
    let (plic, _) = controller();
    assert_eq!(plic.claim(0), None);
    assert_eq!(plic.claim(10), Some(10));
    // Context 1's claim register, where the number is handed back.
    assert_eq!(plic.claim_register(), 0x20_1004);
    assert_eq!(plic.complete(10), RegOp::Write { offset: 0x20_1004, value: 10 });
}

// --- Who is allowed to receive a source ---

#[test]
fn source_zero_cannot_be_claimed() {
    let mut irqs = IrqTable::new();
    assert_eq!(irqs.claim(0), Err(IrqError::OutOfRange));
    assert_eq!(irqs.claim(MAX_IRQ as u64), Err(IrqError::OutOfRange));
}

#[test]
fn a_source_can_only_be_claimed_once() {
    let mut irqs = IrqTable::new();
    assert_eq!(irqs.claim(44), Ok(()));
    assert_eq!(irqs.claim(44), Err(IrqError::AlreadyClaimed));
    assert!(irqs.is_claimed(44));
}

#[test]
fn an_unclaimed_source_cannot_be_bound() {
    let (plic, _) = controller();
    let mut irqs = IrqTable::new();
    let at = PhysAddr::new(0x8000_0000);
    assert_eq!(irqs.bind(45, at, 1, &plic), Err(IrqError::NotClaimed));
    assert_eq!(irqs.bind(0, at, 1, &plic), Err(IrqError::OutOfRange));
    assert_eq!(irqs.unbind(MAX_IRQ as u64, &plic), Err(IrqError::OutOfRange));
}

#[test]
fn binding_records_the_target_and_unmasks_the_source() {
    let (plic, mut regs) = controller();
    let mut irqs = IrqTable::new();
    let at = PhysAddr::new(0x8000_0000);
    irqs.claim(46).unwrap();
    assert!(!is_enabled(&plic, &regs, 46));

    regs.apply(irqs.bind(46, at, 0x40, &plic).unwrap());
    assert_eq!(irqs.target(46), Some((at, 0x40)));
    assert!(is_enabled(&plic, &regs, 46), "binding left the source masked");

    regs.apply(irqs.unbind(46, &plic).unwrap());
    assert_eq!(irqs.target(46), None);
    assert!(!is_enabled(&plic, &regs, 46), "unbinding left the source live");
}

#[test]
fn the_scheduler_can_tell_whether_hardware_could_still_wake_anyone() {
    let (plic, _) = controller();
    let mut irqs = IrqTable::new();
    assert!(!irqs.any_bound());
    irqs.claim(47).unwrap();
    irqs.bind(47, PhysAddr::new(0x8000_0000), 1, &plic).unwrap();
    assert!(irqs.any_bound());
    irqs.unbind(47, &plic).unwrap();
    assert!(!irqs.any_bound());
    irqs.reset();
    assert!(!irqs.is_claimed(47));
}

// --- The timer ---

#[test]
fn timebase_comes_from_the_device_tree() {
    let mut t = Tree::new();
    t.begin("");
    t.begin("cpus");
    t.cells("timebase-frequency", &[4_000_000]);
    t.end();
    t.end();
    let mut timer = Timer::new();
    assert_eq!(timer.timebase_hz(), DEFAULT_HZ);
    timer.init(&t.finish());
    assert_eq!(timer.timebase_hz(), 4_000_000);
    assert!(!timer.has_sstc());
    timer.init(&virt_tree());
    assert_eq!(timer.timebase_hz(), 10_000_000);
}

#[test]
fn a_rate_of_zero_is_not_believed() {
    let mut t = Tree::new();
    t.begin("");
    t.cells("timebase-frequency", &[0]);
    t.end();
    let mut timer = Timer::new();
    timer.init(&t.finish());
    assert_eq!(timer.timebase_hz(), DEFAULT_HZ);
}

#[test]
fn sstc_is_detected() {
    let mut timer = Timer::new();
    timer.init(&virt_tree());
    assert!(timer.has_sstc(), "sstc was not found in the device tree");

    // A whole element of the list, not a substring of one.
    let mut t = Tree::new();
    t.begin("");
    t.prop("riscv,isa-extensions", b"i\0sstcx\0xsstc\0");
    t.end();
    let mut timer = Timer::new();
    timer.init(&t.finish());
    assert!(!timer.has_sstc());
}

#[test]
fn a_timeslice_is_the_advertised_length() {
    let mut timer = Timer::new();
    timer.init(&virt_tree());
    assert_eq!(timer.ms_to_ticks(1000), timer.timebase_hz());
    assert_eq!(timer.ms_to_ticks(TIMESLICE_MS), timer.timebase_hz() / 100);
}

#[test]
fn the_handler_rearms_so_ticks_keep_coming() {
    let mut timer = Timer::new();
    assert_eq!(
        timer.on_tick(1_000),
        Arm::Firmware(Call { eid: EID_TIME, fid: 0, arg0: 101_000, arg1: 0 })
    );
    assert_eq!(timer.ticks, 1);
    timer.init(&virt_tree());
    assert_eq!(timer.on_tick(1_000), Arm::Compare(101_000));
    assert_eq!(timer.ticks, 2);
    assert_eq!(timer.arm_next_tick(7), Arm::Compare(100_007));
    assert_eq!(timer.disarm(), Arm::Compare(u64::MAX));
}

#[test]
fn firmware_calls_are_spelled_as_the_firmware_expects() {
    assert_eq!(set_timer(5), Call { eid: EID_TIME, fid: 0, arg0: 5, arg1: 0 });
    assert_eq!(
        probe_extension(EID_TIME),
        Call { eid: EID_BASE, fid: 3, arg0: 0x5449_4d45, arg1: 0 }
    );
    assert!(SbiRet { error: 0, value: 0 }.is_ok());
    assert!(!SbiRet { error: 0, value: 0 }.is_present());
    assert!(SbiRet { error: 0, value: 1 }.is_present());
    assert!(!SbiRet { error: -2, value: 1 }.is_present());
}
