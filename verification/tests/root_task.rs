//! The root task: the ELF loader, the untyped split, the boot info page, and
//! the whole path from an image to a thread that is ready to run.

use tessera::abi::bootinfo::{
    BootInfo, ModuleDesc, UntypedDesc, FDT_VADDR, MAGIC, MAX_MODULES, MAX_UNTYPED, MODULE_VADDR, VADDR,
    VERSION,
};
use tessera::abi::object::{ObjectType, SLOT_BITS};
use tessera::abi::rights::{ALL, READ};
use tessera::abi::slot;
use tessera::cap::cspace::CSpace;
use tessera::elf::{Elf, ElfError};
use tessera::irq::IrqTable;
use tessera::layout::Layout;
use tessera::mm::addr::{PhysAddr, VirtAddr, KERNEL_VMA, PAGE_SIZE};
use tessera::mm::discover::MemoryMap;
use tessera::mm::frame::BumpAllocator;
use tessera::mm::kernel_space::build;
use tessera::mm::memory::Memory;
use tessera::mm::page_table::{Mapper, PteFlags, U, W, X};
use tessera::mm::region::{Region, RegionList};
use tessera::mm::Regions;
use tessera::objects::Objects;
use tessera::plic::PlicInfo;
use tessera::root::blocks::{alloc_aligned, split};
use tessera::root::pages::{Module, STACK_PAGES, STACK_TOP};
use tessera::root::{load, RootError, RootTask, CNODE_RADIX, FREE_VADDR};
use tessera::sched::Kernel;
use tessera::thread::ThreadState;

// --- Images ---

const RX: u32 = 5;

const RW: u32 = 6;

const RWX: u32 = 7;

struct Part {
    vaddr: u64,
    data: Vec<u8>,
    mem_size: u64,
    flags: u32,
}

fn part(vaddr: u64, data: &[u8], mem_size: u64, flags: u32) -> Part {
    Part { vaddr, data: data.to_vec(), mem_size, flags }
}

fn set(b: &mut [u8], at: usize, value: &[u8]) {
    b[at..at + value.len()].copy_from_slice(value);
}

/// An executable with these segments, and one header that is not to be loaded.
fn image(entry: u64, parts: &[Part]) -> Vec<u8> {
    let headers = parts.len() + 1;
    let mut b = vec![0u8; 64 + 56 * headers];
    set(&mut b, 0, &[0x7f, b'E', b'L', b'F', 2, 1, 1]);
    set(&mut b, 16, &2u16.to_le_bytes());
    set(&mut b, 18, &243u16.to_le_bytes());
    set(&mut b, 24, &entry.to_le_bytes());
    set(&mut b, 32, &64u64.to_le_bytes());
    set(&mut b, 54, &56u16.to_le_bytes());
    set(&mut b, 56, &(headers as u16).to_le_bytes());
    // A note, first in the table.
    set(&mut b, 64, &4u32.to_le_bytes());
    for (i, p) in parts.iter().enumerate() {
        let at = 64 + 56 * (i + 1);
        let from = b.len() as u64;
        set(&mut b, at, &1u32.to_le_bytes());
        set(&mut b, at + 4, &p.flags.to_le_bytes());
        set(&mut b, at + 8, &from.to_le_bytes());
        set(&mut b, at + 16, &p.vaddr.to_le_bytes());
        set(&mut b, at + 32, &(p.data.len() as u64).to_le_bytes());
        set(&mut b, at + 40, &p.mem_size.to_le_bytes());
        b.extend_from_slice(&p.data);
    }
    b
}

const TEXT: u64 = 0x1_0000;

const DATA: u64 = 0x1_3000;

/// A page and a bit of code, and data with a zeroed tail.
fn program() -> Vec<u8> {
    let mut code = vec![0x13u8; 0x1008];
    code[0x1000] = 0x77;
    image(TEXT + 4, &[part(TEXT, &code, 0x1008, RX), part(DATA, b"initialised", 0x2000, RW)])
}

#[test]
fn the_image_is_a_riscv_executable() {
    let bytes = program();
    let elf = Elf::parse(&bytes).ok().expect("the image does not parse");
    let (lo, hi) = elf.image_range().expect("no loadable segments");
    assert_eq!(elf.entry(), TEXT + 4);
    assert_eq!((lo, hi), (TEXT, DATA + 0x2000));
}

#[test]
fn only_loadable_segments_are_listed() {
    let bytes = program();
    let elf = Elf::parse(&bytes).ok().unwrap();
    let all = elf.segments();
    assert_eq!(all.len(), 2, "the note was taken for a segment");
    let text = all[0].as_ref().ok().unwrap();
    let data = all[1].as_ref().ok().unwrap();
    assert!(text.readable() && text.executable() && !text.writable());
    assert!(data.readable() && data.writable() && !data.executable());
    // What the file has no bytes for is described by the memory size alone.
    assert_eq!(data.data, b"initialised");
    assert!(data.mem_size > data.data.len() as u64);
}

#[test]
fn garbage_is_not_an_elf() {
    assert_eq!(Elf::parse(&[]).err(), Some(ElfError::TooSmall));
    assert_eq!(Elf::parse(&[0u8; 128]).err(), Some(ElfError::BadMagic));
}

fn header() -> Vec<u8> {
    program()[..64].to_vec()
}

#[test]
fn a_32_bit_or_big_endian_image_is_refused() {
    let mut h = header();
    h[4] = 1;
    assert_eq!(Elf::parse(&h).err(), Some(ElfError::WrongFormat));
    let mut h = header();
    h[5] = 2;
    assert_eq!(Elf::parse(&h).err(), Some(ElfError::WrongFormat));
}

#[test]
fn a_foreign_architecture_is_refused() {
    let mut h = header();
    // x86-64, which would otherwise parse perfectly well.
    h[18] = 62;
    h[19] = 0;
    assert_eq!(Elf::parse(&h).err(), Some(ElfError::WrongFormat));
}

#[test]
fn a_shared_object_is_refused() {
    let mut h = header();
    h[16] = 3;
    assert_eq!(Elf::parse(&h).err(), Some(ElfError::NotExecutable));
}

#[test]
fn a_program_header_table_past_the_end_is_refused() {
    assert_eq!(Elf::parse(&header()).err(), Some(ElfError::Truncated));
}

#[test]
fn a_segment_past_the_end_is_refused() {
    let mut bytes = program();
    bytes.truncate(bytes.len() - 1);
    let elf = Elf::parse(&bytes).ok().unwrap();
    assert_eq!(elf.image_range().err(), Some(ElfError::Truncated));
    assert_eq!(elf.segments()[1].as_ref().err(), Some(&ElfError::Truncated));
}

#[test]
fn an_image_with_nothing_to_load_is_refused() {
    let bytes = image(TEXT, &[]);
    let elf = Elf::parse(&bytes).ok().unwrap();
    assert_eq!(elf.image_range().err(), Some(ElfError::NotExecutable));
    assert!(elf.segments().is_empty());
}

// --- Splitting free memory into untypeds ---

#[test]
fn a_split_tiles_its_region_exactly() {
    let start = 0x8080_0000u64;
    let region = Region::new(PhysAddr::new(start), PhysAddr::new(start + 0x1_5000));
    let mut at = start;
    for desc in split(region, false) {
        let size = 1u64 << desc.size_bits;
        assert_eq!(desc.paddr, at, "a gap at {at:#x}");
        assert_eq!(at & (size - 1), 0, "block at {at:#x} is not {size}-aligned");
        assert_eq!(desc.is_device, 0);
        at += size;
    }
    assert_eq!(at, region.end.as_usize(), "the split did not reach the end");
}

#[test]
fn a_split_starts_with_what_alignment_allows_not_what_size_allows() {
    let start = 0x8000_1000u64;
    let region = Region::new(PhysAddr::new(start), PhysAddr::new(start + 0x40_0000));
    let all = split(region, true);
    assert_eq!(all[0].size_bits, 12);
    assert_eq!(all[0].paddr, start);
    assert_eq!(all[0].is_device, 1);
}

#[test]
fn a_sub_page_region_yields_nothing() {
    let region = Region::new(PhysAddr::new(0x8000_0000), PhysAddr::new(0x8000_0800));
    assert_eq!(split(region, false).len(), 0);
}

#[test]
fn blocks_are_never_larger_than_a_gigabyte() {
    let region = Region::new(PhysAddr::new(0x1_0000_0000), PhysAddr::new(0x2_0000_0000));
    let all = split(region, false);
    assert_eq!(all.len(), 4);
    assert!(all.iter().all(|d| d.size_bits == 30));
}

#[test]
fn an_aligned_block_is_taken_whole() {
    let mut mem = Memory::new();
    let mut frames = BumpAllocator::new();
    frames.init(&list(&[(0x8040_1000, 0x8041_0000)]));
    assert_eq!(alloc_aligned(14, &mut frames, &mut mem), Some(PhysAddr::new(0x8040_4000)));
    assert_eq!(frames.alloc_frame(&mut mem), Some(PhysAddr::new(0x8040_8000)));
    assert_eq!(alloc_aligned(16, &mut frames, &mut mem), None);
}

// --- Boot info ---

#[test]
fn a_module_name_survives_the_round_trip_through_the_boot_info() {
    let desc = ModuleDesc::new(0x3020_0000, 77, "shell");
    assert_eq!(desc.name(), "shell", "a module name did not survive being written down");
    assert_eq!((desc.vaddr, desc.size), (0x3020_0000, 77));
    // Longer than the field, truncated rather than overrunning it.
    let long = ModuleDesc::new(0, 0, "a-name-far-longer-than-sixteen-bytes");
    assert_eq!(long.name(), "a-name-far-longe");
    assert_eq!(long.name().len(), 16);
    assert_eq!(ModuleDesc::empty().name(), "");
}

#[test]
fn a_name_cut_inside_a_character_reads_as_unknown() {
    let cut = ModuleDesc::new(0, 0, "fifteen-bytes-!\u{e9}");
    assert_eq!(cut.name(), "?");
}

#[test]
fn regions_describe_themselves() {
    let d = UntypedDesc::new(0x8000_0000, 21, false);
    assert_eq!(d.bytes(), 0x20_0000);
    assert_eq!(d.is_device, 0);
    assert_eq!(UntypedDesc::new(0x1000_0000, 12, true).is_device, 1);
}

#[test]
fn modules_and_regions_are_found_by_name_and_number() {
    let mut info = BootInfo::empty();
    assert!(info.is_valid());
    assert_eq!((info.magic, info.version), (MAGIC, VERSION));
    info.modules[0] = ModuleDesc::new(0x3020_0000, 10, "init");
    info.modules[1] = ModuleDesc::new(0x3030_0000, 20, "shell");
    info.module_count = 2;
    info.untyped[0] = UntypedDesc::new(0x8000_0000, 21, false);
    info.untyped_count = 1;
    assert_eq!(info.module("shell").unwrap().size, 20);
    assert!(info.module("absent").is_none());
    assert_eq!(info.modules().len(), 2);
    assert_eq!(info.untypeds().len(), 1);
    assert_eq!(info.untyped_slot(3), slot::FIRST_UNTYPED + 3);
    info.module_count = MAX_MODULES as u64;
    info.untyped_count = MAX_UNTYPED as u32;
    assert_eq!(info.modules().len(), MAX_MODULES);
    assert_eq!(info.untypeds().len(), MAX_UNTYPED);
    info.magic = 0;
    assert!(!info.is_valid());
}

// --- The whole path ---

fn list(regions: &[(u64, u64)]) -> Regions {
    let mut out: Regions = RegionList::new();
    for (start, end) in regions {
        out.push(Region::new(PhysAddr::new(*start), PhysAddr::new(*end))).unwrap();
    }
    out
}

fn layout() -> Layout {
    let at = KERNEL_VMA + 0x8020_0000;
    Layout {
        kernel_start: at,
        kernel_end: at + 0x8000,
        text_start: at,
        text_end: at + 0x3000,
        rodata_start: at + 0x3000,
        rodata_end: at + 0x5000,
        data_start: at + 0x5000,
        data_end: at + 0x6000,
        bss_start: at + 0x6000,
        bss_end: at + 0x8000,
    }
}

const FDT: u64 = 0x87e0_0010;

fn memory_map() -> MemoryMap {
    MemoryMap {
        ram: list(&[(0x8000_0000, 0x8800_0000)]),
        reserved: list(&[]),
        free: list(&[(0x8040_0000, 0x8050_0000), (0x8060_0000, 0x8070_0000)]),
        devices: list(&[(0x1000_1000, 0x1000_2000), (0x1000_3000, 0x1000_5000)]),
        plic: Some(PlicInfo {
            region: Region::new(PhysAddr::new(0x0c00_0000), PhysAddr::new(0x0c60_0000)),
            ndev: 95,
            context: 1,
        }),
        fdt: Region::new(PhysAddr::new(FDT), PhysAddr::new(FDT + 0x1800)),
    }
}

struct World {
    k: Kernel,
    irqs: IrqTable,
    frames: BumpAllocator,
    kernel: Mapper,
    map: MemoryMap,
}

impl World {
    fn new(map: MemoryMap, asid_bits: u8) -> World {
        let mut frames = BumpAllocator::new();
        frames.init(&map.free);
        let mut objects = Objects::new(asid_bits);
        let kernel = build(&layout(), &map, &mut frames, &mut objects.mem).expect("kernel space");
        let satp = objects.kernel_root.activate(&kernel);
        for i in 0..0x300 {
            objects.mem.write(FDT, i, 0xfd70_0000 + i);
        }
        World { k: Kernel::new(objects, satp), irqs: IrqTable::new(), frames, kernel, map }
    }

    fn load(&mut self, image: &[u8], modules: &[Module]) -> Result<RootTask, RootError> {
        load(&mut self.k, &mut self.irqs, &mut self.frames, &self.kernel, &self.map, image, modules)
    }

    fn page(&self, rt: &RootTask, va: u64) -> Option<(u64, PteFlags)> {
        let (pa, flags, _) = rt.space.translate(VirtAddr::new(va), &self.k.objects.mem)?;
        Some((pa.as_usize(), flags))
    }

    fn word(&self, rt: &RootTask, va: u64) -> u64 {
        self.k.objects.mem.read(self.page(rt, va).expect("unmapped").0, 0)
    }
}

fn refusal(image: &[u8], modules: &[Module]) -> Option<RootError> {
    World::new(memory_map(), 16).load(image, modules).err()
}

fn has(flags: PteFlags, bit: u64) -> bool {
    flags.contains(PteFlags(bit))
}

#[test]
fn the_root_task_is_built_from_its_image() {
    let mut w = World::new(memory_map(), 16);
    w.irqs.claim(3).unwrap();
    let rt = w.load(&program(), &[]).ok().expect("the root task did not load");

    assert_eq!(rt.entry, TEXT + 4);
    assert_eq!(rt.image, (TEXT, DATA + 0x2000));
    assert!(rt.untypeds > 0, "no untyped memory was handed over");
    assert!(rt.devices > 0, "no device regions were handed over");
    assert!(rt.untypeds > rt.devices, "nothing but devices was handed over");
    assert!(rt.space.asid().as_u16() != 0, "the root task's space has no ASID");
    assert!(!w.irqs.is_claimed(3), "claims of an earlier run survived");

    // Its code, its data with a zeroed tail, and its stack.
    let (_, text) = w.page(&rt, TEXT).expect("text unmapped");
    assert!(has(text, U) && has(text, X) && !has(text, W));
    assert_eq!(w.word(&rt, TEXT), 0x1313_1313_1313_1313);
    assert_eq!(w.word(&rt, TEXT + 0x1000), 0x1313_1313_1313_1377);
    let (_, data) = w.page(&rt, DATA).expect("data unmapped");
    assert!(has(data, U) && has(data, W) && !has(data, X));
    assert_eq!(w.word(&rt, DATA).to_le_bytes(), *b"initiali");
    assert_eq!(w.word(&rt, DATA + 8), 0x64_6573);
    assert_eq!(w.word(&rt, DATA + 0x1ff8), 0);
    for i in 0..STACK_PAGES {
        let (_, stack) = w.page(&rt, STACK_TOP - (i + 1) * PAGE_SIZE).expect("stack unmapped");
        assert!(has(stack, U) && has(stack, W) && !has(stack, X));
    }
    // Nothing maps the scratch region: the root task maps what it needs there.
    assert!(w.page(&rt, FREE_VADDR).is_none());
}

#[test]
fn the_root_task_starts_where_its_image_says() {
    let mut w = World::new(memory_map(), 16);
    let rt = w.load(&program(), &[]).ok().unwrap();
    assert_eq!(w.k.ready_count(), 1);
    let cs = CSpace::new(rt.cnode).unwrap();
    let tcb = cs.read(&w.k.objects.slots, slot::TCB, CNODE_RADIX).unwrap();
    let t = w.k.objects.threads.get(tcb.paddr.as_usize());
    assert_eq!(t.id, rt.id);
    assert_eq!(t.state, ThreadState::Ready);
    assert_eq!(t.frame.sepc, rt.entry);
    assert_eq!(t.frame.x[2], STACK_TOP);
    assert_eq!(t.satp, rt.space.satp());
    assert_eq!(t.cspace.paddr, rt.cnode.paddr);
}

#[test]
fn the_root_task_holds_capabilities_to_everything() {
    let mut w = World::new(memory_map(), 16);
    let rt = w.load(&program(), &[]).ok().unwrap();
    let cs = CSpace::new(rt.cnode).unwrap();
    let read = |i: u64| cs.read(&w.k.objects.slots, i, CNODE_RADIX).unwrap();
    assert!(read(slot::NULL).is_null());
    assert!(read(slot::ENDPOINT).is_null());
    assert_eq!((read(slot::CNODE).kind, read(slot::CNODE).paddr), (ObjectType::CNode, rt.cnode.paddr));
    assert_eq!((read(slot::VSPACE).kind, read(slot::VSPACE).paddr), (ObjectType::PageTable, rt.space.root()));
    assert_eq!(read(slot::VSPACE).asid, rt.space.asid().as_u16());
    assert_eq!(read(slot::IRQ_CONTROL).kind, ObjectType::IrqControl);
    let info = read(slot::BOOTINFO);
    assert_eq!((info.kind, info.rights), (ObjectType::Frame, READ));
    assert_eq!(info.mapping(), Some((rt.space.root(), VADDR)));

    let mut ram = 0u64;
    let mut devices = 0usize;
    for i in 0..rt.untypeds as u64 {
        let cap = read(slot::FIRST_UNTYPED + i);
        assert_eq!(cap.rights, ALL);
        if cap.kind == ObjectType::DeviceUntyped {
            devices += 1;
        } else {
            assert_eq!(cap.kind, ObjectType::Untyped);
            ram += cap.size();
        }
    }
    assert_eq!(devices, rt.devices);
    assert_eq!(devices, 3, "one page, then two pages split where their alignment puts it");
    assert_eq!(ram, rt.untyped_bytes);
    assert_eq!(ram, w.frames.bytes_remaining());
    assert!(read(slot::FIRST_UNTYPED + rt.untypeds as u64).is_null());
}

#[test]
fn what_is_left_is_handed_over_once() {
    let mut w = World::new(memory_map(), 16);
    let rt = w.load(&program(), &[]).ok().unwrap();
    let cs = CSpace::new(rt.cnode).unwrap();
    let read = |i: u64| cs.read(&w.k.objects.slots, i, CNODE_RADIX).unwrap();
    let mut blocks: Vec<(u64, u64)> = Vec::new();
    for i in 0..rt.untypeds as u64 {
        let cap = read(slot::FIRST_UNTYPED + i);
        let told = w.word(&rt, VADDR + 256 + 16 * i);
        assert_eq!(told, cap.paddr.as_usize(), "the boot info names another block");
        blocks.push((cap.paddr.as_usize(), cap.paddr.as_usize() + cap.size()));
    }
    blocks.sort();
    for pair in blocks.windows(2) {
        assert!(pair[0].1 <= pair[1].0, "two blocks share memory");
    }
    // Every block is free memory nothing was made of, or a device.
    for (start, end) in &blocks {
        let ram = (0x8040_0000 <= *start && *end <= 0x8050_0000) || (0x8060_0000 <= *start && *end <= 0x8070_0000);
        let device = 0x1000_1000 <= *start && *end <= 0x1000_5000;
        assert!(ram || device, "a block of memory that was not left over");
    }
    for i in slot::FIRST_UNTYPED + rt.untypeds as u64..256 {
        assert!(read(i).is_null(), "a slot that is said to be free is not");
    }
    for i in 0..256u64 {
        let at = rt.cnode.paddr.as_usize() + (i << SLOT_BITS);
        assert_eq!(w.k.objects.slots.descendants(at), 0, "something is derived from slot {i}");
    }
}

#[test]
fn the_root_task_reaches_only_its_own_memory() {
    let mut w = World::new(memory_map(), 16);
    let module = vec![0x33u8; 0x1800];
    let modules = [Module { name: "one", bytes: &module }];
    let rt = w.load(&program(), &modules).ok().unwrap();
    let mut seen = 0;
    let mut look = |start: u64, pages: u64| {
        for i in 0..pages {
            if let Some((pa, flags)) = w.page(&rt, start + i * PAGE_SIZE) {
                if has(flags, U) {
                    seen += 1;
                    let pool = (0x8040_0000..0x8050_0000).contains(&pa) || (0x8060_0000..0x8070_0000).contains(&pa);
                    let tree = (0x87e0_0000..0x87e0_2000).contains(&pa);
                    assert!(pool || tree, "userspace reaches {pa:#x}");
                }
            }
        }
    };
    look(0, 0x40);
    look(STACK_TOP - 0x1_0000, 0x20);
    look(VADDR, 0x10);
    look(FDT_VADDR, 0x10);
    look(MODULE_VADDR, 0x10);
    // The kernel's own pages are there, and closed.
    look(KERNEL_VMA + 0x8020_0000, 0x10);
    assert_eq!(seen, 4 + STACK_PAGES + 1 + 2 + 2);
    assert!(w.page(&rt, KERNEL_VMA + 0x8020_0000).is_some());
}

#[test]
fn the_boot_info_page_says_what_was_built() {
    let mut w = World::new(memory_map(), 16);
    let rt = w.load(&program(), &[]).ok().unwrap();
    let (_, flags) = w.page(&rt, VADDR).expect("boot info unmapped");
    assert!(has(flags, U) && !has(flags, W) && !has(flags, X));
    assert_eq!(w.word(&rt, VADDR), MAGIC);
    assert_eq!(w.word(&rt, VADDR + 8), (rt.untypeds as u64) << 32 | VERSION as u64);
    assert_eq!(w.word(&rt, VADDR + 16), CNODE_RADIX as u64);
    assert_eq!(w.word(&rt, VADDR + 24), 256);
    assert_eq!(w.word(&rt, VADDR + 32), slot::FIRST_UNTYPED);
    assert_eq!(w.word(&rt, VADDR + 40), slot::FIRST_UNTYPED + rt.untypeds as u64);
    assert_eq!(w.word(&rt, VADDR + 48), TEXT);
    assert_eq!(w.word(&rt, VADDR + 56), DATA + 0x2000);
    assert_eq!(w.word(&rt, VADDR + 72), STACK_TOP);
}

#[test]
fn the_device_tree_is_shared_read_only() {
    let mut w = World::new(memory_map(), 16);
    let rt = w.load(&program(), &[]).ok().unwrap();
    // Its first byte is as far into its page as it was.
    assert_eq!(w.word(&rt, FDT_VADDR + 0x10), 0xfd70_0000);
    assert_eq!(w.word(&rt, FDT_VADDR + 0x1808), 0xfd70_02ff);
    let (pa, flags) = w.page(&rt, FDT_VADDR + 0x1000).unwrap();
    assert_eq!(pa, 0x87e0_1000);
    assert!(has(flags, U) && !has(flags, W));
    assert!(w.page(&rt, FDT_VADDR + 0x2000).is_none());
}

#[test]
fn modules_are_copied_in_and_mapped_read_only() {
    let mut w = World::new(memory_map(), 16);
    let first = vec![0x11u8; 0x1001];
    let second = vec![0x22u8; 5];
    let modules = [Module { name: "first", bytes: &first }, Module { name: "second", bytes: &second }];
    let rt = w.load(&program(), &modules).ok().unwrap();
    assert_eq!(rt.modules, 2);
    assert_eq!(w.word(&rt, MODULE_VADDR), 0x1111_1111_1111_1111);
    assert_eq!(w.word(&rt, MODULE_VADDR + 0x1000), 0x11);
    let (_, flags) = w.page(&rt, MODULE_VADDR).unwrap();
    assert!(has(flags, U) && !has(flags, W) && !has(flags, X));
    let next = MODULE_VADDR + 0x2000;
    assert_eq!(w.word(&rt, next), 0x22_2222_2222);
}

#[test]
fn images_that_cannot_be_loaded_are_refused() {
    assert_eq!(refusal(&[], &[]), Some(RootError::Elf(ElfError::TooSmall)));
    assert_eq!(refusal(&image(TEXT, &[]), &[]), Some(RootError::Elf(ElfError::NotExecutable)));
    let both = image(TEXT, &[part(TEXT, b"x", 1, RWX)]);
    assert_eq!(refusal(&both, &[]), Some(RootError::WriteExecute));
    let sharing = image(TEXT, &[part(TEXT, b"x", 1, RX), part(TEXT + 0x800, b"y", 1, RW)]);
    assert_eq!(refusal(&sharing, &[]), Some(RootError::OverlappingSegments));
    let high = image(TEXT, &[part(KERNEL_VMA, b"x", 1, RX)]);
    assert_eq!(refusal(&high, &[]), Some(RootError::BadAddress));
    let reaching = image(TEXT, &[part(VADDR - 0x1000, b"x", 0x1001, RW)]);
    assert_eq!(refusal(&reaching, &[]), Some(RootError::BadAddress));
}

#[test]
fn a_machine_without_room_or_identifiers_cannot_start_one() {
    let mut small = memory_map();
    small.free = list(&[(0x8040_0000, 0x8041_c000)]);
    let mut w = World::new(small, 16);
    assert_eq!(w.load(&program(), &[]).err(), Some(RootError::OutOfMemory));
    assert_eq!(w.k.ready_count(), 0);
    let mut w = World::new(memory_map(), 0);
    assert_eq!(w.load(&program(), &[]).err(), Some(RootError::Asid));
}

#[test]
fn errors_of_the_parts_are_errors_of_the_whole() {
    assert_eq!(RootError::from(ElfError::BadMagic), RootError::Elf(ElfError::BadMagic));
    assert_eq!(
        RootError::from(tessera::cap::CapError::Null),
        RootError::Cap(tessera::cap::CapError::Null)
    );
}
