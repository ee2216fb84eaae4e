//! What the kernel tells the root task, and the only thing it ever tells it.

use crate::abi::slot;
use crate::mm::addr::PhysAddr;
use crate::mm::memory::Memory;
use vstd::prelude::*;

verus! {

/// `"tessera\0"`, so a garbage page is obvious rather than plausible.
pub const MAGIC: u64 = 0x7465_7373_6572_6100;

/// Bumped whenever a field moves.
pub const VERSION: u32 = 3;

/// Where the kernel maps the boot info page: above the image and the stack, and
/// inside the same gigabyte so it costs no extra page tables.
pub const VADDR: u64 = 0x3000_0000;

/// Where the device tree is mapped, read-only, in the same gigabyte.
pub const FDT_VADDR: u64 = 0x3010_0000;

/// Where the boot modules are mapped, read-only, one after another.
pub const MODULE_VADDR: u64 = 0x3020_0000;

/// One region of untyped memory handed to the root task.
#[derive(Debug, Clone, Copy, PartialEq, Eq, Structural)]
pub struct UntypedDesc {
    pub paddr: u64,
    /// Log2 of the region's size.
    pub size_bits: u8,
    /// Non-zero for a device region: retypable only into frames, and never
    /// zeroed, because zeroing MMIO writes device registers.
    pub is_device: u8,
}

impl UntypedDesc {
    pub fn new(paddr: u64, size_bits: u8, is_device: bool) -> (r: Self)
        ensures
            r.paddr == paddr,
            r.size_bits == size_bits,
            r.is_device == if is_device {
                1u8
            } else {
                0u8
            },
    {
        UntypedDesc {
            paddr,
            size_bits,
            is_device: if is_device {
                1
            } else {
                0
            },
        }
    }

    /// Bytes in the region.
    pub open spec fn size(self) -> nat {
        vstd::arithmetic::power2::pow2(self.size_bits as nat)
    }

    pub fn bytes(&self) -> (r: u64)
        requires
            self.size_bits < 64,
        ensures
            r == self.size(),
    {
        proof {
            crate::bits::lemma_shl_one(self.size_bits as u64);
        }
        1u64 << (self.size_bits as u64)
    }
}

impl Default for UntypedDesc {
    fn default() -> (r: Self)
        ensures
            r == (UntypedDesc { paddr: 0, size_bits: 0, is_device: 0 }),
    {
        UntypedDesc { paddr: 0, size_bits: 0, is_device: 0 }
    }
}

/// How many regions the page has room to describe.
pub const MAX_UNTYPED: usize = 128;

/// How many boot modules the page has room to describe.
pub const MAX_MODULES: usize = 4;

/// How long a module's name can be.
pub const NAME_LEN: usize = 16;

/// One image the kernel carried in and mapped read-only, for the root task to
/// load into a process of its own.
#[derive(Debug, Clone, Copy)]
pub struct ModuleDesc {
    pub vaddr: u64,
    pub size: u64,
    /// NUL-padded, so a module is found by name and not by position.
    pub name: [u8; NAME_LEN],
}

/// A boot module, with its name as a sequence.
#[verifier::ext_equal]
pub struct ModuleView {
    pub vaddr: u64,
    pub size: u64,
    pub name: Seq<u8>,
}

impl View for ModuleDesc {
    type V = ModuleView;

    open spec fn view(&self) -> ModuleView {
        ModuleView { vaddr: self.vaddr, size: self.size, name: self.name@ }
    }
}

/// A name cut or NUL-padded to sixteen bytes.
pub open spec fn padded(name: Seq<u8>) -> Seq<u8> {
    Seq::new(
        NAME_LEN as nat,
        |i: int|
            if i < name.len() {
                name[i]
            } else {
                0
            },
    )
}

/// How many bytes come before the first NUL at or after `from`.
pub open spec fn name_length(name: Seq<u8>, from: int) -> int
    decreases name.len() - from,
{
    if from >= name.len() || name[from] == 0 {
        from
    } else {
        name_length(name, from + 1)
    }
}

impl ModuleView {
    /// No module.
    pub open spec fn empty() -> ModuleView {
        ModuleView { vaddr: 0, size: 0, name: Seq::new(NAME_LEN as nat, |i: int| 0u8) }
    }

    /// A module with this name, as much of it as fits.
    pub open spec fn named(vaddr: u64, size: u64, name: Seq<u8>) -> ModuleView {
        ModuleView { vaddr, size, name: padded(name) }
    }

    /// The characters of the name.
    pub open spec fn text(self) -> Seq<char> {
        let bytes = self.name.take(name_length(self.name, 0));
        if vstd::utf8::valid_utf8(bytes) {
            vstd::utf8::decode_utf8(bytes)
        } else {
            "?"@
        }
    }
}

impl ModuleDesc {
    /// No module.
    pub fn empty() -> (r: ModuleDesc)
        ensures
            r@ == ModuleView::empty(),
    {
        let r = ModuleDesc { vaddr: 0, size: 0, name: Self::pad(&[]) };
        assert(r@ =~= ModuleView::empty());
        r
    }

    fn pad(bytes: &[u8]) -> (r: [u8; NAME_LEN])
        ensures
            r@ == padded(bytes@),
    {
        let total: usize = bytes.len();
        let mut r: [u8; NAME_LEN] = [0u8;NAME_LEN];
        let mut i: usize = 0;
        while i < NAME_LEN
            invariant
                i <= NAME_LEN,
                total == bytes@.len(),
                forall|k: int| 0 <= k < i ==> #[trigger] r@[k] == padded(bytes@)[k],
            decreases NAME_LEN - i,
        {
            r[i] = if i < total {
                bytes[i]
            } else {
                0
            };
            i = i + 1;
        }
        assert(r@ =~= padded(bytes@));
        r
    }

    pub fn new(vaddr: u64, size: u64, name: &str) -> (r: Self)
        ensures
            r@ == ModuleView::named(vaddr, size, crate::text::bytes_of(name@)),
    {
        ModuleDesc { vaddr, size, name: Self::pad(name.as_bytes()) }
    }

    pub fn name(&self) -> (r: &str)
        ensures
            r@ == self@.text(),
    {
        let mut len: usize = 0;
        while len < NAME_LEN && self.name[len] != 0
            invariant
                len <= NAME_LEN,
                name_length(self@.name, 0) == name_length(self@.name, len as int),
            decreases NAME_LEN - len,
        {
            len = len + 1;
        }
        let bytes: &[u8] = vstd::slice::slice_subrange(self.name.as_slice(), 0, len);
        assert(bytes@ =~= self@.name.take(len as int));
        match crate::text::decoded(bytes) {
            Some(s) => s,
            None => "?",
        }
    }
}

#[derive(Clone, Copy)]
pub struct BootInfo {
    pub magic: u64,
    pub version: u32,
    pub untyped_count: u32,
    /// Address bits the root CNode consumes.
    pub cnode_radix: u64,
    pub cnode_slots: u64,
    /// Slots `[first_untyped, first_untyped + untyped_count)` hold the regions.
    pub first_untyped: u64,
    /// The first slot the kernel did not fill in.
    pub first_free_slot: u64,
    /// The root task's image, stack and this page, as it sees them.
    pub image_start: u64,
    pub image_end: u64,
    pub stack_bottom: u64,
    pub stack_top: u64,
    pub bootinfo_vaddr: u64,
    /// The device tree, mapped read-only.
    pub fdt_vaddr: u64,
    pub fdt_size: u64,
    /// The highest interrupt source the platform's controller has.
    pub max_irq: u64,
    /// The lowest address the root task may map things at without colliding
    /// with anything the kernel put there.
    pub free_vaddr: u64,
    pub module_count: u64,
    pub modules: [ModuleDesc; MAX_MODULES],
    pub untyped: [UntypedDesc; MAX_UNTYPED],
}

/// The boot info, seen from outside.
#[verifier::ext_equal]
pub struct BootInfoView {
    pub magic: u64,
    pub version: u32,
    pub untyped_count: u32,
    pub cnode_radix: u64,
    pub cnode_slots: u64,
    pub first_untyped: u64,
    pub first_free_slot: u64,
    pub image_start: u64,
    pub image_end: u64,
    pub stack_bottom: u64,
    pub stack_top: u64,
    pub bootinfo_vaddr: u64,
    pub fdt_vaddr: u64,
    pub fdt_size: u64,
    pub max_irq: u64,
    pub free_vaddr: u64,
    pub module_count: u64,
    pub modules: Seq<ModuleView>,
    pub untyped: Seq<UntypedDesc>,
}

impl View for BootInfo {
    type V = BootInfoView;

    open spec fn view(&self) -> BootInfoView {
        BootInfoView {
            magic: self.magic,
            version: self.version,
            untyped_count: self.untyped_count,
            cnode_radix: self.cnode_radix,
            cnode_slots: self.cnode_slots,
            first_untyped: self.first_untyped,
            first_free_slot: self.first_free_slot,
            image_start: self.image_start,
            image_end: self.image_end,
            stack_bottom: self.stack_bottom,
            stack_top: self.stack_top,
            bootinfo_vaddr: self.bootinfo_vaddr,
            fdt_vaddr: self.fdt_vaddr,
            fdt_size: self.fdt_size,
            max_irq: self.max_irq,
            free_vaddr: self.free_vaddr,
            module_count: self.module_count,
            modules: Seq::new(MAX_MODULES as nat, |i: int| self.modules@[i]@),
            untyped: self.untyped@,
        }
    }
}

impl BootInfoView {
    /// Boot info that describes nothing.
    pub open spec fn empty() -> BootInfoView {
        BootInfoView {
            magic: MAGIC,
            version: VERSION,
            untyped_count: 0,
            cnode_radix: 0,
            cnode_slots: 0,
            first_untyped: slot::FIRST_UNTYPED,
            first_free_slot: slot::FIRST_UNTYPED,
            image_start: 0,
            image_end: 0,
            stack_bottom: 0,
            stack_top: 0,
            bootinfo_vaddr: VADDR,
            fdt_vaddr: 0,
            fdt_size: 0,
            max_irq: 0,
            free_vaddr: 0,
            module_count: 0,
            modules: Seq::new(MAX_MODULES as nat, |i: int| ModuleView::empty()),
            untyped: Seq::new(
                MAX_UNTYPED as nat,
                |i: int| UntypedDesc { paddr: 0, size_bits: 0, is_device: 0 },
            ),
        }
    }

    /// Whether there is exactly as much of everything as the page holds.
    pub open spec fn wf(self) -> bool {
        &&& self.modules.len() == MAX_MODULES
        &&& self.untyped.len() == MAX_UNTYPED
        &&& forall|i: int|
            0 <= i < MAX_MODULES ==> (#[trigger] self.modules[i]).name.len() == NAME_LEN
    }

    /// The first module at or after `from` that is called `name`.
    pub open spec fn find(self, name: Seq<char>, from: int) -> Option<int>
        decreases self.module_count - from,
    {
        if from >= self.module_count {
            None
        } else if self.modules[from].text() == name {
            Some(from)
        } else {
            self.find(name, from + 1)
        }
    }
}

// --- How it lies in memory ---

/// Eight bytes as a word, lowest first.
pub open spec fn packed(bytes: Seq<u8>, at: int) -> u64 {
    (bytes[at] + 0x100 * bytes[at + 1] + 0x1_0000 * bytes[at + 2] + 0x100_0000 * bytes[at + 3]
        + 0x1_0000_0000 * bytes[at + 4] + 0x100_0000_0000 * bytes[at + 5] + 0x1_0000_0000_0000
        * bytes[at + 6] + 0x100_0000_0000_0000 * bytes[at + 7]) as u64
}

/// Word `i` of a module's description.
pub open spec fn module_word(m: ModuleView, i: int) -> u64 {
    if i == 0 {
        m.vaddr
    } else if i == 1 {
        m.size
    } else if i == 2 {
        packed(m.name, 0)
    } else {
        packed(m.name, 8)
    }
}

/// Word `i` of a region's description. What follows the two bytes is zero, so
/// nothing leaks through the padding.
pub open spec fn untyped_word(d: UntypedDesc, i: int) -> u64 {
    if i == 0 {
        d.paddr
    } else {
        (d.size_bits + 0x100 * d.is_device) as u64
    }
}

/// Word `i` of the fields before the tables.
pub open spec fn header_word(v: BootInfoView, i: int) -> u64 {
    if i == 0 {
        v.magic
    } else if i == 1 {
        (v.version + 0x1_0000_0000 * v.untyped_count) as u64
    } else if i == 2 {
        v.cnode_radix
    } else if i == 3 {
        v.cnode_slots
    } else if i == 4 {
        v.first_untyped
    } else if i == 5 {
        v.first_free_slot
    } else if i == 6 {
        v.image_start
    } else if i == 7 {
        v.image_end
    } else if i == 8 {
        v.stack_bottom
    } else if i == 9 {
        v.stack_top
    } else if i == 10 {
        v.bootinfo_vaddr
    } else if i == 11 {
        v.fdt_vaddr
    } else if i == 12 {
        v.fdt_size
    } else if i == 13 {
        v.max_irq
    } else if i == 14 {
        v.free_vaddr
    } else {
        v.module_count
    }
}

/// Words the boot info takes.
pub const INFO_WORDS: usize = 288;

/// Word `i` of the boot info.
pub open spec fn info_word(v: BootInfoView, i: int) -> u64 {
    if i < 16 {
        header_word(v, i)
    } else if i < 32 {
        module_word(v.modules[(i - 16) / 4], (i - 16) % 4)
    } else {
        untyped_word(v.untyped[(i - 32) / 2], (i - 32) % 2)
    }
}

/// Memory with boot info at the start of a frame.
pub open spec fn with_info(m: Map<int, u64>, frame: u64, v: BootInfoView) -> Map<int, u64> {
    let first = crate::mm::memory::word_number(frame, 0);
    Map::total(
        |w: int|
            if first <= w < first + INFO_WORDS {
                info_word(v, w - first)
            } else {
                m[w]
            },
    )
}

/// The boot info fits in its page, and what is read back from the page is what
/// was written: two that lie the same way in memory are the same.
pub proof fn boot_info_reads_back(a: BootInfoView, b: BootInfoView)
    requires
        a.wf(),
        b.wf(),
        forall|i: int| 0 <= i < INFO_WORDS ==> #[trigger] info_word(a, i) == info_word(b, i),
    ensures
        a == b,
        INFO_WORDS * 8 <= 4096,
{
    assert forall|i: int| 0 <= i < 16 implies #[trigger] header_word(a, i) == header_word(b, i) by {
        assert(info_word(a, i) == info_word(b, i));
    }
    assert(header_word(a, 0) == header_word(b, 0));
    assert(header_word(a, 1) == header_word(b, 1));
    assert(header_word(a, 2) == header_word(b, 2));
    assert(header_word(a, 3) == header_word(b, 3));
    assert(header_word(a, 4) == header_word(b, 4));
    assert(header_word(a, 5) == header_word(b, 5));
    assert(header_word(a, 6) == header_word(b, 6));
    assert(header_word(a, 7) == header_word(b, 7));
    assert(header_word(a, 8) == header_word(b, 8));
    assert(header_word(a, 9) == header_word(b, 9));
    assert(header_word(a, 10) == header_word(b, 10));
    assert(header_word(a, 11) == header_word(b, 11));
    assert(header_word(a, 12) == header_word(b, 12));
    assert(header_word(a, 13) == header_word(b, 13));
    assert(header_word(a, 14) == header_word(b, 14));
    assert(header_word(a, 15) == header_word(b, 15));
    assert forall|k: int| 0 <= k < MAX_MODULES implies a.modules[k] == b.modules[k] by {
        assert(info_word(a, 16 + 4 * k) == info_word(b, 16 + 4 * k));
        assert(info_word(a, 17 + 4 * k) == info_word(b, 17 + 4 * k));
        assert(info_word(a, 18 + 4 * k) == info_word(b, 18 + 4 * k));
        assert(info_word(a, 19 + 4 * k) == info_word(b, 19 + 4 * k));
        lemma_same_module(a.modules[k], b.modules[k]);
    }
    assert forall|k: int| 0 <= k < MAX_UNTYPED implies a.untyped[k] == b.untyped[k] by {
        assert(info_word(a, 32 + 2 * k) == info_word(b, 32 + 2 * k));
        assert(info_word(a, 33 + 2 * k) == info_word(b, 33 + 2 * k));
    }
    assert(a.modules =~= b.modules);
    assert(a.untyped =~= b.untyped);
}

proof fn lemma_same_module(a: ModuleView, b: ModuleView)
    requires
        a.name.len() == NAME_LEN,
        b.name.len() == NAME_LEN,
        module_word(a, 0) == module_word(b, 0),
        module_word(a, 1) == module_word(b, 1),
        module_word(a, 2) == module_word(b, 2),
        module_word(a, 3) == module_word(b, 3),
    ensures
        a == b,
{
    lemma_same_bytes(a.name, b.name, 0);
    lemma_same_bytes(a.name, b.name, 8);
    assert(a.name =~= b.name);
}

proof fn lemma_same_bytes(a: Seq<u8>, b: Seq<u8>, at: int)
    requires
        0 <= at,
        at + 8 <= a.len(),
        at + 8 <= b.len(),
        packed(a, at) == packed(b, at),
    ensures
        forall|i: int| at <= i < at + 8 ==> #[trigger] a[i] == b[i],
{
    let i = choose|i: int| at <= i < at + 8 && a[i] != b[i];
    if at <= i < at + 8 && a[i] != b[i] {
        assert(a[at] == b[at]);
        assert(a[at + 1] == b[at + 1]);
        assert(a[at + 2] == b[at + 2]);
        assert(a[at + 3] == b[at + 3]);
        assert(a[at + 4] == b[at + 4]);
        assert(a[at + 5] == b[at + 5]);
        assert(a[at + 6] == b[at + 6]);
        assert(a[at + 7] == b[at + 7]);
    }
}

fn pack(bytes: &[u8; NAME_LEN], at: usize) -> (r: u64)
    requires
        at + 8 <= NAME_LEN,
    ensures
        r == packed(bytes@, at as int),
{
    bytes[at] as u64 + 0x100 * (bytes[at + 1] as u64) + 0x1_0000 * (bytes[at + 2] as u64)
        + 0x100_0000 * (bytes[at + 3] as u64) + 0x1_0000_0000 * (bytes[at + 4] as u64)
        + 0x100_0000_0000 * (bytes[at + 5] as u64) + 0x1_0000_0000_0000 * (bytes[at + 6] as u64)
        + 0x100_0000_0000_0000 * (bytes[at + 7] as u64)
}

impl BootInfo {
    /// Boot info that describes nothing.
    pub fn empty() -> (r: BootInfo)
        ensures
            r@ == BootInfoView::empty(),
    {
        let nothing: ModuleDesc = ModuleDesc::empty();
        let blank: UntypedDesc = UntypedDesc::new(0, 0, false);
        let r = BootInfo {
            magic: MAGIC,
            version: VERSION,
            untyped_count: 0,
            cnode_radix: 0,
            cnode_slots: 0,
            first_untyped: slot::FIRST_UNTYPED,
            first_free_slot: slot::FIRST_UNTYPED,
            image_start: 0,
            image_end: 0,
            stack_bottom: 0,
            stack_top: 0,
            bootinfo_vaddr: VADDR,
            fdt_vaddr: 0,
            fdt_size: 0,
            max_irq: 0,
            free_vaddr: 0,
            module_count: 0,
            modules: [nothing;MAX_MODULES],
            untyped: [blank;MAX_UNTYPED],
        };
        assert(r@.modules =~= BootInfoView::empty().modules);
        assert(r@.untyped =~= BootInfoView::empty().untyped);
        r
    }

    pub fn is_valid(&self) -> (r: bool)
        ensures
            r == (self.magic == MAGIC && self.version == VERSION),
    {
        self.magic == MAGIC && self.version == VERSION
    }

    pub fn untypeds(&self) -> (r: &[UntypedDesc])
        requires
            self.untyped_count <= MAX_UNTYPED,
        ensures
            r@ == self@.untyped.take(self.untyped_count as int),
    {
        let r: &[UntypedDesc] = vstd::slice::slice_subrange(
            self.untyped.as_slice(),
            0,
            self.untyped_count as usize,
        );
        assert(r@ =~= self@.untyped.take(self.untyped_count as int));
        r
    }

    pub fn modules(&self) -> (r: &[ModuleDesc])
        requires
            self.module_count <= MAX_MODULES,
        ensures
            r@ == self.modules@.take(self.module_count as int),
    {
        let r: &[ModuleDesc] = vstd::slice::slice_subrange(
            self.modules.as_slice(),
            0,
            self.module_count as usize,
        );
        assert(r@ =~= self.modules@.take(self.module_count as int));
        r
    }

    /// The module called `name`, if the kernel carried one in.
    pub fn module(&self, name: &str) -> (r: Option<&ModuleDesc>)
        requires
            self.module_count <= MAX_MODULES,
        ensures
            match self@.find(name@, 0) {
                Some(i) => r is Some && *r->Some_0 == self.modules@[i],
                None => r is None,
            },
    {
        let mut i: usize = 0;
        while i < self.module_count as usize
            invariant
                i <= self.module_count <= MAX_MODULES,
                self@.find(name@, 0) == self@.find(name@, i as int),
            decreases self.module_count - i,
        {
            let here: &str = self.modules[i].name();
            proof {
                vstd::utf8::encode_utf8_decode_utf8(here@);
                vstd::utf8::encode_utf8_decode_utf8(name@);
                assert(self@.modules[i as int] == self.modules@[i as int]@);
            }
            if crate::text::same(here.as_bytes(), name.as_bytes()) {
                return Some(&self.modules[i]);
            }
            i = i + 1;
        }
        None
    }

    /// The cptr of the untyped described by `untypeds()[i]`.
    pub fn untyped_slot(&self, i: usize) -> (r: u64)
        requires
            self.first_untyped + i <= u64::MAX,
        ensures
            r == self.first_untyped + i,
    {
        self.first_untyped + i as u64
    }

    fn word(&self, i: usize) -> (r: u64)
        requires
            i < INFO_WORDS,
        ensures
            r == info_word(self@, i as int),
    {
        if i < 16 {
            match i {
                0 => self.magic,
                1 => self.version as u64 + 0x1_0000_0000 * (self.untyped_count as u64),
                2 => self.cnode_radix,
                3 => self.cnode_slots,
                4 => self.first_untyped,
                5 => self.first_free_slot,
                6 => self.image_start,
                7 => self.image_end,
                8 => self.stack_bottom,
                9 => self.stack_top,
                10 => self.bootinfo_vaddr,
                11 => self.fdt_vaddr,
                12 => self.fdt_size,
                13 => self.max_irq,
                14 => self.free_vaddr,
                _ => self.module_count,
            }
        } else if i < 32 {
            let k: usize = (i - 16) / 4;
            assert(self@.modules[k as int] == self.modules@[k as int]@);
            match (i - 16) % 4 {
                0 => self.modules[k].vaddr,
                1 => self.modules[k].size,
                2 => pack(&self.modules[k].name, 0),
                _ => pack(&self.modules[k].name, 8),
            }
        } else {
            let d: UntypedDesc = self.untyped[(i - 32) / 2];
            if (i - 32) % 2 == 0 {
                d.paddr
            } else {
                d.size_bits as u64 + 0x100 * (d.is_device as u64)
            }
        }
    }

    /// Write this at the start of a frame.
    pub fn write(&self, frame: PhysAddr, mem: &mut Memory)
        ensures
            final(mem)@ == with_info(old(mem)@, frame.0, self@),
    {
        let ghost m = mem@;
        let ghost first = crate::mm::memory::word_number(frame.0, 0);
        let mut i: usize = 0;
        proof {
            mem.is_total();
        }
        while i < INFO_WORDS
            invariant
                i <= INFO_WORDS,
                first == crate::mm::memory::word_number(frame.0, 0),
                forall|w: int| #[trigger] mem@.dom().contains(w),
                forall|w: int| #[trigger]
                    mem@[w] == if first <= w < first + i {
                        info_word(self@, w - first)
                    } else {
                        m[w]
                    },
            decreases INFO_WORDS - i,
        {
            mem.write(frame.as_usize(), i as u64, self.word(i));
            i = i + 1;
        }
        assert(mem@ =~= with_info(m, frame.0, self@));
    }
}

} // verus!
