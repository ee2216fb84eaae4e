//! What the root task learns of the machine: what it reads, word by word, in the
//! page that the kernel leaves for it, and that it is true.

use crate::abi::bootinfo::{BootInfoView, ModuleView};
use crate::mm::page_table::PteFlags;
use crate::mm::region::Region;
use crate::root::{Given, Loaded};
use vstd::prelude::*;

verus! {

/// Whether a task finds a word at an address, and cannot change it.
pub open spec fn finds_word(m: Map<int, u64>, root: u64, va: int, word: u64) -> bool {
    crate::mm::page_table::translated(m, root, va as u64) matches Some(found) && found.1
        == PteFlags(crate::mm::page_table::USER_RO) && m[found.0.0 as int / 8] == word
}

/// Whether a task finds a byte at an address, and cannot change it.
pub open spec fn finds_byte(m: Map<int, u64>, root: u64, va: int, byte: u8) -> bool {
    crate::mm::page_table::translated(m, root, va as u64) matches Some(found) && found.1
        == PteFlags(crate::mm::page_table::USER_RO) && crate::mm::memory::byte_at(
        m,
        found.0.0 as int,
    ) == byte
}

/// The memory once the root task is loaded.
pub open spec fn memory(done: Loaded) -> Map<int, u64> {
    done.kernel.objects.mem
}

/// The root of the root task's translations.
pub open spec fn top(done: Loaded) -> u64 {
    done.result->Ok_0.space.mapper.root.0
}

/// The capability in slot `i` of the root task's space.
pub open spec fn held(done: Loaded, i: int) -> crate::cap::RawCap {
    done.kernel.objects.slots.caps[(done.result->Ok_0.cnode.paddr.0 + 128 * i) as u64]
}

/// The boot info page starts with the magic number and the version, and goes on
/// with the size of the capability space, the first slot with memory in it and
/// the first that is free, where the page itself is, the highest interrupt
/// source, the end of what the kernel has mapped, and how many modules came
/// along: all that were given, but for those past the fourth.
pub proof fn the_boot_info_describes_what_was_given(
    k: crate::sched::KernelView,
    frames: Seq<u64>,
    irqs: Seq<crate::irq::Entry>,
    g: Given,
    left: Seq<Region>,
)
    requires
        crate::root::laws::is_loaded(k, frames, irqs, g, left),
    ensures
        ({
            let done = crate::root::loaded(k, frames, irqs, g, left);
            let m = memory(done);
            let root = top(done);
            let blocks = crate::root::handed_over(left, g.devices).len();
            let modules: u64 = if g.modules.len() < 4 {
                g.modules.len() as u64
            } else {
                4
            };
            &&& finds_word(m, root, 0x3000_0000, 0x7465_7373_6572_6100)
            &&& finds_word(m, root, 0x3000_0008, (3 + 0x1_0000_0000 * blocks) as u64)
            &&& finds_word(m, root, 0x3000_0010, 8)
            &&& finds_word(m, root, 0x3000_0018, 256)
            &&& finds_word(m, root, 0x3000_0020, 8)
            &&& finds_word(m, root, 0x3000_0028, (8 + blocks) as u64)
            &&& finds_word(m, root, 0x3000_0050, 0x3000_0000)
            &&& finds_word(m, root, 0x3000_0068, g.max_irq)
            &&& finds_word(m, root, 0x3000_0070, 0x4000_0000)
            &&& finds_word(m, root, 0x3000_0078, modules)
            &&& done.result->Ok_0.modules == modules
            &&& done.result->Ok_0.untypeds == blocks
            &&& blocks <= 128
            &&& done.result->Ok_0.cnode.kind is CNode
            &&& done.result->Ok_0.cnode.size_bits == 8 + 7
        }),
{
    reveal(crate::root::loaded);
    lemma_told_word(k, frames, irqs, g, left, 0);
    lemma_told_word(k, frames, irqs, g, left, 1);
    lemma_told_word(k, frames, irqs, g, left, 2);
    lemma_told_word(k, frames, irqs, g, left, 3);
    lemma_told_word(k, frames, irqs, g, left, 4);
    lemma_told_word(k, frames, irqs, g, left, 5);
    lemma_told_word(k, frames, irqs, g, left, 10);
    lemma_told_word(k, frames, irqs, g, left, 13);
    lemma_told_word(k, frames, irqs, g, left, 14);
    lemma_told_word(k, frames, irqs, g, left, 15);
}

proof fn lemma_told_word(
    k: crate::sched::KernelView,
    frames: Seq<u64>,
    irqs: Seq<crate::irq::Entry>,
    g: Given,
    left: Seq<Region>,
    i: int,
)
    requires
        crate::root::laws::is_loaded(k, frames, irqs, g, left),
        0 <= i < 288,
    ensures
        ({
            let done = crate::root::loaded(k, frames, irqs, g, left);
            finds_word(
                memory(done),
                top(done),
                0x3000_0000 + 8 * i,
                crate::abi::bootinfo::info_word(crate::root::laws::said(g, left), i),
            )
        }),
{
    crate::root::laws::the_root_task_finds_the_boot_info(k, frames, irqs, g, left, i);
}

/// The boot info says where every module is, how long it is and what it is
/// called: the entry for module `j` holds an address at which the root task finds
/// the bytes of that module, their number, and the first sixteen bytes of its
/// name.
pub proof fn the_boot_info_describes_each_module(
    k: crate::sched::KernelView,
    frames: Seq<u64>,
    irqs: Seq<crate::irq::Entry>,
    g: Given,
    left: Seq<Region>,
    j: int,
    i: int,
)
    requires
        crate::root::laws::is_loaded(k, frames, irqs, g, left),
        0 <= j < g.modules.len(),
        j < 4,
        0 <= i < g.modules[j].bytes@.len(),
    ensures
        ({
            let done = crate::root::loaded(k, frames, irqs, g, left);
            let m = memory(done);
            let root = top(done);
            let at = crate::root::laws::said(g, left).modules[j].vaddr;
            &&& finds_word(m, root, 0x3000_0080 + 32 * j, at)
            &&& finds_word(m, root, 0x3000_0088 + 32 * j, g.modules[j].bytes@.len() as u64)
            &&& finds_byte(m, root, at + i, g.modules[j].bytes@[i])
        }),
{
    let v = crate::root::laws::said(g, left);
    lemma_told_word(k, frames, irqs, g, left, 16 + 4 * j);
    lemma_told_word(k, frames, irqs, g, left, 17 + 4 * j);
    assert((16 + 4 * j - 16) / 4 == j && (16 + 4 * j - 16) % 4 == 0);
    assert((17 + 4 * j - 16) / 4 == j && (17 + 4 * j - 16) % 4 == 1);
    crate::root::laws::the_root_task_finds_its_modules(k, frames, irqs, g, left, j, i);
}

/// Whether a name fits into the boot info as it is: sixteen bytes at most, and no
/// zero among them.
pub open spec fn fits(name: Seq<char>) -> bool {
    let bytes = vstd::utf8::encode_utf8(name);
    bytes.len() <= 16 && forall|i: int| 0 <= i < bytes.len() ==> #[trigger] bytes[i] != 0
}

/// Whether a description of the machine is what the root task reads in its page.
pub open spec fn is_read_from(b: BootInfoView, m: Map<int, u64>, root: u64) -> bool {
    b.wf() && forall|i: int|
        0 <= i < 288 ==> finds_word(
            m,
            root,
            0x3000_0000 + 8 * i,
            #[trigger] crate::abi::bootinfo::info_word(b, i),
        )
}

/// Looking a module up by its name, in what the root task reads, finds it: each
/// of the modules that were carried in, and their number is right. The names must
/// fit, and be different.
pub proof fn modules_are_found_by_name(
    k: crate::sched::KernelView,
    frames: Seq<u64>,
    irqs: Seq<crate::irq::Entry>,
    g: Given,
    left: Seq<Region>,
    b: BootInfoView,
    j: int,
    i: int,
)
    requires
        crate::root::laws::is_loaded(k, frames, irqs, g, left),
        ({
            let done = crate::root::loaded(k, frames, irqs, g, left);
            is_read_from(b, memory(done), top(done))
        }),
        forall|n: int| 0 <= n < g.modules.len() ==> fits((#[trigger] g.modules[n]).name@),
        forall|n: int, o: int|
            0 <= n < o < g.modules.len() ==> (#[trigger] g.modules[n]).name@ != (
            #[trigger] g.modules[o]).name@,
        0 <= j < g.modules.len(),
        j < 4,
        0 <= i < g.modules[j].bytes@.len(),
    ensures
        ({
            let done = crate::root::loaded(k, frames, irqs, g, left);
            &&& b.module_count == if g.modules.len() < 4 {
                g.modules.len()
            } else {
                4
            }
            &&& b.find(g.modules[j].name@, 0) == Some(j)
            &&& b.modules[j].size == g.modules[j].bytes@.len()
            &&& finds_byte(
                memory(done),
                top(done),
                b.modules[j].vaddr + i,
                g.modules[j].bytes@[i],
            )
        }),
{
    let v = crate::root::laws::said(g, left);
    lemma_read_back(k, frames, irqs, g, left, b);
    the_boot_info_describes_each_module(k, frames, irqs, g, left, j, i);
    crate::root::laws::the_root_task_finds_its_modules(k, frames, irqs, g, left, j, i);
    lemma_found(v, g, left, j, 0);
}

/// There is one description that the root task can read, the one that it was
/// given.
proof fn lemma_read_back(
    k: crate::sched::KernelView,
    frames: Seq<u64>,
    irqs: Seq<crate::irq::Entry>,
    g: Given,
    left: Seq<Region>,
    b: BootInfoView,
)
    requires
        crate::root::laws::is_loaded(k, frames, irqs, g, left),
        ({
            let done = crate::root::loaded(k, frames, irqs, g, left);
            is_read_from(b, memory(done), top(done))
        }),
    ensures
        b == crate::root::laws::said(g, left),
{
    let v = crate::root::laws::said(g, left);
    assert forall|i: int|
        0 <= i < crate::abi::bootinfo::INFO_WORDS implies #[trigger] crate::abi::bootinfo::info_word(
        b,
        i,
    ) == crate::abi::bootinfo::info_word(v, i) by {
        lemma_told_word(k, frames, irqs, g, left, i);
    }
    assert(v.wf());
    crate::abi::bootinfo::boot_info_reads_back(b, v);
}

/// A name that fits reads back as it is.
proof fn lemma_name_reads_back(vaddr: u64, size: u64, name: Seq<char>)
    requires
        fits(name),
    ensures
        ModuleView::named(vaddr, size, vstd::utf8::encode_utf8(name)).text() == name,
{
    let bytes = vstd::utf8::encode_utf8(name);
    let padded = crate::abi::bootinfo::padded(bytes);
    lemma_length(padded, bytes.len() as int, 0);
    assert(padded.take(bytes.len() as int) =~= bytes);
    vstd::utf8::encode_utf8_valid_utf8(name);
    vstd::utf8::encode_utf8_decode_utf8(name);
}

proof fn lemma_length(name: Seq<u8>, n: int, from: int)
    requires
        0 <= from <= n <= name.len(),
        forall|i: int| 0 <= i < n ==> #[trigger] name[i] != 0,
        n < name.len() ==> name[n] == 0,
    ensures
        crate::abi::bootinfo::name_length(name, from) == n,
    decreases n - from,
{
    if from < n {
        lemma_length(name, n, from + 1);
    }
}

proof fn lemma_found(v: BootInfoView, g: Given, left: Seq<Region>, j: int, from: int)
    requires
        v == crate::root::laws::said(g, left),
        forall|n: int| 0 <= n < g.modules.len() ==> fits((#[trigger] g.modules[n]).name@),
        forall|n: int, o: int|
            0 <= n < o < g.modules.len() ==> (#[trigger] g.modules[n]).name@ != (
            #[trigger] g.modules[o]).name@,
        0 <= from <= j < g.modules.len(),
        j < 4,
    ensures
        v.find(g.modules[j].name@, from) == Some(j),
    decreases j - from,
{
    let at = crate::root::pages::module_at(g.modules, from) as u64;
    lemma_name_reads_back(at, g.modules[from].bytes@.len() as u64, g.modules[from].name@);
    assert(v.modules[from].text() == g.modules[from].name@);
    if from < j {
        lemma_found(v, g, left, j, from + 1);
    }
}

/// The boot info describes what the root task holds: for each block of memory,
/// the address, the size and whether it is a device, of the capability in the
/// slot that belongs to it, which is held with every right.
pub proof fn the_boot_info_describes_each_block(
    k: crate::sched::KernelView,
    frames: Seq<u64>,
    irqs: Seq<crate::irq::Entry>,
    g: Given,
    left: Seq<Region>,
    i: int,
)
    requires
        crate::root::laws::is_loaded(k, frames, irqs, g, left),
        0 <= i < crate::root::handed_over(left, g.devices).len(),
    ensures
        ({
            let done = crate::root::loaded(k, frames, irqs, g, left);
            let m = memory(done);
            let root = top(done);
            let cap = held(done, 8 + i);
            let device: u64 = if cap.kind is DeviceUntyped {
                0x100
            } else {
                0
            };
            &&& cap.kind is Untyped || cap.kind is DeviceUntyped
            &&& cap.rights == 7
            &&& cap.w0 == 0
            &&& finds_word(m, root, 0x3000_0100 + 16 * i, cap.paddr.0)
            &&& finds_word(m, root, 0x3000_0108 + 16 * i, (cap.size_bits + device) as u64)
        }),
{
    let v = crate::root::laws::said(g, left);
    let descs = crate::root::handed_over(left, g.devices);
    lemma_told_word(k, frames, irqs, g, left, 32 + 2 * i);
    lemma_told_word(k, frames, irqs, g, left, 33 + 2 * i);
    assert((32 + 2 * i - 32) / 2 == i && (32 + 2 * i - 32) % 2 == 0);
    assert((33 + 2 * i - 32) / 2 == i && (33 + 2 * i - 32) % 2 == 1);
    crate::root::laws::the_root_task_holds_what_it_is_told(k, frames, irqs, g, left, i);
    assert(v.untyped[i] == descs[i]);
    lemma_device_flag(left, g.devices, i);
}

proof fn lemma_device_flag(left: Seq<Region>, devices: Seq<Region>, i: int)
    requires
        0 <= i < crate::root::handed_over(left, devices).len(),
    ensures
        crate::root::handed_over(left, devices)[i].is_device <= 1,
{
    let ram = crate::root::blocks_of(left, false);
    let rest = crate::root::blocks_of(devices, true);
    if i < ram.len() {
        lemma_block_flag(left, false, i);
    } else {
        lemma_block_flag(devices, true, i - ram.len());
    }
}

proof fn lemma_block_flag(regions: Seq<Region>, is_device: bool, i: int)
    requires
        0 <= i < crate::root::blocks_of(regions, is_device).len(),
    ensures
        crate::root::blocks_of(regions, is_device)[i].is_device == if is_device {
            1u8
        } else {
            0u8
        },
    decreases regions.len(),
{
    if regions.len() > 0 {
        let before = crate::root::blocks_of(regions.drop_last(), is_device);
        if i < before.len() {
            lemma_block_flag(regions.drop_last(), is_device, i);
        } else {
            crate::root::blocks::lemma_flag(
                regions.last().start.0 as int,
                regions.last().end.0 as int,
                is_device,
                i - before.len(),
            );
        }
    }
}

/// The root task starts where its image says, at the top of its stack, with its
/// own translations under its own identifier, and in its own capability space. It
/// is ready, last in line for the hart, and has the thread in its third slot.
pub proof fn the_root_task_starts_where_its_image_says(
    k: crate::sched::KernelView,
    frames: Seq<u64>,
    irqs: Seq<crate::irq::Entry>,
    g: Given,
    left: Seq<Region>,
)
    requires
        crate::root::laws::is_loaded(k, frames, irqs, g, left),
    ensures
        ({
            let done = crate::root::loaded(k, frames, irqs, g, left);
            let task = done.result->Ok_0;
            let tcb = done.kernel.queue.last();
            let t = done.kernel.thread(tcb);
            &&& done.kernel.queue == k.queue.push(tcb)
            &&& t.state is Ready
            &&& t.id == task.id
            &&& t.frame.sepc == crate::elf::double_at(g.image, 24)
            &&& t.frame.x.len() == 32
            &&& finds_word(memory(done), top(done), 0x3000_0048, t.frame.x[2])
            &&& finds_word(memory(done), top(done), 0x3000_0040, (t.frame.x[2] - 0x4000) as u64)
            &&& t.satp >> 60 == 8
            &&& (t.satp >> 44) & 0xffff == task.space.asid.0
            &&& t.satp & 0xfff_ffff_ffff == top(done) / 4096
            &&& t.cspace == task.cnode
            &&& t.fault_ep.kind is Null
            &&& t.self_paddr.0 == tcb
            &&& held(done, 3).kind is Tcb
            &&& held(done, 3).paddr.0 == tcb
        }),
{
    reveal(crate::root::loaded);
    lemma_told_word(k, frames, irqs, g, left, 8);
    lemma_told_word(k, frames, irqs, g, left, 9);
    crate::root::laws::lemma_loaded(k, frames, irqs, g, left);
    crate::root::laws::lemma_root_cnode(k, frames, irqs, g, left, 3);
    let done = crate::root::loaded(k, frames, irqs, g, left);
    crate::mm::address_space::satp_holds_its_fields(top(done), done.result->Ok_0.space.asid);
    assert(k.queue.push(done.kernel.queue.last()).last() == done.kernel.queue.last());
}

/// The first slots hold what a root task starts from: its capability space, its
/// address space, its thread, the page with the boot info, which it may only
/// read, and the right to claim interrupts.
pub proof fn the_first_slots_hold_what_a_task_needs(
    k: crate::sched::KernelView,
    frames: Seq<u64>,
    irqs: Seq<crate::irq::Entry>,
    g: Given,
    left: Seq<Region>,
)
    requires
        crate::root::laws::is_loaded(k, frames, irqs, g, left),
    ensures
        ({
            let done = crate::root::loaded(k, frames, irqs, g, left);
            let task = done.result->Ok_0;
            &&& held(done, 1) == task.cnode
            &&& task.cnode.rights == 7
            &&& held(done, 2).kind is PageTable
            &&& held(done, 2).rights == 7
            &&& held(done, 2).paddr.0 == top(done)
            &&& held(done, 2).asid == task.space.asid.0
            &&& held(done, 3).kind is Tcb
            &&& held(done, 3).rights == 7
            &&& held(done, 4).kind is Frame
            &&& held(done, 4).rights == 1
            &&& held(done, 4).w0 == top(done)
            &&& held(done, 4).w1 == 0x3000_0000
            &&& crate::mm::page_table::translated(memory(done), top(done), 0x3000_0000) matches Some(
                found,
            )
            &&& found.0 == held(done, 4).paddr
            &&& held(done, 5).kind is IrqControl
            &&& held(done, 5).rights == 7
            &&& held(done, 6).kind is Null
            &&& held(done, 0).kind is Null
        }),
{
    crate::root::laws::lemma_loaded(k, frames, irqs, g, left);
    crate::root::laws::lemma_root_cnode(k, frames, irqs, g, left, 0);
    crate::root::laws::lemma_root_cnode(k, frames, irqs, g, left, 1);
    crate::root::laws::lemma_root_cnode(k, frames, irqs, g, left, 2);
    crate::root::laws::lemma_root_cnode(k, frames, irqs, g, left, 3);
    crate::root::laws::lemma_root_cnode(k, frames, irqs, g, left, 4);
    crate::root::laws::lemma_root_cnode(k, frames, irqs, g, left, 5);
    crate::root::laws::lemma_root_cnode(k, frames, irqs, g, left, 6);
    crate::root::laws::lemma_info_in_the_end(
        crate::root::laws::fresh_space(k.objects.mem, frames, g),
        frames[0],
        g,
        crate::root::laws::said(g, left),
        0,
    );
    let done = crate::root::loaded(k, frames, irqs, g, left);
    assert(done.result->Ok_0.cnode == crate::root::cnode_cap(done.result->Ok_0.cnode.paddr.0)) by {
        reveal(crate::root::loaded);
    }
}

} // verus!
