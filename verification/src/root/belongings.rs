//! What else the root task finds in its address space: its stack, the device
//! tree, and where its image begins and ends.

use crate::elf::{ElfError, SegmentView};
use crate::mm::addr::PhysAddr;
use crate::mm::page_table::{PteFlags, USER_RO, USER_RW};
use crate::mm::region::Region;
use crate::root::pages::Loading;
use crate::root::Given;
use vstd::prelude::*;

verus! {

// --- The stack ---

/// The first pages of a stack that was loaded were loaded.
proof fn lemma_stack_before(l: Loading, root: u64, m: int, n: int)
    requires
        0 <= m <= n,
        crate::root::pages::stack_loaded(l, root, n).1 is Ok,
    ensures
        crate::root::pages::stack_loaded(l, root, m).1 is Ok,
    decreases n - m,
{
    if m < n {
        lemma_stack_before(l, root, m, n - 1);
    }
}

/// The later pages of a stack touch nothing that is kept.
proof fn lemma_stack_goes_on(l: Loading, root: u64, m: int, n: int, kept: Seq<u64>)
    requires
        0 <= m <= n,
        crate::root::pages::stack_loaded(l, root, n).1 is Ok,
        ({
            let w = crate::root::pages::stack_loaded(l, root, m).0;
            crate::mm::keeping::apart(w.mem, w.frames + kept, root)
        }),
    ensures
        crate::root::laws::keeps(
            crate::root::pages::stack_loaded(l, root, m).0,
            crate::root::pages::stack_loaded(l, root, n).0,
            root,
            kept,
        ),
    decreases n - m,
{
    let start = crate::root::pages::stack_loaded(l, root, m).0;
    if m == n {
        crate::root::laws::lemma_keeps_self(start, root, kept);
    } else {
        lemma_stack_goes_on(l, root, m, n - 1, kept);
        let before = crate::root::pages::stack_loaded(l, root, n - 1).0;
        crate::root::laws::lemma_data_permissions();
        crate::root::laws::lemma_page(
            before,
            root,
            (crate::root::pages::STACK_TOP - n * 4096) as u64,
            0,
            Seq::empty(),
            PteFlags(USER_RW),
            kept,
        );
        crate::root::laws::lemma_keeps_chain(
            start,
            before,
            crate::root::pages::stack_loaded(l, root, n).0,
            root,
            kept,
        );
    }
}

/// A byte of page `p` of a stack of `n` pages is seen once the stack is loaded.
proof fn lemma_stack_byte(l: Loading, root: u64, p: int, n: int, a: u64) -> (f: u64)
    requires
        1 <= p <= n <= 4,
        crate::root::pages::stack_loaded(l, root, n).1 is Ok,
        crate::mm::keeping::apart(l.mem, l.frames + Seq::<u64>::empty(), root),
        crate::root::pages::STACK_TOP - p * 4096 <= a < crate::root::pages::STACK_TOP - p * 4096
            + 4096,
    ensures
        ({
            let w = crate::root::pages::stack_loaded(l, root, n).0;
            &&& f % 4096 == 0
            &&& f < crate::mm::addr::PHYS_LIMIT
            &&& crate::mm::keeping::apart(w.mem, w.frames + Seq::<u64>::empty().push(f), root)
            &&& crate::root::laws::sees(w.mem, root, a, f, USER_RW, 0)
        }),
{
    let none = Seq::<u64>::empty();
    lemma_stack_before(l, root, p, n);
    lemma_stack_before(l, root, p - 1, n);
    lemma_stack_goes_on(l, root, 0, p - 1, none);
    let before = crate::root::pages::stack_loaded(l, root, p - 1).0;
    let after = crate::root::pages::stack_loaded(l, root, p).0;
    let va = (crate::root::pages::STACK_TOP - p * 4096) as u64;
    crate::root::laws::lemma_data_permissions();
    crate::root::laws::lemma_page(before, root, va, 0, Seq::empty(), PteFlags(USER_RW), none);
    let f = before.frames[0];
    let one = none.push(f);
    assert(one[0] == f);
    assert(va <= a < va + 4096 && a - va == a % 4096);
    assert(crate::mm::memory::byte_at(after.mem, f + a % 4096) == 0);
    assert(crate::root::laws::sees(after.mem, root, a, f, USER_RW, 0));
    lemma_stack_goes_on(l, root, p, n, one);
    crate::root::laws::lemma_goes_on(
        after,
        crate::root::pages::stack_loaded(l, root, n).0,
        root,
        one,
        a,
        f,
        USER_RW,
        0,
    );
    f
}

/// What is seen in a kept frame once the stack is loaded is seen in the end.
proof fn lemma_seen_after_the_stack(
    l: Loading,
    root: u64,
    g: Given,
    v: crate::abi::bootinfo::BootInfoView,
    a: u64,
    f: u64,
)
    requires
        crate::root::laws::was_filled(l, root, g),
        f % 4096 == 0,
        crate::mm::keeping::apart(
            crate::root::laws::stacked(l, root, g).mem,
            crate::root::laws::stacked(l, root, g).frames + Seq::<u64>::empty().push(f),
            root,
        ),
        crate::root::laws::sees(crate::root::laws::stacked(l, root, g).mem, root, a, f, USER_RW, 0),
    ensures
        crate::root::laws::sees(
            crate::root::laws::finished(l, root, g, v),
            root,
            a,
            f,
            USER_RW,
            0,
        ),
{
    let one = Seq::<u64>::empty().push(f);
    assert(one[0] == f);
    crate::root::laws::lemma_stages(l, root, g);
    crate::root::laws::lemma_data_permissions();
    let stacked = crate::root::laws::stacked(l, root, g);
    crate::root::laws::lemma_page(
        stacked,
        root,
        crate::abi::bootinfo::VADDR,
        0,
        Seq::empty(),
        PteFlags(USER_RO),
        one,
    );
    let informed = crate::root::laws::informed(l, root, g);
    crate::root::laws::lemma_goes_on(stacked, informed, root, one, a, f, USER_RW, 0);
    let info = stacked.frames[0];
    let both = one.push(info);
    assert(both[0] == f && both[1] == info);
    crate::root::laws::lemma_after_the_info(l, root, g, both);
    let last = crate::root::objects_taken(crate::root::space_filled(l, root, g).0).0;
    crate::root::laws::lemma_goes_on(informed, last, root, both, a, f, USER_RW, 0);
    crate::root::laws::lemma_told(last, root, both, info, v, a, f, USER_RW, 0);
}

/// Once the image is loaded, the root table is apart from the frames in hand.
proof fn lemma_imaged(l: Loading, root: u64, g: Given)
    requires
        crate::root::laws::was_filled(l, root, g),
    ensures
        crate::mm::keeping::apart(
            crate::root::laws::imaged(l, root, g).mem,
            crate::root::laws::imaged(l, root, g).frames + Seq::<u64>::empty(),
            root,
        ),
{
    let segments = crate::elf::loadable(g.image, crate::elf::table_len(g.image));
    let none = Seq::<u64>::empty();
    crate::root::laws::lemma_stages(l, root, g);
    assert(l.frames + none =~= l.frames);
    assert(crate::root::pages::segments_loaded(l, root, segments, 0).0 == l);
    crate::root::laws::lemma_segments_keep(l, root, segments, 0, segments.len() as int, none);
}

/// A byte of the stack, in the end.
proof fn lemma_stack_in_the_end(
    l: Loading,
    root: u64,
    g: Given,
    v: crate::abi::bootinfo::BootInfoView,
    a: u64,
) -> (f: u64)
    requires
        crate::root::laws::was_filled(l, root, g),
        0x1fff_c000 <= a < 0x2000_0000,
    ensures
        crate::root::laws::sees(crate::root::laws::finished(l, root, g, v), root, a, f, USER_RW, 0),
        f % 4096 == 0,
        f < crate::mm::addr::PHYS_LIMIT,
{
    lemma_imaged(l, root, g);
    crate::root::laws::lemma_stages(l, root, g);
    let p: int = (0x2000_0000 - 1 - a) / 4096 + 1;
    let f = lemma_stack_byte(crate::root::laws::imaged(l, root, g), root, p, 4, a);
    lemma_seen_after_the_stack(l, root, g, v, a, f);
    f
}

/// The root task's stack is the 16 KiB below 0x2000_0000, as the boot info says:
/// every byte of it is there, zero, to be read and written.
pub proof fn the_root_task_finds_its_stack(
    k: crate::sched::KernelView,
    frames: Seq<u64>,
    irqs: Seq<crate::irq::Entry>,
    g: Given,
    left: Seq<Region>,
    a: u64,
)
    requires
        crate::root::laws::is_loaded(k, frames, irqs, g, left),
        0x1fff_c000 <= a < 0x2000_0000,
    ensures
        ({
            let done = crate::root::loaded(k, frames, irqs, g, left);
            let m = done.kernel.objects.mem;
            let root = done.result->Ok_0.space.mapper.root.0;
            &&& crate::root::telling::finds_word(m, root, 0x3000_0040, 0x1fff_c000)
            &&& crate::root::telling::finds_word(m, root, 0x3000_0048, 0x2000_0000)
            &&& crate::mm::page_table::translated(m, root, a) matches Some(found)
            &&& found.1 == PteFlags(0xd7)
            &&& crate::mm::memory::byte_at(m, found.0.0 as int) == 0
        }),
{
    crate::root::laws::lemma_loaded(k, frames, irqs, g, left);
    let l = crate::root::laws::fresh_space(k.objects.mem, frames, g);
    let root = frames[0];
    crate::root::laws::the_root_task_finds_the_boot_info(k, frames, irqs, g, left, 8);
    crate::root::laws::the_root_task_finds_the_boot_info(k, frames, irqs, g, left, 9);
    let f = lemma_stack_in_the_end(l, root, g, crate::root::laws::said(g, left), a);
    crate::root::laws::lemma_data_permissions();
    crate::mm::page_table::lemma_named_permissions();
}

// --- The device tree ---

proof fn lemma_tree_before(l: Loading, root: u64, fdt: Region, m: int, n: int)
    requires
        0 <= m <= n,
        crate::root::pages::tree_shared(l, root, fdt, n).1 is Ok,
    ensures
        crate::root::pages::tree_shared(l, root, fdt, m).1 is Ok,
    decreases n - m,
{
    if m < n {
        lemma_tree_before(l, root, fdt, m, n - 1);
    }
}

proof fn lemma_tree_goes_on(l: Loading, root: u64, fdt: Region, m: int, n: int, kept: Seq<u64>)
    requires
        0 <= m <= n <= crate::root::pages::pages_in(fdt),
        fdt.end.0 <= crate::mm::addr::PHYS_LIMIT,
        crate::root::pages::tree_shared(l, root, fdt, n).1 is Ok,
        ({
            let w = crate::root::pages::tree_shared(l, root, fdt, m).0;
            crate::mm::keeping::apart(w.mem, w.frames + kept, root)
        }),
    ensures
        crate::root::laws::keeps(
            crate::root::pages::tree_shared(l, root, fdt, m).0,
            crate::root::pages::tree_shared(l, root, fdt, n).0,
            root,
            kept,
        ),
    decreases n - m,
{
    let start = crate::root::pages::tree_shared(l, root, fdt, m).0;
    if m == n {
        crate::root::laws::lemma_keeps_self(start, root, kept);
    } else {
        lemma_tree_goes_on(l, root, fdt, m, n - 1, kept);
        let before = crate::root::pages::tree_shared(l, root, fdt, n - 1).0;
        crate::root::laws::lemma_data_permissions();
        let outer = fdt.outer_pages();
        assert(outer.end.0 <= crate::mm::addr::PHYS_LIMIT);
        assert(outer.start.0 + 4096 * (n - 1) < outer.end.0);
        crate::root::laws::lemma_one_mapped(
            before,
            root,
            (crate::abi::bootinfo::FDT_VADDR + 4096 * (n - 1)) as u64,
            (outer.start.0 + 4096 * (n - 1)) as u64,
            PteFlags(USER_RO),
            kept,
        );
        crate::root::laws::lemma_keeps_chain(
            start,
            before,
            crate::root::pages::tree_shared(l, root, fdt, n).0,
            root,
            kept,
        );
    }
}

/// A byte of the device tree is seen once its `n` pages are shared.
proof fn lemma_tree_byte(l: Loading, root: u64, fdt: Region, i: int, kept: Seq<u64>)
    requires
        0 <= i < fdt.end.0 - fdt.start.0,
        fdt.end.0 <= crate::mm::addr::PHYS_LIMIT,
        crate::root::pages::tree_shared(l, root, fdt, crate::root::pages::pages_in(fdt)).1 is Ok,
        crate::mm::keeping::apart(l.mem, l.frames + kept, root),
    ensures
        ({
            let n = crate::root::pages::pages_in(fdt);
            let w = crate::root::pages::tree_shared(l, root, fdt, n).0;
            let off = fdt.start.0 - fdt.outer_pages().start.0;
            &&& crate::mm::keeping::apart(w.mem, w.frames + kept, root)
            &&& crate::mm::page_table::translated(
                w.mem,
                root,
                (crate::abi::bootinfo::FDT_VADDR + off + i) as u64,
            ) == Some((PhysAddr((fdt.start.0 + i) as u64), PteFlags(USER_RO), 0usize))
        }),
{
    let outer = fdt.outer_pages();
    let n = crate::root::pages::pages_in(fdt);
    let off = fdt.start.0 - outer.start.0;
    let q: int = (off + i) / 4096;
    assert(0 <= off < 4096);
    assert(outer.end.0 <= crate::mm::addr::PHYS_LIMIT);
    assert(0 <= q < n);
    lemma_tree_before(l, root, fdt, q, n);
    lemma_tree_before(l, root, fdt, q + 1, n);
    lemma_tree_goes_on(l, root, fdt, 0, q, kept);
    let before = crate::root::pages::tree_shared(l, root, fdt, q).0;
    let after = crate::root::pages::tree_shared(l, root, fdt, q + 1).0;
    let va = (crate::abi::bootinfo::FDT_VADDR + 4096 * q) as u64;
    let pa = (outer.start.0 + 4096 * q) as u64;
    crate::root::laws::lemma_data_permissions();
    assert(outer.start.0 + 4096 * q < outer.end.0);
    crate::root::laws::lemma_one_mapped(before, root, va, pa, PteFlags(USER_RO), kept);
    let a = (crate::abi::bootinfo::FDT_VADDR + off + i) as u64;
    assert(va <= a < va + 4096);
    assert(crate::mm::page_table::translated(after.mem, root, a) is Some);
    lemma_tree_goes_on(l, root, fdt, q + 1, n, kept);
    reveal(crate::root::laws::undisturbed);
}

/// Where the device tree is seen once it is shared, it is seen in the end.
proof fn lemma_seen_after_the_tree(
    l: Loading,
    root: u64,
    g: Given,
    v: crate::abi::bootinfo::BootInfoView,
    a: u64,
    kept: Seq<u64>,
)
    requires
        crate::root::laws::was_filled(l, root, g),
        kept.contains(crate::root::space_filled(l, root, g).1->Ok_0),
        crate::mm::keeping::apart(
            crate::root::laws::shared(l, root, g).mem,
            crate::root::laws::shared(l, root, g).frames + kept,
            root,
        ),
        crate::mm::page_table::translated(
            crate::root::laws::shared(l, root, g).mem,
            root,
            a,
        ) is Some,
    ensures
        crate::mm::page_table::translated(crate::root::laws::finished(l, root, g, v), root, a)
            == crate::mm::page_table::translated(
            crate::root::laws::shared(l, root, g).mem,
            root,
            a,
        ),
{
    crate::root::laws::lemma_stages(l, root, g);
    let shared = crate::root::laws::shared(l, root, g);
    let info = crate::root::space_filled(l, root, g).1->Ok_0;
    let count = crate::root::pages::module_count(g.modules);
    assert(crate::root::pages::modules_loaded(shared, root, g.modules, 0).0 == shared);
    crate::root::laws::lemma_modules_keep(shared, root, g.modules, 0, count, kept);
    let filled = crate::root::space_filled(l, root, g).0;
    crate::root::laws::lemma_objects_keep(filled, root, kept);
    let last = crate::root::objects_taken(filled).0;
    crate::root::laws::lemma_keeps_chain(shared, filled, last, root, kept);
    reveal(crate::root::laws::undisturbed);
    crate::root::laws::lemma_info_apart(last, root, kept, info, v);
}

/// A byte of the device tree, in the end.
proof fn lemma_tree_in_the_end(
    l: Loading,
    root: u64,
    g: Given,
    v: crate::abi::bootinfo::BootInfoView,
    i: int,
)
    requires
        crate::root::laws::was_filled(l, root, g),
        0 <= i < g.fdt.end.0 - g.fdt.start.0,
    ensures
        crate::mm::page_table::translated(
            crate::root::laws::finished(l, root, g, v),
            root,
            (crate::abi::bootinfo::FDT_VADDR + (g.fdt.start.0 - g.fdt.outer_pages().start.0)
                + i) as u64,
        ) == Some((PhysAddr((g.fdt.start.0 + i) as u64), PteFlags(USER_RO), 0usize)),
{
    lemma_imaged(l, root, g);
    crate::root::laws::lemma_stages(l, root, g);
    crate::root::laws::lemma_after_the_image(l, root, g, Seq::empty());
    let info = crate::root::laws::stacked(l, root, g).frames[0];
    let one = Seq::<u64>::empty().push(info);
    assert(one[0] == info);
    lemma_tree_byte(crate::root::laws::informed(l, root, g), root, g.fdt, i, one);
    let a = (crate::abi::bootinfo::FDT_VADDR + (g.fdt.start.0 - g.fdt.outer_pages().start.0)
        + i) as u64;
    lemma_seen_after_the_tree(l, root, g, v, a, one);
}

/// The root task finds the device tree where the boot info says: byte `i` of it
/// is the very byte of memory that the firmware left, and cannot be written. The
/// boot info says how long it is.
pub proof fn the_root_task_finds_the_device_tree(
    k: crate::sched::KernelView,
    frames: Seq<u64>,
    irqs: Seq<crate::irq::Entry>,
    g: Given,
    left: Seq<Region>,
    i: int,
)
    requires
        crate::root::laws::is_loaded(k, frames, irqs, g, left),
        0 <= i < g.fdt.end.0 - g.fdt.start.0,
    ensures
        ({
            let done = crate::root::loaded(k, frames, irqs, g, left);
            let m = done.kernel.objects.mem;
            let root = done.result->Ok_0.space.mapper.root.0;
            let at = (0x3010_0000 + g.fdt.start.0 % 4096) as u64;
            &&& crate::root::telling::finds_word(m, root, 0x3000_0058, at)
            &&& crate::root::telling::finds_word(
                m,
                root,
                0x3000_0060,
                (g.fdt.end.0 - g.fdt.start.0) as u64,
            )
            &&& crate::mm::page_table::translated(m, root, (at + i) as u64) == Some(
                (PhysAddr((g.fdt.start.0 + i) as u64), PteFlags(0x53), 0usize),
            )
        }),
{
    crate::mm::page_table::lemma_named_permissions();
    crate::root::laws::lemma_loaded(k, frames, irqs, g, left);
    crate::root::laws::the_root_task_finds_the_boot_info(k, frames, irqs, g, left, 11);
    crate::root::laws::the_root_task_finds_the_boot_info(k, frames, irqs, g, left, 12);
    let l = crate::root::laws::fresh_space(k.objects.mem, frames, g);
    lemma_tree_in_the_end(l, frames[0], g, crate::root::laws::said(g, left), i);
}

// --- The image ---

proof fn lemma_spanned(segments: Seq<Result<SegmentView, ElfError>>, n: int, j: int)
    requires
        0 <= j < n <= segments.len(),
        crate::elf::spanned(segments, n) is Ok,
    ensures
        ({
            let s = segments[j]->Ok_0;
            &&& crate::elf::spanned(segments, n)->Ok_0 matches Some(range)
            &&& range.0 <= s.vaddr
            &&& crate::elf::end_of(s) <= range.1
            &&& exists|o: int|
                0 <= o < n && (#[trigger] segments[o])->Ok_0.vaddr == range.0
            &&& exists|o: int|
                0 <= o < n && crate::elf::end_of((#[trigger] segments[o])->Ok_0) == range.1
        }),
    decreases n,
{
    let s = segments[n - 1]->Ok_0;
    if n == 1 {
        assert(segments[0]->Ok_0.vaddr == s.vaddr);
        assert(crate::elf::spanned(segments, 0) == Ok::<Option<(u64, u64)>, ElfError>(None));
    } else {
        let i = if j < n - 1 {
            j
        } else {
            0
        };
        lemma_spanned(segments, n - 1, i);
        let (lo, hi) = crate::elf::spanned(segments, n - 1)->Ok_0->Some_0;
        let a = choose|o: int|
            0 <= o < n - 1 && (#[trigger] segments[o])->Ok_0.vaddr == lo;
        let b = choose|o: int|
            0 <= o < n - 1 && crate::elf::end_of((#[trigger] segments[o])->Ok_0) == hi;
        assert(segments[a]->Ok_0.vaddr == lo);
        assert(crate::elf::end_of(segments[b]->Ok_0) == hi);
        assert(segments[n - 1]->Ok_0.vaddr == s.vaddr);
    }
}

/// The boot info says where the image begins and ends: no segment lies outside,
/// one begins at the first address and one ends at the last.
pub proof fn the_boot_info_spans_the_image(
    k: crate::sched::KernelView,
    frames: Seq<u64>,
    irqs: Seq<crate::irq::Entry>,
    g: Given,
    left: Seq<Region>,
    j: int,
)
    requires
        crate::root::laws::is_loaded(k, frames, irqs, g, left),
        0 <= j < crate::elf::loadable(g.image, crate::elf::table_len(g.image)).len(),
    ensures
        ({
            let done = crate::root::loaded(k, frames, irqs, g, left);
            let segments = crate::elf::loadable(g.image, crate::elf::table_len(g.image));
            let (lo, hi) = done.result->Ok_0.image;
            &&& crate::root::telling::finds_word(
                done.kernel.objects.mem,
                done.result->Ok_0.space.mapper.root.0,
                0x3000_0030,
                lo,
            )
            &&& crate::root::telling::finds_word(
                done.kernel.objects.mem,
                done.result->Ok_0.space.mapper.root.0,
                0x3000_0038,
                hi,
            )
            &&& lo <= segments[j]->Ok_0.vaddr
            &&& crate::elf::end_of(segments[j]->Ok_0) <= hi
            &&& exists|o: int|
                0 <= o < segments.len() && (#[trigger] segments[o])->Ok_0.vaddr == lo
            &&& exists|o: int|
                0 <= o < segments.len() && crate::elf::end_of((#[trigger] segments[o])->Ok_0) == hi
            &&& done.result->Ok_0.entry == crate::elf::double_at(g.image, 24)
        }),
{
    reveal(crate::root::loaded);
    crate::root::laws::the_root_task_finds_the_boot_info(k, frames, irqs, g, left, 6);
    crate::root::laws::the_root_task_finds_the_boot_info(k, frames, irqs, g, left, 7);
    let segments = crate::elf::loadable(g.image, crate::elf::table_len(g.image));
    lemma_spanned(segments, segments.len() as int, j);
}

} // verus!
