//! What the root task is endowed with is its own: no memory that it is given to
//! hand out is part of anything it was built from.

use crate::abi::bootinfo::{UntypedDesc, VADDR};
use crate::cap::slot::Derivation;
use crate::cap::RawCap;
use crate::elf::{ElfError, SegmentView};
use crate::irq::Entry;
use crate::mm::address_space::Asid;
use crate::mm::page_table::{Pte, PteFlags, MAX_LEVEL, USER_RO};
use crate::mm::region::Region;
use crate::root::pages::{Loading, Module, STACK_PAGES};
use crate::root::Given;
use crate::sched::KernelView;
use vstd::prelude::*;

verus! {

// --- Where its frames come from ---

/// Whether every frame at hand in `l2` was at hand in `l`.
spec fn drawn_from(l: Loading, l2: Loading) -> bool {
    forall|f: u64| #[trigger] l2.frames.contains(f) ==> l.frames.contains(f)
}

proof fn lemma_one_drawn(l: Loading, root: u64, va: u64, frame: u64, flags: PteFlags)
    ensures
        drawn_from(l, crate::root::pages::one_mapped(l, root, va, frame, flags).0),
{
    reveal(crate::mm::page_table::mapped);
    crate::root::isolation::lemma_grown_frames(
        l.mem,
        l.frames,
        root,
        va,
        MAX_LEVEL as nat,
        0,
        Pte::leaf_of(frame, flags.0),
    );
    let l2 = crate::root::pages::one_mapped(l, root, va, frame, flags).0;
    assert forall|f: u64| #[trigger] l2.frames.contains(f) implies l.frames.contains(f) by {
        let i = choose|i: int| 0 <= i < l2.frames.len() && l2.frames[i] == f;
        assert(l2.frames[i] == f);
    }
}

proof fn lemma_page_drawn(
    l: Loading,
    root: u64,
    va: u64,
    offset: int,
    data: Seq<u8>,
    flags: PteFlags,
)
    ensures
        drawn_from(l, crate::root::pages::page_loaded(l, root, va, offset, data, flags).0),
{
    if l.frames.len() > 0 {
        let frame = l.frames[0];
        let filled = Loading {
            mem: crate::mm::memory::with_bytes(
                crate::mm::memory::with_zero_frame(l.mem, frame),
                frame + offset,
                data,
            ),
            frames: l.frames.drop_first(),
        };
        lemma_one_drawn(filled, root, va, frame, flags);
        assert forall|f: u64| #[trigger] filled.frames.contains(f) implies l.frames.contains(f) by {
            let i = choose|i: int| 0 <= i < filled.frames.len() && filled.frames[i] == f;
            assert(l.frames[i + 1] == f);
        }
    }
}

proof fn lemma_pages_drawn(l: Loading, root: u64, s: SegmentView, n: int)
    ensures
        drawn_from(l, crate::root::pages::pages_loaded(l, root, s, n).0),
    decreases n,
{
    if n > 0 {
        lemma_pages_drawn(l, root, s, n - 1);
        let va = crate::root::pages::page_of(s.vaddr) + 4096 * (n - 1);
        lemma_page_drawn(
            crate::root::pages::pages_loaded(l, root, s, n - 1).0,
            root,
            va as u64,
            crate::root::pages::page_offset(s, va),
            crate::root::pages::page_bytes(s, va),
            crate::root::pages::segment_flags(s),
        );
    }
}

proof fn lemma_segments_drawn(
    l: Loading,
    root: u64,
    segments: Seq<Result<SegmentView, ElfError>>,
    n: int,
)
    ensures
        drawn_from(l, crate::root::pages::segments_loaded(l, root, segments, n).0),
    decreases n,
{
    if n > 0 {
        lemma_segments_drawn(l, root, segments, n - 1);
        if let Ok(s) = segments[n - 1] {
            lemma_pages_drawn(
                crate::root::pages::segments_loaded(l, root, segments, n - 1).0,
                root,
                s,
                crate::root::pages::segment_pages(s),
            );
        }
    }
}

proof fn lemma_stack_drawn(l: Loading, root: u64, n: int)
    ensures
        drawn_from(l, crate::root::pages::stack_loaded(l, root, n).0),
    decreases n,
{
    if n > 0 {
        lemma_stack_drawn(l, root, n - 1);
        lemma_page_drawn(
            crate::root::pages::stack_loaded(l, root, n - 1).0,
            root,
            (crate::root::pages::STACK_TOP - n * 4096) as u64,
            0,
            Seq::empty(),
            PteFlags(crate::mm::page_table::USER_RW),
        );
    }
}

proof fn lemma_tree_drawn(l: Loading, root: u64, fdt: Region, n: int)
    ensures
        drawn_from(l, crate::root::pages::tree_shared(l, root, fdt, n).0),
    decreases n,
{
    if n > 0 {
        lemma_tree_drawn(l, root, fdt, n - 1);
        lemma_one_drawn(
            crate::root::pages::tree_shared(l, root, fdt, n - 1).0,
            root,
            (crate::abi::bootinfo::FDT_VADDR + 4096 * (n - 1)) as u64,
            (fdt.outer_pages().start.0 + 4096 * (n - 1)) as u64,
            PteFlags(USER_RO),
        );
    }
}

proof fn lemma_module_drawn(l: Loading, root: u64, at: int, bytes: Seq<u8>, n: int)
    ensures
        drawn_from(l, crate::root::pages::module_loaded(l, root, at, bytes, n).0),
    decreases n,
{
    if n > 0 {
        lemma_module_drawn(l, root, at, bytes, n - 1);
        lemma_page_drawn(
            crate::root::pages::module_loaded(l, root, at, bytes, n - 1).0,
            root,
            (at + 4096 * (n - 1)) as u64,
            0,
            crate::root::pages::chunk(bytes, n - 1),
            PteFlags(USER_RO),
        );
    }
}

proof fn lemma_modules_drawn(l: Loading, root: u64, modules: Seq<Module>, n: int)
    ensures
        drawn_from(l, crate::root::pages::modules_loaded(l, root, modules, n).0),
    decreases n,
{
    if n > 0 {
        lemma_modules_drawn(l, root, modules, n - 1);
        lemma_module_drawn(
            crate::root::pages::modules_loaded(l, root, modules, n - 1).0,
            root,
            crate::root::pages::module_at(modules, n - 1),
            modules[n - 1].bytes@,
            crate::root::pages::pages_for(modules[n - 1].bytes@.len()),
        );
    }
}

/// Whether a frame was at hand and is not any more.
spec fn was_taken(before: Seq<u64>, after: Seq<u64>, f: u64) -> bool {
    before.contains(f) && !after.contains(f)
}

/// The frames the root task's objects were put in were taken.
proof fn lemma_taken(l: Loading, root: u64, g: Given)
    requires
        crate::root::laws::was_filled(l, root, g),
    ensures
        ({
            let filled = crate::root::space_filled(l, root, g);
            let last = crate::root::objects_taken(filled.0);
            let cnode = last.1->Ok_0.0;
            &&& was_taken(l.frames, last.0.frames, filled.1->Ok_0)
            &&& was_taken(l.frames, last.0.frames, last.1->Ok_0.1)
            &&& forall|i: int|
                0 <= i < 8 ==> #[trigger] was_taken(
                    l.frames,
                    last.0.frames,
                    (cnode + 4096 * i) as u64,
                ) && cnode + 4096 * i <= u64::MAX
            &&& !last.0.frames.contains(root)
        }),
{
    let segments = crate::elf::loadable(g.image, crate::elf::table_len(g.image));
    let none = Seq::<u64>::empty();
    crate::root::laws::lemma_stages(l, root, g);
    assert(l.frames + none =~= l.frames);
    assert(crate::root::pages::segments_loaded(l, root, segments, 0).0 == l);
    crate::root::laws::lemma_segments_keep(l, root, segments, 0, segments.len() as int, none);
    crate::root::laws::lemma_after_the_image(l, root, g, none);
    let info = crate::root::laws::stacked(l, root, g).frames[0];
    let one = none.push(info);
    crate::root::laws::lemma_after_the_info(l, root, g, one);
    let filled = crate::root::space_filled(l, root, g).0;
    let last = crate::root::objects_taken(filled).0;
    let all = last.frames + one;
    reveal(crate::mm::keeping::apart);
    assert(all[last.frames.len() as int] == info);
    assert(!last.frames.contains(info)) by {
        if last.frames.contains(info) {
            let i = choose|i: int| 0 <= i < last.frames.len() && last.frames[i] == info;
            assert(all[i] == info);
        }
    }
    assert(!last.frames.contains(root)) by {
        assert(crate::mm::translation::path_avoids(last.mem, all, root, 0, 2));
        if last.frames.contains(root) {
            let i = choose|i: int| 0 <= i < last.frames.len() && last.frames[i] == root;
            assert(all[i] == root);
        }
    }
    lemma_all_drawn(l, root, g);
    assert(crate::root::laws::stacked(l, root, g).frames.contains(info)) by {
        assert(crate::root::laws::stacked(l, root, g).frames.len() > 0);
    }
    assert(filled.frames.no_duplicates()) by {
        let both = filled.frames + one;
        assert forall|i: int, j: int|
            0 <= i < filled.frames.len() && 0 <= j < filled.frames.len() && i != j implies
            filled.frames[i] != filled.frames[j] by {
            assert(both[i] == filled.frames[i] && both[j] == filled.frames[j]);
        }
    }
    lemma_objects_taken(filled);
    assert forall|f: u64| #[trigger] was_taken(filled.frames, last.frames, f) implies was_taken(
        l.frames,
        last.frames,
        f,
    ) by {}
    let cnode = crate::root::objects_taken(filled).1->Ok_0.0;
    assert forall|i: int| 0 <= i < 8 implies #[trigger] was_taken(
        l.frames,
        last.frames,
        (cnode + 4096 * i) as u64,
    ) && cnode + 4096 * i <= u64::MAX by {
        assert(was_taken(filled.frames, last.frames, (cnode + 4096 * i) as u64));
    }
}

/// Everything that is at hand in the end was at hand at the start.
proof fn lemma_all_drawn(l: Loading, root: u64, g: Given)
    requires
        crate::root::space_filled(l, root, g).1 is Ok,
    ensures
        drawn_from(l, crate::root::laws::stacked(l, root, g)),
        drawn_from(l, crate::root::space_filled(l, root, g).0),
{
    let segments = crate::elf::loadable(g.image, crate::elf::table_len(g.image));
    crate::root::laws::lemma_stages(l, root, g);
    lemma_segments_drawn(l, root, segments, segments.len() as int);
    lemma_stack_drawn(crate::root::laws::imaged(l, root, g), root, STACK_PAGES as int);
    lemma_page_drawn(
        crate::root::laws::stacked(l, root, g),
        root,
        VADDR,
        0,
        Seq::empty(),
        PteFlags(USER_RO),
    );
    lemma_tree_drawn(
        crate::root::laws::informed(l, root, g),
        root,
        g.fdt,
        crate::root::pages::pages_in(g.fdt),
    );
    lemma_modules_drawn(
        crate::root::laws::shared(l, root, g),
        root,
        g.modules,
        crate::root::pages::module_count(g.modules),
    );
}

/// The frames that the CNode and the thread are put in.
proof fn lemma_objects_taken(l: Loading)
    requires
        crate::root::objects_taken(l).1 is Ok,
        l.frames.no_duplicates(),
    ensures
        ({
            let done = crate::root::objects_taken(l);
            let cnode = done.1->Ok_0.0;
            &&& was_taken(l.frames, done.0.frames, done.1->Ok_0.1)
            &&& forall|i: int|
                0 <= i < 8 ==> #[trigger] was_taken(
                    l.frames,
                    done.0.frames,
                    (cnode + 4096 * i) as u64,
                ) && cnode + 4096 * i <= u64::MAX
        }),
{
    let done = crate::root::objects_taken(l);
    let n = crate::root::blocks::frames_for(l.frames, crate::root::CNODE_BITS)->Some_0;
    vstd::arithmetic::power2::lemma2_to64();
    assert(crate::root::blocks::frames_in_block(crate::root::CNODE_BITS) == 8);
    crate::root::blocks::a_taken_block_is_whole(l.frames, crate::root::CNODE_BITS, 0);
    let cnode = done.1->Ok_0.0;
    assert(done.0.frames =~= l.frames.skip(n + 1));
    assert forall|k: int| 0 <= k <= n implies #[trigger] was_taken(
        l.frames,
        done.0.frames,
        l.frames[k],
    ) by {
        if done.0.frames.contains(l.frames[k]) {
            let i = choose|i: int| 0 <= i < done.0.frames.len() && done.0.frames[i] == l.frames[k];
            assert(l.frames[i + n + 1] == l.frames[k]);
        }
    }
    assert(was_taken(l.frames, done.0.frames, l.frames[n]));
    assert forall|i: int| 0 <= i < 8 implies #[trigger] was_taken(
        l.frames,
        done.0.frames,
        (cnode + 4096 * i) as u64,
    ) && cnode + 4096 * i <= u64::MAX by {
        crate::root::blocks::a_taken_block_is_whole(l.frames, crate::root::CNODE_BITS, i);
        assert(was_taken(l.frames, done.0.frames, l.frames[n - 8 + i]));
    }
}

// --- Its capabilities ---

/// Whether a capability is for something the root task was built from: its
/// CNode, its address space, its thread or the boot info.
spec fn is_built_in(cap: RawCap, cnode: u64, root: u64, tcb: u64, info: u64) -> bool {
    ||| cap == crate::root::cnode_cap(cnode)
    ||| cap.size_bits == 12 && (cap.paddr.0 == root || cap.paddr.0 == tcb || cap.paddr.0 == info)
        && !cap.kind.untyped()
}

/// What is in the slots once the root task has what it is given, where there
/// was nothing before.
proof fn lemma_held(
    d: Derivation,
    cnode: u64,
    root: u64,
    asid: Asid,
    tcb: u64,
    info: u64,
    descs: Seq<UntypedDesc>,
    n: int,
)
    requires
        forall|a: u64| (#[trigger] d.caps[a]).kind is Null,
    ensures
        ({
            let d2 = crate::root::blocks_placed(
                crate::root::furnished(d, cnode, root, asid, tcb, info),
                cnode,
                descs,
                n,
            );
            forall|a: u64|
                crate::cap::ownership::has_memory(#[trigger] d2.caps[a]) ==> is_built_in(
                    d2.caps[a],
                    cnode,
                    root,
                    tcb,
                    info,
                ) || is_block(d2, cnode, descs, n, a)
        }),
    decreases n,
{
    if n > 0 {
        lemma_held(d, cnode, root, asid, tcb, info, descs, n - 1);
        let d2 = crate::root::blocks_placed(
            crate::root::furnished(d, cnode, root, asid, tcb, info),
            cnode,
            descs,
            n - 1,
        );
        let d3 = crate::root::blocks_placed(
            crate::root::furnished(d, cnode, root, asid, tcb, info),
            cnode,
            descs,
            n,
        );
        let at = crate::cap::slot::slot_address(
            cnode,
            crate::abi::slot::FIRST_UNTYPED + n - 1,
        );
        assert forall|a: u64| crate::cap::ownership::has_memory(#[trigger] d3.caps[a]) implies
            is_built_in(d3.caps[a], cnode, root, tcb, info) || is_block(d3, cnode, descs, n, a) by {
            if a == at {
                assert(is_nth_block(d3, cnode, descs, n - 1, a));
            } else {
                assert(d3.caps[a] == d2.caps[a]);
                if is_block(d2, cnode, descs, n - 1, a) {
                    let i = choose|i: int|
                        0 <= i < n - 1 && #[trigger] is_nth_block(d2, cnode, descs, i, a);
                    assert(is_nth_block(d3, cnode, descs, i, a));
                }
            }
        }
    } else {
        lemma_wiped_empty(d, cnode, crate::root::CNODE_SLOTS as nat);
    }
}

proof fn lemma_wiped_empty(d: Derivation, base: u64, n: nat)
    requires
        forall|a: u64| (#[trigger] d.caps[a]).kind is Null,
    ensures
        forall|a: u64| (#[trigger] d.wiped_range(base, n).caps[a]).kind is Null,
    decreases n,
{
    if n > 0 {
        lemma_wiped_empty(d, base, (n - 1) as nat);
    }
}

/// Whether a slot is the one block `i` goes to, and holds it.
spec fn is_nth_block(d: Derivation, cnode: u64, descs: Seq<UntypedDesc>, i: int, a: u64) -> bool {
    &&& a == crate::cap::slot::slot_address(cnode, crate::abi::slot::FIRST_UNTYPED + i)
    &&& d.caps[a] == crate::root::block_cap(descs[i])
}

/// Whether a slot holds one of the first `n` blocks.
spec fn is_block(d: Derivation, cnode: u64, descs: Seq<UntypedDesc>, n: int, a: u64) -> bool {
    exists|i: int| 0 <= i < n && #[trigger] is_nth_block(d, cnode, descs, i, a)
}

// --- Its memory ---

/// A frame that is in none of the regions' pages has nothing in common with a
/// block of one of them.
proof fn lemma_frame_outside(left: Seq<Region>, r: int, f: u64, start: int, end: int)
    requires
        0 <= r < left.len(),
        !crate::mm::frame::frames_of(left).contains(f),
        f % 4096 == 0,
        left[r].start.0 % 4096 == 0,
        start % 4096 == 0,
        end % 4096 == 0,
        left[r].start.0 <= start <= end <= left[r].end.0,
    ensures
        end <= f || f + 4096 <= start,
    decreases left.len(),
{
    let last = left.len() - 1;
    if r == last {
        let some = crate::mm::frame::frames_in(left[r].start.0, left[r].end.0);
        let before = crate::mm::frame::frames_of(left.drop_last());
        let all = crate::mm::frame::frames_of(left);
        assert(all == before + some);
        if start < f + 4096 && f < end {
            let i = (f - left[r].start.0) / 4096;
            assert(some[i] == f);
            assert(all[before.len() + i] == f);
        }
    } else {
        let shorter = left.drop_last();
        assert(!crate::mm::frame::frames_of(shorter).contains(f)) by {
            let before = crate::mm::frame::frames_of(shorter);
            let all = crate::mm::frame::frames_of(left);
            if before.contains(f) {
                let i = choose|i: int| 0 <= i < before.len() && before[i] == f;
                assert(all[i] == f);
            }
        }
        assert(shorter[r] == left[r]);
        lemma_frame_outside(shorter, r, f, start, end);
    }
}

/// A block that overlaps none of some pages in a row overlaps nothing of them.
proof fn lemma_row_outside(start: int, end: int, x: int, pages: int)
    requires
        start % 4096 == 0,
        end % 4096 == 0,
        start < end,
        x % 4096 == 0,
        pages > 0,
        forall|i: int|
            0 <= i < pages ==> end <= #[trigger] page_at(x, i) || page_at(x, i) + 4096 <= start,
    ensures
        end <= x || x + 4096 * pages <= start,
{
    if x < end && start < x + 4096 * pages {
        let p = if start > x {
            start
        } else {
            x
        };
        let i = (p - x) / 4096;
        assert(0 <= i < pages);
        assert(page_at(x, i) == p);
    }
}

/// The first address of page `i` of a row.
spec fn page_at(x: int, i: int) -> int {
    x + 4096 * i
}

/// Whether a frame has nothing in common with any of the regions.
pub open spec fn is_outside(f: u64, regions: Seq<Region>) -> bool {
    forall|j: int|
        0 <= j < regions.len() ==> f + 4096 <= (#[trigger] regions[j]).start.0 || regions[j].end.0
            <= f
}

/// A frame that was taken has nothing in common with any of the blocks.
proof fn lemma_taken_outside(
    left: Seq<Region>,
    devices: Seq<Region>,
    i: int,
    before: Seq<u64>,
    f: u64,
)
    requires
        0 <= i < crate::root::handed_over(left, devices).len(),
        forall|r: int| 0 <= r < left.len() ==> (#[trigger] left[r]).start.0 % 4096 == 0,
        forall|k: int|
            0 <= k < before.len() ==> (#[trigger] before[k]) % 4096 == 0 && is_outside(
                before[k],
                devices,
            ),
        was_taken(before, crate::mm::frame::frames_of(left), f),
    ensures
        ({
            let b = crate::root::handed_over(left, devices)[i];
            b.paddr + b.size() <= f || f + 4096 <= b.paddr
        }),
{
    let b = crate::root::handed_over(left, devices)[i];
    let k = choose|k: int| 0 <= k < before.len() && before[k] == f;
    assert(before[k] % 4096 == 0 && is_outside(before[k], devices));
    let r = crate::root::handover::lemma_block_home(left, devices, i);
    if b.is_device == 0 {
        lemma_frame_outside(left, r, f, b.paddr as int, b.paddr + b.size());
    } else {
        assert(f + 4096 <= devices[r].start.0 || devices[r].end.0 <= f);
    }
}

/// Nothing that the root task was built from has anything in common with a
/// block.
proof fn lemma_built_in_outside(
    left: Seq<Region>,
    devices: Seq<Region>,
    i: int,
    before: Seq<u64>,
    cap: RawCap,
    cnode: u64,
    root: u64,
    tcb: u64,
    info: u64,
)
    requires
        0 <= i < crate::root::handed_over(left, devices).len(),
        forall|r: int| 0 <= r < left.len() ==> (#[trigger] left[r]).start.0 % 4096 == 0,
        forall|k: int|
            0 <= k < before.len() ==> (#[trigger] before[k]) % 4096 == 0 && is_outside(
                before[k],
                devices,
            ),
        is_built_in(cap, cnode, root, tcb, info),
        was_taken(before, crate::mm::frame::frames_of(left), root),
        was_taken(before, crate::mm::frame::frames_of(left), tcb),
        was_taken(before, crate::mm::frame::frames_of(left), info),
        forall|j: int|
            0 <= j < 8 ==> #[trigger] was_taken(
                before,
                crate::mm::frame::frames_of(left),
                (cnode + 4096 * j) as u64,
            ) && cnode + 4096 * j <= u64::MAX,
    ensures
        crate::cap::ownership::are_disjoint(
            crate::root::block_cap(crate::root::handed_over(left, devices)[i]),
            cap,
        ),
{
    let b = crate::root::handed_over(left, devices)[i];
    let r = crate::root::handover::lemma_block_home(left, devices, i);
    vstd::arithmetic::power2::lemma2_to64();
    if cap == crate::root::cnode_cap(cnode) {
        assert(was_taken(before, crate::mm::frame::frames_of(left), (cnode + 4096 * 0) as u64));
        let k = choose|k: int| 0 <= k < before.len() && before[k] == cnode;
        assert(before[k] % 4096 == 0);
        assert forall|j: int| 0 <= j < 8 implies b.paddr + b.size() <= #[trigger] page_at(
            cnode as int,
            j,
        ) || page_at(cnode as int, j) + 4096 <= b.paddr by {
            assert(was_taken(before, crate::mm::frame::frames_of(left), (cnode + 4096 * j) as u64));
            lemma_taken_outside(left, devices, i, before, (cnode + 4096 * j) as u64);
        }
        lemma_row_outside(b.paddr as int, b.paddr + b.size(), cnode as int, 8);
    } else {
        lemma_taken_outside(left, devices, i, before, cap.paddr.0);
    }
}

/// What the root task is given to hand out is part of nothing it was built from,
/// and no two of its regions have memory in common, provided that the memory
/// that is left is what was not taken, and that no two of the regions it is cut
/// from, nor a device and a frame, have anything in common.
pub proof fn the_root_task_owns_what_it_is_given(
    k: KernelView,
    frames: Seq<u64>,
    irqs: Seq<Entry>,
    g: Given,
    left: Seq<Region>,
)
    requires
        crate::root::laws::is_loaded(k, frames, irqs, g, left),
        forall|a: u64| (#[trigger] k.objects.slots.caps[a]).kind is Null,
        crate::root::loaded(k, frames, irqs, g, left).frames == crate::mm::frame::frames_of(left),
        forall|r: int| 0 <= r < left.len() ==> (#[trigger] left[r]).start.0 % 4096 == 0,
        crate::mm::region::disjoint(left),
        crate::mm::region::disjoint(g.devices),
        forall|r: int, s: int|
            0 <= r < left.len() && 0 <= s < g.devices.len() ==> !(#[trigger] left[r]).meets(
                #[trigger] g.devices[s],
            ),
        forall|i: int| 0 <= i < frames.len() ==> is_outside(#[trigger] frames[i], g.devices),
    ensures
        crate::cap::ownership::memory_is_owned(
            crate::root::loaded(k, frames, irqs, g, left).kernel.objects.slots,
        ),
{
    crate::root::laws::lemma_loaded(k, frames, irqs, g, left);
    let done = crate::root::loaded(k, frames, irqs, g, left);
    let root = frames[0];
    let l = crate::root::laws::fresh_space(k.objects.mem, frames, g);
    let filled = crate::root::space_filled(l, root, g);
    let last = crate::root::objects_taken(filled.0);
    let (cnode, tcb) = last.1->Ok_0;
    let info = filled.1->Ok_0;
    let rest = crate::mm::frame::frames_of(left);
    assert(done.frames == last.0.frames) by {
        reveal(crate::root::loaded);
    }
    lemma_taken(l, root, g);
    assert forall|f: u64| #[trigger] was_taken(l.frames, rest, f) implies was_taken(
        frames,
        rest,
        f,
    ) by {
        let i = choose|i: int| 0 <= i < l.frames.len() && l.frames[i] == f;
        assert(frames[i + 1] == f);
    }
    assert(was_taken(frames, rest, root));
    assert(was_taken(l.frames, rest, tcb) && was_taken(l.frames, rest, info));
    assert forall|j: int| 0 <= j < 8 implies #[trigger] was_taken(
        frames,
        rest,
        (cnode + 4096 * j) as u64,
    ) && cnode + 4096 * j <= u64::MAX by {
        assert(was_taken(l.frames, rest, (cnode + 4096 * j) as u64));
    }
    assert forall|i: int| 0 <= i < frames.len() implies (#[trigger] frames[i]) % 4096 == 0
        && is_outside(frames[i], g.devices) by {
        reveal(crate::mm::keeping::apart);
    }
    let descs = crate::root::handed_over(left, g.devices);
    let n = descs.len() as int;
    let asid = done.result->Ok_0.space.asid;
    lemma_held(k.objects.slots, cnode, root, asid, tcb, info, descs, n);
    let d2 = done.kernel.objects.slots;
    assert forall|s: u64, t: u64|
        #![trigger crate::cap::ownership::can_hand_out(d2.caps[s]), crate::cap::ownership::has_memory(d2.caps[t])]
        s != t && crate::cap::ownership::can_hand_out(d2.caps[s])
            && crate::cap::ownership::has_memory(d2.caps[t]) implies
        crate::cap::ownership::is_settled(d2, s, t) by {
        assert(crate::cap::ownership::has_memory(d2.caps[s]));
        assert(is_block(d2, cnode, descs, n, s));
        let i = choose|i: int| 0 <= i < n && #[trigger] is_nth_block(d2, cnode, descs, i, s);
        if is_block(d2, cnode, descs, n, t) {
            let j = choose|j: int| 0 <= j < n && #[trigger] is_nth_block(d2, cnode, descs, j, t);
            assert(i != j);
            if i < j {
                crate::root::handover::lemma_blocks_apart(left, g.devices, i, j);
            } else {
                crate::root::handover::lemma_blocks_apart(left, g.devices, j, i);
            }
        } else {
            lemma_built_in_outside(
                left,
                g.devices,
                i,
                frames,
                d2.caps[t],
                cnode,
                root,
                tcb,
                info,
            );
        }
    }
}

} // verus!
