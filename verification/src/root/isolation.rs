//! What the root task can reach: the frames it was loaded into and the device
//! tree, and nothing of the kernel's.

use crate::abi::bootinfo::{FDT_VADDR, VADDR};
use crate::elf::{ElfError, SegmentView};
use crate::mm::page_table::{Pte, PteFlags, Walk, MAX_LEVEL, U, USER_RO, USER_RW};
use crate::mm::region::Region;
use crate::root::pages::{Loading, Module, STACK_PAGES, STACK_TOP};
use crate::root::Given;
use vstd::prelude::*;

verus! {

// --- What belongs to a task ---

/// Whether a physical address lies in one of the frames, or in a page of the
/// device tree.
pub open spec fn belongs(frames: Seq<u64>, fdt: Region, pa: int) -> bool {
    ||| exists|i: int| 0 <= i < frames.len() && (#[trigger] frames[i]) <= pa < frames[i] + 4096
    ||| fdt.outer_pages().start.0 <= pa < fdt.outer_pages().end.0
}

/// Whether userspace reaches nothing at `b` that does not belong to it.
pub open spec fn stays_inside(
    m: Map<int, u64>,
    root: u64,
    b: u64,
    frames: Seq<u64>,
    fdt: Region,
) -> bool {
    crate::mm::page_table::translated(m, root, b) matches Some(found) ==> found.1.has(U)
        ==> belongs(frames, fdt, found.0.0 as int)
}

/// Whether an address space under construction is closed: its tables are a tree
/// that the frames at hand are apart from, those frames belong to the task, and
/// userspace reaches nothing that does not.
spec fn is_closed(l: Loading, root: u64, all: Seq<u64>, fdt: Region) -> bool {
    &&& crate::mm::keeping::apart(l.mem, l.frames, root)
    &&& crate::mm::translation::is_tree(l.mem, root)
    &&& forall|i: int| 0 <= i < l.frames.len() ==> all.contains(#[trigger] l.frames[i])
    &&& forall|b: u64| #[trigger] stays_inside(l.mem, root, b, all, fdt)
}

// --- Writing beside the tables ---

/// A walk is the same after a write to frames that are apart from the tables.
proof fn lemma_walk_unchanged(
    m: Map<int, u64>,
    m2: Map<int, u64>,
    frames: Seq<u64>,
    table: u64,
    b: u64,
    from: nat,
    to: nat,
)
    requires
        crate::mm::translation::proper_frames(frames),
        crate::mm::translation::path_avoids(m, frames, table, b, from),
        forall|w: int| !crate::mm::translation::in_frames(frames, w) ==> #[trigger] m2[w] == m[w],
    ensures
        crate::mm::page_table::walk(m2, table, b, from, to) == crate::mm::page_table::walk(
            m,
            table,
            b,
            from,
            to,
        ),
        crate::mm::page_table::walk(m, table, b, from, to) matches Walk::Table(t)
            ==> !frames.contains(t),
    decreases from,
{
    if from > to {
        let y = crate::mm::page_table::entry_word(table, b, from);
        crate::mm::translation::lemma_entry_outside_frames(
            frames,
            table,
            crate::mm::addr::vpn_of(b, from),
        );
        assert(m2[y] == m[y]);
        let e = crate::mm::page_table::entry_for(m, table, b, from);
        if e.branch_entry() {
            lemma_walk_unchanged(m, m2, frames, e.target(), b, (from - 1) as nat, to);
        }
    }
}

/// Writing to frames that are apart from the tables keeps a tree a tree.
proof fn lemma_tree_unchanged(m: Map<int, u64>, m2: Map<int, u64>, frames: Seq<u64>, root: u64)
    requires
        crate::mm::keeping::apart(m, frames, root),
        crate::mm::translation::is_tree(m, root),
        forall|w: int| !crate::mm::translation::in_frames(frames, w) ==> #[trigger] m2[w] == m[w],
    ensures
        crate::mm::translation::is_tree(m2, root),
{
    reveal(crate::mm::keeping::apart);
    assert forall|a: u64, k: nat, t: u64| #[trigger]
        crate::mm::translation::reaches(m2, root, a, k, t) implies crate::mm::translation::reaches(
        m,
        root,
        a,
        k,
        t,
    ) by {
        assert(crate::mm::translation::path_avoids(m, frames, root, a, MAX_LEVEL as nat));
        lemma_walk_unchanged(m, m2, frames, root, a, MAX_LEVEL as nat, k);
    }
}

/// Writing to frames at hand leaves an address space closed.
proof fn lemma_written(l: Loading, m2: Map<int, u64>, root: u64, all: Seq<u64>, fdt: Region)
    requires
        is_closed(l, root, all, fdt),
        forall|w: int|
            !crate::mm::translation::in_frames(l.frames, w) ==> #[trigger] m2[w] == l.mem[w],
    ensures
        is_closed(Loading { mem: m2, frames: l.frames }, root, all, fdt),
{
    crate::mm::keeping::writing_apart_changes_no_translation(l.mem, m2, l.frames, root);
    lemma_tree_unchanged(l.mem, m2, l.frames, root);
    assert forall|b: u64| #[trigger] stays_inside(m2, root, b, all, fdt) by {
        assert(stays_inside(l.mem, root, b, all, fdt));
    }
}

/// Taking a frame leaves an address space closed.
proof fn lemma_taken(l: Loading, root: u64, all: Seq<u64>, fdt: Region)
    requires
        is_closed(l, root, all, fdt),
        l.frames.len() > 0,
    ensures
        is_closed(
            Loading { mem: l.mem, frames: l.frames.drop_first() },
            root,
            all,
            fdt,
        ),
        l.frames[0] % 4096 == 0,
        l.frames[0] < crate::mm::addr::PHYS_LIMIT,
        forall|pa: int| l.frames[0] <= pa < l.frames[0] + 4096 ==> #[trigger] belongs(all, fdt, pa),
{
    let rest = l.frames.drop_first();
    assert(all.contains(l.frames[0]));
    let at = choose|i: int| 0 <= i < all.len() && all[i] == l.frames[0];
    assert forall|pa: int| l.frames[0] <= pa < l.frames[0] + 4096 implies #[trigger] belongs(
        all,
        fdt,
        pa,
    ) by {
        assert(all[at] <= pa < all[at] + 4096);
    }
    assert forall|i: int| 0 <= i < rest.len() implies all.contains(#[trigger] rest[i])
        && l.frames.contains(rest[i]) by {
        assert(rest[i] == l.frames[i + 1]);
    }
    assert(crate::mm::keeping::apart(l.mem, rest, root)) by {
        assert(rest.no_duplicates()) by {
            reveal(crate::mm::keeping::apart);
            assert forall|i: int, j: int|
                0 <= i < rest.len() && 0 <= j < rest.len() && i != j implies rest[i] != rest[j] by {
                assert(rest[i] == l.frames[i + 1] && rest[j] == l.frames[j + 1]);
            }
        }
        crate::mm::keeping::lemma_apart_from_fewer(l.mem, l.frames, rest, root);
    }
    reveal(crate::mm::keeping::apart);
}

// --- Mapping ---

/// What is left at hand after a mapping was at hand before it.
pub(crate) proof fn lemma_grown_frames(
    m: Map<int, u64>,
    frames: Seq<u64>,
    table: u64,
    va: u64,
    from: nat,
    level: nat,
    leaf: Pte,
)
    ensures
        ({
            let left = crate::mm::page_table::grown(m, frames, table, va, from, level, leaf).frames;
            forall|i: int| 0 <= i < left.len() ==> frames.contains(#[trigger] left[i])
        }),
    decreases from,
{
    let e = crate::mm::page_table::entry_for(m, table, va, from);
    let x = crate::mm::page_table::entry_word(table, va, from);
    if from > level {
        if !e.valid() {
            if frames.len() > 0 {
                let rest = frames.drop_first();
                let branch = Pte::branch_of(frames[0]);
                let m2 = crate::mm::memory::with_zero_frame(m, frames[0]).insert(x, branch.0);
                lemma_grown_frames(m2, rest, branch.target(), va, (from - 1) as nat, level, leaf);
                assert forall|y: u64| rest.contains(y) implies frames.contains(y) by {
                    let i = choose|i: int| 0 <= i < rest.len() && rest[i] == y;
                    assert(frames[i + 1] == y);
                }
            }
        } else if !e.leaf_entry() {
            lemma_grown_frames(m, frames, e.target(), va, (from - 1) as nat, level, leaf);
        }
    }
}

/// Mapping a page that belongs to the task leaves its address space closed.
proof fn lemma_one_closed(
    l: Loading,
    root: u64,
    va: u64,
    frame: u64,
    flags: PteFlags,
    all: Seq<u64>,
    fdt: Region,
)
    requires
        is_closed(l, root, all, fdt),
        crate::root::pages::one_mapped(l, root, va, frame, flags).1 is Ok,
        frame < crate::mm::addr::PHYS_LIMIT,
        flags.0 <= 0xff,
        forall|pa: int| frame <= pa < frame + 4096 ==> #[trigger] belongs(all, fdt, pa),
    ensures
        is_closed(
            crate::root::pages::one_mapped(l, root, va, frame, flags).0,
            root,
            all,
            fdt,
        ),
{
    let done = crate::mm::page_table::mapped(l.mem, l.frames, root, va, frame, 0, flags);
    crate::mm::addr::lemma_spans();
    assert(crate::mm::keeping::apart(done.mem, done.frames, root)) by {
        reveal(crate::mm::keeping::apart);
        crate::mm::translation::mapping_keeps_frames_apart(
            l.mem,
            l.frames,
            root,
            va,
            frame,
            0,
            flags,
        );
    }
    crate::mm::exact::a_mapping_adds_nothing_else(
        l.mem,
        l.frames,
        root,
        va,
        frame,
        0,
        flags,
        va,
    );
    assert forall|i: int| 0 <= i < done.frames.len() implies all.contains(
        #[trigger] done.frames[i],
    ) by {
        reveal(crate::mm::page_table::mapped);
        lemma_grown_frames(
            l.mem,
            l.frames,
            root,
            va,
            MAX_LEVEL as nat,
            0,
            Pte::leaf_of(frame, flags.0),
        );
        assert(l.frames.contains(done.frames[i]));
    }
    assert forall|b: u64| #[trigger] stays_inside(done.mem, root, b, all, fdt) by {
        if crate::mm::translation::in_page(b, va, 0) {
            assert(crate::mm::translation::proper_frames(l.frames)
                && crate::mm::translation::path_avoids(
                l.mem,
                l.frames,
                root,
                va,
                MAX_LEVEL as nat,
            )) by {
                reveal(crate::mm::keeping::apart);
            }
            crate::mm::translation::a_mapped_page_translates(
                l.mem,
                l.frames,
                root,
                va,
                frame,
                0,
                flags,
                b,
            );
            assert(belongs(all, fdt, frame + (b - va)));
        } else {
            crate::mm::exact::a_mapping_adds_nothing_else(
                l.mem,
                l.frames,
                root,
                va,
                frame,
                0,
                flags,
                b,
            );
            assert(stays_inside(l.mem, root, b, all, fdt));
        }
    }
}

/// Loading a page leaves an address space closed.
proof fn lemma_page_closed(
    l: Loading,
    root: u64,
    va: u64,
    offset: int,
    data: Seq<u8>,
    flags: PteFlags,
    all: Seq<u64>,
    fdt: Region,
)
    requires
        is_closed(l, root, all, fdt),
        crate::root::pages::page_loaded(l, root, va, offset, data, flags).1 is Ok,
        0 <= offset,
        offset + data.len() <= 4096,
        flags.0 <= 0xff,
    ensures
        is_closed(
            crate::root::pages::page_loaded(l, root, va, offset, data, flags).0,
            root,
            all,
            fdt,
        ),
{
    let f = l.frames[0];
    let zeroed = crate::mm::memory::with_zero_frame(l.mem, f);
    let m2 = crate::mm::memory::with_bytes(zeroed, f + offset, data);
    lemma_taken(l, root, all, fdt);
    assert forall|w: int| !crate::mm::translation::in_frames(l.frames, w) implies #[trigger] m2[w]
        == l.mem[w] by {
        if f as int / 8 <= w < f as int / 8 + 512 {
            assert(l.frames[0] as int / 8 <= w < l.frames[0] as int / 8 + 512);
        }
        crate::root::laws::lemma_copied_words(zeroed, f + offset, data, w);
    }
    lemma_written(l, m2, root, all, fdt);
    let written = Loading { mem: m2, frames: l.frames };
    lemma_taken(written, root, all, fdt);
    lemma_one_closed(
        Loading { mem: m2, frames: l.frames.drop_first() },
        root,
        va,
        f,
        flags,
        all,
        fdt,
    );
}

// --- Stage by stage ---

proof fn lemma_pages_closed(
    l: Loading,
    root: u64,
    s: SegmentView,
    n: int,
    all: Seq<u64>,
    fdt: Region,
)
    requires
        is_closed(l, root, all, fdt),
        crate::root::pages::pages_loaded(l, root, s, n).1 is Ok,
    ensures
        is_closed(crate::root::pages::pages_loaded(l, root, s, n).0, root, all, fdt),
    decreases n,
{
    if n > 0 {
        lemma_pages_closed(l, root, s, n - 1, all, fdt);
        let va = crate::root::pages::page_of(s.vaddr) + 4096 * (n - 1);
        crate::root::laws::lemma_page_bytes(s, n - 1);
        crate::root::laws::lemma_segment_permissions(s);
        lemma_page_closed(
            crate::root::pages::pages_loaded(l, root, s, n - 1).0,
            root,
            va as u64,
            crate::root::pages::page_offset(s, va),
            crate::root::pages::page_bytes(s, va),
            crate::root::pages::segment_flags(s),
            all,
            fdt,
        );
    }
}

proof fn lemma_segments_closed(
    l: Loading,
    root: u64,
    segments: Seq<Result<SegmentView, ElfError>>,
    n: int,
    all: Seq<u64>,
    fdt: Region,
)
    requires
        is_closed(l, root, all, fdt),
        crate::root::pages::segments_loaded(l, root, segments, n).1 is Ok,
    ensures
        is_closed(crate::root::pages::segments_loaded(l, root, segments, n).0, root, all, fdt),
    decreases n,
{
    if n > 0 {
        lemma_segments_closed(l, root, segments, n - 1, all, fdt);
        let s = segments[n - 1]->Ok_0;
        lemma_pages_closed(
            crate::root::pages::segments_loaded(l, root, segments, n - 1).0,
            root,
            s,
            crate::root::pages::segment_pages(s),
            all,
            fdt,
        );
    }
}

proof fn lemma_stack_closed(l: Loading, root: u64, n: int, all: Seq<u64>, fdt: Region)
    requires
        is_closed(l, root, all, fdt),
        crate::root::pages::stack_loaded(l, root, n).1 is Ok,
    ensures
        is_closed(crate::root::pages::stack_loaded(l, root, n).0, root, all, fdt),
    decreases n,
{
    if n > 0 {
        lemma_stack_closed(l, root, n - 1, all, fdt);
        crate::root::laws::lemma_data_permissions();
        lemma_page_closed(
            crate::root::pages::stack_loaded(l, root, n - 1).0,
            root,
            (STACK_TOP - n * 4096) as u64,
            0,
            Seq::empty(),
            PteFlags(USER_RW),
            all,
            fdt,
        );
    }
}

proof fn lemma_tree_closed(l: Loading, root: u64, n: int, all: Seq<u64>, fdt: Region)
    requires
        is_closed(l, root, all, fdt),
        n <= crate::root::pages::pages_in(fdt),
        fdt.end.0 <= crate::mm::addr::PHYS_LIMIT,
        crate::root::pages::tree_shared(l, root, fdt, n).1 is Ok,
    ensures
        is_closed(crate::root::pages::tree_shared(l, root, fdt, n).0, root, all, fdt),
    decreases n,
{
    if n > 0 {
        lemma_tree_closed(l, root, n - 1, all, fdt);
        crate::root::laws::lemma_data_permissions();
        let outer = fdt.outer_pages();
        let frame = outer.start.0 + 4096 * (n - 1);
        assert(outer.end.0 <= crate::mm::addr::PHYS_LIMIT);
        assert(frame < outer.end.0);
        assert(outer.start.0 % 4096 == 0 && outer.end.0 % 4096 == 0);
        lemma_one_closed(
            crate::root::pages::tree_shared(l, root, fdt, n - 1).0,
            root,
            (FDT_VADDR + 4096 * (n - 1)) as u64,
            frame as u64,
            PteFlags(USER_RO),
            all,
            fdt,
        );
    }
}

proof fn lemma_module_closed(
    l: Loading,
    root: u64,
    at: int,
    bytes: Seq<u8>,
    n: int,
    all: Seq<u64>,
    fdt: Region,
)
    requires
        is_closed(l, root, all, fdt),
        n <= crate::root::pages::pages_for(bytes.len()),
        crate::root::pages::module_loaded(l, root, at, bytes, n).1 is Ok,
    ensures
        is_closed(crate::root::pages::module_loaded(l, root, at, bytes, n).0, root, all, fdt),
    decreases n,
{
    if n > 0 {
        lemma_module_closed(l, root, at, bytes, n - 1, all, fdt);
        crate::root::laws::lemma_data_permissions();
        lemma_page_closed(
            crate::root::pages::module_loaded(l, root, at, bytes, n - 1).0,
            root,
            (at + 4096 * (n - 1)) as u64,
            0,
            crate::root::pages::chunk(bytes, n - 1),
            PteFlags(USER_RO),
            all,
            fdt,
        );
    }
}

proof fn lemma_modules_closed(
    l: Loading,
    root: u64,
    modules: Seq<Module>,
    n: int,
    all: Seq<u64>,
    fdt: Region,
)
    requires
        is_closed(l, root, all, fdt),
        crate::root::pages::modules_loaded(l, root, modules, n).1 is Ok,
    ensures
        is_closed(crate::root::pages::modules_loaded(l, root, modules, n).0, root, all, fdt),
    decreases n,
{
    if n > 0 {
        lemma_modules_closed(l, root, modules, n - 1, all, fdt);
        lemma_module_closed(
            crate::root::pages::modules_loaded(l, root, modules, n - 1).0,
            root,
            crate::root::pages::module_at(modules, n - 1),
            modules[n - 1].bytes@,
            crate::root::pages::pages_for(modules[n - 1].bytes@.len()),
            all,
            fdt,
        );
    }
}

// --- From first to last ---

/// An entry of a fresh root is empty or the kernel's.
proof fn lemma_fresh_entry(m: Map<int, u64>, frames: Seq<u64>, g: Given, b: u64)
    requires
        crate::mm::keeping::apart(m, frames, g.kernel_root),
        frames.len() > 0,
    ensures
        ({
            let l = crate::root::laws::fresh_space(m, frames, g);
            let e = crate::mm::page_table::entry_for(l.mem, frames[0], b, 2);
            let own = crate::mm::page_table::entry_for(m, g.kernel_root, b, 2);
            &&& !e.valid() || e == own
            &&& own.branch_entry() ==> crate::mm::translation::path_avoids(
                m,
                frames,
                own.target(),
                b,
                1,
            )
        }),
{
    reveal(crate::mm::keeping::apart);
    let root = frames[0];
    let index = crate::mm::addr::vpn_of(b, 2);
    let l = crate::root::laws::fresh_space(m, frames, g);
    let x = crate::mm::page_table::entry_word(g.kernel_root, b, 2);
    assert(0 <= index < 512);
    assert(root % 4096 == 0);
    assert(crate::mm::translation::path_avoids(m, frames, g.kernel_root, b, 2));
    crate::mm::translation::lemma_entry_outside_frames(frames, g.kernel_root, index);
    crate::mm::page_table::lemma_empty_entry();
    assert(!(root as int / 8 <= x < root as int / 8 + 512)) by {
        if root as int / 8 <= x < root as int / 8 + 512 {
            assert(frames[0] as int / 8 <= x < frames[0] as int / 8 + 512);
            assert(crate::mm::translation::in_frames(frames, x));
        }
    }
}

/// Below a fresh root, what is reached is reached from the kernel's.
proof fn lemma_fresh_reaches(
    m: Map<int, u64>,
    frames: Seq<u64>,
    g: Given,
    a: u64,
    k: nat,
    t: u64,
)
    requires
        crate::mm::keeping::apart(m, frames, g.kernel_root),
        frames.len() > 0,
        crate::mm::translation::reaches(
            crate::root::laws::fresh_space(m, frames, g).mem,
            frames[0],
            a,
            k,
            t,
        ),
    ensures
        k == MAX_LEVEL ==> t == frames[0],
        k < MAX_LEVEL ==> t != frames[0] && crate::mm::translation::reaches(
            m,
            g.kernel_root,
            a,
            k,
            t,
        ),
{
    let l = crate::root::laws::fresh_space(m, frames, g);
    if k < MAX_LEVEL {
        lemma_fresh_words(m, frames, g);
        lemma_fresh_entry(m, frames, g, a);
        let e = crate::mm::page_table::entry_for(m, g.kernel_root, a, 2);
        assert(e == crate::mm::page_table::entry_for(l.mem, frames[0], a, 2));
        assert(crate::mm::translation::proper_frames(frames)) by {
            reveal(crate::mm::keeping::apart);
        }
        lemma_walk_unchanged(m, l.mem, frames, e.target(), a, 1, k);
        assert(frames.contains(frames[0]));
    }
}

/// Making a fresh root touches nothing but its frame.
proof fn lemma_fresh_words(m: Map<int, u64>, frames: Seq<u64>, g: Given)
    requires
        frames.len() > 0,
    ensures
        forall|w: int|
            !crate::mm::translation::in_frames(frames, w)
                ==> #[trigger] crate::root::laws::fresh_space(m, frames, g).mem[w] == m[w],
{
    let root = frames[0];
    let l = crate::root::laws::fresh_space(m, frames, g);
    assert forall|w: int| !crate::mm::translation::in_frames(frames, w) implies #[trigger] l.mem[w]
        == m[w] by {
        if root as int / 8 <= w < root as int / 8 + 512 {
            assert(frames[0] as int / 8 <= w < frames[0] as int / 8 + 512);
        }
    }
}

/// A fresh root opens nothing to userspace when the kernel's opens nothing.
proof fn lemma_fresh_inside(m: Map<int, u64>, frames: Seq<u64>, g: Given, b: u64)
    requires
        crate::mm::keeping::apart(m, frames, g.kernel_root),
        is_private(m, g.kernel_root),
        frames.len() > 0,
    ensures
        stays_inside(
            crate::root::laws::fresh_space(m, frames, g).mem,
            frames[0],
            b,
            frames,
            g.fdt,
        ),
{
    let l = crate::root::laws::fresh_space(m, frames, g);
    lemma_fresh_words(m, frames, g);
    lemma_fresh_entry(m, frames, g, b);
    let e = crate::mm::page_table::entry_for(l.mem, frames[0], b, 2);
    if e.valid() {
        if e.branch_entry() {
            assert(crate::mm::translation::proper_frames(frames)) by {
                reveal(crate::mm::keeping::apart);
            }
            crate::mm::keeping::lemma_translation_unchanged(m, l.mem, frames, e.target(), b, 1);
        }
        assert(crate::mm::page_table::translated(l.mem, frames[0], b)
            == crate::mm::page_table::translated(m, g.kernel_root, b));
    }
}

/// A fresh root with the kernel's half in it is closed when the kernel's own
/// pages are not open to userspace.
proof fn lemma_fresh_closed(m: Map<int, u64>, frames: Seq<u64>, g: Given)
    requires
        crate::mm::keeping::apart(m, frames, g.kernel_root),
        crate::mm::translation::is_tree(m, g.kernel_root),
        is_private(m, g.kernel_root),
        frames.len() > 0,
    ensures
        is_closed(crate::root::laws::fresh_space(m, frames, g), frames[0], frames, g.fdt),
{
    let root = frames[0];
    let l = crate::root::laws::fresh_space(m, frames, g);
    crate::root::laws::lemma_fresh_apart(m, frames, g.kernel_root);
    assert(root % 4096 == 0) by {
        reveal(crate::mm::keeping::apart);
    }
    assert forall|i: int| 0 <= i < l.frames.len() implies frames.contains(
        #[trigger] l.frames[i],
    ) by {
        assert(l.frames[i] == frames[i + 1]);
    }
    assert forall|a: u64, b: u64, i: nat, j: nat, t: u64|
        #![trigger crate::mm::translation::reaches(l.mem, root, a, i, t), crate::mm::translation::reaches(l.mem, root, b, j, t)]
        crate::mm::translation::reaches(l.mem, root, a, i, t) && crate::mm::translation::reaches(
            l.mem,
            root,
            b,
            j,
            t,
        ) implies i == j && crate::mm::translation::same_above(a, b, i) by {
        lemma_fresh_reaches(m, frames, g, a, i, t);
        lemma_fresh_reaches(m, frames, g, b, j, t);
    }
    assert forall|b: u64| #[trigger] stays_inside(l.mem, root, b, frames, g.fdt) by {
        lemma_fresh_inside(m, frames, g, b);
    }
}

/// Whether no page is open to userspace.
pub open spec fn is_private(m: Map<int, u64>, root: u64) -> bool {
    forall|b: u64|
        (#[trigger] crate::mm::page_table::translated(m, root, b)) is Some
            ==> !crate::mm::page_table::translated(m, root, b)->Some_0.1.has(U)
}

/// An address space that was filled from a closed one is closed in the end.
proof fn lemma_closed_in_the_end(
    l: Loading,
    root: u64,
    g: Given,
    v: crate::abi::bootinfo::BootInfoView,
    a: u64,
    all: Seq<u64>,
)
    requires
        crate::root::laws::was_filled(l, root, g),
        is_closed(l, root, all, g.fdt),
    ensures
        stays_inside(crate::root::laws::finished(l, root, g, v), root, a, all, g.fdt),
{
    let segments = crate::elf::loadable(g.image, crate::elf::table_len(g.image));
    crate::root::laws::lemma_stages(l, root, g);
    crate::root::laws::lemma_data_permissions();
    lemma_segments_closed(l, root, segments, segments.len() as int, all, g.fdt);
    lemma_stack_closed(
        crate::root::laws::imaged(l, root, g),
        root,
        STACK_PAGES as int,
        all,
        g.fdt,
    );
    lemma_page_closed(
        crate::root::laws::stacked(l, root, g),
        root,
        VADDR,
        0,
        Seq::empty(),
        PteFlags(USER_RO),
        all,
        g.fdt,
    );
    lemma_tree_closed(
        crate::root::laws::informed(l, root, g),
        root,
        crate::root::pages::pages_in(g.fdt),
        all,
        g.fdt,
    );
    lemma_modules_closed(
        crate::root::laws::shared(l, root, g),
        root,
        g.modules,
        crate::root::pages::module_count(g.modules),
        all,
        g.fdt,
    );
    let filled = crate::root::space_filled(l, root, g).0;
    let last = crate::root::objects_taken(filled).0;
    assert forall|w: int| !crate::mm::translation::in_frames(filled.frames, w) implies #[trigger]
        last.mem[w] == filled.mem[w] by {
        crate::root::laws::lemma_objects_words(filled, w);
    }
    lemma_written(filled, last.mem, root, all, g.fdt);
    assert(stays_inside(last.mem, root, a, all, g.fdt));
    crate::root::laws::lemma_translations_in_the_end(l, root, g, v, a);
}

/// From userspace, the root task reaches frames that it was loaded into and the
/// device tree, and nothing else: no page of the kernel's, and none of what the
/// modules were copied from, provided that the kernel's own pages are closed to
/// userspace and its tables are a tree.
pub proof fn the_root_task_reaches_only_its_own_memory(
    k: crate::sched::KernelView,
    frames: Seq<u64>,
    irqs: Seq<crate::irq::Entry>,
    g: Given,
    left: Seq<Region>,
    a: u64,
)
    requires
        crate::root::laws::is_loaded(k, frames, irqs, g, left),
        crate::mm::translation::is_tree(k.objects.mem, g.kernel_root),
        is_private(k.objects.mem, g.kernel_root),
    ensures
        ({
            let done = crate::root::loaded(k, frames, irqs, g, left);
            let root = done.result->Ok_0.space.mapper.root.0;
            stays_inside(done.kernel.objects.mem, root, a, frames, g.fdt)
        }),
{
    crate::root::laws::lemma_loaded(k, frames, irqs, g, left);
    lemma_fresh_closed(k.objects.mem, frames, g);
    lemma_closed_in_the_end(
        crate::root::laws::fresh_space(k.objects.mem, frames, g),
        frames[0],
        g,
        crate::root::laws::said(g, left),
        a,
        frames,
    );
}

} // verus!
