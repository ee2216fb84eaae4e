//! Filling the root task's address space: its image, its stack, and what it is
//! given to read.

use crate::abi::bootinfo::{
    ModuleDesc, ModuleView, FDT_VADDR, MAX_MODULES, MODULE_VADDR, VADDR,
};
use crate::elf::{ElfError, Segment, SegmentView};
use crate::mm::addr::{PhysAddr, VirtAddr, PAGE_SIZE};
use crate::mm::address_space::AddressSpace;
use crate::mm::frame::BumpAllocator;
use crate::mm::memory::Memory;
use crate::mm::page_table::{PteFlags, A, D, R, U, USER_RO, USER_RW, V, W, X};
use crate::mm::region::Region;
use crate::root::RootError;
use vstd::prelude::*;

verus! {

/// Top of the root task's stack. Its image is linked well below this.
pub const STACK_TOP: u64 = 0x2000_0000;

pub const STACK_PAGES: u64 = 4;

/// What building an address space works on.
#[verifier::ext_equal]
pub struct Loading {
    pub mem: Map<int, u64>,
    pub frames: Seq<u64>,
}

/// An image the kernel carries in but does not load: it copies each into frames
/// and maps them read-only, and the root task loads them itself into processes
/// of their own.
#[derive(Debug, Clone, Copy)]
pub struct Module<'a> {
    pub name: &'a str,
    pub bytes: &'a [u8],
}

// --- One page ---

/// What mapping one page that nothing maps yet does.
pub open spec fn one_mapped(l: Loading, root: u64, va: u64, frame: u64, flags: PteFlags) -> (
    Loading,
    Result<(), RootError>,
) {
    if crate::mm::page_table::translated(l.mem, root, va) is Some {
        (l, Err(RootError::OverlappingSegments))
    } else if crate::mm::address_space::mapping_refused(
        va,
        crate::mm::addr::span(0) as u64,
        flags,
    ) is Some {
        (l, Err(RootError::OutOfMemory))
    } else {
        let done = crate::mm::page_table::mapped(l.mem, l.frames, root, va, frame, 0, flags);
        (
            Loading { mem: done.mem, frames: done.frames },
            match done.result {
                Ok(_) => Ok(()),
                Err(_) => Err(RootError::OutOfMemory),
            },
        )
    }
}

/// What mapping one fresh page does that holds `data` from `offset` on and is
/// zero elsewhere.
pub open spec fn page_loaded(
    l: Loading,
    root: u64,
    va: u64,
    offset: int,
    data: Seq<u8>,
    flags: PteFlags,
) -> (Loading, Result<(), RootError>) {
    if l.frames.len() == 0 {
        (l, Err(RootError::OutOfMemory))
    } else {
        let frame = l.frames[0];
        let filled = Loading {
            mem: crate::mm::memory::with_bytes(
                crate::mm::memory::with_zero_frame(l.mem, frame),
                frame + offset,
                data,
            ),
            frames: l.frames.drop_first(),
        };
        one_mapped(filled, root, va, frame, flags)
    }
}

/// Map one page that nothing maps yet.
pub(crate) fn map_one(
    space: &mut AddressSpace,
    va: u64,
    frame: PhysAddr,
    flags: PteFlags,
    frames: &mut BumpAllocator,
    mem: &mut Memory,
) -> (r: Result<(), RootError>)
    ensures
        *final(space) == *old(space),
        final(frames).home() == old(frames).home(),
        (Loading { mem: final(mem)@, frames: final(frames).pending() }, r) == one_mapped(
            (Loading { mem: old(mem)@, frames: old(frames).pending() }),
            old(space).mapper.root.0,
            va,
            frame.0,
            flags,
        ),
        r is Ok ==> va < 0x40_0000_0000,
{
    if space.translate(VirtAddr::new(va), mem).is_some() {
        return Err(RootError::OverlappingSegments);
    }
    match space.map(VirtAddr::new(va), frame, 0, flags, frames, mem) {
        Ok(_) => {
            proof {
                crate::mm::addr::lemma_spans();
                crate::mm::address_space::lemma_user_range(va, 4096);
            }
            Ok(())
        },
        Err(_) => Err(RootError::OutOfMemory),
    }
}

/// Map one fresh page that holds `count` bytes of `data` at `offset`.
fn load_page(
    space: &mut AddressSpace,
    va: u64,
    offset: u64,
    data: &[u8],
    from: usize,
    count: usize,
    flags: PteFlags,
    frames: &mut BumpAllocator,
    mem: &mut Memory,
) -> (r: Result<PhysAddr, RootError>)
    requires
        from + count <= data@.len(),
        offset + count <= PAGE_SIZE,
    ensures
        *final(space) == *old(space),
        final(frames).home() == old(frames).home(),
        ({
            let done = page_loaded(
                Loading { mem: old(mem)@, frames: old(frames).pending() },
                old(space).mapper.root.0,
                va,
                offset as int,
                data@.subrange(from as int, from + count),
                flags,
            );
            &&& final(mem)@ == done.0.mem
            &&& final(frames).pending() == done.0.frames
            &&& match done.1 {
                Ok(_) => r is Ok && r->Ok_0.0 == old(frames).pending()[0],
                Err(e) => r is Err && r->Err_0 == e,
            }
        }),
        r is Ok ==> va < 0x40_0000_0000,
{
    let frame: PhysAddr = match frames.alloc_frame(mem) {
        Some(f) => f,
        None => {
            return Err(RootError::OutOfMemory);
        },
    };
    mem.copy_in(frame.as_usize() + offset, data, from, count);
    match map_one(space, va, frame, flags, frames, mem) {
        Ok(_) => Ok(frame),
        Err(e) => Err(e),
    }
}

// --- The image ---

/// The permissions a segment asks for, reachable from userspace.
pub open spec fn segment_flags(s: SegmentView) -> PteFlags {
    let base = V | U | A;
    let read = if s.readable() {
        base | R
    } else {
        base
    };
    let write = if s.writable() {
        read | (W | D)
    } else {
        read
    };
    PteFlags(
        if s.executable() {
            write | X
        } else {
            write
        },
    )
}

/// The first address of the page that holds `va`.
pub open spec fn page_of(va: u64) -> int {
    va - va % 4096
}

/// Pages a segment touches.
pub open spec fn segment_pages(s: SegmentView) -> int {
    (s.vaddr + s.mem_size - page_of(s.vaddr) + 4095) / 4096
}

/// Where in the page at `va` a segment's bytes start.
pub open spec fn page_offset(s: SegmentView, va: int) -> int {
    if va < s.vaddr {
        s.vaddr - va
    } else {
        0
    }
}

/// The bytes of a segment that fall in the page at `va`.
pub open spec fn page_bytes(s: SegmentView, va: int) -> Seq<u8> {
    let from = va + page_offset(s, va);
    let to = if va + 4096 < s.vaddr + s.data.len() {
        va + 4096
    } else {
        s.vaddr + s.data.len()
    };
    if to > from {
        s.data.subrange(from - s.vaddr, to - s.vaddr)
    } else {
        Seq::empty()
    }
}

/// What loading the first `n` pages of a segment does.
pub open spec fn pages_loaded(l: Loading, root: u64, s: SegmentView, n: int) -> (
    Loading,
    Result<(), RootError>,
)
    decreases n,
{
    if n <= 0 {
        (l, Ok(()))
    } else {
        match pages_loaded(l, root, s, n - 1) {
            (w, Err(e)) => (w, Err(e)),
            (w, Ok(_)) => {
                let va = page_of(s.vaddr) + 4096 * (n - 1);
                page_loaded(
                    w,
                    root,
                    va as u64,
                    page_offset(s, va),
                    page_bytes(s, va),
                    segment_flags(s),
                )
            },
        }
    }
}

/// What loading one segment does.
pub open spec fn segment_loaded(l: Loading, root: u64, s: SegmentView) -> (
    Loading,
    Result<(), RootError>,
) {
    if s.writable() && s.executable() {
        (l, Err(RootError::WriteExecute))
    } else if s.vaddr == 0 || s.vaddr + s.mem_size > VADDR {
        (l, Err(RootError::BadAddress))
    } else {
        pages_loaded(l, root, s, segment_pages(s))
    }
}

/// What loading the first `n` segments does.
pub open spec fn segments_loaded(
    l: Loading,
    root: u64,
    segments: Seq<Result<SegmentView, ElfError>>,
    n: int,
) -> (Loading, Result<(), RootError>)
    decreases n,
{
    if n <= 0 {
        (l, Ok(()))
    } else {
        match segments_loaded(l, root, segments, n - 1) {
            (w, Err(e)) => (w, Err(e)),
            (w, Ok(_)) => match segments[n - 1] {
                Err(e) => (w, Err(RootError::Elf(e))),
                Ok(s) => segment_loaded(w, root, s),
            },
        }
    }
}

proof fn lemma_pages_fail(l: Loading, root: u64, s: SegmentView, n: int, m: int)
    requires
        0 <= n <= m,
        pages_loaded(l, root, s, n).1 is Err,
    ensures
        pages_loaded(l, root, s, m) == pages_loaded(l, root, s, n),
    decreases m - n,
{
    if n < m {
        lemma_pages_fail(l, root, s, n, m - 1);
    }
}

proof fn lemma_segments_fail(
    l: Loading,
    root: u64,
    segments: Seq<Result<SegmentView, ElfError>>,
    n: int,
    m: int,
)
    requires
        0 <= n <= m,
        segments_loaded(l, root, segments, n).1 is Err,
    ensures
        segments_loaded(l, root, segments, m) == segments_loaded(l, root, segments, n),
    decreases m - n,
{
    if n < m {
        lemma_segments_fail(l, root, segments, n, m - 1);
    }
}

/// Copy one `PT_LOAD` segment into fresh frames and map them.
pub(crate) fn map_segment(
    space: &mut AddressSpace,
    seg: &Segment,
    frames: &mut BumpAllocator,
    mem: &mut Memory,
) -> (r: Result<(), RootError>)
    requires
        seg.data@.len() <= seg.mem_size,
    ensures
        *final(space) == *old(space),
        final(frames).home() == old(frames).home(),
        (Loading { mem: final(mem)@, frames: final(frames).pending() }, r) == segment_loaded(
            (Loading { mem: old(mem)@, frames: old(frames).pending() }),
            old(space).mapper.root.0,
            seg@,
        ),
{
    if seg.writable() && seg.executable() {
        return Err(RootError::WriteExecute);
    }
    if seg.vaddr == 0 || seg.vaddr > VADDR || seg.mem_size > VADDR - seg.vaddr {
        return Err(RootError::BadAddress);
    }
    let mut flags: PteFlags = PteFlags(V | U | A);
    if seg.readable() {
        flags = flags.union(PteFlags(R));
    }
    if seg.writable() {
        flags = flags.union(PteFlags(W | D));
    }
    if seg.executable() {
        flags = flags.union(PteFlags(X));
    }
    let ghost l = Loading { mem: mem@, frames: frames.pending() };
    let ghost root = space.mapper.root.0;
    let ghost mut n: int = 0;
    let size: u64 = seg.data.len() as u64;
    let first: u64 = seg.vaddr - seg.vaddr % PAGE_SIZE;
    let last: u64 = seg.vaddr + seg.mem_size;
    let mut va: u64 = first;
    while va < last
        invariant
            !(seg@.writable() && seg@.executable()),
            seg.vaddr != 0,
            seg.vaddr + seg.mem_size <= VADDR,
            size == seg.data@.len(),
            size <= seg.mem_size,
            flags == segment_flags(seg@),
            first == page_of(seg.vaddr),
            last == seg.vaddr + seg.mem_size,
            0 <= n <= segment_pages(seg@),
            va == first + 4096 * n,
            *space == *old(space),
            root == space.mapper.root.0,
            frames.home() == old(frames).home(),
            l == (Loading { mem: old(mem)@, frames: old(frames).pending() }),
            pages_loaded(l, root, seg@, n) == (
                Loading { mem: mem@, frames: frames.pending() },
                Ok::<(), RootError>(()),
            ),
        decreases segment_pages(seg@) - n,
    {
        // The part of this page the file has bytes for; the rest stays zero.
        let from: u64 = if va < seg.vaddr {
            seg.vaddr
        } else {
            va
        };
        let to: u64 = if va + PAGE_SIZE < seg.vaddr + size {
            va + PAGE_SIZE
        } else {
            seg.vaddr + size
        };
        let skipped: usize = if to > from {
            (from - seg.vaddr) as usize
        } else {
            0
        };
        let count: usize = if to > from {
            (to - from) as usize
        } else {
            0
        };
        proof {
            assert(seg.data@.subrange(skipped as int, skipped + count) =~= page_bytes(
                seg@,
                va as int,
            ));
            assert(from - va == page_offset(seg@, va as int));
        }
        match load_page(space, va, from - va, seg.data, skipped, count, flags, frames, mem) {
            Ok(_) => {},
            Err(e) => {
                proof {
                    lemma_pages_fail(l, root, seg@, n + 1, segment_pages(seg@));
                }
                return Err(e);
            },
        }
        proof {
            n = n + 1;
        }
        va = va + PAGE_SIZE;
    }
    assert(n == segment_pages(seg@));
    Ok(())
}

/// Copy every segment into fresh frames and map them.
pub(crate) fn map_segments(
    space: &mut AddressSpace,
    segments: &Vec<Result<Segment, ElfError>>,
    frames: &mut BumpAllocator,
    mem: &mut Memory,
) -> (r: Result<(), RootError>)
    requires
        forall|i: int|
            0 <= i < segments@.len() && (#[trigger] segments@[i]) is Ok
                ==> segments@[i]->Ok_0.data@.len() <= segments@[i]->Ok_0.mem_size,
    ensures
        *final(space) == *old(space),
        final(frames).home() == old(frames).home(),
        (Loading { mem: final(mem)@, frames: final(frames).pending() }, r) == segments_loaded(
            (Loading { mem: old(mem)@, frames: old(frames).pending() }),
            old(space).mapper.root.0,
            crate::elf::all_seen(segments@),
            segments@.len() as int,
        ),
{
    let ghost l = Loading { mem: mem@, frames: frames.pending() };
    let ghost root = space.mapper.root.0;
    let ghost all = crate::elf::all_seen(segments@);
    let count: usize = segments.len();
    let mut i: usize = 0;
    while i < count
        invariant
            i <= count,
            count == segments@.len(),
            forall|i: int|
                0 <= i < segments@.len() && (#[trigger] segments@[i]) is Ok
                    ==> segments@[i]->Ok_0.data@.len() <= segments@[i]->Ok_0.mem_size,
            all == crate::elf::all_seen(segments@),
            *space == *old(space),
            root == space.mapper.root.0,
            frames.home() == old(frames).home(),
            l == (Loading { mem: old(mem)@, frames: old(frames).pending() }),
            segments_loaded(l, root, all, i as int) == (
                Loading { mem: mem@, frames: frames.pending() },
                Ok::<(), RootError>(()),
            ),
        decreases count - i,
    {
        match &segments[i] {
            Err(e) => {
                proof {
                    assert(all[i as int] == Err::<SegmentView, ElfError>(*e));
                    lemma_segments_fail(l, root, all, i + 1, count as int);
                }
                return Err(RootError::Elf(*e));
            },
            Ok(s) => {
                assert(all[i as int] == Ok::<SegmentView, ElfError>(s@));
                match map_segment(space, s, frames, mem) {
                    Ok(_) => {},
                    Err(e) => {
                        proof {
                            lemma_segments_fail(l, root, all, i + 1, count as int);
                        }
                        return Err(e);
                    },
                }
            },
        }
        i = i + 1;
    }
    Ok(())
}

// --- The stack ---

/// What mapping the first `n` pages of stack does, from the top down.
pub open spec fn stack_loaded(l: Loading, root: u64, n: int) -> (Loading, Result<(), RootError>)
    decreases n,
{
    if n <= 0 {
        (l, Ok(()))
    } else {
        match stack_loaded(l, root, n - 1) {
            (w, Err(e)) => (w, Err(e)),
            (w, Ok(_)) => page_loaded(
                w,
                root,
                (STACK_TOP - n * 4096) as u64,
                0,
                Seq::empty(),
                PteFlags(USER_RW),
            ),
        }
    }
}

proof fn lemma_stack_fails(l: Loading, root: u64, n: int, m: int)
    requires
        0 <= n <= m,
        stack_loaded(l, root, n).1 is Err,
    ensures
        stack_loaded(l, root, m) == stack_loaded(l, root, n),
    decreases m - n,
{
    if n < m {
        lemma_stack_fails(l, root, n, m - 1);
    }
}

/// Give the root task a stack.
pub(crate) fn map_stack(space: &mut AddressSpace, frames: &mut BumpAllocator, mem: &mut Memory) -> (r:
    Result<(), RootError>)
    ensures
        *final(space) == *old(space),
        final(frames).home() == old(frames).home(),
        (Loading { mem: final(mem)@, frames: final(frames).pending() }, r) == stack_loaded(
            (Loading { mem: old(mem)@, frames: old(frames).pending() }),
            old(space).mapper.root.0,
            STACK_PAGES as int,
        ),
{
    let ghost l = Loading { mem: mem@, frames: frames.pending() };
    let ghost root = space.mapper.root.0;
    let mut i: u64 = 0;
    while i < STACK_PAGES
        invariant
            i <= STACK_PAGES,
            *space == *old(space),
            root == space.mapper.root.0,
            frames.home() == old(frames).home(),
            l == (Loading { mem: old(mem)@, frames: old(frames).pending() }),
            stack_loaded(l, root, i as int) == (
                Loading { mem: mem@, frames: frames.pending() },
                Ok::<(), RootError>(()),
            ),
        decreases STACK_PAGES - i,
    {
        match map_blank(space, STACK_TOP - (i + 1) * PAGE_SIZE, PteFlags(USER_RW), frames, mem) {
            Ok(_) => {},
            Err(e) => {
                proof {
                    lemma_stack_fails(l, root, i + 1, STACK_PAGES as int);
                }
                return Err(e);
            },
        }
        i = i + 1;
    }
    Ok(())
}

/// Map one fresh page of zeroes.
pub(crate) fn map_blank(
    space: &mut AddressSpace,
    va: u64,
    flags: PteFlags,
    frames: &mut BumpAllocator,
    mem: &mut Memory,
) -> (r: Result<PhysAddr, RootError>)
    ensures
        *final(space) == *old(space),
        final(frames).home() == old(frames).home(),
        ({
            let done = page_loaded(
                Loading { mem: old(mem)@, frames: old(frames).pending() },
                old(space).mapper.root.0,
                va,
                0,
                Seq::empty(),
                flags,
            );
            &&& final(mem)@ == done.0.mem
            &&& final(frames).pending() == done.0.frames
            &&& match done.1 {
                Ok(_) => r is Ok && r->Ok_0.0 == old(frames).pending()[0],
                Err(e) => r is Err && r->Err_0 == e,
            }
        }),
{
    let none: &[u8] = &[];
    assert(none@.subrange(0, 0) =~= Seq::<u8>::empty());
    load_page(space, va, 0, none, 0, 0, flags, frames, mem)
}

// --- What it is given to read ---

/// The pages a region touches.
pub open spec fn pages_in(region: Region) -> int {
    let outer = region.outer_pages();
    if outer.end.0 <= outer.start.0 {
        0
    } else {
        (outer.end.0 - outer.start.0 + 4095) / 4096
    }
}

/// What sharing the first `n` pages of the device tree does.
pub open spec fn tree_shared(l: Loading, root: u64, fdt: Region, n: int) -> (
    Loading,
    Result<(), RootError>,
)
    decreases n,
{
    if n <= 0 {
        (l, Ok(()))
    } else {
        match tree_shared(l, root, fdt, n - 1) {
            (w, Err(e)) => (w, Err(e)),
            (w, Ok(_)) => one_mapped(
                w,
                root,
                (FDT_VADDR + 4096 * (n - 1)) as u64,
                (fdt.outer_pages().start.0 + 4096 * (n - 1)) as u64,
                PteFlags(USER_RO),
            ),
        }
    }
}

proof fn lemma_tree_fails(l: Loading, root: u64, fdt: Region, n: int, m: int)
    requires
        0 <= n <= m,
        tree_shared(l, root, fdt, n).1 is Err,
    ensures
        tree_shared(l, root, fdt, m) == tree_shared(l, root, fdt, n),
    decreases m - n,
{
    if n < m {
        lemma_tree_fails(l, root, fdt, n, m - 1);
    }
}

/// Map the device tree, read-only, at its own address.
pub(crate) fn map_tree(
    space: &mut AddressSpace,
    fdt: Region,
    frames: &mut BumpAllocator,
    mem: &mut Memory,
) -> (r: Result<(), RootError>)
    ensures
        *final(space) == *old(space),
        final(frames).home() == old(frames).home(),
        (Loading { mem: final(mem)@, frames: final(frames).pending() }, r) == tree_shared(
            (Loading { mem: old(mem)@, frames: old(frames).pending() }),
            old(space).mapper.root.0,
            fdt,
            pages_in(fdt),
        ),
{
    let ghost l = Loading { mem: mem@, frames: frames.pending() };
    let ghost root = space.mapper.root.0;
    let outer: Region = fdt.page_aligned_out();
    let first: u64 = outer.start.as_usize();
    let end: u64 = outer.end.as_usize();
    let count: u64 = if end <= first {
        0
    } else {
        (end - first - 1) / PAGE_SIZE + 1
    };
    let mut i: u64 = 0;
    while i < count
        invariant
            i <= count,
            count == pages_in(fdt),
            count > 0 ==> first + 4096 * (count - 1) < end,
            outer == fdt.outer_pages(),
            first == outer.start.0,
            end == outer.end.0,
            i == 0 || FDT_VADDR + 4096 * (i - 1) < 0x40_0000_0000,
            *space == *old(space),
            root == space.mapper.root.0,
            frames.home() == old(frames).home(),
            l == (Loading { mem: old(mem)@, frames: old(frames).pending() }),
            tree_shared(l, root, fdt, i as int) == (
                Loading { mem: mem@, frames: frames.pending() },
                Ok::<(), RootError>(()),
            ),
        decreases count - i,
    {
        match map_one(
            space,
            FDT_VADDR + i * PAGE_SIZE,
            PhysAddr::new(first + i * PAGE_SIZE),
            PteFlags(USER_RO),
            frames,
            mem,
        ) {
            Ok(_) => {},
            Err(e) => {
                proof {
                    lemma_tree_fails(l, root, fdt, i + 1, count as int);
                }
                return Err(e);
            },
        }
        i = i + 1;
    }
    Ok(())
}

/// Pages some bytes take.
pub open spec fn pages_for(len: nat) -> int {
    (len + 4095) as int / 4096
}

/// The bytes that fall in page `i`.
pub open spec fn chunk(bytes: Seq<u8>, i: int) -> Seq<u8> {
    bytes.subrange(
        4096 * i,
        if 4096 * (i + 1) < bytes.len() {
            4096 * (i + 1)
        } else {
            bytes.len() as int
        },
    )
}

/// What mapping the first `n` pages of a module at `at` does.
pub open spec fn module_loaded(l: Loading, root: u64, at: int, bytes: Seq<u8>, n: int) -> (
    Loading,
    Result<(), RootError>,
)
    decreases n,
{
    if n <= 0 {
        (l, Ok(()))
    } else {
        match module_loaded(l, root, at, bytes, n - 1) {
            (w, Err(e)) => (w, Err(e)),
            (w, Ok(_)) => page_loaded(
                w,
                root,
                (at + 4096 * (n - 1)) as u64,
                0,
                chunk(bytes, n - 1),
                PteFlags(USER_RO),
            ),
        }
    }
}

proof fn lemma_module_fails(l: Loading, root: u64, at: int, bytes: Seq<u8>, n: int, m: int)
    requires
        0 <= n <= m,
        module_loaded(l, root, at, bytes, n).1 is Err,
    ensures
        module_loaded(l, root, at, bytes, m) == module_loaded(l, root, at, bytes, n),
    decreases m - n,
{
    if n < m {
        lemma_module_fails(l, root, at, bytes, n, m - 1);
    }
}

/// Copy a boot module into fresh frames and map it read-only.
///
/// The tail stays zero because frames arrive zeroed, so nothing else leaks into
/// the last page.
pub(crate) fn map_module(
    space: &mut AddressSpace,
    at: u64,
    bytes: &[u8],
    frames: &mut BumpAllocator,
    mem: &mut Memory,
) -> (r: Result<(), RootError>)
    requires
        at <= 0x40_0000_0000,
    ensures
        *final(space) == *old(space),
        final(frames).home() == old(frames).home(),
        (Loading { mem: final(mem)@, frames: final(frames).pending() }, r) == module_loaded(
            (Loading { mem: old(mem)@, frames: old(frames).pending() }),
            old(space).mapper.root.0,
            at as int,
            bytes@,
            pages_for(bytes@.len()),
        ),
        r is Ok && at % 4096 == 0 ==> at + 4096 * pages_for(bytes@.len()) <= 0x40_0000_0000,
{
    let ghost l = Loading { mem: mem@, frames: frames.pending() };
    let ghost root = space.mapper.root.0;
    let len: usize = bytes.len();
    let mut done: usize = 0;
    let mut va: u64 = at;
    let ghost mut n: int = 0;
    while done < len
        invariant
            at <= 0x40_0000_0000,
            len == bytes@.len(),
            0 <= n <= pages_for(bytes@.len()),
            done == if 4096 * n < len {
                4096 * n
            } else {
                len as int
            },
            done < len ==> n < pages_for(bytes@.len()),
            va == at + 4096 * n,
            n == 0 || va - 4096 < 0x40_0000_0000,
            *space == *old(space),
            root == space.mapper.root.0,
            frames.home() == old(frames).home(),
            l == (Loading { mem: old(mem)@, frames: old(frames).pending() }),
            module_loaded(l, root, at as int, bytes@, n) == (
                Loading { mem: mem@, frames: frames.pending() },
                Ok::<(), RootError>(()),
            ),
        decreases len - done,
    {
        let count: usize = if len - done < 4096 {
            len - done
        } else {
            4096
        };
        assert(bytes@.subrange(done as int, done + count) =~= chunk(bytes@, n));
        match load_page(space, va, 0, bytes, done, count, PteFlags(USER_RO), frames, mem) {
            Ok(_) => {},
            Err(e) => {
                proof {
                    lemma_module_fails(
                        l,
                        root,
                        at as int,
                        bytes@,
                        n + 1,
                        pages_for(bytes@.len()),
                    );
                }
                return Err(e);
            },
        }
        proof {
            n = n + 1;
        }
        done = done + count;
        va = va + PAGE_SIZE;
    }
    assert(n == pages_for(bytes@.len()));
    Ok(())
}

/// Where module `i` is mapped: after the pages of those before it.
pub open spec fn module_at(modules: Seq<Module>, i: int) -> int
    decreases i,
{
    if i <= 0 {
        MODULE_VADDR as int
    } else {
        module_at(modules, i - 1) + 4096 * pages_for(modules[i - 1].bytes@.len())
    }
}

/// What mapping the first `n` modules does.
pub open spec fn modules_loaded(l: Loading, root: u64, modules: Seq<Module>, n: int) -> (
    Loading,
    Result<(), RootError>,
)
    decreases n,
{
    if n <= 0 {
        (l, Ok(()))
    } else {
        match modules_loaded(l, root, modules, n - 1) {
            (w, Err(e)) => (w, Err(e)),
            (w, Ok(_)) => module_loaded(
                w,
                root,
                module_at(modules, n - 1),
                modules[n - 1].bytes@,
                pages_for(modules[n - 1].bytes@.len()),
            ),
        }
    }
}

proof fn lemma_modules_fail(l: Loading, root: u64, modules: Seq<Module>, n: int, m: int)
    requires
        0 <= n <= m,
        modules_loaded(l, root, modules, n).1 is Err,
    ensures
        modules_loaded(l, root, modules, m) == modules_loaded(l, root, modules, n),
    decreases m - n,
{
    if n < m {
        lemma_modules_fail(l, root, modules, n, m - 1);
    }
}

/// How many modules there is room to describe.
pub open spec fn module_count(modules: Seq<Module>) -> int {
    if modules.len() < MAX_MODULES {
        modules.len() as int
    } else {
        MAX_MODULES as int
    }
}

/// What the root task is told of the modules.
pub open spec fn module_table(modules: Seq<Module>, n: int) -> Seq<ModuleView> {
    Seq::new(
        MAX_MODULES as nat,
        |i: int|
            if i < n {
                ModuleView::named(
                    module_at(modules, i) as u64,
                    modules[i].bytes@.len() as u64,
                    crate::text::bytes_of(modules[i].name@),
                )
            } else {
                ModuleView::empty()
            },
    )
}

/// What an array of module descriptions holds.
pub open spec fn table_view(table: Seq<ModuleDesc>) -> Seq<ModuleView> {
    Seq::new(table.len(), |i: int| table[i]@)
}

/// Map the boot modules read-only, one after another, copied into frames of
/// their own so that no page of the kernel's is ever reachable from userspace.
pub(crate) fn map_modules(
    space: &mut AddressSpace,
    modules: &[Module],
    frames: &mut BumpAllocator,
    mem: &mut Memory,
) -> (r: Result<[ModuleDesc; MAX_MODULES], RootError>)
    ensures
        *final(space) == *old(space),
        final(frames).home() == old(frames).home(),
        ({
            let done = modules_loaded(
                Loading { mem: old(mem)@, frames: old(frames).pending() },
                old(space).mapper.root.0,
                modules@,
                module_count(modules@),
            );
            &&& final(mem)@ == done.0.mem
            &&& final(frames).pending() == done.0.frames
            &&& match done.1 {
                Ok(_) => r is Ok && table_view(r->Ok_0@) == module_table(
                    modules@,
                    module_count(modules@),
                ),
                Err(e) => r is Err && r->Err_0 == e,
            }
        }),
{
    let ghost l = Loading { mem: mem@, frames: frames.pending() };
    let ghost root = space.mapper.root.0;
    let nothing: ModuleDesc = ModuleDesc::empty();
    let mut table: [ModuleDesc; MAX_MODULES] = [nothing;MAX_MODULES];
    let count: usize = if modules.len() < MAX_MODULES {
        modules.len()
    } else {
        MAX_MODULES
    };
    let mut at: u64 = MODULE_VADDR;
    let mut i: usize = 0;
    assert(table_view(table@) =~= module_table(modules@, 0));
    while i < count
        invariant
            i <= count,
            count <= modules@.len(),
            count == module_count(modules@),
            at == module_at(modules@, i as int),
            at % 4096 == 0,
            at <= 0x40_0000_0000,
            table_view(table@) == module_table(modules@, i as int),
            *space == *old(space),
            root == space.mapper.root.0,
            frames.home() == old(frames).home(),
            l == (Loading { mem: old(mem)@, frames: old(frames).pending() }),
            modules_loaded(l, root, modules@, i as int) == (
                Loading { mem: mem@, frames: frames.pending() },
                Ok::<(), RootError>(()),
            ),
        decreases count - i,
    {
        let module: Module = modules[i];
        match map_module(space, at, module.bytes, frames, mem) {
            Ok(_) => {},
            Err(e) => {
                proof {
                    lemma_modules_fail(l, root, modules@, i + 1, count as int);
                }
                return Err(e);
            },
        }
        let len: u64 = module.bytes.len() as u64;
        let ghost before = table@;
        let desc: ModuleDesc = ModuleDesc::new(at, len, module.name);
        table[i] = desc;
        proof {
            assert(table@ =~= before.update(i as int, desc));
            assert forall|k: int| 0 <= k < MAX_MODULES implies #[trigger] table_view(table@)[k]
                == module_table(modules@, i + 1)[k] by {
                assert(table_view(before)[k] == module_table(modules@, i as int)[k]);
            }
            assert(table_view(table@) =~= module_table(modules@, i + 1));
        }
        at = at + (len / PAGE_SIZE + if len % PAGE_SIZE == 0 {
            0u64
        } else {
            1u64
        }) * PAGE_SIZE;
        i = i + 1;
    }
    Ok(table)
}

} // verus!
