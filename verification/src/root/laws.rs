//! What the root task finds in its address space: its image, the boot info and
//! the modules, byte for byte.

use crate::abi::bootinfo::{BootInfoView, INFO_WORDS, VADDR};
use crate::abi::object::ObjectType;
use crate::cap::RawCap;
use crate::elf::{ElfError, SegmentView};
use crate::mm::addr::PhysAddr;
use crate::mm::page_table::{PteFlags, A, D, R, U, USER_RO, USER_RW, V, W, X};
use crate::mm::region::Region;
use crate::root::pages::{Loading, Module, STACK_PAGES, STACK_TOP};
use crate::root::Given;
use vstd::prelude::*;

verus! {

// --- What stays as it was ---

/// Permissions that do not let a page be both written and executed.
pub open spec fn safe() -> Set<PteFlags> {
    Set::new(|f: PteFlags| !(f.has(W) && f.has(X)))
}

/// Whether going from `l` to `l2` leaves the kept frames and every translation
/// as they were.
#[verifier::opaque]
pub open spec fn undisturbed(l: Loading, l2: Loading, root: u64, kept: Seq<u64>) -> bool {
    &&& forall|w: int|
        crate::mm::translation::in_frames(kept, w) ==> #[trigger] l2.mem[w] == l.mem[w]
    &&& forall|b: u64|
        #![trigger crate::mm::page_table::translated(l.mem, root, b)]
        crate::mm::page_table::translated(l.mem, root, b) is Some
            ==> crate::mm::page_table::translated(l2.mem, root, b)
            == crate::mm::page_table::translated(l.mem, root, b)
}

/// Whether going from `l` to `l2` leaves the kept frames and every translation
/// as they were, and the kept frames apart from the tables; and whether no page
/// becomes both writable and executable.
pub open spec fn keeps(l: Loading, l2: Loading, root: u64, kept: Seq<u64>) -> bool {
    &&& crate::mm::keeping::apart(l2.mem, l2.frames + kept, root)
    &&& undisturbed(l, l2, root, kept)
    &&& crate::mm::keeping::permits(l.mem, root, safe()) ==> crate::mm::keeping::permits(
        l2.mem,
        root,
        safe(),
    )
}

pub(crate) proof fn lemma_keeps_self(l: Loading, root: u64, kept: Seq<u64>)
    requires
        crate::mm::keeping::apart(l.mem, l.frames + kept, root),
    ensures
        keeps(l, l, root, kept),
{
    reveal(undisturbed);
}

pub(crate) proof fn lemma_one_mapped(
    l: Loading,
    root: u64,
    va: u64,
    frame: u64,
    flags: PteFlags,
    kept: Seq<u64>,
)
    requires
        crate::mm::keeping::apart(l.mem, l.frames + kept, root),
        crate::root::pages::one_mapped(l, root, va, frame, flags).1 is Ok,
        frame < crate::mm::addr::PHYS_LIMIT,
        flags.0 <= 0xff,
        safe().contains(PteFlags(flags.0 | V)),
    ensures
        keeps(l, crate::root::pages::one_mapped(l, root, va, frame, flags).0, root, kept),
        forall|a: u64|
            va <= a < va + 4096 ==> #[trigger] crate::mm::page_table::translated(
                crate::root::pages::one_mapped(l, root, va, frame, flags).0.mem,
                root,
                a,
            ) == Some((PhysAddr((frame + (a - va)) as u64), PteFlags(flags.0 | V), 0usize)),
{
    reveal(crate::mm::keeping::apart);
    reveal(undisturbed);
    let done = crate::mm::page_table::mapped(l.mem, l.frames, root, va, frame, 0, flags);
    crate::mm::keeping::mapping_leaves_kept_frames_alone(
        l.mem,
        l.frames,
        kept,
        root,
        va,
        frame,
        0,
        flags,
    );
    crate::mm::keeping::lemma_parts(l.frames, kept);
    crate::mm::keeping::lemma_apart_from_fewer(l.mem, l.frames + kept, l.frames, root);
    if crate::mm::keeping::permits(l.mem, root, safe()) {
        crate::mm::keeping::mapping_adds_only_its_own_permissions(
            l.mem,
            l.frames,
            root,
            va,
            frame,
            0,
            flags,
            safe(),
        );
    }
    assert forall|b: u64|
        #![trigger crate::mm::page_table::translated(l.mem, root, b)]
        crate::mm::page_table::translated(l.mem, root, b) is Some implies
        crate::mm::page_table::translated(done.mem, root, b)
        == crate::mm::page_table::translated(l.mem, root, b) by {
        assert(crate::mm::translation::path_avoids(l.mem, l.frames, root, b, 2));
        crate::mm::translation::translations_survive_mapping(
            l.mem,
            l.frames,
            root,
            va,
            frame,
            0,
            flags,
            b,
        );
    }
    crate::mm::addr::lemma_spans();
    assert forall|a: u64| va <= a < va + 4096 implies #[trigger] crate::mm::page_table::translated(
        done.mem,
        root,
        a,
    ) == Some((PhysAddr((frame + (a - va)) as u64), PteFlags(flags.0 | V), 0usize)) by {
        assert(crate::mm::translation::path_avoids(l.mem, l.frames, root, va, 2));
        crate::mm::translation::a_mapped_page_translates(
            l.mem,
            l.frames,
            root,
            va,
            frame,
            0,
            flags,
            a,
        );
    }
}

/// Copying touches no word but those the bytes fall in.
pub(crate) proof fn lemma_copied_words(m: Map<int, u64>, to: int, data: Seq<u8>, w: int)
    requires
        8 * w + 8 <= to || to + data.len() <= 8 * w,
    ensures
        crate::mm::memory::with_bytes(m, to, data)[w] == m[w],
    decreases data.len(),
{
    if data.len() > 0 {
        lemma_copied_words(m, to, data.drop_last(), w);
    }
}

pub(crate) proof fn lemma_zero_byte(i: u64)
    by (bit_vector)
    requires
        i < 64,
    ensures
        (0u64 >> i) & 0xff == 0,
{
}

/// What a page holds that was loaded with `data` from `offset` on.
pub open spec fn page_byte(offset: int, data: Seq<u8>, i: int) -> u8 {
    if offset <= i < offset + data.len() {
        data[i - offset]
    } else {
        0
    }
}

/// Moving the first frame from those in hand to those that are kept changes
/// nothing.
proof fn lemma_moved(m: Map<int, u64>, frames: Seq<u64>, kept: Seq<u64>, root: u64)
    requires
        crate::mm::keeping::apart(m, frames + kept, root),
        frames.len() > 0,
    ensures
        crate::mm::keeping::apart(m, frames.drop_first() + kept.push(frames[0]), root),
{
    reveal(crate::mm::keeping::apart);
    let all = frames + kept;
    let moved = frames.drop_first() + kept.push(frames[0]);
    let n = all.len() - 1;
    assert(moved.len() == all.len());
    assert forall|i: int| 0 <= i < n implies #[trigger] moved[i] == all[i + 1] by {}
    assert(moved[n] == all[0]);
    assert forall|i: int| 0 <= i < moved.len() implies all.contains(#[trigger] moved[i]) by {
        if i < n {
            assert(moved[i] == all[i + 1]);
        }
    }
    assert forall|i: int, j: int|
        0 <= i < moved.len() && 0 <= j < moved.len() && i != j implies moved[i] != moved[j] by {
        let x = if i < n {
            i + 1
        } else {
            0
        };
        let y = if j < n {
            j + 1
        } else {
            0
        };
        assert(moved[i] == all[x] && moved[j] == all[y]);
    }
    crate::mm::keeping::lemma_apart_from_fewer(m, all, moved, root);
}

/// The frame at hand, filled with `data` from `offset` on.
spec fn filled(l: Loading, offset: int, data: Seq<u8>) -> Loading {
    Loading {
        mem: crate::mm::memory::with_bytes(
            crate::mm::memory::with_zero_frame(l.mem, l.frames[0]),
            l.frames[0] + offset,
            data,
        ),
        frames: l.frames.drop_first(),
    }
}

/// Filling a frame that is apart touches nothing else.
proof fn lemma_filled(l: Loading, root: u64, offset: int, data: Seq<u8>, kept: Seq<u64>)
    requires
        crate::mm::keeping::apart(l.mem, l.frames + kept, root),
        l.frames.len() > 0,
        0 <= offset,
        offset + data.len() <= 4096,
    ensures
        ({
            let l2 = filled(l, offset, data);
            let f = l.frames[0];
            &&& crate::mm::keeping::apart(l2.mem, l2.frames + kept.push(f), root)
            &&& f % 4096 == 0
            &&& f < crate::mm::addr::PHYS_LIMIT
            &&& forall|w: int|
                crate::mm::translation::in_frames(kept, w) ==> #[trigger] l2.mem[w] == l.mem[w]
            &&& forall|b: u64| #[trigger]
                crate::mm::page_table::translated(l2.mem, root, b)
                    == crate::mm::page_table::translated(l.mem, root, b)
            &&& crate::mm::keeping::permits(l2.mem, root, safe()) == crate::mm::keeping::permits(
                l.mem,
                root,
                safe(),
            )
        }),
{
    reveal(crate::mm::keeping::apart);
    let f = l.frames[0];
    let all = l.frames + kept;
    let zeroed = crate::mm::memory::with_zero_frame(l.mem, f);
    let l2 = filled(l, offset, data);
    assert(all[0] == f);
    assert(f % 4096 == 0);
    assert forall|w: int|
        !(f as int / 8 <= w < f as int / 8 + 512) implies #[trigger] l2.mem[w] == l.mem[w] by {
        lemma_copied_words(zeroed, f + offset, data, w);
    }
    assert forall|w: int| !crate::mm::translation::in_frames(all, w) implies #[trigger]
        l2.mem[w] == l.mem[w] by {
        if f as int / 8 <= w < f as int / 8 + 512 {
            assert(all[0] as int / 8 <= w < all[0] as int / 8 + 512);
        }
    }
    crate::mm::keeping::writing_apart_changes_no_translation(l.mem, l2.mem, all, root);
    lemma_moved(l2.mem, l.frames, kept, root);
    assert forall|w: int| crate::mm::translation::in_frames(kept, w) implies #[trigger] l2.mem[w]
        == l.mem[w] by {
        crate::mm::keeping::lemma_kept_word(l.frames, kept, w);
        if f as int / 8 <= w < f as int / 8 + 512 {
            assert(l.frames[0] as int / 8 <= w < l.frames[0] as int / 8 + 512);
            assert(crate::mm::translation::in_frames(l.frames, w));
        }
    }
}

/// What a filled frame holds.
proof fn lemma_filled_byte(l: Loading, offset: int, data: Seq<u8>, i: int)
    requires
        l.frames[0] % 4096 == 0,
        0 <= i < 4096,
    ensures
        crate::mm::memory::byte_at(filled(l, offset, data).mem, l.frames[0] + i) == page_byte(
            offset,
            data,
            i,
        ),
{
    let f = l.frames[0];
    let zeroed = crate::mm::memory::with_zero_frame(l.mem, f);
    crate::mm::memory::copying_changes_exactly_its_bytes(zeroed, f + offset, data, f + i);
    assert(zeroed[(f + i) / 8] == 0);
    lemma_zero_byte((8 * ((f + i) % 8)) as u64);
}

/// Loading a page puts exactly its bytes where it is mapped, and leaves what was
/// there before alone.
pub(crate) proof fn lemma_page(
    l: Loading,
    root: u64,
    va: u64,
    offset: int,
    data: Seq<u8>,
    flags: PteFlags,
    kept: Seq<u64>,
)
    requires
        crate::mm::keeping::apart(l.mem, l.frames + kept, root),
        crate::root::pages::page_loaded(l, root, va, offset, data, flags).1 is Ok,
        0 <= offset,
        offset + data.len() <= 4096,
        flags.0 <= 0xff,
        safe().contains(PteFlags(flags.0 | V)),
    ensures
        ({
            let l2 = crate::root::pages::page_loaded(l, root, va, offset, data, flags).0;
            let f = l.frames[0];
            &&& keeps(l, l2, root, kept)
            &&& crate::mm::keeping::apart(l2.mem, l2.frames + kept.push(f), root)
            &&& f % 4096 == 0
            &&& f < crate::mm::addr::PHYS_LIMIT
            &&& forall|a: u64|
                va <= a < va + 4096 ==> #[trigger] crate::mm::page_table::translated(
                    l2.mem,
                    root,
                    a,
                ) == Some((PhysAddr((f + (a - va)) as u64), PteFlags(flags.0 | V), 0usize))
            &&& forall|i: int|
                0 <= i < 4096 ==> #[trigger] crate::mm::memory::byte_at(l2.mem, f + i)
                    == page_byte(offset, data, i)
        }),
{
    reveal(undisturbed);
    let f = l.frames[0];
    let more = kept.push(f);
    let mid = filled(l, offset, data);
    lemma_filled(l, root, offset, data, kept);
    lemma_one_mapped(mid, root, va, f, flags, more);
    let l2 = crate::root::pages::one_mapped(mid, root, va, f, flags).0;
    lemma_fewer_kept(l2, root, kept, f);
    assert forall|w: int| crate::mm::translation::in_frames(kept, w) implies #[trigger] l2.mem[w]
        == l.mem[w] by {
        lemma_in_more(kept, f, w);
        assert(mid.mem[w] == l.mem[w]);
    }
    assert forall|b: u64|
        #![trigger crate::mm::page_table::translated(l.mem, root, b)]
        crate::mm::page_table::translated(l.mem, root, b) is Some implies
        crate::mm::page_table::translated(l2.mem, root, b)
        == crate::mm::page_table::translated(l.mem, root, b) by {
        assert(crate::mm::page_table::translated(mid.mem, root, b)
            == crate::mm::page_table::translated(l.mem, root, b));
    }
    assert forall|i: int| 0 <= i < 4096 implies #[trigger] crate::mm::memory::byte_at(
        l2.mem,
        f + i,
    ) == page_byte(offset, data, i) by {
        let w = (f + i) / 8;
        assert(more[kept.len() as int] == f);
        assert(crate::mm::translation::in_frames(more, w));
        assert(l2.mem[w] == mid.mem[w]);
        lemma_filled_byte(l, offset, data, i);
    }
}

proof fn lemma_in_more(kept: Seq<u64>, f: u64, w: int)
    requires
        crate::mm::translation::in_frames(kept, w),
    ensures
        crate::mm::translation::in_frames(kept.push(f), w),
{
    let i = choose|i: int|
        0 <= i < kept.len() && (#[trigger] kept[i]) as int / 8 <= w < kept[i] as int / 8 + 512;
    assert(kept.push(f)[i] == kept[i]);
}

proof fn lemma_fewer_kept(l: Loading, root: u64, kept: Seq<u64>, f: u64)
    requires
        crate::mm::keeping::apart(l.mem, l.frames + kept.push(f), root),
    ensures
        crate::mm::keeping::apart(l.mem, l.frames + kept, root),
{
    reveal(crate::mm::keeping::apart);
    let all = l.frames + kept.push(f);
    let fewer = l.frames + kept;
    assert(fewer =~= all.drop_last());
    assert forall|i: int| 0 <= i < fewer.len() implies all.contains(#[trigger] fewer[i]) by {
        assert(all[i] == fewer[i]);
    }
    assert forall|i: int, j: int|
        0 <= i < fewer.len() && 0 <= j < fewer.len() && i != j implies fewer[i] != fewer[j] by {
        assert(all[i] == fewer[i] && all[j] == fewer[j]);
    }
    crate::mm::keeping::lemma_apart_from_fewer(l.mem, all, fewer, root);
}

pub(crate) proof fn lemma_keeps_chain(l: Loading, mid: Loading, l2: Loading, root: u64, kept: Seq<u64>)
    requires
        keeps(l, mid, root, kept),
        keeps(mid, l2, root, kept),
    ensures
        keeps(l, l2, root, kept),
{
    reveal(undisturbed);
    assert forall|w: int| crate::mm::translation::in_frames(kept, w) implies #[trigger] l2.mem[w]
        == l.mem[w] by {
        assert(mid.mem[w] == l.mem[w]);
    }
    assert forall|b: u64|
        #![trigger crate::mm::page_table::translated(l.mem, root, b)]
        crate::mm::page_table::translated(l.mem, root, b) is Some implies
        crate::mm::page_table::translated(l2.mem, root, b)
        == crate::mm::page_table::translated(l.mem, root, b) by {
        assert(crate::mm::page_table::translated(mid.mem, root, b)
            == crate::mm::page_table::translated(l.mem, root, b));
    }
}

/// Whether the address `a` leads into the frame `f`, with these permissions, and
/// reads as `value` there.
pub open spec fn sees(m: Map<int, u64>, root: u64, a: u64, f: u64, flags: u64, value: u8) -> bool {
    &&& crate::mm::page_table::translated(m, root, a) == Some(
        (PhysAddr((f + a % 4096) as u64), PteFlags(flags | V), 0usize),
    )
    &&& crate::mm::memory::byte_at(m, f + a % 4096) == value
}

/// What is seen in a kept frame goes on being seen.
pub(crate) proof fn lemma_goes_on(
    l: Loading,
    l2: Loading,
    root: u64,
    kept: Seq<u64>,
    a: u64,
    f: u64,
    flags: u64,
    value: u8,
)
    requires
        keeps(l, l2, root, kept),
        kept.contains(f),
        f % 4096 == 0,
        sees(l.mem, root, a, f, flags, value),
    ensures
        sees(l2.mem, root, a, f, flags, value),
{
    reveal(undisturbed);
    let k = choose|k: int| 0 <= k < kept.len() && kept[k] == f;
    let w = (f + a % 4096) / 8;
    assert(kept[k] as int / 8 <= w < kept[k] as int / 8 + 512);
    assert(crate::mm::translation::in_frames(kept, w));
    assert(l2.mem[w] == l.mem[w]);
}

// --- The image ---

/// What a segment's memory starts out as.
pub open spec fn segment_byte(s: SegmentView, i: int) -> u8 {
    if i < s.data.len() {
        s.data[i]
    } else {
        0
    }
}

proof fn lemma_permission_bits(r: bool, w: bool, x: bool)
    by (bit_vector)
    ensures
        ({
            let base = 0x01u64 | 0x10u64 | 0x40u64;
            let read = if r {
                base | 0x02u64
            } else {
                base
            };
            let write = if w {
                read | (0x04u64 | 0x80u64)
            } else {
                read
            };
            let all = if x {
                write | 0x08u64
            } else {
                write
            };
            &&& all <= 0xff
            &&& all & 0x10 != 0
            &&& (all & 0x02 != 0) == r
            &&& (all & 0x04 != 0) == w
            &&& (all & 0x08 != 0) == x
            &&& ((all | 0x01) & 0x04 == 0x04) == w
            &&& ((all | 0x01) & 0x08 == 0x08) == x
        }),
{
}

pub(crate) proof fn lemma_data_permissions()
    ensures
        USER_RW <= 0xff,
        USER_RO <= 0xff,
        USER_RO | V == USER_RO,
        USER_RW | V == USER_RW,
        safe().contains(PteFlags(USER_RW | V)),
        safe().contains(PteFlags(USER_RO | V)),
{
    crate::mm::page_table::lemma_named_permissions();
    crate::mm::page_table::named_permissions_are_safe();
    lemma_valid_already();
}

proof fn lemma_valid_already()
    by (bit_vector)
    ensures
        USER_RO | V == USER_RO,
        USER_RW | V == USER_RW,
{
}

pub(crate) proof fn lemma_segment_permissions(s: SegmentView)
    ensures
        crate::root::pages::segment_flags(s).0 <= 0xff,
        crate::root::pages::segment_flags(s).0 & U != 0,
        (crate::root::pages::segment_flags(s).0 & R != 0) == s.readable(),
        (crate::root::pages::segment_flags(s).0 & W != 0) == s.writable(),
        (crate::root::pages::segment_flags(s).0 & X != 0) == s.executable(),
        !(s.writable() && s.executable()) ==> safe().contains(
            PteFlags(crate::root::pages::segment_flags(s).0 | V),
        ),
{
    assert(V == 0x01 && R == 0x02 && W == 0x04 && X == 0x08 && U == 0x10 && A == 0x40 && D == 0x80);
    lemma_permission_bits(s.readable(), s.writable(), s.executable());
}

/// A segment's pages are reachable from userspace, and readable, writable and
/// executable exactly as the segment asks.
pub proof fn segment_permissions_are_as_asked(s: SegmentView)
    ensures
        crate::root::pages::segment_flags(s).0 & U != 0,
        (crate::root::pages::segment_flags(s).0 & R != 0) == s.readable(),
        (crate::root::pages::segment_flags(s).0 & W != 0) == s.writable(),
        (crate::root::pages::segment_flags(s).0 & X != 0) == s.executable(),
{
    lemma_segment_permissions(s);
}

/// The bytes of a segment that fall in one of its pages fit in it.
pub(crate) proof fn lemma_page_bytes(s: SegmentView, k: int)
    requires
        0 <= k,
    ensures
        ({
            let va = crate::root::pages::page_of(s.vaddr) + 4096 * k;
            &&& 0 <= crate::root::pages::page_offset(s, va)
            &&& crate::root::pages::page_offset(s, va) + crate::root::pages::page_bytes(s, va).len()
                <= 4096
        }),
{
}

proof fn lemma_pages_keep(
    l: Loading,
    root: u64,
    s: SegmentView,
    from: int,
    n: int,
    kept: Seq<u64>,
)
    requires
        0 <= from <= n,
        !(s.writable() && s.executable()),
        crate::root::pages::pages_loaded(l, root, s, n).1 is Ok,
        crate::mm::keeping::apart(
            crate::root::pages::pages_loaded(l, root, s, from).0.mem,
            crate::root::pages::pages_loaded(l, root, s, from).0.frames + kept,
            root,
        ),
    ensures
        crate::root::pages::pages_loaded(l, root, s, from).1 is Ok,
        keeps(
            crate::root::pages::pages_loaded(l, root, s, from).0,
            crate::root::pages::pages_loaded(l, root, s, n).0,
            root,
            kept,
        ),
    decreases n - from,
{
    if from < n {
        lemma_pages_keep(l, root, s, from, n - 1, kept);
        let before = crate::root::pages::pages_loaded(l, root, s, n - 1).0;
        let va = crate::root::pages::page_of(s.vaddr) + 4096 * (n - 1);
        lemma_page_bytes(s, n - 1);
        lemma_segment_permissions(s);
        lemma_page(
            before,
            root,
            va as u64,
            crate::root::pages::page_offset(s, va),
            crate::root::pages::page_bytes(s, va),
            crate::root::pages::segment_flags(s),
            kept,
        );
        lemma_keeps_chain(
            crate::root::pages::pages_loaded(l, root, s, from).0,
            before,
            crate::root::pages::pages_loaded(l, root, s, n).0,
            root,
            kept,
        );
    } else {
        lemma_keeps_self(crate::root::pages::pages_loaded(l, root, s, from).0, root, kept);
    }
}

/// One byte of a segment that was loaded, and the frame it is in.
#[verifier::rlimit(30)]
proof fn lemma_segment_byte(l: Loading, root: u64, s: SegmentView, i: int) -> (f: u64)
    requires
        crate::mm::keeping::apart(l.mem, l.frames, root),
        crate::root::pages::segment_loaded(l, root, s).1 is Ok,
        s.data.len() <= s.mem_size,
        0 <= i < s.mem_size,
    ensures
        ({
            let l2 = crate::root::pages::segment_loaded(l, root, s).0;
            &&& f % 4096 == 0
            &&& crate::mm::keeping::apart(l2.mem, l2.frames + seq![f], root)
            &&& sees(
                l2.mem,
                root,
                (s.vaddr + i) as u64,
                f,
                crate::root::pages::segment_flags(s).0,
                segment_byte(s, i),
            )
        }),
{
    let n = crate::root::pages::segment_pages(s);
    let a = (s.vaddr + i) as u64;
    let k = (a - crate::root::pages::page_of(s.vaddr)) / 4096;
    let va = crate::root::pages::page_of(s.vaddr) + 4096 * k;
    let flags = crate::root::pages::segment_flags(s);
    let none = Seq::<u64>::empty();
    assert(l.frames + none =~= l.frames);
    assert(crate::root::pages::pages_loaded(l, root, s, 0).0 == l);
    assert(0 <= k < n);
    lemma_pages_fail_early(l, root, s, k + 1, n);
    lemma_pages_keep(l, root, s, 0, k, none);
    let before = crate::root::pages::pages_loaded(l, root, s, k).0;
    let after = crate::root::pages::pages_loaded(l, root, s, k + 1).0;
    let f = before.frames[0];
    lemma_page_bytes(s, k);
    lemma_segment_permissions(s);
    lemma_page(
        before,
        root,
        va as u64,
        crate::root::pages::page_offset(s, va),
        crate::root::pages::page_bytes(s, va),
        flags,
        none,
    );
    assert(none.push(f) =~= seq![f]);
    let j = a - va;
    assert(va % 4096 == 0 && 0 <= j < 4096 && a % 4096 == j);
    assert(crate::mm::memory::byte_at(after.mem, f + j) == page_byte(
        crate::root::pages::page_offset(s, va),
        crate::root::pages::page_bytes(s, va),
        j,
    ));
    assert(page_byte(
        crate::root::pages::page_offset(s, va),
        crate::root::pages::page_bytes(s, va),
        j,
    ) == segment_byte(s, i));
    assert(sees(after.mem, root, a, f, flags.0, segment_byte(s, i)));
    lemma_pages_keep(l, root, s, k + 1, n, seq![f]);
    assert(seq![f][0] == f);
    lemma_goes_on(
        after,
        crate::root::pages::pages_loaded(l, root, s, n).0,
        root,
        seq![f],
        a,
        f,
        flags.0,
        segment_byte(s, i),
    );
    f
}

/// Pages are loaded one after the other, so a later one is only loaded when
/// every earlier one was.
proof fn lemma_pages_fail_early(l: Loading, root: u64, s: SegmentView, from: int, n: int)
    requires
        0 <= from <= n,
        crate::root::pages::pages_loaded(l, root, s, n).1 is Ok,
    ensures
        crate::root::pages::pages_loaded(l, root, s, from).1 is Ok,
    decreases n - from,
{
    if from < n {
        lemma_pages_fail_early(l, root, s, from, n - 1);
    }
}

pub(crate) proof fn lemma_segments_keep(
    l: Loading,
    root: u64,
    segments: Seq<Result<SegmentView, ElfError>>,
    from: int,
    n: int,
    kept: Seq<u64>,
)
    requires
        0 <= from <= n,
        crate::root::pages::segments_loaded(l, root, segments, n).1 is Ok,
        crate::mm::keeping::apart(
            crate::root::pages::segments_loaded(l, root, segments, from).0.mem,
            crate::root::pages::segments_loaded(l, root, segments, from).0.frames + kept,
            root,
        ),
    ensures
        crate::root::pages::segments_loaded(l, root, segments, from).1 is Ok,
        keeps(
            crate::root::pages::segments_loaded(l, root, segments, from).0,
            crate::root::pages::segments_loaded(l, root, segments, n).0,
            root,
            kept,
        ),
    decreases n - from,
{
    if from < n {
        lemma_segments_keep(l, root, segments, from, n - 1, kept);
        let before = crate::root::pages::segments_loaded(l, root, segments, n - 1).0;
        let s = segments[n - 1]->Ok_0;
        assert(crate::root::pages::pages_loaded(before, root, s, 0).0 == before);
        lemma_pages_keep(before, root, s, 0, crate::root::pages::segment_pages(s), kept);
        lemma_keeps_chain(
            crate::root::pages::segments_loaded(l, root, segments, from).0,
            before,
            crate::root::pages::segments_loaded(l, root, segments, n).0,
            root,
            kept,
        );
    } else {
        lemma_keeps_self(crate::root::pages::segments_loaded(l, root, segments, from).0, root, kept);
    }
}

proof fn lemma_segments_fail_early(
    l: Loading,
    root: u64,
    segments: Seq<Result<SegmentView, ElfError>>,
    from: int,
    n: int,
)
    requires
        0 <= from <= n,
        crate::root::pages::segments_loaded(l, root, segments, n).1 is Ok,
    ensures
        crate::root::pages::segments_loaded(l, root, segments, from).1 is Ok,
    decreases n - from,
{
    if from < n {
        lemma_segments_fail_early(l, root, segments, from, n - 1);
    }
}

/// One byte of an image that was loaded, and the frame it is in.
proof fn lemma_image_byte(
    l: Loading,
    root: u64,
    segments: Seq<Result<SegmentView, ElfError>>,
    j: int,
    i: int,
) -> (f: u64)
    requires
        crate::mm::keeping::apart(l.mem, l.frames, root),
        crate::root::pages::segments_loaded(l, root, segments, segments.len() as int).1 is Ok,
        0 <= j < segments.len(),
        segments[j] is Ok,
        segments[j]->Ok_0.data.len() <= segments[j]->Ok_0.mem_size,
        0 <= i < segments[j]->Ok_0.mem_size,
    ensures
        ({
            let l2 = crate::root::pages::segments_loaded(
                l,
                root,
                segments,
                segments.len() as int,
            ).0;
            let s = segments[j]->Ok_0;
            &&& f % 4096 == 0
            &&& crate::mm::keeping::apart(l2.mem, l2.frames + seq![f], root)
            &&& sees(
                l2.mem,
                root,
                (s.vaddr + i) as u64,
                f,
                crate::root::pages::segment_flags(s).0,
                segment_byte(s, i),
            )
        }),
{
    let n = segments.len() as int;
    let s = segments[j]->Ok_0;
    let none = Seq::<u64>::empty();
    assert(l.frames + none =~= l.frames);
    assert(crate::root::pages::segments_loaded(l, root, segments, 0).0 == l);
    lemma_segments_fail_early(l, root, segments, j + 1, n);
    lemma_segments_fail_early(l, root, segments, j, n);
    lemma_segments_keep(l, root, segments, 0, j, none);
    let before = crate::root::pages::segments_loaded(l, root, segments, j).0;
    let after = crate::root::pages::segments_loaded(l, root, segments, j + 1).0;
    assert(before.frames + none =~= before.frames);
    let f = lemma_segment_byte(before, root, s, i);
    lemma_segments_keep(l, root, segments, j + 1, n, seq![f]);
    assert(seq![f][0] == f);
    lemma_goes_on(
        after,
        crate::root::pages::segments_loaded(l, root, segments, n).0,
        root,
        seq![f],
        (s.vaddr + i) as u64,
        f,
        crate::root::pages::segment_flags(s).0,
        segment_byte(s, i),
    );
    f
}

// --- The rest of the address space ---

pub(crate) proof fn lemma_stack_keeps(l: Loading, root: u64, n: int, kept: Seq<u64>)
    requires
        crate::root::pages::stack_loaded(l, root, n).1 is Ok,
        crate::mm::keeping::apart(l.mem, l.frames + kept, root),
    ensures
        keeps(l, crate::root::pages::stack_loaded(l, root, n).0, root, kept),
    decreases n,
{
    if n > 0 {
        lemma_stack_keeps(l, root, n - 1, kept);
        let before = crate::root::pages::stack_loaded(l, root, n - 1).0;
        lemma_data_permissions();
        lemma_page(
            before,
            root,
            (STACK_TOP - n * 4096) as u64,
            0,
            Seq::empty(),
            PteFlags(USER_RW),
            kept,
        );
        lemma_keeps_chain(
            l,
            before,
            crate::root::pages::stack_loaded(l, root, n).0,
            root,
            kept,
        );
    } else {
        lemma_keeps_self(l, root, kept);
    }
}

pub(crate) proof fn lemma_tree_keeps(l: Loading, root: u64, fdt: Region, n: int, kept: Seq<u64>)
    requires
        n <= crate::root::pages::pages_in(fdt),
        fdt.end.0 <= crate::mm::addr::PHYS_LIMIT,
        crate::root::pages::tree_shared(l, root, fdt, n).1 is Ok,
        crate::mm::keeping::apart(l.mem, l.frames + kept, root),
    ensures
        keeps(l, crate::root::pages::tree_shared(l, root, fdt, n).0, root, kept),
    decreases n,
{
    if n > 0 {
        lemma_tree_keeps(l, root, fdt, n - 1, kept);
        let before = crate::root::pages::tree_shared(l, root, fdt, n - 1).0;
        lemma_data_permissions();
        let outer = fdt.outer_pages();
        assert(outer.end.0 <= crate::mm::addr::PHYS_LIMIT);
        assert(outer.start.0 + 4096 * (n - 1) < outer.end.0);
        lemma_one_mapped(
            before,
            root,
            (crate::abi::bootinfo::FDT_VADDR + 4096 * (n - 1)) as u64,
            (outer.start.0 + 4096 * (n - 1)) as u64,
            PteFlags(USER_RO),
            kept,
        );
        lemma_keeps_chain(
            l,
            before,
            crate::root::pages::tree_shared(l, root, fdt, n).0,
            root,
            kept,
        );
    } else {
        lemma_keeps_self(l, root, kept);
    }
}

// --- Modules ---

proof fn lemma_module_keeps(
    l: Loading,
    root: u64,
    at: int,
    bytes: Seq<u8>,
    from: int,
    n: int,
    kept: Seq<u64>,
)
    requires
        0 <= from <= n <= crate::root::pages::pages_for(bytes.len()),
        crate::root::pages::module_loaded(l, root, at, bytes, n).1 is Ok,
        crate::mm::keeping::apart(
            crate::root::pages::module_loaded(l, root, at, bytes, from).0.mem,
            crate::root::pages::module_loaded(l, root, at, bytes, from).0.frames + kept,
            root,
        ),
    ensures
        crate::root::pages::module_loaded(l, root, at, bytes, from).1 is Ok,
        keeps(
            crate::root::pages::module_loaded(l, root, at, bytes, from).0,
            crate::root::pages::module_loaded(l, root, at, bytes, n).0,
            root,
            kept,
        ),
    decreases n - from,
{
    if from < n {
        lemma_module_keeps(l, root, at, bytes, from, n - 1, kept);
        let before = crate::root::pages::module_loaded(l, root, at, bytes, n - 1).0;
        lemma_data_permissions();
        lemma_page(
            before,
            root,
            (at + 4096 * (n - 1)) as u64,
            0,
            crate::root::pages::chunk(bytes, n - 1),
            PteFlags(USER_RO),
            kept,
        );
        lemma_keeps_chain(
            crate::root::pages::module_loaded(l, root, at, bytes, from).0,
            before,
            crate::root::pages::module_loaded(l, root, at, bytes, n).0,
            root,
            kept,
        );
    } else {
        lemma_keeps_self(crate::root::pages::module_loaded(l, root, at, bytes, from).0, root, kept);
    }
}

/// Where a module was loaded was user memory all along.
proof fn lemma_module_range(l: Loading, root: u64, at: int, bytes: Seq<u8>, from: int, n: int)
    requires
        0 <= from <= n,
        0 <= at <= 0x40_0000_0000,
        crate::root::pages::module_loaded(l, root, at, bytes, n).1 is Ok,
    ensures
        crate::root::pages::module_loaded(l, root, at, bytes, from).1 is Ok,
        at + 4096 * n <= 0x40_0000_0000 + 4096,
        n > 0 ==> at + 4096 * (n - 1) < 0x40_0000_0000,
        at % 4096 == 0 ==> at + 4096 * n <= 0x40_0000_0000,
    decreases n,
{
    if n > 0 {
        if from < n {
            lemma_module_range(l, root, at, bytes, from, n - 1);
        } else {
            lemma_module_range(l, root, at, bytes, n - 1, n - 1);
        }
        crate::mm::addr::lemma_spans();
        crate::mm::address_space::lemma_user_range((at + 4096 * (n - 1)) as u64, 4096);
    }
}

/// One byte of a module that was loaded, and the frame it is in.
proof fn lemma_module_byte(
    l: Loading,
    root: u64,
    at: int,
    bytes: Seq<u8>,
    i: int,
    kept: Seq<u64>,
) -> (f: u64)
    requires
        crate::mm::keeping::apart(l.mem, l.frames + kept, root),
        crate::root::pages::module_loaded(
            l,
            root,
            at,
            bytes,
            crate::root::pages::pages_for(bytes.len()),
        ).1 is Ok,
        0 <= at <= 0x40_0000_0000,
        at % 4096 == 0,
        0 <= i < bytes.len(),
    ensures
        ({
            let l2 = crate::root::pages::module_loaded(
                l,
                root,
                at,
                bytes,
                crate::root::pages::pages_for(bytes.len()),
            ).0;
            &&& f % 4096 == 0
            &&& crate::mm::keeping::apart(l2.mem, l2.frames + kept.push(f), root)
            &&& sees(l2.mem, root, (at + i) as u64, f, USER_RO, bytes[i])
        }),
{
    let n = crate::root::pages::pages_for(bytes.len());
    let k = i / 4096;
    lemma_module_range(l, root, at, bytes, k + 1, n);
    lemma_module_range(l, root, at, bytes, k, n);
    assert(crate::root::pages::module_loaded(l, root, at, bytes, 0).0 == l);
    lemma_module_keeps(l, root, at, bytes, 0, k, kept);
    let before = crate::root::pages::module_loaded(l, root, at, bytes, k).0;
    let after = crate::root::pages::module_loaded(l, root, at, bytes, k + 1).0;
    let f = before.frames[0];
    let more = kept.push(f);
    let va = (at + 4096 * k) as u64;
    lemma_data_permissions();
    lemma_page(
        before,
        root,
        va,
        0,
        crate::root::pages::chunk(bytes, k),
        PteFlags(USER_RO),
        kept,
    );
    let a = (at + i) as u64;
    let j = i % 4096;
    assert(a == va + j && va % 4096 == 0 && a % 4096 == j);
    assert(crate::mm::memory::byte_at(after.mem, f + j) == page_byte(
        0,
        crate::root::pages::chunk(bytes, k),
        j,
    ));
    assert(sees(after.mem, root, a, f, USER_RO, bytes[i]));
    lemma_module_keeps(l, root, at, bytes, k + 1, n, more);
    assert(more[kept.len() as int] == f);
    lemma_goes_on(
        after,
        crate::root::pages::module_loaded(l, root, at, bytes, n).0,
        root,
        more,
        a,
        f,
        USER_RO,
        bytes[i],
    );
    f
}

pub(crate) proof fn lemma_modules_keep(
    l: Loading,
    root: u64,
    modules: Seq<Module>,
    from: int,
    n: int,
    kept: Seq<u64>,
)
    requires
        0 <= from <= n <= modules.len(),
        crate::root::pages::modules_loaded(l, root, modules, n).1 is Ok,
        crate::mm::keeping::apart(
            crate::root::pages::modules_loaded(l, root, modules, from).0.mem,
            crate::root::pages::modules_loaded(l, root, modules, from).0.frames + kept,
            root,
        ),
    ensures
        crate::root::pages::modules_loaded(l, root, modules, from).1 is Ok,
        keeps(
            crate::root::pages::modules_loaded(l, root, modules, from).0,
            crate::root::pages::modules_loaded(l, root, modules, n).0,
            root,
            kept,
        ),
    decreases n - from,
{
    if from < n {
        lemma_modules_keep(l, root, modules, from, n - 1, kept);
        let before = crate::root::pages::modules_loaded(l, root, modules, n - 1).0;
        let at = crate::root::pages::module_at(modules, n - 1);
        let bytes = modules[n - 1].bytes@;
        assert(crate::root::pages::module_loaded(before, root, at, bytes, 0).0 == before);
        lemma_module_keeps(
            before,
            root,
            at,
            bytes,
            0,
            crate::root::pages::pages_for(bytes.len()),
            kept,
        );
        lemma_keeps_chain(
            crate::root::pages::modules_loaded(l, root, modules, from).0,
            before,
            crate::root::pages::modules_loaded(l, root, modules, n).0,
            root,
            kept,
        );
    } else {
        lemma_keeps_self(crate::root::pages::modules_loaded(l, root, modules, from).0, root, kept);
    }
}

/// Every module that was loaded starts on a page of user memory.
proof fn lemma_module_starts(l: Loading, root: u64, modules: Seq<Module>, from: int, n: int)
    requires
        0 <= from <= n <= modules.len(),
        crate::root::pages::modules_loaded(l, root, modules, n).1 is Ok,
    ensures
        crate::root::pages::modules_loaded(l, root, modules, from).1 is Ok,
        crate::root::pages::module_at(modules, n) % 4096 == 0,
        0 <= crate::root::pages::module_at(modules, n) <= 0x40_0000_0000,
    decreases n,
{
    if n > 0 {
        if from < n {
            lemma_module_starts(l, root, modules, from, n - 1);
        } else {
            lemma_module_starts(l, root, modules, n - 1, n - 1);
        }
        let bytes = modules[n - 1].bytes@;
        lemma_module_range(
            crate::root::pages::modules_loaded(l, root, modules, n - 1).0,
            root,
            crate::root::pages::module_at(modules, n - 1),
            bytes,
            0,
            crate::root::pages::pages_for(bytes.len()),
        );
    }
}

// --- From first to last ---

/// A fresh root with the kernel's half in it has no tables but the kernel's.
pub(crate) proof fn lemma_fresh_apart(m: Map<int, u64>, frames: Seq<u64>, kernel_root: u64)
    requires
        crate::mm::keeping::apart(m, frames, kernel_root),
        frames.len() > 0,
    ensures
        crate::mm::keeping::apart(
            crate::mm::address_space::with_kernel_half(
                crate::mm::memory::with_zero_frame(m, frames[0]),
                frames[0],
                kernel_root,
            ),
            frames.drop_first(),
            frames[0],
        ),
{
    reveal(crate::mm::keeping::apart);
    let root = frames[0];
    let rest = frames.drop_first();
    let zeroed = crate::mm::memory::with_zero_frame(m, root);
    let m2 = crate::mm::address_space::with_kernel_half(zeroed, root, kernel_root);
    crate::mm::translation::a_fresh_root_is_apart(m, frames);
    assert(!rest.contains(root)) by {
        if rest.contains(root) {
            let i = choose|i: int| 0 <= i < rest.len() && rest[i] == root;
            assert(frames[i + 1] == root);
        }
    }
    assert forall|w: int| !crate::mm::translation::in_frames(frames, w) implies #[trigger] m2[w]
        == m[w] by {
        if root as int / 8 <= w < root as int / 8 + 512 {
            assert(frames[0] as int / 8 <= w < frames[0] as int / 8 + 512);
        }
    }
    assert forall|x: u64| #[trigger] rest.contains(x) implies frames.contains(x) by {
        let i = choose|i: int| 0 <= i < rest.len() && rest[i] == x;
        assert(frames[i + 1] == x);
    }
    assert forall|b: u64| #[trigger]
        crate::mm::translation::path_avoids(m2, rest, root, b, 2) by {
        let index = crate::mm::addr::vpn_of(b, 2);
        let w = crate::mm::page_table::entry_word(root, b, 2);
        assert(0 <= index < 512);
        assert(root % 4096 == 0);
        if index < crate::mm::address_space::KERNEL_ROOT_FIRST {
            assert(m2[w] == 0);
            crate::mm::page_table::lemma_empty_entry();
        } else {
            assert(crate::mm::translation::path_avoids(m, frames, kernel_root, b, 2));
            let x = crate::mm::page_table::entry_word(kernel_root, b, 2);
            crate::mm::translation::lemma_entry_outside_frames(frames, kernel_root, index);
            assert(!(root as int / 8 <= x < root as int / 8 + 512)) by {
                if root as int / 8 <= x < root as int / 8 + 512 {
                    assert(frames[0] as int / 8 <= x < frames[0] as int / 8 + 512);
                    assert(crate::mm::translation::in_frames(frames, x));
                }
            }
            assert(m2[w] == m[x]);
            let e = crate::mm::page_table::entry_for(m, kernel_root, b, 2);
            if e.branch_entry() {
                crate::mm::keeping::lemma_path_unchanged(m, m2, frames, e.target(), b, 1);
                crate::mm::translation::lemma_avoids_fewer(m2, frames, rest, e.target(), b, 1);
            }
        }
    }
}

proof fn lemma_zeroed_words(m: Map<int, u64>, frames: Seq<u64>, n: int, w: int)
    requires
        n <= frames.len(),
        !crate::mm::translation::in_frames(frames, w),
    ensures
        crate::root::blocks::frames_zeroed(m, frames, n)[w] == m[w],
    decreases n,
{
    if n > 0 {
        lemma_zeroed_words(m, frames, n - 1, w);
        if frames[n - 1] as int / 8 <= w < frames[n - 1] as int / 8 + 512 {
            assert(crate::mm::translation::in_frames(frames, w));
        }
    }
}

/// Taking frames for the objects touches nothing but those frames.
pub(crate) proof fn lemma_objects_words(l: Loading, w: int)
    requires
        crate::root::objects_taken(l).1 is Ok,
        !crate::mm::translation::in_frames(l.frames, w),
    ensures
        crate::root::objects_taken(l).0.mem[w] == l.mem[w],
{
    let n = crate::root::blocks::frames_for(l.frames, crate::root::CNODE_BITS)->Some_0;
    vstd::arithmetic::power2::lemma2_to64();
    crate::root::blocks::a_taken_block_is_whole(l.frames, crate::root::CNODE_BITS, 0);
    assert(l.frames.skip(n)[0] == l.frames[n]);
    lemma_zeroed_words(l.mem, l.frames, n, w);
    if l.frames[n] as int / 8 <= w < l.frames[n] as int / 8 + 512 {
        assert(crate::mm::translation::in_frames(l.frames, w));
    }
}

/// Taking frames for the objects touches none of what is kept.
pub(crate) proof fn lemma_objects_keep(l: Loading, root: u64, kept: Seq<u64>)
    requires
        crate::root::objects_taken(l).1 is Ok,
        crate::mm::keeping::apart(l.mem, l.frames + kept, root),
    ensures
        keeps(l, crate::root::objects_taken(l).0, root, kept),
{
    reveal(crate::mm::keeping::apart);
    reveal(undisturbed);
    let n = crate::root::blocks::frames_for(l.frames, crate::root::CNODE_BITS)->Some_0;
    vstd::arithmetic::power2::lemma2_to64();
    crate::root::blocks::a_taken_block_is_whole(l.frames, crate::root::CNODE_BITS, 0);
    let l2 = crate::root::objects_taken(l).0;
    let all = l.frames + kept;
    assert forall|w: int| !crate::mm::translation::in_frames(l.frames, w) implies #[trigger]
        l2.mem[w] == l.mem[w] by {
        lemma_objects_words(l, w);
    }
    assert forall|w: int| !crate::mm::translation::in_frames(all, w) implies #[trigger] l2.mem[w]
        == l.mem[w] by {
        if crate::mm::translation::in_frames(l.frames, w) {
            let i = choose|i: int|
                0 <= i < l.frames.len() && (#[trigger] l.frames[i]) as int / 8 <= w < l.frames[i] as int
                    / 8 + 512;
            assert(all[i] == l.frames[i]);
        }
    }
    crate::mm::keeping::writing_apart_changes_no_translation(l.mem, l2.mem, all, root);
    let left = l2.frames + kept;
    assert forall|i: int| 0 <= i < left.len() implies #[trigger] left[i] == all[i + n + 1] by {}
    assert forall|i: int| 0 <= i < left.len() implies all.contains(#[trigger] left[i]) by {
        assert(left[i] == all[i + n + 1]);
    }
    assert forall|i: int, j: int|
        0 <= i < left.len() && 0 <= j < left.len() && i != j implies left[i] != left[j] by {
        assert(left[i] == all[i + n + 1] && left[j] == all[j + n + 1]);
    }
    crate::mm::keeping::lemma_apart_from_fewer(l2.mem, all, left, root);
    assert forall|w: int| crate::mm::translation::in_frames(kept, w) implies #[trigger] l2.mem[w]
        == l.mem[w] by {
        crate::mm::keeping::lemma_kept_word(l.frames, kept, w);
    }
}

/// The address space with the image in it.
pub open spec fn imaged(l: Loading, root: u64, g: Given) -> Loading {
    let segments = crate::elf::loadable(g.image, crate::elf::table_len(g.image));
    crate::root::pages::segments_loaded(l, root, segments, segments.len() as int).0
}

/// The same with the stack in it.
pub open spec fn stacked(l: Loading, root: u64, g: Given) -> Loading {
    crate::root::pages::stack_loaded(imaged(l, root, g), root, STACK_PAGES as int).0
}

/// The same with a page for the boot info in it.
pub open spec fn informed(l: Loading, root: u64, g: Given) -> Loading {
    crate::root::pages::page_loaded(
        stacked(l, root, g),
        root,
        VADDR,
        0,
        Seq::empty(),
        PteFlags(USER_RO),
    ).0
}

/// The same with the device tree in it.
pub open spec fn shared(l: Loading, root: u64, g: Given) -> Loading {
    crate::root::pages::tree_shared(
        informed(l, root, g),
        root,
        g.fdt,
        crate::root::pages::pages_in(g.fdt),
    ).0
}

/// The stages of an address space that was filled.
pub(crate) proof fn lemma_stages(l: Loading, root: u64, g: Given)
    requires
        crate::root::space_filled(l, root, g).1 is Ok,
    ensures
        ({
            let segments = crate::elf::loadable(g.image, crate::elf::table_len(g.image));
            let count = crate::root::pages::module_count(g.modules);
            let moduled = crate::root::pages::modules_loaded(
                shared(l, root, g),
                root,
                g.modules,
                count,
            );
            &&& crate::root::pages::segments_loaded(
                l,
                root,
                segments,
                segments.len() as int,
            ).1 is Ok
            &&& crate::root::pages::stack_loaded(
                imaged(l, root, g),
                root,
                STACK_PAGES as int,
            ).1 is Ok
            &&& crate::root::pages::page_loaded(
                stacked(l, root, g),
                root,
                VADDR,
                0,
                Seq::empty(),
                PteFlags(USER_RO),
            ).1 is Ok
            &&& crate::root::pages::tree_shared(
                informed(l, root, g),
                root,
                g.fdt,
                crate::root::pages::pages_in(g.fdt),
            ).1 is Ok
            &&& moduled.1 is Ok
            &&& crate::root::space_filled(l, root, g).0 == moduled.0
            &&& crate::root::space_filled(l, root, g).1->Ok_0 == stacked(l, root, g).frames[0]
        }),
{
    reveal(crate::root::space_filled);
}

/// What follows the image touches none of what is kept; nor is it the frame of
/// the boot info.
pub(crate) proof fn lemma_after_the_image(l: Loading, root: u64, g: Given, kept: Seq<u64>)
    requires
        crate::root::space_filled(l, root, g).1 is Ok,
        crate::mm::keeping::apart(
            imaged(l, root, g).mem,
            imaged(l, root, g).frames + kept,
            root,
        ),
    ensures
        keeps(imaged(l, root, g), informed(l, root, g), root, kept),
        crate::root::space_filled(l, root, g).1->Ok_0 == stacked(l, root, g).frames[0],
        crate::mm::keeping::apart(
            informed(l, root, g).mem,
            informed(l, root, g).frames + kept.push(stacked(l, root, g).frames[0]),
            root,
        ),
{
    lemma_stages(l, root, g);
    lemma_stack_keeps(imaged(l, root, g), root, STACK_PAGES as int, kept);
    lemma_data_permissions();
    lemma_page(stacked(l, root, g), root, VADDR, 0, Seq::empty(), PteFlags(USER_RO), kept);
    lemma_keeps_chain(
        imaged(l, root, g),
        stacked(l, root, g),
        informed(l, root, g),
        root,
        kept,
    );
}

pub(crate) proof fn lemma_after_the_info(l: Loading, root: u64, g: Given, kept: Seq<u64>)
    requires
        crate::root::space_filled(l, root, g).1 is Ok,
        crate::root::objects_taken(crate::root::space_filled(l, root, g).0).1 is Ok,
        g.fdt.end.0 <= crate::mm::addr::PHYS_LIMIT,
        crate::mm::keeping::apart(
            informed(l, root, g).mem,
            informed(l, root, g).frames + kept,
            root,
        ),
    ensures
        keeps(informed(l, root, g), shared(l, root, g), root, kept),
        keeps(informed(l, root, g), crate::root::space_filled(l, root, g).0, root, kept),
        keeps(
            informed(l, root, g),
            crate::root::objects_taken(crate::root::space_filled(l, root, g).0).0,
            root,
            kept,
        ),
{
    lemma_stages(l, root, g);
    let count = crate::root::pages::module_count(g.modules);
    lemma_tree_keeps(
        informed(l, root, g),
        root,
        g.fdt,
        crate::root::pages::pages_in(g.fdt),
        kept,
    );
    assert(crate::root::pages::modules_loaded(shared(l, root, g), root, g.modules, 0).0 == shared(
        l,
        root,
        g,
    ));
    lemma_modules_keep(shared(l, root, g), root, g.modules, 0, count, kept);
    let filled = crate::root::space_filled(l, root, g).0;
    lemma_keeps_chain(informed(l, root, g), shared(l, root, g), filled, root, kept);
    lemma_objects_keep(filled, root, kept);
    lemma_keeps_chain(
        informed(l, root, g),
        filled,
        crate::root::objects_taken(filled).0,
        root,
        kept,
    );
}

/// Writing the boot info changes nothing but its own frame.
#[verifier::rlimit(30)]
pub(crate) proof fn lemma_told(
    l: Loading,
    root: u64,
    kept: Seq<u64>,
    info: u64,
    v: BootInfoView,
    a: u64,
    f: u64,
    flags: u64,
    value: u8,
)
    requires
        crate::mm::keeping::apart(l.mem, l.frames + kept, root),
        kept.len() == 2,
        kept.contains(f),
        kept.contains(info),
        kept[0] == f && kept[1] == info || kept[0] == info && kept[1] == f,
        sees(l.mem, root, a, f, flags, value),
    ensures
        sees(crate::abi::bootinfo::with_info(l.mem, info, v), root, a, f, flags, value),
{
    reveal(crate::mm::keeping::apart);
    let m2 = crate::abi::bootinfo::with_info(l.mem, info, v);
    let all = l.frames + kept;
    lemma_info_apart(l, root, kept, info, v);
    let n = l.frames.len() as int;
    assert(all[n] == kept[0] && all[n + 1] == kept[1]);
    assert(f % 4096 == 0 && info % 4096 == 0 && f != info);
    let w = (f + a % 4096) / 8;
    assert(m2[w] == l.mem[w]);
}

pub(crate) proof fn lemma_info_apart(l: Loading, root: u64, kept: Seq<u64>, info: u64, v: BootInfoView)
    requires
        crate::mm::keeping::apart(l.mem, l.frames + kept, root),
        kept.contains(info),
    ensures
        forall|b: u64| #[trigger]
            crate::mm::page_table::translated(
                crate::abi::bootinfo::with_info(l.mem, info, v),
                root,
                b,
            ) == crate::mm::page_table::translated(l.mem, root, b),
{
    reveal(crate::mm::keeping::apart);
    let m2 = crate::abi::bootinfo::with_info(l.mem, info, v);
    let all = l.frames + kept;
    let j = choose|j: int| 0 <= j < kept.len() && kept[j] == info;
    assert(all[l.frames.len() + j] == info);
    assert forall|w: int| !crate::mm::translation::in_frames(all, w) implies #[trigger] m2[w]
        == l.mem[w] by {
        if info as int / 8 <= w < info as int / 8 + INFO_WORDS {
            assert(all[l.frames.len() + j] as int / 8 <= w < all[l.frames.len() + j] as int / 8
                + 512);
        }
    }
    crate::mm::keeping::writing_apart_changes_no_translation(l.mem, m2, all, root);
}

/// The memory a root task is loaded into, its root table in place.
pub open spec fn fresh_space(m: Map<int, u64>, frames: Seq<u64>, g: Given) -> Loading {
    Loading {
        mem: crate::mm::address_space::with_kernel_half(
            crate::mm::memory::with_zero_frame(m, frames[0]),
            frames[0],
            g.kernel_root,
        ),
        frames: frames.drop_first(),
    }
}

/// Whether a root task was loaded, from frames that are not page tables.
pub open spec fn is_loaded(
    k: crate::sched::KernelView,
    frames: Seq<u64>,
    irqs: Seq<crate::irq::Entry>,
    g: Given,
    left: Seq<Region>,
) -> bool {
    &&& crate::mm::keeping::apart(k.objects.mem, frames, g.kernel_root)
    &&& g.fdt.end.0 <= crate::mm::addr::PHYS_LIMIT
    &&& crate::root::loaded(k, frames, irqs, g, left).result is Ok
}

/// What a kernel that loaded a root task leaves in memory, and where its address
/// space is.
pub(crate) proof fn lemma_loaded(
    k: crate::sched::KernelView,
    frames: Seq<u64>,
    irqs: Seq<crate::irq::Entry>,
    g: Given,
    left: Seq<Region>,
)
    requires
        is_loaded(k, frames, irqs, g, left),
    ensures
        ({
            let done = crate::root::loaded(k, frames, irqs, g, left);
            let root = frames[0];
            let l = fresh_space(k.objects.mem, frames, g);
            let filled = crate::root::space_filled(l, root, g);
            let last = crate::root::objects_taken(filled.0);
            &&& crate::elf::image_span(g.image) is Ok
            &&& frames.len() > 0
            &&& was_filled(l, root, g)
            &&& done.result->Ok_0.space.mapper.root.0 == root
            &&& done.result->Ok_0.cnode.paddr.0 == last.1->Ok_0.0
            &&& done.kernel.objects.mem == finished(l, root, g, said(g, left))
            &&& done.kernel.objects.slots == crate::root::blocks_placed(
                crate::root::furnished(
                    k.objects.slots,
                    last.1->Ok_0.0,
                    root,
                    done.result->Ok_0.space.asid,
                    last.1->Ok_0.1,
                    filled.1->Ok_0,
                ),
                last.1->Ok_0.0,
                crate::root::handed_over(left, g.devices),
                crate::root::handed_over(left, g.devices).len() as int,
            )
        }),
{
    reveal(crate::root::loaded);
    lemma_fresh_apart(k.objects.mem, frames, g.kernel_root);
}

/// What the boot info says.
pub open spec fn said(g: Given, left: Seq<Region>) -> BootInfoView {
    crate::root::told(
        g,
        crate::elf::image_span(g.image)->Ok_0,
        crate::root::handed_over(left, g.devices),
    )
}

/// What an address space that was filled comes to, with `v` for the boot info.
pub open spec fn finished(l: Loading, root: u64, g: Given, v: BootInfoView) -> Map<int, u64> {
    crate::abi::bootinfo::with_info(
        crate::root::objects_taken(crate::root::space_filled(l, root, g).0).0.mem,
        crate::root::space_filled(l, root, g).1->Ok_0,
        v,
    )
}

/// Whether an address space was filled and the objects taken, from frames that
/// are not page tables.
pub open spec fn was_filled(l: Loading, root: u64, g: Given) -> bool {
    &&& crate::mm::keeping::apart(l.mem, l.frames, root)
    &&& crate::root::space_filled(l, root, g).1 is Ok
    &&& crate::root::objects_taken(crate::root::space_filled(l, root, g).0).1 is Ok
    &&& g.fdt.end.0 <= crate::mm::addr::PHYS_LIMIT
}

/// What is seen in a kept frame once the image is loaded is seen in the end.
proof fn lemma_seen_in_the_end(
    l: Loading,
    root: u64,
    g: Given,
    v: BootInfoView,
    a: u64,
    f: u64,
    flags: u64,
    value: u8,
)
    requires
        was_filled(l, root, g),
        f % 4096 == 0,
        crate::mm::keeping::apart(
            imaged(l, root, g).mem,
            imaged(l, root, g).frames + seq![f],
            root,
        ),
        sees(imaged(l, root, g).mem, root, a, f, flags, value),
    ensures
        sees(finished(l, root, g, v), root, a, f, flags, value),
{
    let one = seq![f];
    assert(one[0] == f);
    lemma_after_the_image(l, root, g, one);
    lemma_goes_on(imaged(l, root, g), informed(l, root, g), root, one, a, f, flags, value);
    let info = stacked(l, root, g).frames[0];
    let both = one.push(info);
    assert(both[0] == f && both[1] == info);
    lemma_after_the_info(l, root, g, both);
    let last = crate::root::objects_taken(crate::root::space_filled(l, root, g).0).0;
    lemma_goes_on(informed(l, root, g), last, root, both, a, f, flags, value);
    lemma_told(last, root, both, info, v, a, f, flags, value);
}

/// One byte of the image, in the end.
proof fn lemma_image_in_the_end(
    l: Loading,
    root: u64,
    g: Given,
    v: BootInfoView,
    j: int,
    i: int,
) -> (f: u64)
    requires
        was_filled(l, root, g),
        crate::elf::image_span(g.image) is Ok,
        0 <= j < crate::elf::loadable(g.image, crate::elf::table_len(g.image)).len(),
        0 <= i < crate::elf::loadable(g.image, crate::elf::table_len(g.image))[j]->Ok_0.mem_size,
    ensures
        ({
            let s = crate::elf::loadable(g.image, crate::elf::table_len(g.image))[j]->Ok_0;
            sees(
                finished(l, root, g, v),
                root,
                (s.vaddr + i) as u64,
                f,
                crate::root::pages::segment_flags(s).0,
                segment_byte(s, i),
            )
        }),
        f % 4096 == 0,
{
    let segments = crate::elf::loadable(g.image, crate::elf::table_len(g.image));
    crate::elf::segments_lie_in_the_image(g.image, j);
    let s = segments[j]->Ok_0;
    lemma_stages(l, root, g);
    let f = lemma_image_byte(l, root, segments, j, i);
    lemma_seen_in_the_end(
        l,
        root,
        g,
        v,
        (s.vaddr + i) as u64,
        f,
        crate::root::pages::segment_flags(s).0,
        segment_byte(s, i),
    );
    f
}

/// The root task finds its image where the image asks to be: every byte of every
/// segment, zeroes where the file has none, with the permissions of the
/// segment.
pub proof fn the_root_task_finds_its_image(
    k: crate::sched::KernelView,
    frames: Seq<u64>,
    irqs: Seq<crate::irq::Entry>,
    g: Given,
    left: Seq<Region>,
    j: int,
    i: int,
)
    requires
        is_loaded(k, frames, irqs, g, left),
        0 <= j < crate::elf::loadable(g.image, crate::elf::table_len(g.image)).len(),
        0 <= i < crate::elf::loadable(g.image, crate::elf::table_len(g.image))[j]->Ok_0.mem_size,
    ensures
        ({
            let s = crate::elf::loadable(g.image, crate::elf::table_len(g.image))[j]->Ok_0;
            let done = crate::root::loaded(k, frames, irqs, g, left);
            let m = done.kernel.objects.mem;
            let root = done.result->Ok_0.space.mapper.root.0;
            &&& crate::mm::page_table::translated(m, root, (s.vaddr + i) as u64) matches Some(found)
            &&& found.1 == PteFlags(crate::root::pages::segment_flags(s).0 | V)
            &&& crate::mm::memory::byte_at(m, found.0.0 as int) == segment_byte(s, i)
        }),
{
    lemma_loaded(k, frames, irqs, g, left);
    let l = fresh_space(k.objects.mem, frames, g);
    let f = lemma_image_in_the_end(l, frames[0], g, said(g, left), j, i);
}

/// One word of the boot info, in the end.
pub(crate) proof fn lemma_info_in_the_end(l: Loading, root: u64, g: Given, v: BootInfoView, i: int)
    requires
        was_filled(l, root, g),
        0 <= i < INFO_WORDS,
    ensures
        ({
            let m = finished(l, root, g, v);
            &&& crate::mm::page_table::translated(m, root, (VADDR + 8 * i) as u64) matches Some(
                found,
            )
            &&& found.0 == PhysAddr((crate::root::space_filled(l, root, g).1->Ok_0 + 8 * i) as u64)
            &&& found.1 == PteFlags(USER_RO)
            &&& m[found.0.0 as int / 8] == crate::abi::bootinfo::info_word(v, i)
        }),
{
    let segments = crate::elf::loadable(g.image, crate::elf::table_len(g.image));
    let none = Seq::<u64>::empty();
    lemma_stages(l, root, g);
    assert(l.frames + none =~= l.frames);
    assert(crate::root::pages::segments_loaded(l, root, segments, 0).0 == l);
    lemma_segments_keep(l, root, segments, 0, segments.len() as int, none);
    lemma_stack_keeps(imaged(l, root, g), root, STACK_PAGES as int, none);
    lemma_data_permissions();
    lemma_page(stacked(l, root, g), root, VADDR, 0, Seq::empty(), PteFlags(USER_RO), none);
    let info = stacked(l, root, g).frames[0];
    let one = none.push(info);
    assert(one[0] == info);
    let a = (VADDR + 8 * i) as u64;
    let there = crate::mm::page_table::translated(informed(l, root, g).mem, root, a);
    assert(there == Some((PhysAddr((info + 8 * i) as u64), PteFlags(USER_RO), 0usize)));
    lemma_after_the_info(l, root, g, one);
    let last = crate::root::objects_taken(crate::root::space_filled(l, root, g).0).0;
    assert(crate::mm::page_table::translated(last.mem, root, a) == there) by {
        reveal(undisturbed);
    }
    lemma_info_apart(last, root, one, info, v);
}

/// The root task finds what the kernel tells it at the address of the boot info,
/// and cannot change it.
pub proof fn the_root_task_finds_the_boot_info(
    k: crate::sched::KernelView,
    frames: Seq<u64>,
    irqs: Seq<crate::irq::Entry>,
    g: Given,
    left: Seq<Region>,
    i: int,
)
    requires
        is_loaded(k, frames, irqs, g, left),
        0 <= i < INFO_WORDS,
    ensures
        ({
            let done = crate::root::loaded(k, frames, irqs, g, left);
            let m = done.kernel.objects.mem;
            let root = done.result->Ok_0.space.mapper.root.0;
            &&& crate::mm::page_table::translated(m, root, (VADDR + 8 * i) as u64) matches Some(
                found,
            )
            &&& found.1 == PteFlags(USER_RO)
            &&& m[found.0.0 as int / 8] == crate::abi::bootinfo::info_word(said(g, left), i)
        }),
{
    lemma_loaded(k, frames, irqs, g, left);
    let l = fresh_space(k.objects.mem, frames, g);
    lemma_info_in_the_end(l, frames[0], g, said(g, left), i);
}

/// One byte of one of the modules that were loaded, and the frame it is in.
proof fn lemma_modules_byte(
    start: Loading,
    root: u64,
    modules: Seq<Module>,
    count: int,
    j: int,
    i: int,
    kept: Seq<u64>,
) -> (f: u64)
    requires
        0 <= j < count <= modules.len(),
        0 <= i < modules[j].bytes@.len(),
        crate::root::pages::modules_loaded(start, root, modules, count).1 is Ok,
        crate::mm::keeping::apart(start.mem, start.frames + kept, root),
    ensures
        ({
            let l2 = crate::root::pages::modules_loaded(start, root, modules, count).0;
            let at = crate::root::pages::module_at(modules, j);
            &&& f % 4096 == 0
            &&& crate::mm::keeping::apart(l2.mem, l2.frames + kept.push(f), root)
            &&& sees(l2.mem, root, (at + i) as u64, f, USER_RO, modules[j].bytes@[i])
            &&& 0 <= at
            &&& at + modules[j].bytes@.len() <= 0x40_0000_0000
        }),
{
    let bytes = modules[j].bytes@;
    let at = crate::root::pages::module_at(modules, j);
    assert(crate::root::pages::modules_loaded(start, root, modules, 0).0 == start);
    lemma_module_starts(start, root, modules, j + 1, count);
    lemma_module_starts(start, root, modules, j, j + 1);
    lemma_module_starts(start, root, modules, j, j);
    lemma_modules_keep(start, root, modules, 0, j, kept);
    let before = crate::root::pages::modules_loaded(start, root, modules, j).0;
    let after = crate::root::pages::modules_loaded(start, root, modules, j + 1).0;
    let f = lemma_module_byte(before, root, at, bytes, i, kept);
    let more = kept.push(f);
    assert(more[kept.len() as int] == f);
    lemma_modules_keep(start, root, modules, j + 1, count, more);
    let l2 = crate::root::pages::modules_loaded(start, root, modules, count).0;
    lemma_goes_on(after, l2, root, more, (at + i) as u64, f, USER_RO, bytes[i]);
    lemma_module_range(
        before,
        root,
        at,
        bytes,
        0,
        crate::root::pages::pages_for(bytes.len()),
    );
    f
}

/// With everything but the modules in it, an address space is still apart from
/// the frame of the boot info.
proof fn lemma_shared_apart(l: Loading, root: u64, g: Given)
    requires
        crate::mm::keeping::apart(l.mem, l.frames, root),
        crate::root::space_filled(l, root, g).1 is Ok,
        g.fdt.end.0 <= crate::mm::addr::PHYS_LIMIT,
    ensures
        crate::mm::keeping::apart(
            shared(l, root, g).mem,
            shared(l, root, g).frames + seq![stacked(l, root, g).frames[0]],
            root,
        ),
{
    lemma_stages(l, root, g);
    let segments = crate::elf::loadable(g.image, crate::elf::table_len(g.image));
    let none = Seq::<u64>::empty();
    assert(l.frames + none =~= l.frames);
    assert(crate::root::pages::segments_loaded(l, root, segments, 0).0 == l);
    lemma_segments_keep(l, root, segments, 0, segments.len() as int, none);
    lemma_after_the_image(l, root, g, none);
    let info = stacked(l, root, g).frames[0];
    assert(none.push(info) =~= seq![info]);
    lemma_tree_keeps(
        informed(l, root, g),
        root,
        g.fdt,
        crate::root::pages::pages_in(g.fdt),
        seq![info],
    );
}

/// One byte of one of the modules, in the end.
proof fn lemma_module_in_the_end(
    l: Loading,
    root: u64,
    g: Given,
    v: BootInfoView,
    j: int,
    i: int,
) -> (f: u64)
    requires
        was_filled(l, root, g),
        0 <= j < crate::root::pages::module_count(g.modules),
        0 <= i < g.modules[j].bytes@.len(),
    ensures
        ({
            let at = crate::root::pages::module_at(g.modules, j);
            &&& sees(
                finished(l, root, g, v),
                root,
                (at + i) as u64,
                f,
                USER_RO,
                g.modules[j].bytes@[i],
            )
            &&& 0 <= at
            &&& at + g.modules[j].bytes@.len() <= 0x40_0000_0000
        }),
        f % 4096 == 0,
{
    lemma_shared_apart(l, root, g);
    lemma_stages(l, root, g);
    let info = stacked(l, root, g).frames[0];
    let one = seq![info];
    assert(one[0] == info);
    let count = crate::root::pages::module_count(g.modules);
    let byte = g.modules[j].bytes@[i];
    let a = (crate::root::pages::module_at(g.modules, j) + i) as u64;
    let f = lemma_modules_byte(shared(l, root, g), root, g.modules, count, j, i, one);
    let both = one.push(f);
    assert(both[0] == info && both[1] == f);
    let filled = crate::root::space_filled(l, root, g).0;
    lemma_objects_keep(filled, root, both);
    let last = crate::root::objects_taken(filled).0;
    lemma_goes_on(filled, last, root, both, a, f, USER_RO, byte);
    lemma_told(last, root, both, info, v, a, f, USER_RO, byte);
    f
}

/// The root task finds every byte of every module that was carried in, where the
/// boot info says that the module is, and cannot change it.
pub proof fn the_root_task_finds_its_modules(
    k: crate::sched::KernelView,
    frames: Seq<u64>,
    irqs: Seq<crate::irq::Entry>,
    g: Given,
    left: Seq<Region>,
    j: int,
    i: int,
)
    requires
        is_loaded(k, frames, irqs, g, left),
        0 <= j < crate::root::pages::module_count(g.modules),
        0 <= i < g.modules[j].bytes@.len(),
    ensures
        ({
            let done = crate::root::loaded(k, frames, irqs, g, left);
            let m = done.kernel.objects.mem;
            let root = done.result->Ok_0.space.mapper.root.0;
            let module = said(g, left).modules[j];
            &&& module.size == g.modules[j].bytes@.len()
            &&& crate::mm::page_table::translated(m, root, (module.vaddr + i) as u64) matches Some(
                found,
            )
            &&& found.1 == PteFlags(USER_RO)
            &&& crate::mm::memory::byte_at(m, found.0.0 as int) == g.modules[j].bytes@[i]
        }),
{
    lemma_loaded(k, frames, irqs, g, left);
    let l = fresh_space(k.objects.mem, frames, g);
    let f = lemma_module_in_the_end(l, frames[0], g, said(g, left), j, i);
    lemma_data_permissions();
}

/// Nothing in a fresh root but the kernel's own pages.
proof fn lemma_fresh_permits(m: Map<int, u64>, frames: Seq<u64>, kernel_root: u64)
    requires
        crate::mm::keeping::apart(m, frames, kernel_root),
        crate::mm::keeping::permits(m, kernel_root, safe()),
        frames.len() > 0,
    ensures
        crate::mm::keeping::permits(
            crate::mm::address_space::with_kernel_half(
                crate::mm::memory::with_zero_frame(m, frames[0]),
                frames[0],
                kernel_root,
            ),
            frames[0],
            safe(),
        ),
{
    reveal(crate::mm::keeping::apart);
    let root = frames[0];
    let zeroed = crate::mm::memory::with_zero_frame(m, root);
    let m2 = crate::mm::address_space::with_kernel_half(zeroed, root, kernel_root);
    assert(root % 4096 == 0);
    assert forall|w: int| !crate::mm::translation::in_frames(frames, w) implies #[trigger] m2[w]
        == m[w] by {
        if root as int / 8 <= w < root as int / 8 + 512 {
            assert(frames[0] as int / 8 <= w < frames[0] as int / 8 + 512);
        }
    }
    assert forall|b: u64| #[trigger] crate::mm::keeping::within(m2, root, b, 2, safe()) by {
        let index = crate::mm::addr::vpn_of(b, 2);
        let w = crate::mm::page_table::entry_word(root, b, 2);
        assert(0 <= index < 512);
        if index < crate::mm::address_space::KERNEL_ROOT_FIRST {
            assert(m2[w] == 0);
            crate::mm::page_table::lemma_empty_entry();
        } else {
            assert(crate::mm::translation::path_avoids(m, frames, kernel_root, b, 2));
            assert(crate::mm::keeping::within(m, kernel_root, b, 2, safe()));
            let x = crate::mm::page_table::entry_word(kernel_root, b, 2);
            crate::mm::translation::lemma_entry_outside_frames(frames, kernel_root, index);
            assert(!(root as int / 8 <= x < root as int / 8 + 512)) by {
                if root as int / 8 <= x < root as int / 8 + 512 {
                    assert(frames[0] as int / 8 <= x < frames[0] as int / 8 + 512);
                    assert(crate::mm::translation::in_frames(frames, x));
                }
            }
            assert(m2[w] == m[x]);
            let e = crate::mm::page_table::entry_for(m, kernel_root, b, 2);
            if e.branch_entry() {
                crate::mm::keeping::lemma_translation_unchanged(
                    m,
                    m2,
                    frames,
                    e.target(),
                    b,
                    1,
                );
            }
        }
    }
}

/// Writing the boot info changes no translation, and loading made no page both
/// writable and executable.
pub(crate) proof fn lemma_translations_in_the_end(
    l: Loading,
    root: u64,
    g: Given,
    v: BootInfoView,
    a: u64,
)
    requires
        was_filled(l, root, g),
    ensures
        ({
            let last = crate::root::objects_taken(crate::root::space_filled(l, root, g).0).0;
            &&& crate::mm::page_table::translated(finished(l, root, g, v), root, a)
                == crate::mm::page_table::translated(last.mem, root, a)
            &&& crate::mm::keeping::permits(l.mem, root, safe())
                ==> crate::mm::keeping::permits(last.mem, root, safe())
        }),
{
    let segments = crate::elf::loadable(g.image, crate::elf::table_len(g.image));
    let none = Seq::<u64>::empty();
    lemma_stages(l, root, g);
    assert(l.frames + none =~= l.frames);
    assert(crate::root::pages::segments_loaded(l, root, segments, 0).0 == l);
    lemma_segments_keep(l, root, segments, 0, segments.len() as int, none);
    lemma_after_the_image(l, root, g, none);
    let info = stacked(l, root, g).frames[0];
    let one = none.push(info);
    assert(one[0] == info);
    lemma_after_the_info(l, root, g, one);
    let last = crate::root::objects_taken(crate::root::space_filled(l, root, g).0).0;
    lemma_info_apart(last, root, one, info, v);
}

/// The permissions of one page, in the end.
proof fn lemma_permissions_in_the_end(l: Loading, root: u64, g: Given, v: BootInfoView, a: u64)
    requires
        was_filled(l, root, g),
        crate::mm::keeping::permits(l.mem, root, safe()),
    ensures
        crate::mm::page_table::translated(finished(l, root, g, v), root, a) matches Some(found)
            ==> !(found.1.has(W) && found.1.has(X)),
{
    let last = crate::root::objects_taken(crate::root::space_filled(l, root, g).0).0;
    lemma_translations_in_the_end(l, root, g, v, a);
    assert(crate::mm::keeping::within(last.mem, root, a, 2, safe()));
}

/// No address of the root task, nor of the kernel while it runs, can be both
/// written and executed, provided that the kernel's own pages cannot.
pub proof fn the_root_task_never_writes_what_it_executes(
    k: crate::sched::KernelView,
    frames: Seq<u64>,
    irqs: Seq<crate::irq::Entry>,
    g: Given,
    left: Seq<Region>,
    a: u64,
)
    requires
        is_loaded(k, frames, irqs, g, left),
        crate::mm::keeping::permits(k.objects.mem, g.kernel_root, safe()),
    ensures
        ({
            let done = crate::root::loaded(k, frames, irqs, g, left);
            let root = done.result->Ok_0.space.mapper.root.0;
            crate::mm::page_table::translated(done.kernel.objects.mem, root, a) matches Some(found)
                ==> !(found.1.has(W) && found.1.has(X))
        }),
{
    lemma_loaded(k, frames, irqs, g, left);
    lemma_fresh_permits(k.objects.mem, frames, g.kernel_root);
    let l = fresh_space(k.objects.mem, frames, g);
    lemma_permissions_in_the_end(l, frames[0], g, said(g, left), a);
}

// --- Its capabilities ---

/// Placing the blocks fills the slots from the first of theirs on, in order,
/// and none after.
proof fn lemma_placed(
    d: crate::cap::slot::Derivation,
    cnode: u64,
    descs: Seq<crate::abi::bootinfo::UntypedDesc>,
    n: int,
    i: int,
)
    requires
        cnode < crate::mm::addr::PHYS_LIMIT,
        0 <= n <= descs.len() <= crate::abi::bootinfo::MAX_UNTYPED,
        0 <= i < crate::root::CNODE_SLOTS,
    ensures
        ({
            let slot = crate::cap::slot::slot_address(cnode, i);
            let placed = crate::root::blocks_placed(d, cnode, descs, n);
            let first = crate::abi::slot::FIRST_UNTYPED;
            &&& placed.caps[slot] == if first <= i < first + n {
                crate::root::block_cap(descs[i - first])
            } else {
                d.caps[slot]
            }
            &&& placed.parent == d.parent
        }),
    decreases n,
{
    if n > 0 {
        lemma_placed(d, cnode, descs, n - 1, i);
        let last = crate::abi::slot::FIRST_UNTYPED + n - 1;
        if i != last {
            assert(crate::cap::slot::slot_address(cnode, last) != crate::cap::slot::slot_address(
                cnode,
                i,
            ));
        }
    }
}

/// The root CNode lies in memory, and what is in it.
pub(crate) proof fn lemma_root_cnode(
    k: crate::sched::KernelView,
    frames: Seq<u64>,
    irqs: Seq<crate::irq::Entry>,
    g: Given,
    left: Seq<Region>,
    i: int,
)
    requires
        is_loaded(k, frames, irqs, g, left),
        0 <= i < crate::root::CNODE_SLOTS,
    ensures
        ({
            let done = crate::root::loaded(k, frames, irqs, g, left);
            let cnode = done.result->Ok_0.cnode.paddr.0;
            let slot = crate::cap::slot::slot_address(cnode, i);
            let first = crate::abi::slot::FIRST_UNTYPED;
            let descs = crate::root::handed_over(left, g.devices);
            &&& first <= i < first + descs.len() ==> done.kernel.objects.slots.caps[slot]
                == crate::root::block_cap(descs[i - first])
            &&& i == crate::abi::slot::NULL || i == crate::abi::slot::ENDPOINT || first
                + descs.len() <= i ==> done.kernel.objects.slots.caps[slot].kind is Null
            &&& done.kernel.objects.slots.parent[slot] is None
            &&& i == 1 ==> done.kernel.objects.slots.caps[slot] == crate::root::cnode_cap(cnode)
            &&& i == 2 ==> done.kernel.objects.slots.caps[slot] == RawCap {
                asid: done.result->Ok_0.space.asid.0,
                ..RawCap::plain(
                    ObjectType::PageTable,
                    7,
                    12,
                    done.result->Ok_0.space.mapper.root,
                )
            }
            &&& i == 3 ==> done.kernel.objects.slots.caps[slot] == RawCap::plain(
                ObjectType::Tcb,
                7,
                12,
                PhysAddr(
                    crate::root::objects_taken(
                        crate::root::space_filled(
                            fresh_space(k.objects.mem, frames, g),
                            frames[0],
                            g,
                        ).0,
                    ).1->Ok_0.1,
                ),
            )
            &&& i == 4 ==> done.kernel.objects.slots.caps[slot] == RawCap {
                w0: done.result->Ok_0.space.mapper.root.0,
                w1: 0x3000_0000,
                ..RawCap::plain(
                    ObjectType::Frame,
                    1,
                    12,
                    PhysAddr(
                        crate::root::space_filled(
                            fresh_space(k.objects.mem, frames, g),
                            frames[0],
                            g,
                        ).1->Ok_0,
                    ),
                )
            }
            &&& i == 5 ==> done.kernel.objects.slots.caps[slot] == RawCap::plain(
                ObjectType::IrqControl,
                7,
                0,
                PhysAddr(0),
            )
            &&& cnode < crate::mm::addr::PHYS_LIMIT
            &&& done.result->Ok_0.space.mapper.root.0 < crate::mm::addr::PHYS_LIMIT
        }),
{
    let root = frames[0];
    let l = fresh_space(k.objects.mem, frames, g);
    lemma_loaded(k, frames, irqs, g, left);
    assert(root < crate::mm::addr::PHYS_LIMIT) by {
        reveal(crate::mm::keeping::apart);
    }
    lemma_stages(l, root, g);
    lemma_shared_apart(l, root, g);
    let one = seq![stacked(l, root, g).frames[0]];
    let start = shared(l, root, g);
    assert(crate::root::pages::modules_loaded(start, root, g.modules, 0).0 == start);
    lemma_modules_keep(
        start,
        root,
        g.modules,
        0,
        crate::root::pages::module_count(g.modules),
        one,
    );
    let filled = crate::root::space_filled(l, root, g).0;
    vstd::arithmetic::power2::lemma2_to64();
    crate::root::blocks::a_taken_block_is_whole(filled.frames, crate::root::CNODE_BITS, 0);
    let n = crate::root::blocks::frames_for(filled.frames, crate::root::CNODE_BITS)->Some_0;
    let at = n - crate::root::blocks::frames_in_block(crate::root::CNODE_BITS);
    let cnode = filled.frames[at];
    assert((filled.frames + one)[at] == cnode);
    assert(cnode < crate::mm::addr::PHYS_LIMIT) by {
        reveal(crate::mm::keeping::apart);
    }
    let descs = crate::root::handed_over(left, g.devices);
    let done = crate::root::loaded(k, frames, irqs, g, left);
    let d = crate::root::furnished(
        k.objects.slots,
        cnode,
        root,
        done.result->Ok_0.space.asid,
        crate::root::objects_taken(filled).1->Ok_0.1,
        stacked(l, root, g).frames[0],
    );
    crate::cap::cspace::lemma_wiped_range(
        k.objects.slots,
        cnode,
        crate::root::CNODE_SLOTS as nat,
        i,
    );
    lemma_placed(d, cnode, descs, descs.len() as int, i);
    assert forall|j: int| 0 <= j < crate::root::CNODE_SLOTS && j != i implies #[trigger]
        crate::cap::slot::slot_address(cnode, j) != crate::cap::slot::slot_address(cnode, i) by {}
}

/// Two of the root task's slots start out empty: the null slot, so that an
/// address of zero names nothing, and the one that is kept for an endpoint.
pub proof fn the_null_and_endpoint_slots_are_empty(
    k: crate::sched::KernelView,
    frames: Seq<u64>,
    irqs: Seq<crate::irq::Entry>,
    g: Given,
    left: Seq<Region>,
)
    requires
        is_loaded(k, frames, irqs, g, left),
    ensures
        ({
            let done = crate::root::loaded(k, frames, irqs, g, left);
            let cnode = done.result->Ok_0.cnode.paddr.0;
            let caps = done.kernel.objects.slots.caps;
            let null = crate::cap::slot::slot_address(cnode, crate::abi::slot::NULL as int);
            let endpoint = crate::cap::slot::slot_address(
                cnode,
                crate::abi::slot::ENDPOINT as int,
            );
            &&& caps[null].kind is Null
            &&& caps[endpoint].kind is Null
        }),
{
    lemma_root_cnode(k, frames, irqs, g, left, crate::abi::slot::NULL as int);
    lemma_root_cnode(k, frames, irqs, g, left, crate::abi::slot::ENDPOINT as int);
}

/// The root task holds what the boot info says it does: block `i` of the boot
/// info is the object of the capability in the `i`th slot after the first for
/// untyped memory.
pub proof fn the_root_task_holds_what_it_is_told(
    k: crate::sched::KernelView,
    frames: Seq<u64>,
    irqs: Seq<crate::irq::Entry>,
    g: Given,
    left: Seq<Region>,
    i: int,
)
    requires
        is_loaded(k, frames, irqs, g, left),
        0 <= i < said(g, left).untyped_count,
    ensures
        ({
            let done = crate::root::loaded(k, frames, irqs, g, left);
            let cnode = done.result->Ok_0.cnode.paddr.0;
            done.kernel.objects.slots.caps[crate::cap::slot::slot_address(
                cnode,
                said(g, left).first_untyped + i,
            )] == crate::root::block_cap(said(g, left).untyped[i])
        }),
{
    lemma_root_cnode(k, frames, irqs, g, left, crate::abi::slot::FIRST_UNTYPED + i);
}

/// Nothing the root task starts with is derived from anything: revoking one of
/// its capabilities destroys no other, and not the space they are stored in.
pub proof fn nothing_it_starts_with_is_derived(
    k: crate::sched::KernelView,
    frames: Seq<u64>,
    irqs: Seq<crate::irq::Entry>,
    g: Given,
    left: Seq<Region>,
    i: int,
    other: u64,
)
    requires
        is_loaded(k, frames, irqs, g, left),
        0 <= i < crate::root::CNODE_SLOTS,
    ensures
        ({
            let done = crate::root::loaded(k, frames, irqs, g, left);
            let slots = done.kernel.objects.slots;
            let slot = crate::cap::slot::slot_address(done.result->Ok_0.cnode.paddr.0, i);
            &&& !slots.descends(slot, other)
            &&& slot != other ==> slots.revoked(other).caps[slot] == slots.caps[slot]
        }),
{
    lemma_root_cnode(k, frames, irqs, g, left, i);
    let done = crate::root::loaded(k, frames, irqs, g, left);
    let slots = done.kernel.objects.slots;
    let slot = crate::cap::slot::slot_address(done.result->Ok_0.cnode.paddr.0, i);
    if slots.descends(slot, other) {
        crate::cap::slot::lemma_descends_from(slots, slot, other);
    }
    crate::cap::slot::revocation_reaches_exactly_the_derivatives(slots, other, slot);
}

/// The slots that the boot info calls free are free.
pub proof fn the_free_slots_are_free(
    k: crate::sched::KernelView,
    frames: Seq<u64>,
    irqs: Seq<crate::irq::Entry>,
    g: Given,
    left: Seq<Region>,
    i: int,
)
    requires
        is_loaded(k, frames, irqs, g, left),
        said(g, left).first_free_slot <= i < said(g, left).cnode_slots,
    ensures
        ({
            let done = crate::root::loaded(k, frames, irqs, g, left);
            let cnode = done.result->Ok_0.cnode.paddr.0;
            done.kernel.objects.slots.caps[crate::cap::slot::slot_address(cnode, i)].kind is Null
        }),
{
    lemma_root_cnode(k, frames, irqs, g, left, i);
}

} // verus!
