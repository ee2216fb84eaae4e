//! What a program finds in the address space that is made for it.

use crate::demo::{USER_STACK, USER_TEXT};
use crate::mm::addr::PhysAddr;
use crate::mm::page_table::{PteFlags, USER_RW, USER_RX};
use crate::root::pages::Loading;
use vstd::prelude::*;

verus! {

/// The memory of a program's two pages, before its address space is made.
spec fn pages_written(l: Loading, words: Seq<u32>) -> Map<int, u64> {
    crate::mm::memory::with_bytes(
        crate::mm::memory::with_zero_frame(
            crate::mm::memory::with_zero_frame(l.mem, l.frames[0]),
            l.frames[1],
        ),
        l.frames[0] as int,
        crate::uprog::program_bytes(words),
    )
}

/// The byte of a program's text page at offset `i`: the program's, or zero past
/// its end.
pub open spec fn text_byte(words: Seq<u32>, i: int) -> u8 {
    if i < 4 * words.len() {
        crate::mm::memory::byte_of(words[i / 4] as u64, i % 4)
    } else {
        0
    }
}

/// A byte of a frame that was cleared.
proof fn lemma_zero_at(m: Map<int, u64>, a: int)
    requires
        m[a / 8] == 0,
    ensures
        crate::mm::memory::byte_at(m, a) == 0,
{
    crate::root::laws::lemma_zero_byte((8 * (a % 8)) as u64);
}

/// Clearing a frame clears its words, and no other word is set by it.
proof fn lemma_cleared(m: Map<int, u64>, f: u64, i: int, w: int)
    requires
        f % 4096 == 0,
        0 <= i < 4096,
    ensures
        crate::mm::memory::with_zero_frame(m, f)[(f + i) / 8] == 0,
        m[w] == 0 ==> crate::mm::memory::with_zero_frame(m, f)[w] == 0,
{
}

/// What is copied to the start of a frame is there, and the rest is as it was.
proof fn lemma_text_written(m: Map<int, u64>, text: int, words: Seq<u32>, i: int)
    requires
        0 <= i,
        crate::mm::memory::byte_at(m, text + i) == 0,
    ensures
        crate::mm::memory::byte_at(
            crate::mm::memory::with_bytes(m, text, crate::uprog::program_bytes(words)),
            text + i,
        ) == text_byte(words, i),
{
    let bytes = crate::uprog::program_bytes(words);
    crate::mm::memory::copying_changes_exactly_its_bytes(m, text, bytes, text + i);
}

proof fn lemma_pages_written(l: Loading, words: Seq<u32>, i: int)
    requires
        crate::mm::translation::proper_frames(l.frames),
        l.frames.len() >= 2,
        words.len() * 4 <= 4096,
        0 <= i < 4096,
    ensures
        crate::mm::memory::byte_at(pages_written(l, words), l.frames[0] + i) == text_byte(words, i),
        crate::mm::memory::byte_at(pages_written(l, words), l.frames[1] + i) == 0,
{
    let text = l.frames[0];
    let stack = l.frames[1];
    let once = crate::mm::memory::with_zero_frame(l.mem, text);
    let zeroed = crate::mm::memory::with_zero_frame(once, stack);
    assert(text % 4096 == 0 && stack % 4096 == 0 && text != stack);
    lemma_cleared(l.mem, text, i, 0);
    lemma_cleared(once, stack, i, (text + i) / 8);
    lemma_zero_at(zeroed, text + i);
    lemma_zero_at(zeroed, stack + i);
    lemma_text_written(zeroed, text as int, words, i);
    assert(!(text <= stack + i < text + 4096));
    crate::mm::memory::copying_changes_exactly_its_bytes(
        zeroed,
        text as int,
        crate::uprog::program_bytes(words),
        stack + i,
    );
}

/// Putting a root table in place changes no frame but its own.
proof fn lemma_root_elsewhere(m: Map<int, u64>, root: u64, kernel_root: u64, f: u64, i: int)
    requires
        f % 4096 == 0,
        root % 4096 == 0,
        f != root,
        0 <= i < 4096,
    ensures
        crate::mm::memory::byte_at(
            crate::mm::address_space::with_kernel_half(
                crate::mm::memory::with_zero_frame(m, root),
                root,
                kernel_root,
            ),
            f + i,
        ) == crate::mm::memory::byte_at(m, f + i),
{
    let w = (f + i) / 8;
    assert(!(root as int / 8 <= w < root as int / 8 + 512));
}

/// Once a program's pages are written, the frames it took are still no tables,
/// and they can be told apart.
proof fn lemma_pages_apart(l: Loading, kernel_root: u64, words: Seq<u32>)
    requires
        crate::mm::keeping::apart(l.mem, l.frames, kernel_root),
        l.frames.len() >= 3,
        words.len() * 4 <= 4096,
    ensures
        crate::mm::keeping::apart(
            pages_written(l, words),
            seq![l.frames[2]] + l.frames.subrange(3, l.frames.len() as int) + seq![
                l.frames[0],
                l.frames[1],
            ],
            kernel_root,
        ),
{
    let all = l.frames;
    let m = pages_written(l, words);
    let zeroed = crate::mm::memory::with_zero_frame(
        crate::mm::memory::with_zero_frame(l.mem, all[0]),
        all[1],
    );
    assert(crate::mm::translation::proper_frames(all)) by {
        reveal(crate::mm::keeping::apart);
    }
    assert(all[0] % 4096 == 0 && all[1] % 4096 == 0);
    assert forall|w: int| !crate::mm::translation::in_frames(all, w) implies #[trigger] m[w]
        == l.mem[w] by {
        assert(!(all[0] as int / 8 <= w < all[0] as int / 8 + 512));
        assert(!(all[1] as int / 8 <= w < all[1] as int / 8 + 512));
        crate::root::laws::lemma_copied_words(
            zeroed,
            all[0] as int,
            crate::uprog::program_bytes(words),
            w,
        );
    }
    crate::mm::keeping::writing_apart_changes_no_translation(l.mem, m, all, kernel_root);
    let rest = all.subrange(3, all.len() as int);
    let order = seq![all[2]] + rest + seq![all[0], all[1]];
    let at = |i: int|
        if i == 0 {
            2
        } else if i < 1 + rest.len() {
            i + 2
        } else {
            i - 1 - rest.len()
        };
    assert forall|i: int| 0 <= i < order.len() implies 0 <= #[trigger] at(i) < all.len()
        && order[i] == all[at(i)] by {}
    assert forall|i: int| 0 <= i < order.len() implies all.contains(#[trigger] order[i]) by {
        assert(all[at(i)] == order[i]);
    }
    assert(order.no_duplicates()) by {
        assert forall|i: int, j: int|
            0 <= i < order.len() && 0 <= j < order.len() && i != j implies order[i] != order[j] by {
            assert(at(i) != at(j));
            assert(order[i] == all[at(i)] && order[j] == all[at(j)]);
        }
    }
    crate::mm::keeping::lemma_apart_from_fewer(m, all, order, kernel_root);
}

/// One page mapped into a space leaves the kept frames alone, and every
/// translation; and it leads where it should.
proof fn lemma_page_mapped(
    l: Loading,
    root: u64,
    va: u64,
    pa: u64,
    flags: PteFlags,
    kept: Seq<u64>,
    a: u64,
    b: u64,
)
    requires
        crate::mm::keeping::apart(l.mem, l.frames + kept, root),
        crate::demo::page_mapped(l, root, va, pa, flags).1,
        pa < crate::mm::addr::PHYS_LIMIT,
        flags.0 <= 0xff,
        va <= a < va + 4096,
    ensures
        ({
            let w = crate::demo::page_mapped(l, root, va, pa, flags).0;
            &&& crate::mm::keeping::apart(w.mem, w.frames + kept, root)
            &&& forall|x: int|
                crate::mm::translation::in_frames(kept, x) ==> #[trigger] w.mem[x] == l.mem[x]
            &&& crate::mm::page_table::translated(w.mem, root, a) == Some(
                (
                    PhysAddr((pa + (a - va)) as u64),
                    PteFlags(flags.0 | crate::mm::page_table::V),
                    0usize,
                ),
            )
            &&& crate::mm::page_table::translated(l.mem, root, b) is Some
                ==> crate::mm::page_table::translated(w.mem, root, b)
                == crate::mm::page_table::translated(l.mem, root, b)
        }),
{
    crate::mm::keeping::mapping_leaves_kept_frames_alone(
        l.mem,
        l.frames,
        kept,
        root,
        va,
        pa,
        0,
        flags,
    );
    assert((l.frames + kept).no_duplicates()) by {
        reveal(crate::mm::keeping::apart);
    }
    crate::mm::keeping::lemma_parts(l.frames, kept);
    crate::mm::keeping::lemma_apart_from_fewer(l.mem, l.frames + kept, l.frames, root);
    reveal(crate::mm::keeping::apart);
    crate::mm::addr::lemma_spans();
    assert(crate::mm::translation::path_avoids(l.mem, l.frames, root, va, 2));
    crate::mm::translation::a_mapped_page_translates(
        l.mem,
        l.frames,
        root,
        va,
        pa,
        0,
        flags,
        a,
    );
    if crate::mm::page_table::translated(l.mem, root, b) is Some {
        assert(crate::mm::translation::path_avoids(l.mem, l.frames, root, b, 2));
        crate::mm::translation::translations_survive_mapping(
            l.mem,
            l.frames,
            root,
            va,
            pa,
            0,
            flags,
            b,
        );
    }
}

/// A program's space, its root table in place and nothing mapped yet.
spec fn space_begun(l: Loading, kernel_root: u64, words: Seq<u32>) -> Loading {
    Loading {
        mem: crate::mm::address_space::with_kernel_half(
            crate::mm::memory::with_zero_frame(pages_written(l, words), l.frames[2]),
            l.frames[2],
            kernel_root,
        ),
        frames: l.frames.subrange(3, l.frames.len() as int),
    }
}

proof fn lemma_space_begun(l: Loading, kernel_root: u64, words: Seq<u32>, i: int)
    requires
        crate::mm::keeping::apart(l.mem, l.frames, kernel_root),
        l.frames.len() >= 3,
        words.len() * 4 <= 4096,
        0 <= i < 4096,
    ensures
        ({
            let w = space_begun(l, kernel_root, words);
            let kept = seq![l.frames[0], l.frames[1]];
            &&& crate::mm::keeping::apart(w.mem, w.frames + kept, l.frames[2])
            &&& crate::mm::memory::byte_at(w.mem, l.frames[0] + i) == text_byte(words, i)
            &&& crate::mm::memory::byte_at(w.mem, l.frames[1] + i) == 0
            &&& l.frames[0] % 4096 == 0 && l.frames[0] < crate::mm::addr::PHYS_LIMIT
            &&& l.frames[1] % 4096 == 0 && l.frames[1] < crate::mm::addr::PHYS_LIMIT
        }),
{
    let text = l.frames[0];
    let stack = l.frames[1];
    let root = l.frames[2];
    let w = space_begun(l, kernel_root, words);
    let kept = seq![text, stack];
    let written = pages_written(l, words);
    let order = seq![root] + w.frames + kept;
    assert(crate::mm::translation::proper_frames(l.frames)) by {
        reveal(crate::mm::keeping::apart);
    }
    assert(text % 4096 == 0 && stack % 4096 == 0 && root % 4096 == 0);
    assert(text != root && stack != root);
    lemma_pages_written(l, words, i);
    lemma_pages_apart(l, kernel_root, words);
    crate::root::laws::lemma_fresh_apart(written, order, kernel_root);
    assert(order[0] == root);
    assert(order.drop_first() =~= w.frames + kept);
    lemma_root_elsewhere(written, root, kernel_root, text, i);
    lemma_root_elsewhere(written, root, kernel_root, stack, i);
}

/// A frame that keeps its words keeps its bytes.
proof fn lemma_same_byte(m: Map<int, u64>, m2: Map<int, u64>, kept: Seq<u64>, j: int, i: int)
    requires
        0 <= j < kept.len(),
        kept[j] % 4096 == 0,
        0 <= i < 4096,
        forall|x: int| crate::mm::translation::in_frames(kept, x) ==> #[trigger] m2[x] == m[x],
    ensures
        crate::mm::memory::byte_at(m2, kept[j] + i) == crate::mm::memory::byte_at(m, kept[j] + i),
{
    let x = (kept[j] + i) / 8;
    assert(kept[j] as int / 8 <= x < kept[j] as int / 8 + 512);
    assert(m2[x] == m[x]);
}

/// What two pages hold does not change when they are mapped.
proof fn lemma_pages_mapped(l: Loading, root: u64, text: u64, stack: u64, i: int)
    requires
        crate::mm::keeping::apart(l.mem, l.frames + seq![text, stack], root),
        text % 4096 == 0 && text < crate::mm::addr::PHYS_LIMIT,
        stack % 4096 == 0 && stack < crate::mm::addr::PHYS_LIMIT,
        0 <= i < 4096,
        crate::demo::page_mapped(l, root, USER_TEXT, text, PteFlags(USER_RX)).1,
        crate::demo::page_mapped(
            crate::demo::page_mapped(l, root, USER_TEXT, text, PteFlags(USER_RX)).0,
            root,
            USER_STACK,
            stack,
            PteFlags(USER_RW),
        ).1,
    ensures
        ({
            let m = crate::demo::page_mapped(
                crate::demo::page_mapped(l, root, USER_TEXT, text, PteFlags(USER_RX)).0,
                root,
                USER_STACK,
                stack,
                PteFlags(USER_RW),
            ).0.mem;
            &&& crate::mm::page_table::translated(m, root, (0x1000_0000 + i) as u64) == Some(
                (PhysAddr((text + i) as u64), PteFlags(0x5b), 0usize),
            )
            &&& crate::mm::page_table::translated(m, root, (0x2000_0000 + i) as u64) == Some(
                (PhysAddr((stack + i) as u64), PteFlags(0xd7), 0usize),
            )
            &&& crate::mm::memory::byte_at(m, text + i) == crate::mm::memory::byte_at(
                l.mem,
                text + i,
            )
            &&& crate::mm::memory::byte_at(m, stack + i) == crate::mm::memory::byte_at(
                l.mem,
                stack + i,
            )
        }),
{
    let kept = seq![text, stack];
    assert(USER_RX == 0x5b && USER_RW == 0xd7) by {
        crate::mm::page_table::lemma_named_permissions();
    }
    assert(USER_RX | crate::mm::page_table::V == USER_RX && USER_RW | crate::mm::page_table::V
        == USER_RW) by {
        lemma_valid_already();
    }
    let a = (0x1000_0000 + i) as u64;
    let b = (0x2000_0000 + i) as u64;
    lemma_page_mapped(l, root, USER_TEXT, text, PteFlags(USER_RX), kept, a, a);
    let once = crate::demo::page_mapped(l, root, USER_TEXT, text, PteFlags(USER_RX)).0;
    lemma_page_mapped(once, root, USER_STACK, stack, PteFlags(USER_RW), kept, b, a);
    let m = crate::demo::page_mapped(once, root, USER_STACK, stack, PteFlags(USER_RW)).0.mem;
    lemma_same_byte(l.mem, m, kept, 0, i);
    lemma_same_byte(l.mem, m, kept, 1, i);
}

/// A program finds its instructions at 0x1000_0000, to be read and run and not
/// written, and a page of stack at 0x2000_0000, cleared, to be read and written
/// and not run. Both are its own.
pub proof fn a_program_finds_its_text_and_its_stack(
    l: Loading,
    kernel_root: u64,
    words: Seq<u32>,
    i: int,
)
    requires
        crate::mm::keeping::apart(l.mem, l.frames, kernel_root),
        words.len() * 4 <= 4096,
        crate::demo::space_made(l, kernel_root, words).1 is Ok,
        0 <= i < 4096,
    ensures
        ({
            let done = crate::demo::space_made(l, kernel_root, words);
            let m = done.0.mem;
            let root = done.1->Ok_0.mapper.root.0;
            let text = l.frames[0];
            let stack = l.frames[1];
            &&& crate::mm::page_table::translated(m, root, (0x1000_0000 + i) as u64) == Some(
                (PhysAddr((text + i) as u64), PteFlags(0x5b), 0usize),
            )
            &&& crate::mm::memory::byte_at(m, text + i) == text_byte(words, i)
            &&& crate::mm::page_table::translated(m, root, (0x2000_0000 + i) as u64) == Some(
                (PhysAddr((stack + i) as u64), PteFlags(0xd7), 0usize),
            )
            &&& crate::mm::memory::byte_at(m, stack + i) == 0
        }),
{
    assert(l.frames.len() >= 3);
    assert(l.frames.drop_first().drop_first().drop_first() =~= l.frames.subrange(
        3,
        l.frames.len() as int,
    ));
    lemma_space_begun(l, kernel_root, words, i);
    lemma_pages_mapped(
        space_begun(l, kernel_root, words),
        l.frames[2],
        l.frames[0],
        l.frames[1],
        i,
    );
}

proof fn lemma_valid_already()
    by (bit_vector)
    ensures
        USER_RX | crate::mm::page_table::V == USER_RX,
        USER_RW | crate::mm::page_table::V == USER_RW,
{
}

} // verus!
