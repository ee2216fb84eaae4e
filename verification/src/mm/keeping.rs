//! Frames that page tables stay out of, and what mapping leaves alone.

use crate::mm::page_table::{Mapped, Pte, PteFlags, MAX_LEVEL, V};
use vstd::prelude::*;

verus! {

/// Whether the frames are pages of memory, each listed once, and none of them is
/// a table that any address passes through below `root`.
#[verifier::opaque]
pub open spec fn apart(m: Map<int, u64>, frames: Seq<u64>, root: u64) -> bool {
    &&& crate::mm::translation::proper_frames(frames)
    &&& crate::mm::translation::tables_avoid(m, frames, root)
}

pub proof fn lemma_path_unchanged(
    m: Map<int, u64>,
    m2: Map<int, u64>,
    frames: Seq<u64>,
    table: u64,
    b: u64,
    level: nat,
)
    requires
        crate::mm::translation::proper_frames(frames),
        crate::mm::translation::path_avoids(m, frames, table, b, level),
        forall|w: int| !crate::mm::translation::in_frames(frames, w) ==> #[trigger] m2[w] == m[w],
    ensures
        crate::mm::translation::path_avoids(m2, frames, table, b, level),
    decreases level,
{
    let y = crate::mm::page_table::entry_word(table, b, level);
    crate::mm::translation::lemma_entry_outside_frames(
        frames,
        table,
        crate::mm::addr::vpn_of(b, level),
    );
    assert(m2[y] == m[y]);
    let e = Pte(m[y]);
    if e.branch_entry() && level > 0 {
        lemma_path_unchanged(m, m2, frames, e.target(), b, (level - 1) as nat);
    }
}

/// What happens inside frames that are apart from the tables changes neither
/// that nor any translation.
pub proof fn writing_apart_changes_no_translation(
    m: Map<int, u64>,
    m2: Map<int, u64>,
    frames: Seq<u64>,
    root: u64,
)
    requires
        apart(m, frames, root),
        forall|w: int| !crate::mm::translation::in_frames(frames, w) ==> #[trigger] m2[w] == m[w],
    ensures
        apart(m2, frames, root),
        forall|b: u64| #[trigger]
            crate::mm::page_table::translated(m2, root, b) == crate::mm::page_table::translated(
                m,
                root,
                b,
            ),
        forall|allowed: Set<PteFlags>| #[trigger]
            permits(m2, root, allowed) == permits(m, root, allowed),
{
    reveal(apart);
    assert forall|b: u64| #[trigger]
        crate::mm::translation::path_avoids(m2, frames, root, b, MAX_LEVEL as nat) by {
        assert(crate::mm::translation::path_avoids(m, frames, root, b, MAX_LEVEL as nat));
        lemma_path_unchanged(m, m2, frames, root, b, MAX_LEVEL as nat);
    }
    assert forall|b: u64| #[trigger]
        crate::mm::page_table::translated(m2, root, b) == crate::mm::page_table::translated(
            m,
            root,
            b,
        ) by {
        assert(crate::mm::translation::path_avoids(m, frames, root, b, MAX_LEVEL as nat));
        lemma_translation_unchanged(m, m2, frames, root, b, MAX_LEVEL as nat);
    }
    assert forall|allowed: Set<PteFlags>| #[trigger]
        permits(m2, root, allowed) == permits(m, root, allowed) by {
        assert forall|b: u64|
            within(m2, root, b, MAX_LEVEL as nat, allowed) == within(
                m,
                root,
                b,
                MAX_LEVEL as nat,
                allowed,
            ) by {
            assert(crate::mm::translation::path_avoids(m, frames, root, b, MAX_LEVEL as nat));
            lemma_translation_unchanged(m, m2, frames, root, b, MAX_LEVEL as nat);
        }
    }
}

pub proof fn lemma_translation_unchanged(
    m: Map<int, u64>,
    m2: Map<int, u64>,
    frames: Seq<u64>,
    table: u64,
    b: u64,
    level: nat,
)
    requires
        crate::mm::translation::proper_frames(frames),
        crate::mm::translation::path_avoids(m, frames, table, b, level),
        forall|w: int| !crate::mm::translation::in_frames(frames, w) ==> #[trigger] m2[w] == m[w],
    ensures
        crate::mm::page_table::translated_from(m2, table, b, level)
            == crate::mm::page_table::translated_from(m, table, b, level),
    decreases level,
{
    let y = crate::mm::page_table::entry_word(table, b, level);
    crate::mm::translation::lemma_entry_outside_frames(
        frames,
        table,
        crate::mm::addr::vpn_of(b, level),
    );
    assert(m2[y] == m[y]);
    let e = Pte(m[y]);
    if e.branch_entry() && level > 0 {
        lemma_translation_unchanged(m, m2, frames, e.target(), b, (level - 1) as nat);
    }
}

/// Frames that are apart stay so when some of them are forgotten or they are
/// listed in another order.
pub proof fn lemma_apart_from_fewer(
    m: Map<int, u64>,
    frames: Seq<u64>,
    fewer: Seq<u64>,
    root: u64,
)
    requires
        apart(m, frames, root),
        fewer.no_duplicates(),
        forall|i: int| 0 <= i < fewer.len() ==> frames.contains(#[trigger] fewer[i]),
    ensures
        apart(m, fewer, root),
{
    reveal(apart);
    assert forall|i: int| 0 <= i < fewer.len() implies (#[trigger] fewer[i]) % 4096 == 0
        && fewer[i] < crate::mm::addr::PHYS_LIMIT by {
        let k = choose|k: int| 0 <= k < frames.len() && frames[k] == fewer[i];
        assert(frames[k] % 4096 == 0);
    }
    assert forall|x: u64| #[trigger] fewer.contains(x) implies frames.contains(x) by {
        let i = choose|i: int| 0 <= i < fewer.len() && fewer[i] == x;
        assert(frames.contains(fewer[i]));
    }
    assert forall|b: u64| #[trigger]
        crate::mm::translation::path_avoids(m, fewer, root, b, MAX_LEVEL as nat) by {
        assert(crate::mm::translation::path_avoids(m, frames, root, b, MAX_LEVEL as nat));
        crate::mm::translation::lemma_avoids_fewer(
            m,
            frames,
            fewer,
            root,
            b,
            MAX_LEVEL as nat,
        );
    }
}

/// A word of a frame that is apart is not read on the way anywhere.
proof fn lemma_not_read(
    m: Map<int, u64>,
    frames: Seq<u64>,
    table: u64,
    b: u64,
    level: nat,
    w: int,
)
    requires
        crate::mm::translation::proper_frames(frames),
        crate::mm::translation::path_avoids(m, frames, table, b, level),
        crate::mm::translation::in_frames(frames, w),
    ensures
        !crate::mm::translation::reads(m, table, b, level, w),
    decreases level,
{
    crate::mm::translation::lemma_entry_outside_frames(
        frames,
        table,
        crate::mm::addr::vpn_of(b, level),
    );
    let e = crate::mm::page_table::entry_for(m, table, b, level);
    if e.branch_entry() && level > 0 {
        lemma_not_read(m, frames, e.target(), b, (level - 1) as nat, w);
    }
}

/// Having more frames in hand makes no difference to a mapping that does not
/// run out of them.
proof fn lemma_more_frames(
    m: Map<int, u64>,
    frames: Seq<u64>,
    more: Seq<u64>,
    table: u64,
    va: u64,
    from: nat,
    level: nat,
    leaf: Pte,
)
    requires
        crate::mm::page_table::grown(m, frames, table, va, from, level, leaf).result is Ok,
    ensures
        ({
            let done = crate::mm::page_table::grown(m, frames, table, va, from, level, leaf);
            crate::mm::page_table::grown(m, frames + more, table, va, from, level, leaf) == (
            Mapped { mem: done.mem, frames: done.frames + more, result: Ok(()) })
        }),
    decreases from,
{
    let w = crate::mm::page_table::entry_word(table, va, from);
    let e = Pte(m[w]);
    if from > level {
        if !e.valid() {
            let branch = Pte::branch_of(frames[0]);
            let m2 = crate::mm::memory::with_zero_frame(m, frames[0]).insert(w, branch.0);
            assert((frames + more).drop_first() =~= frames.drop_first() + more);
            lemma_more_frames(
                m2,
                frames.drop_first(),
                more,
                branch.target(),
                va,
                (from - 1) as nat,
                level,
                leaf,
            );
        } else {
            lemma_more_frames(m, frames, more, e.target(), va, (from - 1) as nat, level, leaf);
        }
    }
}

/// Mapping a page leaves frames that are apart from the tables, and from the
/// frames it may take, as they were; and they stay apart.
pub proof fn mapping_leaves_kept_frames_alone(
    m: Map<int, u64>,
    frames: Seq<u64>,
    kept: Seq<u64>,
    root: u64,
    va: u64,
    pa: u64,
    level: int,
    flags: PteFlags,
)
    requires
        apart(m, frames + kept, root),
        crate::mm::page_table::mapped(m, frames, root, va, pa, level, flags).result is Ok,
        0 <= level,
        pa < crate::mm::addr::PHYS_LIMIT,
        flags.0 <= 0xff,
    ensures
        ({
            let done = crate::mm::page_table::mapped(m, frames, root, va, pa, level, flags);
            &&& apart(done.mem, done.frames + kept, root)
            &&& forall|w: int|
                crate::mm::translation::in_frames(kept, w) ==> #[trigger] done.mem[w] == m[w]
        }),
{
    reveal(apart);
    let all = frames + kept;
    let done = crate::mm::page_table::mapped(m, frames, root, va, pa, level, flags);
    crate::mm::translation::mapping_keeps_frames_apart(m, all, root, va, pa, level, flags);
    assert(crate::mm::page_table::mapped(m, all, root, va, pa, level, flags) == (Mapped {
        mem: done.mem,
        frames: done.frames + kept,
        result: Ok(()),
    })) by {
        reveal(crate::mm::page_table::mapped);
        lemma_more_frames(
            m,
            frames,
            kept,
            root,
            va,
            MAX_LEVEL as nat,
            level as nat,
            Pte::leaf_of(pa, flags.0),
        );
    }
    lemma_parts(frames, kept);
    lemma_apart_from_fewer(m, all, frames, root);
    assert forall|w: int| crate::mm::translation::in_frames(kept, w) implies #[trigger] done.mem[w]
        == m[w] by {
        assert(crate::mm::translation::path_avoids(m, all, root, va, MAX_LEVEL as nat));
        assert(crate::mm::translation::path_avoids(m, frames, root, va, MAX_LEVEL as nat));
        lemma_kept_word(frames, kept, w);
        lemma_not_read(m, all, root, va, MAX_LEVEL as nat, w);
        crate::mm::translation::mapping_changes_only_what_it_reads(
            m,
            frames,
            root,
            va,
            pa,
            level,
            flags,
            w,
        );
    }
}

/// Both parts of a list without repetitions have none.
pub proof fn lemma_parts(a: Seq<u64>, b: Seq<u64>)
    requires
        (a + b).no_duplicates(),
    ensures
        a.no_duplicates(),
        b.no_duplicates(),
        forall|i: int| 0 <= i < a.len() ==> (a + b).contains(#[trigger] a[i]),
        forall|i: int| 0 <= i < b.len() ==> (a + b).contains(#[trigger] b[i]),
        forall|i: int, j: int|
            #![trigger a[i], b[j]]
            0 <= i < a.len() && 0 <= j < b.len() ==> a[i] != b[j],
{
    let all = a + b;
    assert forall|i: int| 0 <= i < a.len() implies all.contains(#[trigger] a[i]) by {
        assert(all[i] == a[i]);
    }
    assert forall|i: int| 0 <= i < b.len() implies all.contains(#[trigger] b[i]) by {
        assert(all[a.len() + i] == b[i]);
    }
    assert forall|i: int, j: int|
        #![trigger a[i], b[j]]
        0 <= i < a.len() && 0 <= j < b.len() implies a[i] != b[j] by {
        assert(all[i] == a[i] && all[a.len() + j] == b[j]);
    }
    assert forall|i: int, j: int| 0 <= i < a.len() && 0 <= j < a.len() && i != j implies a[i]
        != a[j] by {
        assert(all[i] == a[i] && all[j] == a[j]);
    }
    assert forall|i: int, j: int| 0 <= i < b.len() && 0 <= j < b.len() && i != j implies b[i]
        != b[j] by {
        assert(all[a.len() + i] == b[i] && all[a.len() + j] == b[j]);
    }
}

/// A word of a kept frame lies in none of the others.
pub proof fn lemma_kept_word(frames: Seq<u64>, kept: Seq<u64>, w: int)
    requires
        crate::mm::translation::proper_frames(frames + kept),
        crate::mm::translation::in_frames(kept, w),
    ensures
        crate::mm::translation::in_frames(frames + kept, w),
        !crate::mm::translation::in_frames(frames, w),
{
    let all = frames + kept;
    let j = choose|j: int|
        0 <= j < kept.len() && (#[trigger] kept[j]) as int / 8 <= w < kept[j] as int / 8 + 512;
    assert(all[frames.len() + j] == kept[j]);
    if crate::mm::translation::in_frames(frames, w) {
        let i = choose|i: int|
            0 <= i < frames.len() && (#[trigger] frames[i]) as int / 8 <= w < frames[i] as int / 8
                + 512;
        assert(all[i] == frames[i]);
        assert(all[i] % 4096 == 0 && all[frames.len() + j] % 4096 == 0);
    }
}

// --- Permissions ---

/// Whether what `b` leads to below a table, if anything, has one of the
/// permissions allowed.
pub open spec fn within(
    m: Map<int, u64>,
    table: u64,
    b: u64,
    level: nat,
    allowed: Set<PteFlags>,
) -> bool {
    crate::mm::page_table::translated_from(m, table, b, level) matches Some(found)
        ==> allowed.contains(found.1)
}

/// Whether every page mapped below `root` has one of the permissions allowed.
pub open spec fn permits(m: Map<int, u64>, root: u64, allowed: Set<PteFlags>) -> bool {
    forall|b: u64| #[trigger] within(m, root, b, MAX_LEVEL as nat, allowed)
}

proof fn lemma_within_after_leaf(
    m: Map<int, u64>,
    w: int,
    leaf: Pte,
    table: u64,
    b: u64,
    level: nat,
    allowed: Set<PteFlags>,
)
    requires
        leaf.leaf_entry(),
        allowed.contains(leaf.flags_spec()),
        within(m, table, b, level, allowed),
    ensures
        within(m.insert(w, leaf.0), table, b, level, allowed),
    decreases level,
{
    let y = crate::mm::page_table::entry_word(table, b, level);
    if y != w {
        let e = Pte(m[y]);
        if e.branch_entry() && level > 0 {
            lemma_within_after_leaf(m, w, leaf, e.target(), b, (level - 1) as nat, allowed);
        }
    }
}

/// A table created from the first frame maps nothing yet.
proof fn lemma_within_after_branch(
    m: Map<int, u64>,
    frames: Seq<u64>,
    x: int,
    table: u64,
    b: u64,
    level: nat,
    allowed: Set<PteFlags>,
)
    requires
        crate::mm::translation::proper_frames(frames),
        frames.len() > 0,
        !crate::mm::translation::in_frames(frames, x),
        crate::mm::translation::path_avoids(m, frames, table, b, level),
        within(m, table, b, level, allowed),
    ensures
        within(
            crate::mm::memory::with_zero_frame(m, frames[0]).insert(
                x,
                Pte::branch_of(frames[0]).0,
            ),
            table,
            b,
            level,
            allowed,
        ),
    decreases level,
{
    let f = frames[0];
    let branch = Pte::branch_of(f);
    let m2 = crate::mm::memory::with_zero_frame(m, f).insert(x, branch.0);
    assert(f % 4096 == 0 && f < crate::mm::addr::PHYS_LIMIT);
    crate::mm::page_table::branch_entries_round_trip(f);
    let y = crate::mm::page_table::entry_word(table, b, level);
    crate::mm::translation::lemma_entry_outside_frames(
        frames,
        table,
        crate::mm::addr::vpn_of(b, level),
    );
    assert(!crate::mm::translation::in_frames(frames, y));
    if y == x {
        if level > 0 {
            let z = crate::mm::page_table::entry_word(f, b, (level - 1) as nat);
            assert(0 <= crate::mm::addr::vpn_of(b, (level - 1) as nat) < 512);
            assert(frames[0] as int / 8 <= z < frames[0] as int / 8 + 512);
            assert(crate::mm::translation::in_frames(frames, z));
            assert(m2[z] == 0);
            crate::mm::page_table::lemma_empty_entry();
            assert(crate::mm::page_table::translated_from(m2, f, b, (level - 1) as nat) is None);
        }
        assert(crate::mm::page_table::translated_from(m2, table, b, level) is None);
    } else {
        assert(m2[y] == m[y]) by {
            if frames[0] as int / 8 <= y < frames[0] as int / 8 + 512 {
                assert(crate::mm::translation::in_frames(frames, y));
            }
        }
        let e = Pte(m[y]);
        if e.branch_entry() && level > 0 {
            lemma_within_after_branch(m, frames, x, e.target(), b, (level - 1) as nat, allowed);
        }
    }
}

proof fn lemma_grown_within(
    m: Map<int, u64>,
    frames: Seq<u64>,
    root: u64,
    table: u64,
    va: u64,
    from: nat,
    level: nat,
    leaf: Pte,
    allowed: Set<PteFlags>,
)
    requires
        level <= from,
        leaf.leaf_entry(),
        allowed.contains(leaf.flags_spec()),
        apart(m, frames, root),
        crate::mm::translation::path_avoids(m, frames, table, va, from),
        permits(m, root, allowed),
    ensures
        permits(
            crate::mm::page_table::grown(m, frames, table, va, from, level, leaf).mem,
            root,
            allowed,
        ),
    decreases from,
{
    reveal(apart);
    let x = crate::mm::page_table::entry_word(table, va, from);
    let e = Pte(m[x]);
    if from == level {
        if !e.valid() {
            assert forall|b: u64| #[trigger]
                within(m.insert(x, leaf.0), root, b, MAX_LEVEL as nat, allowed) by {
                assert(within(m, root, b, MAX_LEVEL as nat, allowed));
                lemma_within_after_leaf(m, x, leaf, root, b, MAX_LEVEL as nat, allowed);
            }
        }
    } else if !e.valid() {
        if frames.len() > 0 {
            let f = frames[0];
            let rest = frames.drop_first();
            let m2 = crate::mm::memory::with_zero_frame(m, f).insert(x, Pte::branch_of(f).0);
            crate::mm::translation::lemma_entry_outside_frames(
                frames,
                table,
                crate::mm::addr::vpn_of(va, from),
            );
            crate::mm::translation::lemma_rest_of_frames(frames);
            assert(f % 4096 == 0 && f < crate::mm::addr::PHYS_LIMIT);
            crate::mm::page_table::branch_entries_round_trip(f);
            assert forall|b: u64| #[trigger]
                crate::mm::translation::path_avoids(m2, rest, root, b, MAX_LEVEL as nat) by {
                assert(crate::mm::translation::path_avoids(m, frames, root, b, MAX_LEVEL as nat));
                crate::mm::translation::lemma_avoids_after_branch(
                    m,
                    frames,
                    x,
                    root,
                    b,
                    MAX_LEVEL as nat,
                );
            }
            assert forall|b: u64| #[trigger]
                within(m2, root, b, MAX_LEVEL as nat, allowed) by {
                assert(crate::mm::translation::path_avoids(m, frames, root, b, MAX_LEVEL as nat));
                assert(within(m, root, b, MAX_LEVEL as nat, allowed));
                lemma_within_after_branch(m, frames, x, root, b, MAX_LEVEL as nat, allowed);
            }
            crate::mm::translation::lemma_avoids_after_branch(m, frames, x, table, va, from);
            assert(m2[x] == Pte::branch_of(f).0);
            assert(crate::mm::translation::path_avoids(m2, rest, f, va, (from - 1) as nat));
            lemma_grown_within(m2, rest, root, f, va, (from - 1) as nat, level, leaf, allowed);
        }
    } else if !e.leaf_entry() {
        lemma_grown_within(
            m,
            frames,
            root,
            e.target(),
            va,
            (from - 1) as nat,
            level,
            leaf,
            allowed,
        );
    }
}

/// Mapping a page with permissions that are allowed gives no address
/// permissions that are not.
pub proof fn mapping_adds_only_its_own_permissions(
    m: Map<int, u64>,
    frames: Seq<u64>,
    root: u64,
    va: u64,
    pa: u64,
    level: int,
    flags: PteFlags,
    allowed: Set<PteFlags>,
)
    requires
        apart(m, frames, root),
        permits(m, root, allowed),
        allowed.contains(PteFlags(flags.0 | V)),
        0 <= level,
        pa < crate::mm::addr::PHYS_LIMIT,
        flags.0 <= 0xff,
    ensures
        permits(
            crate::mm::page_table::mapped(m, frames, root, va, pa, level, flags).mem,
            root,
            allowed,
        ),
{
    reveal(apart);
    reveal(crate::mm::page_table::mapped);
    if crate::mm::page_table::leaf_refused(va, pa, level, flags) is None {
        crate::mm::addr::lemma_spans();
        crate::mm::translation::lemma_leaf_translation(va, pa, level as nat, flags, va);
        assert(crate::mm::translation::path_avoids(m, frames, root, va, MAX_LEVEL as nat));
        lemma_grown_within(
            m,
            frames,
            root,
            root,
            va,
            MAX_LEVEL as nat,
            level as nat,
            Pte::leaf_of(pa, flags.0),
            allowed,
        );
    }
}

/// The same for a range.
pub proof fn mapping_a_range_adds_only_its_own_permissions(
    m: Map<int, u64>,
    frames: Seq<u64>,
    root: u64,
    va: u64,
    pa: u64,
    size: u64,
    flags: PteFlags,
    offset: int,
    allowed: Set<PteFlags>,
)
    requires
        apart(m, frames, root),
        permits(m, root, allowed),
        allowed.contains(PteFlags(flags.0 | V)),
        flags.0 <= 0xff,
        pa + size <= crate::mm::addr::PHYS_LIMIT,
        va + size <= u64::MAX + 1,
        0 <= offset,
    ensures
        permits(
            crate::mm::page_table::range_mapped(m, frames, root, va, pa, size, flags, offset).mem,
            root,
            allowed,
        ),
    decreases size + 4096 - offset,
{
    reveal(apart);
    if offset < size {
        crate::mm::addr::lemma_spans();
        let level = crate::mm::page_table::best_level(va + offset, pa + offset, size - offset);
        let cur_va = (va + offset) as u64;
        let cur_pa = (pa + offset) as u64;
        let step = crate::mm::page_table::mapped(
            m,
            frames,
            root,
            cur_va,
            cur_pa,
            level as int,
            flags,
        );
        mapping_adds_only_its_own_permissions(
            m,
            frames,
            root,
            cur_va,
            cur_pa,
            level as int,
            flags,
            allowed,
        );
        crate::mm::translation::mapping_keeps_frames_apart(
            m,
            frames,
            root,
            cur_va,
            cur_pa,
            level as int,
            flags,
        );
        if step.result is Ok {
            mapping_a_range_adds_only_its_own_permissions(
                step.mem,
                step.frames,
                root,
                va,
                pa,
                size,
                flags,
                offset + crate::mm::addr::span(level),
                allowed,
            );
        }
    }
}

// --- Other address spaces ---

/// Mapping a page in one address space changes no translation in another, as far
/// as the two share no table entry on the way.
pub proof fn mappings_are_private_to_their_space(
    m: Map<int, u64>,
    frames: Seq<u64>,
    root: u64,
    other: u64,
    va: u64,
    pa: u64,
    level: int,
    flags: PteFlags,
    b: u64,
)
    requires
        0 <= level,
        apart(m, frames, root),
        apart(m, frames, other),
        forall|w: int| #[trigger]
            crate::mm::translation::reads(m, other, b, MAX_LEVEL as nat, w)
                ==> !crate::mm::translation::reads(m, root, va, MAX_LEVEL as nat, w),
    ensures
        crate::mm::page_table::translated(
            crate::mm::page_table::mapped(m, frames, root, va, pa, level, flags).mem,
            other,
            b,
        ) == crate::mm::page_table::translated(m, other, b),
{
    reveal(apart);
    let m2 = crate::mm::page_table::mapped(m, frames, root, va, pa, level, flags).mem;
    assert(crate::mm::translation::path_avoids(m, frames, root, va, MAX_LEVEL as nat));
    assert(crate::mm::translation::path_avoids(m, frames, other, b, MAX_LEVEL as nat));
    assert forall|w: int|
        !crate::mm::translation::in_frames(frames, w) && !crate::mm::translation::reads(
            m,
            root,
            va,
            MAX_LEVEL as nat,
            w,
        ) implies #[trigger] m2[w] == m[w] by {
        crate::mm::translation::mapping_changes_only_what_it_reads(
            m,
            frames,
            root,
            va,
            pa,
            level,
            flags,
            w,
        );
    }
    lemma_private(m, m2, frames, root, va, other, b, MAX_LEVEL as nat);
}

proof fn lemma_private(
    m: Map<int, u64>,
    m2: Map<int, u64>,
    frames: Seq<u64>,
    root: u64,
    va: u64,
    table: u64,
    b: u64,
    level: nat,
)
    requires
        crate::mm::translation::proper_frames(frames),
        crate::mm::translation::path_avoids(m, frames, table, b, level),
        forall|w: int| #[trigger]
            crate::mm::translation::reads(m, table, b, level, w)
                ==> !crate::mm::translation::reads(m, root, va, MAX_LEVEL as nat, w),
        forall|w: int|
            !crate::mm::translation::in_frames(frames, w) && !crate::mm::translation::reads(
                m,
                root,
                va,
                MAX_LEVEL as nat,
                w,
            ) ==> #[trigger] m2[w] == m[w],
    ensures
        crate::mm::page_table::translated_from(m2, table, b, level)
            == crate::mm::page_table::translated_from(m, table, b, level),
    decreases level,
{
    let y = crate::mm::page_table::entry_word(table, b, level);
    crate::mm::translation::lemma_entry_outside_frames(
        frames,
        table,
        crate::mm::addr::vpn_of(b, level),
    );
    assert(crate::mm::translation::reads(m, table, b, level, y));
    assert(m2[y] == m[y]);
    let e = Pte(m[y]);
    if e.branch_entry() && level > 0 {
        assert forall|w: int| #[trigger]
            crate::mm::translation::reads(m, e.target(), b, (level - 1) as nat, w) implies
            !crate::mm::translation::reads(m, root, va, MAX_LEVEL as nat, w) by {
            assert(crate::mm::translation::reads(m, table, b, level, w));
        }
        lemma_private(m, m2, frames, root, va, e.target(), b, (level - 1) as nat);
    }
}

// --- Roots ---

/// Whether the tables below `root` are none of the frames, nor `root` itself.
pub open spec fn rooted(m: Map<int, u64>, frames: Seq<u64>, root: u64) -> bool {
    &&& crate::mm::translation::proper_frames(frames.push(root))
    &&& forall|b: u64| #[trigger] stems(m, frames, root, b)
}

/// Whether the way of `b` leads from `root` to tables that are none of the
/// frames, nor `root` itself.
pub open spec fn stems(m: Map<int, u64>, frames: Seq<u64>, root: u64, b: u64) -> bool {
    let e = crate::mm::page_table::entry_for(m, root, b, MAX_LEVEL as nat);
    e.branch_entry() ==> crate::mm::translation::path_avoids(
        m,
        frames.push(root),
        e.target(),
        b,
        (MAX_LEVEL - 1) as nat,
    )
}

/// A fresh root has no tables below it.
pub proof fn lemma_fresh_is_rooted(m: Map<int, u64>, frames: Seq<u64>)
    requires
        crate::mm::translation::proper_frames(frames),
        frames.len() > 0,
    ensures
        rooted(
            crate::mm::memory::with_zero_frame(m, frames[0]),
            frames.drop_first(),
            frames[0],
        ),
{
    let root = frames[0];
    let m2 = crate::mm::memory::with_zero_frame(m, root);
    let turned = frames.drop_first().push(root);
    let n = frames.len() - 1;
    assert forall|i: int| 0 <= i < turned.len() implies #[trigger] turned[i] == frames[if i < n {
        i + 1
    } else {
        0
    }] by {}
    assert forall|i: int, j: int|
        0 <= i < turned.len() && 0 <= j < turned.len() && i != j implies turned[i] != turned[j] by {
        assert(turned[i] == frames[if i < n {
            i + 1
        } else {
            0
        }]);
        assert(turned[j] == frames[if j < n {
            j + 1
        } else {
            0
        }]);
    }
    crate::mm::page_table::lemma_empty_entry();
    assert(root % 4096 == 0);
    assert forall|b: u64| #[trigger] stems(m2, frames.drop_first(), root, b) by {
        let w = crate::mm::page_table::entry_word(root, b, MAX_LEVEL as nat);
        assert(0 <= crate::mm::addr::vpn_of(b, MAX_LEVEL as nat) < 512);
        assert(m2[w] == 0);
    }
}

/// A mapping below a table that avoids some frames leaves every way that avoids
/// them avoiding them.
proof fn lemma_grown_path(
    m: Map<int, u64>,
    frames: Seq<u64>,
    kept: Seq<u64>,
    table: u64,
    va: u64,
    from: nat,
    level: nat,
    leaf: Pte,
    top: u64,
    b: u64,
    height: nat,
)
    requires
        level <= from,
        leaf.leaf_entry(),
        crate::mm::translation::proper_frames(frames + kept),
        crate::mm::translation::path_avoids(m, frames + kept, table, va, from),
        crate::mm::translation::path_avoids(m, frames + kept, top, b, height),
    ensures
        ({
            let done = crate::mm::page_table::grown(m, frames, table, va, from, level, leaf);
            &&& crate::mm::translation::proper_frames(done.frames + kept)
            &&& crate::mm::translation::path_avoids(done.mem, done.frames + kept, top, b, height)
        }),
    decreases from,
{
    let all = frames + kept;
    let x = crate::mm::page_table::entry_word(table, va, from);
    let e = Pte(m[x]);
    if from == level {
        if !e.valid() {
            crate::mm::translation::lemma_avoids_after_leaf(m, all, x, leaf, top, b, height);
        }
    } else if !e.valid() {
        if frames.len() > 0 {
            let f = frames[0];
            let rest = frames.drop_first();
            let m2 = crate::mm::memory::with_zero_frame(m, f).insert(x, Pte::branch_of(f).0);
            assert(all[0] == f);
            assert(all.drop_first() =~= rest + kept);
            crate::mm::translation::lemma_entry_outside_frames(
                all,
                table,
                crate::mm::addr::vpn_of(va, from),
            );
            crate::mm::translation::lemma_rest_of_frames(all);
            assert(f % 4096 == 0 && f < crate::mm::addr::PHYS_LIMIT);
            crate::mm::page_table::branch_entries_round_trip(f);
            crate::mm::translation::lemma_avoids_after_branch(m, all, x, top, b, height);
            crate::mm::translation::lemma_avoids_after_branch(m, all, x, table, va, from);
            assert(m2[x] == Pte::branch_of(f).0);
            assert(crate::mm::translation::path_avoids(m2, rest + kept, f, va, (from - 1) as nat));
            lemma_grown_path(
                m2,
                rest,
                kept,
                f,
                va,
                (from - 1) as nat,
                level,
                leaf,
                top,
                b,
                height,
            );
        }
    } else if !e.leaf_entry() {
        lemma_grown_path(
            m,
            frames,
            kept,
            e.target(),
            va,
            (from - 1) as nat,
            level,
            leaf,
            top,
            b,
            height,
        );
    }
}

/// A mapping below one of the tables of a root leaves the root itself alone.
proof fn lemma_grown_below(
    m: Map<int, u64>,
    frames: Seq<u64>,
    root: u64,
    table: u64,
    va: u64,
    level: nat,
    leaf: Pte,
)
    requires
        level <= 1,
        leaf.leaf_entry(),
        rooted(m, frames, root),
        crate::mm::translation::path_avoids(m, frames.push(root), table, va, 1),
    ensures
        ({
            let done = crate::mm::page_table::grown(m, frames, table, va, 1, level, leaf);
            &&& rooted(done.mem, done.frames, root)
            &&& forall|w: int|
                root as int / 8 <= w < root as int / 8 + 512 ==> #[trigger] done.mem[w] == m[w]
        }),
{
    let done = crate::mm::page_table::grown(m, frames, table, va, 1, level, leaf);
    let all = frames.push(root);
    let kept = seq![root];
    assert(all =~= frames + kept);
    lemma_parts(frames, kept);
    assert forall|i: int| 0 <= i < frames.len() implies (#[trigger] frames[i]) % 4096 == 0
        && frames[i] < crate::mm::addr::PHYS_LIMIT by {
        assert(all[i] == frames[i]);
    }
    assert(all[frames.len() as int] == root);
    crate::mm::translation::lemma_avoids_fewer(m, all, frames, table, va, 1);
    assert forall|w: int|
        root as int / 8 <= w < root as int / 8 + 512 implies #[trigger] done.mem[w] == m[w] by {
        assert(kept[0] as int / 8 <= w < kept[0] as int / 8 + 512);
        assert(crate::mm::translation::in_frames(kept, w));
        lemma_kept_word(frames, kept, w);
        lemma_not_read(m, all, table, va, 1, w);
        crate::mm::translation::lemma_grown_changes(m, frames, table, va, 1, level, leaf, w);
    }
    lemma_grown_path(m, frames, kept, table, va, 1, level, leaf, table, va, 1);
    assert(done.frames.push(root) =~= done.frames + kept);
    assert(root % 4096 == 0);
    assert forall|b: u64| #[trigger] stems(done.mem, done.frames, root, b) by {
        let y = crate::mm::page_table::entry_word(root, b, MAX_LEVEL as nat);
        assert(0 <= crate::mm::addr::vpn_of(b, MAX_LEVEL as nat) < 512);
        assert(done.mem[y] == m[y]);
        assert(stems(m, frames, root, b));
        let e = Pte(m[y]);
        if e.branch_entry() {
            lemma_grown_path(m, frames, kept, table, va, 1, level, leaf, e.target(), b, 1);
        }
    }
}

/// Making the first table on the way of `va` keeps a root rooted.
proof fn lemma_table_made(m: Map<int, u64>, frames: Seq<u64>, root: u64, va: u64)
    requires
        rooted(m, frames, root),
        frames.len() > 0,
    ensures
        ({
            let x = crate::mm::page_table::entry_word(root, va, MAX_LEVEL as nat);
            let m2 = crate::mm::memory::with_zero_frame(m, frames[0]).insert(
                x,
                Pte::branch_of(frames[0]).0,
            );
            &&& rooted(m2, frames.drop_first(), root)
            &&& crate::mm::translation::path_avoids(
                m2,
                frames.drop_first().push(root),
                frames[0],
                va,
                1,
            )
            &&& forall|w: int|
                root as int / 8 <= w < root as int / 8 + 512 && w != x ==> #[trigger] m2[w] == m[w]
        }),
{
    let f = frames[0];
    let rest = frames.drop_first();
    let all = frames.push(root);
    let fewer = rest.push(root);
    let x = crate::mm::page_table::entry_word(root, va, MAX_LEVEL as nat);
    let m2 = crate::mm::memory::with_zero_frame(m, f).insert(x, Pte::branch_of(f).0);
    assert(0 <= crate::mm::addr::vpn_of(va, MAX_LEVEL as nat) < 512);
    assert(all[0] == f && all[frames.len() as int] == root);
    assert(f % 4096 == 0 && root % 4096 == 0 && f != root);
    assert(f < crate::mm::addr::PHYS_LIMIT);
    crate::mm::page_table::branch_entries_round_trip(f);
    crate::mm::page_table::lemma_empty_entry();
    assert(all.drop_first() =~= fewer);
    crate::mm::translation::lemma_rest_of_frames(all);
    assert forall|w: int| !crate::mm::translation::in_frames(all, w) implies #[trigger] m2[w]
        == m[w] by {
        if f as int / 8 <= w < f as int / 8 + 512 {
            assert(all[0] as int / 8 <= w < all[0] as int / 8 + 512);
        }
        if w == x {
            let n = frames.len() as int;
            assert(all[n] as int / 8 <= w < all[n] as int / 8 + 512);
        }
    }
    assert forall|b: u64| crate::mm::translation::path_avoids(m2, fewer, f, b, 1) by {
        let z = crate::mm::page_table::entry_word(f, b, 1);
        assert(0 <= crate::mm::addr::vpn_of(b, 1) < 512);
        assert(m2[z] == 0);
    }
    assert forall|b: u64| #[trigger] stems(m2, rest, root, b) by {
        let y = crate::mm::page_table::entry_word(root, b, MAX_LEVEL as nat);
        assert(0 <= crate::mm::addr::vpn_of(b, MAX_LEVEL as nat) < 512);
        assert(stems(m, frames, root, b));
        if y != x {
            let e = Pte(m[y]);
            assert(m2[y] == m[y]);
            if e.branch_entry() {
                lemma_path_unchanged(m, m2, all, e.target(), b, 1);
                crate::mm::translation::lemma_avoids_fewer(m2, all, fewer, e.target(), b, 1);
            }
        } else {
            assert(crate::mm::translation::path_avoids(m2, fewer, f, b, 1));
        }
    }
}

/// Mapping a page keeps the tables below a root apart from it, and changes no
/// entry of the root but the one on the way of the page.
pub proof fn mapping_changes_one_root_entry(
    m: Map<int, u64>,
    frames: Seq<u64>,
    root: u64,
    va: u64,
    pa: u64,
    level: int,
    flags: PteFlags,
)
    requires
        rooted(m, frames, root),
        0 <= level,
        pa < crate::mm::addr::PHYS_LIMIT,
        flags.0 <= 0xff,
    ensures
        ({
            let done = crate::mm::page_table::mapped(m, frames, root, va, pa, level, flags);
            &&& rooted(done.mem, done.frames, root)
            &&& forall|w: int|
                root as int / 8 <= w < root as int / 8 + 512 && w
                    != crate::mm::page_table::entry_word(root, va, MAX_LEVEL as nat)
                    ==> #[trigger] done.mem[w] == m[w]
        }),
{
    reveal(crate::mm::page_table::mapped);
    if crate::mm::page_table::leaf_refused(va, pa, level, flags) is None {
        let leaf = Pte::leaf_of(pa, flags.0);
        crate::mm::addr::lemma_spans();
        crate::mm::translation::lemma_leaf_translation(va, pa, level as nat, flags, va);
        let x = crate::mm::page_table::entry_word(root, va, MAX_LEVEL as nat);
        let e = Pte(m[x]);
        let all = frames.push(root);
        assert(0 <= crate::mm::addr::vpn_of(va, MAX_LEVEL as nat) < 512);
        assert(all[frames.len() as int] == root);
        assert(root % 4096 == 0);
        if level == 2 {
            if !e.valid() {
                let m2 = m.insert(x, leaf.0);
                assert forall|w: int| !crate::mm::translation::in_frames(all, w) implies #[trigger]
                    m2[w] == m[w] by {
                    if w == x {
                        let n = frames.len() as int;
                        assert(all[n] as int / 8 <= w < all[n] as int / 8 + 512);
                    }
                }
                assert forall|b: u64| #[trigger] stems(m2, frames, root, b) by {
                    let y = crate::mm::page_table::entry_word(root, b, MAX_LEVEL as nat);
                    assert(stems(m, frames, root, b));
                    let old = Pte(m[y]);
                    if y != x && old.branch_entry() {
                        lemma_path_unchanged(m, m2, all, old.target(), b, 1);
                    }
                }
            }
        } else if !e.valid() {
            if frames.len() > 0 {
                let f = frames[0];
                let m2 = crate::mm::memory::with_zero_frame(m, f).insert(x, Pte::branch_of(f).0);
                lemma_table_made(m, frames, root, va);
                assert(all[0] == f);
                crate::mm::page_table::branch_entries_round_trip(f);
                lemma_grown_below(m2, frames.drop_first(), root, f, va, level as nat, leaf);
                let done = crate::mm::page_table::grown(
                    m2,
                    frames.drop_first(),
                    f,
                    va,
                    1,
                    level as nat,
                    leaf,
                );
                assert forall|w: int|
                    root as int / 8 <= w < root as int / 8 + 512 && w != x implies #[trigger]
                    done.mem[w] == m[w] by {
                    assert(m2[w] == m[w]);
                }
            }
        } else if !e.leaf_entry() {
            assert(stems(m, frames, root, va));
            lemma_grown_below(m, frames, root, e.target(), va, level as nat, leaf);
        }
    }
}

/// The same for a range that starts at or above an entry of the root: the
/// entries before that one stay as they were.
pub proof fn mapping_a_range_changes_no_earlier_root_entry(
    m: Map<int, u64>,
    frames: Seq<u64>,
    root: u64,
    va: u64,
    pa: u64,
    size: u64,
    flags: PteFlags,
    offset: int,
    first: int,
)
    requires
        rooted(m, frames, root),
        flags.0 <= 0xff,
        pa + size <= crate::mm::addr::PHYS_LIMIT,
        va + size <= u64::MAX + 1,
        0 <= offset,
        forall|a: u64| va <= a < va + size ==> first <= #[trigger] crate::mm::addr::vpn_of(a, 2),
    ensures
        ({
            let done = crate::mm::page_table::range_mapped(
                m,
                frames,
                root,
                va,
                pa,
                size,
                flags,
                offset,
            );
            &&& rooted(done.mem, done.frames, root)
            &&& forall|w: int|
                root as int / 8 <= w < root as int / 8 + 512 && w < root as int / 8 + first
                    ==> #[trigger] done.mem[w] == m[w]
        }),
    decreases size + 4096 - offset,
{
    if offset < size {
        crate::mm::addr::lemma_spans();
        let level = crate::mm::page_table::best_level(va + offset, pa + offset, size - offset);
        let cur_va = (va + offset) as u64;
        let cur_pa = (pa + offset) as u64;
        let step = crate::mm::page_table::mapped(
            m,
            frames,
            root,
            cur_va,
            cur_pa,
            level as int,
            flags,
        );
        mapping_changes_one_root_entry(m, frames, root, cur_va, cur_pa, level as int, flags);
        assert(first <= crate::mm::addr::vpn_of(cur_va, 2));
        if step.result is Ok {
            mapping_a_range_changes_no_earlier_root_entry(
                step.mem,
                step.frames,
                root,
                va,
                pa,
                size,
                flags,
                offset + crate::mm::addr::span(level),
                first,
            );
            let done = crate::mm::page_table::range_mapped(
                m,
                frames,
                root,
                va,
                pa,
                size,
                flags,
                offset,
            );
            assert forall|w: int|
                root as int / 8 <= w < root as int / 8 + 512 && w < root as int / 8 + first implies
                #[trigger] done.mem[w] == m[w] by {
                assert(step.mem[w] == m[w]);
            }
        }
    }
}

} // verus!
