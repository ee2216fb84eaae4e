//! What mapping a page does not do: no address outside the page is translated
//! any differently.

use crate::mm::page_table::{Pte, PteFlags, Walk, MAX_LEVEL};
use vstd::prelude::*;

verus! {

// --- Trees ---

/// A table that was just cleared is a tree of its own.
pub proof fn a_fresh_root_is_a_tree(m: Map<int, u64>, root: u64)
    requires
        root % 4096 == 0,
    ensures
        crate::mm::translation::is_tree(crate::mm::memory::with_zero_frame(m, root), root),
{
    let first = crate::mm::memory::with_zero_frame(m, root);
    crate::mm::page_table::lemma_empty_entry();
    assert forall|a: u64, k: nat, t: u64| #[trigger]
        crate::mm::translation::reaches(first, root, a, k, t) implies k == 2 by {
        let w = crate::mm::page_table::entry_word(root, a, 2);
        assert(0 <= crate::mm::addr::vpn_of(a, 2) < 512);
        assert(first[w] == 0);
    }
}

/// A table created from the first frame is reached only through the entry it
/// was put in, and leads nowhere yet.
proof fn lemma_walk_after_branch(
    m: Map<int, u64>,
    frames: Seq<u64>,
    x: int,
    table: u64,
    b: u64,
    from: nat,
    to: nat,
    u: u64,
)
    requires
        crate::mm::translation::proper_frames(frames),
        frames.len() > 0,
        !crate::mm::translation::in_frames(frames, x),
        crate::mm::translation::path_avoids(m, frames, table, b, from),
        crate::mm::page_table::walk(
            crate::mm::memory::with_zero_frame(m, frames[0]).insert(
                x,
                Pte::branch_of(frames[0]).0,
            ),
            table,
            b,
            from,
            to,
        ) == Walk::Table(u),
    ensures
        u != frames[0] ==> crate::mm::page_table::walk(m, table, b, from, to) == Walk::Table(u),
        u == frames[0] ==> to < from && (crate::mm::page_table::walk(
            m,
            table,
            b,
            from,
            to + 1,
        ) matches Walk::Table(t) && t % 4096 == 0 && crate::mm::page_table::entry_word(
            t,
            b,
            to + 1,
        ) == x),
    decreases from,
{
    let f = frames[0];
    let m2 = crate::mm::memory::with_zero_frame(m, f).insert(x, Pte::branch_of(f).0);
    assert(f % 4096 == 0 && f < crate::mm::addr::PHYS_LIMIT);
    crate::mm::page_table::branch_entries_round_trip(f);
    if from > to {
        let y = crate::mm::page_table::entry_word(table, b, from);
        crate::mm::translation::lemma_entry_outside_frames(
            frames,
            table,
            crate::mm::addr::vpn_of(b, from),
        );
        if y == x {
            assert(crate::mm::page_table::entry_for(m2, table, b, from) == Pte::branch_of(f));
            assert(crate::mm::page_table::walk(m2, f, b, (from - 1) as nat, to) == Walk::Table(u));
            if from - 1 > to {
                let z = crate::mm::page_table::entry_word(f, b, (from - 1) as nat);
                assert(0 <= crate::mm::addr::vpn_of(b, (from - 1) as nat) < 512);
                assert(frames[0] as int / 8 <= z < frames[0] as int / 8 + 512);
                assert(crate::mm::translation::in_frames(frames, z));
                assert(m2[z] == 0);
                crate::mm::page_table::lemma_empty_entry();
                assert(!crate::mm::page_table::entry_for(m2, f, b, (from - 1) as nat).valid());
            }
            assert(to + 1 == from && u == f);
            assert(crate::mm::page_table::walk(m, table, b, from, to + 1) == Walk::Table(table));
        } else {
            assert(m2[y] == m[y]) by {
                if frames[0] as int / 8 <= y < frames[0] as int / 8 + 512 {
                    assert(crate::mm::translation::in_frames(frames, y));
                }
            }
            let e = Pte(m[y]);
            assert(crate::mm::page_table::entry_for(m2, table, b, from) == e);
            lemma_walk_after_branch(m, frames, x, e.target(), b, (from - 1) as nat, to, u);
        }
    } else {
        assert(frames.contains(frames[0]));
        assert(u == table);
    }
}

/// Creating a table keeps a tree of tables a tree.
#[verifier::spinoff_prover]
proof fn lemma_branch_keeps_a_tree(m: Map<int, u64>, frames: Seq<u64>, root: u64, x: int)
    requires
        crate::mm::keeping::apart(m, frames, root),
        frames.len() > 0,
        !crate::mm::translation::in_frames(frames, x),
        crate::mm::translation::is_tree(m, root),
    ensures
        crate::mm::translation::is_tree(
            crate::mm::memory::with_zero_frame(m, frames[0]).insert(
                x,
                Pte::branch_of(frames[0]).0,
            ),
            root,
        ),
{
    reveal(crate::mm::keeping::apart);
    let f = frames[0];
    let m2 = crate::mm::memory::with_zero_frame(m, f).insert(x, Pte::branch_of(f).0);
    assert forall|a: u64, b: u64, k: nat, l: nat, u: u64|
        #![trigger crate::mm::translation::reaches(m2, root, a, k, u), crate::mm::translation::reaches(m2, root, b, l, u)]
        crate::mm::translation::reaches(m2, root, a, k, u) && crate::mm::translation::reaches(
            m2,
            root,
            b,
            l,
            u,
        ) implies k == l && crate::mm::translation::same_above(a, b, k) by {
        assert(crate::mm::translation::path_avoids(m, frames, root, a, MAX_LEVEL as nat));
        assert(crate::mm::translation::path_avoids(m, frames, root, b, MAX_LEVEL as nat));
        lemma_walk_after_branch(m, frames, x, root, a, MAX_LEVEL as nat, k, u);
        lemma_walk_after_branch(m, frames, x, root, b, MAX_LEVEL as nat, l, u);
        if u != f {
            assert(crate::mm::translation::reaches(m, root, a, k, u));
            assert(crate::mm::translation::reaches(m, root, b, l, u));
        } else {
            let s = crate::mm::page_table::walk(m, root, a, MAX_LEVEL as nat, k + 1)->Table_0;
            let t = crate::mm::page_table::walk(m, root, b, MAX_LEVEL as nat, l + 1)->Table_0;
            let i = crate::mm::addr::vpn_of(a, k + 1);
            let j = crate::mm::addr::vpn_of(b, l + 1);
            assert(0 <= i < 512 && 0 <= j < 512);
            assert(s as int / 8 + i == t as int / 8 + j);
            assert(s == t && i == j);
            assert(crate::mm::translation::reaches(m, root, a, k + 1, s));
            assert(crate::mm::translation::reaches(m, root, b, l + 1, s));
            assert forall|n: nat| k < n <= MAX_LEVEL implies #[trigger] crate::mm::addr::vpn_of(
                a,
                n,
            ) == crate::mm::addr::vpn_of(b, n) by {
                if n > k + 1 {
                    assert(crate::mm::translation::same_above(a, b, k + 1));
                }
            }
        }
    }
}

/// Creating a table changes no translation.
proof fn lemma_branch_translates_nothing(
    m: Map<int, u64>,
    frames: Seq<u64>,
    x: int,
    table: u64,
    b: u64,
    level: nat,
)
    requires
        crate::mm::translation::proper_frames(frames),
        frames.len() > 0,
        !crate::mm::translation::in_frames(frames, x),
        !Pte(m[x]).valid(),
        crate::mm::translation::path_avoids(m, frames, table, b, level),
    ensures
        crate::mm::page_table::translated_from(
            crate::mm::memory::with_zero_frame(m, frames[0]).insert(
                x,
                Pte::branch_of(frames[0]).0,
            ),
            table,
            b,
            level,
        ) == crate::mm::page_table::translated_from(m, table, b, level),
    decreases level,
{
    let f = frames[0];
    let m2 = crate::mm::memory::with_zero_frame(m, f).insert(x, Pte::branch_of(f).0);
    assert(f % 4096 == 0 && f < crate::mm::addr::PHYS_LIMIT);
    crate::mm::page_table::branch_entries_round_trip(f);
    let y = crate::mm::page_table::entry_word(table, b, level);
    crate::mm::translation::lemma_entry_outside_frames(
        frames,
        table,
        crate::mm::addr::vpn_of(b, level),
    );
    if y == x {
        if level > 0 {
            let z = crate::mm::page_table::entry_word(f, b, (level - 1) as nat);
            assert(0 <= crate::mm::addr::vpn_of(b, (level - 1) as nat) < 512);
            assert(frames[0] as int / 8 <= z < frames[0] as int / 8 + 512);
            assert(crate::mm::translation::in_frames(frames, z));
            assert(m2[z] == 0);
            crate::mm::page_table::lemma_empty_entry();
            assert(crate::mm::page_table::translated_from(m2, f, b, (level - 1) as nat) is None);
        }
    } else {
        assert(m2[y] == m[y]) by {
            if frames[0] as int / 8 <= y < frames[0] as int / 8 + 512 {
                assert(crate::mm::translation::in_frames(frames, y));
            }
        }
        let e = Pte(m[y]);
        if e.branch_entry() && level > 0 {
            lemma_branch_translates_nothing(m, frames, x, e.target(), b, (level - 1) as nat);
        }
    }
}

/// A walk goes on as before when an entry that was not valid is filled in.
proof fn lemma_walk_goes_on(
    m: Map<int, u64>,
    frames: Seq<u64>,
    x: int,
    top: u64,
    va: u64,
    from: nat,
    to: nat,
)
    requires
        crate::mm::translation::proper_frames(frames),
        frames.len() > 0,
        !Pte(m[x]).valid(),
        crate::mm::translation::path_avoids(m, frames, top, va, from),
        crate::mm::page_table::walk(m, top, va, from, to) is Table,
    ensures
        crate::mm::page_table::walk(
            crate::mm::memory::with_zero_frame(m, frames[0]).insert(
                x,
                Pte::branch_of(frames[0]).0,
            ),
            top,
            va,
            from,
            to,
        ) == crate::mm::page_table::walk(m, top, va, from, to),
    decreases from,
{
    if from > to {
        let m2 = crate::mm::memory::with_zero_frame(m, frames[0]).insert(
            x,
            Pte::branch_of(frames[0]).0,
        );
        let y = crate::mm::page_table::entry_word(top, va, from);
        crate::mm::translation::lemma_entry_outside_frames(
            frames,
            top,
            crate::mm::addr::vpn_of(va, from),
        );
        assert(m2[y] == m[y]) by {
            if frames[0] as int / 8 <= y < frames[0] as int / 8 + 512 {
                assert(crate::mm::translation::in_frames(frames, y));
            }
        }
        lemma_walk_goes_on(m, frames, x, Pte(m[y]).target(), va, (from - 1) as nat, to);
    }
}

// --- One page ---

proof fn lemma_grown_exactly(
    m: Map<int, u64>,
    frames: Seq<u64>,
    root: u64,
    table: u64,
    va: u64,
    pa: u64,
    from: nat,
    level: nat,
    flags: PteFlags,
    b: u64,
)
    requires
        level <= from <= MAX_LEVEL,
        crate::mm::page_table::leaf_refused(va, pa, level as int, flags) is None,
        pa < crate::mm::addr::PHYS_LIMIT,
        flags.0 <= 0xff,
        crate::mm::keeping::apart(m, frames, root),
        crate::mm::translation::is_tree(m, root),
        crate::mm::translation::reaches(m, root, va, from, table),
        crate::mm::translation::path_avoids(m, frames, table, va, from),
    ensures
        ({
            let done = crate::mm::page_table::grown(
                m,
                frames,
                table,
                va,
                from,
                level,
                Pte::leaf_of(pa, flags.0),
            );
            &&& crate::mm::translation::is_tree(done.mem, root)
            &&& done.result is Err || !crate::mm::translation::in_page(b, va, level)
                ==> crate::mm::page_table::translated(done.mem, root, b)
                == crate::mm::page_table::translated(m, root, b)
        }),
    decreases from,
{
    let x = crate::mm::page_table::entry_word(table, va, from);
    let e = Pte(m[x]);
    if from == level && e.valid() {
    } else if from == level {
        assert(crate::mm::page_table::leaf_installed(m, root, va, pa, level as int, flags) == (
            m.insert(x, Pte::leaf_of(pa, flags.0).0),
            Ok::<(), crate::mm::page_table::MapError>(()),
        ));
        crate::mm::translation::leaves_keep_a_tree_a_tree(m, root, va, pa, level as int, flags);
        if !crate::mm::translation::in_page(b, va, level) {
            crate::mm::translation::mapping_touches_only_its_own_page(
                m,
                root,
                va,
                pa,
                level as int,
                flags,
                b,
            );
        }
    } else if !e.valid() && frames.len() == 0 {
    } else if !e.valid() {
        let f = frames[0];
        let rest = frames.drop_first();
        let m2 = crate::mm::memory::with_zero_frame(m, f).insert(x, Pte::branch_of(f).0);
        assert(crate::mm::translation::proper_frames(frames)
            && crate::mm::translation::tables_avoid(m, frames, root)) by {
            reveal(crate::mm::keeping::apart);
        }
        crate::mm::translation::lemma_entry_outside_frames(
            frames,
            table,
            crate::mm::addr::vpn_of(va, from),
        );
        crate::mm::translation::lemma_rest_of_frames(frames);
        assert(f % 4096 == 0 && f < crate::mm::addr::PHYS_LIMIT);
        crate::mm::page_table::branch_entries_round_trip(f);
        lemma_branch_keeps_a_tree(m, frames, root, x);
        assert(crate::mm::keeping::apart(m2, rest, root)) by {
            reveal(crate::mm::keeping::apart);
            assert forall|c: u64| #[trigger]
                crate::mm::translation::path_avoids(m2, rest, root, c, MAX_LEVEL as nat) by {
                assert(crate::mm::translation::path_avoids(m, frames, root, c, MAX_LEVEL as nat));
                crate::mm::translation::lemma_avoids_after_branch(
                    m,
                    frames,
                    x,
                    root,
                    c,
                    MAX_LEVEL as nat,
                );
            }
        }
        assert(crate::mm::translation::path_avoids(m, frames, root, va, MAX_LEVEL as nat));
        lemma_walk_goes_on(m, frames, x, root, va, MAX_LEVEL as nat, from);
        assert(m2[x] == Pte::branch_of(f).0);
        crate::mm::translation::lemma_walk_step(m2, root, va, MAX_LEVEL as nat, from, table);
        crate::mm::translation::lemma_avoids_after_branch(m, frames, x, table, va, from);
        assert(crate::mm::translation::path_avoids(m2, rest, f, va, (from - 1) as nat));
        if crate::mm::addr::canonical(b) {
            assert(crate::mm::translation::path_avoids(m, frames, root, b, MAX_LEVEL as nat));
            lemma_branch_translates_nothing(m, frames, x, root, b, MAX_LEVEL as nat);
        }
        lemma_grown_exactly(m2, rest, root, f, va, pa, (from - 1) as nat, level, flags, b);
    } else if !e.leaf_entry() {
        crate::mm::translation::lemma_walk_step(m, root, va, MAX_LEVEL as nat, from, table);
        lemma_grown_exactly(
            m,
            frames,
            root,
            e.target(),
            va,
            pa,
            (from - 1) as nat,
            level,
            flags,
            b,
        );
    }
}

/// Mapping a page, creating tables where they are missing, changes the
/// translation of no address outside the page, and of none at all if it fails;
/// and the tables go on being a tree.
pub proof fn a_mapping_adds_nothing_else(
    m: Map<int, u64>,
    frames: Seq<u64>,
    root: u64,
    va: u64,
    pa: u64,
    level: int,
    flags: PteFlags,
    b: u64,
)
    requires
        crate::mm::keeping::apart(m, frames, root),
        crate::mm::translation::is_tree(m, root),
        pa < crate::mm::addr::PHYS_LIMIT,
        flags.0 <= 0xff,
        0 <= level,
    ensures
        ({
            let done = crate::mm::page_table::mapped(m, frames, root, va, pa, level, flags);
            &&& crate::mm::translation::is_tree(done.mem, root)
            &&& done.result is Err || !crate::mm::translation::in_page(b, va, level as nat)
                ==> crate::mm::page_table::translated(done.mem, root, b)
                == crate::mm::page_table::translated(m, root, b)
        }),
{
    reveal(crate::mm::page_table::mapped);
    assert(crate::mm::translation::path_avoids(m, frames, root, va, MAX_LEVEL as nat)) by {
        reveal(crate::mm::keeping::apart);
    }
    if crate::mm::page_table::leaf_refused(va, pa, level, flags) is None {
        lemma_grown_exactly(
            m,
            frames,
            root,
            root,
            va,
            pa,
            MAX_LEVEL as nat,
            level as nat,
            flags,
            b,
        );
    }
}

/// A mapping that fails, whether it was refused, found the page taken or ran out
/// of frames for its tables, changes no translation.
pub proof fn a_failed_mapping_changes_no_translation(
    m: Map<int, u64>,
    frames: Seq<u64>,
    root: u64,
    va: u64,
    pa: u64,
    level: int,
    flags: PteFlags,
    b: u64,
)
    requires
        crate::mm::keeping::apart(m, frames, root),
        crate::mm::translation::is_tree(m, root),
        pa < crate::mm::addr::PHYS_LIMIT,
        flags.0 <= 0xff,
        0 <= level,
        crate::mm::page_table::mapped(m, frames, root, va, pa, level, flags).result is Err,
    ensures
        crate::mm::page_table::translated(
            crate::mm::page_table::mapped(m, frames, root, va, pa, level, flags).mem,
            root,
            b,
        ) == crate::mm::page_table::translated(m, root, b),
{
    a_mapping_adds_nothing_else(m, frames, root, va, pa, level, flags, b);
}

// --- A range ---

/// Mapping the rest of a range changes the translation of no address outside it,
/// whether all of it can be mapped or not. The range ends with a whole page.
pub proof fn mapping_a_range_adds_nothing_else(
    m: Map<int, u64>,
    frames: Seq<u64>,
    root: u64,
    va: u64,
    pa: u64,
    size: u64,
    flags: PteFlags,
    offset: int,
    b: u64,
)
    requires
        crate::mm::keeping::apart(m, frames, root),
        crate::mm::translation::is_tree(m, root),
        pa + size <= crate::mm::addr::PHYS_LIMIT,
        va + size <= u64::MAX + 1,
        flags.0 <= 0xff,
        0 <= offset,
        offset % 4096 == 0,
        !(va + offset <= b < va + (size + 4095) / 4096 * 4096),
    ensures
        ({
            let done = crate::mm::page_table::range_mapped(
                m,
                frames,
                root,
                va,
                pa,
                size,
                flags,
                offset,
            );
            &&& crate::mm::translation::is_tree(done.mem, root)
            &&& crate::mm::page_table::translated(done.mem, root, b)
                == crate::mm::page_table::translated(m, root, b)
        }),
    decreases size + 4096 - offset,
{
    if offset < size {
        crate::mm::addr::lemma_spans();
        let level = crate::mm::page_table::best_level(va + offset, pa + offset, size - offset);
        let cur_va = (va + offset) as u64;
        let cur_pa = (pa + offset) as u64;
        let step = crate::mm::page_table::mapped(
            m,
            frames,
            root,
            cur_va,
            cur_pa,
            level as int,
            flags,
        );
        a_mapping_adds_nothing_else(m, frames, root, cur_va, cur_pa, level as int, flags, b);
        if step.result is Ok {
            assert(crate::mm::keeping::apart(step.mem, step.frames, root)) by {
                reveal(crate::mm::keeping::apart);
                crate::mm::translation::mapping_keeps_frames_apart(
                    m,
                    frames,
                    root,
                    cur_va,
                    cur_pa,
                    level as int,
                    flags,
                );
            }
            mapping_a_range_adds_nothing_else(
                step.mem,
                step.frames,
                root,
                va,
                pa,
                size,
                flags,
                offset + crate::mm::addr::span(level),
                b,
            );
        }
    }
}

// --- Memory at an offset ---

/// Whether every address that is translated leads to the physical address `by`
/// bytes below it.
pub open spec fn is_shifted(m: Map<int, u64>, root: u64, by: int) -> bool {
    forall|b: u64|
        (#[trigger] crate::mm::page_table::translated(m, root, b)) is Some
            ==> crate::mm::page_table::translated(m, root, b)->Some_0.0.0 == b - by
}

/// Mapping a range at an offset leaves everything that is mapped at that offset.
pub proof fn mapping_a_range_keeps_the_offset(
    m: Map<int, u64>,
    frames: Seq<u64>,
    root: u64,
    va: u64,
    pa: u64,
    size: u64,
    flags: PteFlags,
    offset: int,
    by: int,
)
    requires
        crate::mm::keeping::apart(m, frames, root),
        crate::mm::translation::is_tree(m, root),
        is_shifted(m, root, by),
        pa == va - by,
        pa + size <= crate::mm::addr::PHYS_LIMIT,
        va + size <= u64::MAX + 1,
        flags.0 <= 0xff,
        0 <= offset,
        crate::mm::page_table::range_mapped(
            m,
            frames,
            root,
            va,
            pa,
            size,
            flags,
            offset,
        ).result is Ok,
    ensures
        ({
            let done = crate::mm::page_table::range_mapped(
                m,
                frames,
                root,
                va,
                pa,
                size,
                flags,
                offset,
            );
            &&& crate::mm::translation::is_tree(done.mem, root)
            &&& is_shifted(done.mem, root, by)
        }),
    decreases size + 4096 - offset,
{
    if offset < size {
        crate::mm::addr::lemma_spans();
        let level = crate::mm::page_table::best_level(va + offset, pa + offset, size - offset);
        let cur_va = (va + offset) as u64;
        let cur_pa = (pa + offset) as u64;
        let step = crate::mm::page_table::mapped(
            m,
            frames,
            root,
            cur_va,
            cur_pa,
            level as int,
            flags,
        );
        assert forall|b: u64|
            (#[trigger] crate::mm::page_table::translated(step.mem, root, b)) is Some implies
            crate::mm::page_table::translated(step.mem, root, b)->Some_0.0.0 == b - by by {
            a_mapping_adds_nothing_else(
                m,
                frames,
                root,
                cur_va,
                cur_pa,
                level as int,
                flags,
                b,
            );
            if crate::mm::translation::in_page(b, cur_va, level) {
                reveal(crate::mm::keeping::apart);
                assert(crate::mm::translation::path_avoids(
                    m,
                    frames,
                    root,
                    cur_va,
                    MAX_LEVEL as nat,
                ));
                crate::mm::translation::a_mapped_page_translates(
                    m,
                    frames,
                    root,
                    cur_va,
                    cur_pa,
                    level as int,
                    flags,
                    b,
                );
            } else {
                assert(crate::mm::page_table::translated(m, root, b) is Some);
            }
        }
        a_mapping_adds_nothing_else(m, frames, root, cur_va, cur_pa, level as int, flags, 0);
        assert(crate::mm::keeping::apart(step.mem, step.frames, root)) by {
            reveal(crate::mm::keeping::apart);
            crate::mm::translation::mapping_keeps_frames_apart(
                m,
                frames,
                root,
                cur_va,
                cur_pa,
                level as int,
                flags,
            );
        }
        mapping_a_range_keeps_the_offset(
            step.mem,
            step.frames,
            root,
            va,
            pa,
            size,
            flags,
            offset + crate::mm::addr::span(level),
            by,
        );
    }
}

} // verus!
