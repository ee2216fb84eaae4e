//! What unmapping an address does: exactly the page around it is gone.

use crate::mm::addr::PhysAddr;
use crate::mm::page_table::{MapError, Pte, Walk, MAX_LEVEL};
use vstd::prelude::*;

verus! {

/// Unmapping clears the leaf that translation finds, or finds none either.
proof fn lemma_unmapped_leaf(m: Map<int, u64>, root: u64, table: u64, va: u64, level: nat) -> (t:
    u64)
    requires
        level <= MAX_LEVEL,
        crate::mm::translation::reaches(m, root, va, level, table),
    ensures
        match crate::mm::page_table::translated_from(m, table, va, level) {
            None => crate::mm::page_table::unmapped_from(m, table, va, level) == (
                m,
                Err::<PhysAddr, MapError>(MapError::NotMapped),
            ),
            Some(found) => {
                let e = crate::mm::page_table::entry_for(m, t, va, found.2 as nat);
                &&& found.2 <= level
                &&& crate::mm::translation::reaches(m, root, va, found.2 as nat, t)
                &&& e.leaf_entry()
                &&& crate::mm::page_table::unmapped_from(m, table, va, level) == (
                    m.insert(crate::mm::page_table::entry_word(t, va, found.2 as nat), 0),
                    Ok::<PhysAddr, MapError>(PhysAddr(e.target())),
                )
            },
        },
    decreases level,
{
    let e = crate::mm::page_table::entry_for(m, table, va, level);
    if e.branch_entry() && level > 0 {
        crate::mm::translation::lemma_walk_step(m, root, va, MAX_LEVEL as nat, level, table);
        lemma_unmapped_leaf(m, root, e.target(), va, (level - 1) as nat)
    } else {
        table
    }
}

/// An address that shares every entry with `va` down to a leaf is translated by
/// that leaf, and not at all once the leaf is cleared.
proof fn lemma_leaf_cleared(
    m: Map<int, u64>,
    table: u64,
    va: u64,
    b: u64,
    from: nat,
    level: nat,
    t: u64,
)
    requires
        level <= from <= MAX_LEVEL,
        crate::mm::page_table::walk(m, table, va, from, level) == Walk::Table(t),
        crate::mm::page_table::entry_for(m, t, va, level).leaf_entry(),
        forall|k: nat|
            level <= k <= from ==> #[trigger] crate::mm::addr::vpn_of(b, k)
                == crate::mm::addr::vpn_of(va, k),
    ensures
        ({
            let w = crate::mm::page_table::entry_word(t, va, level);
            let e = crate::mm::page_table::entry_for(m, t, va, level);
            &&& crate::mm::page_table::translated_from(m.insert(w, 0), table, b, from) is None
            &&& crate::mm::page_table::translated_from(m, table, b, from) == Some(
                (
                    PhysAddr(e.target() | (b & ((crate::mm::addr::span(level) - 1) as u64))),
                    e.flags_spec(),
                    level as usize,
                ),
            )
        }),
    decreases from,
{
    let w = crate::mm::page_table::entry_word(t, va, level);
    crate::mm::page_table::lemma_empty_entry();
    assert(crate::mm::addr::vpn_of(b, from) == crate::mm::addr::vpn_of(va, from));
    if from > level {
        let e = crate::mm::page_table::entry_for(m, table, va, from);
        assert(crate::mm::page_table::entry_word(table, va, from) != w);
        assert(crate::mm::page_table::entry_for(m.insert(w, 0), table, b, from) == e);
        lemma_leaf_cleared(m, e.target(), va, b, (from - 1) as nat, level, t);
    }
}

/// Where the page of `level` around an address starts.
pub open spec fn page_start(va: u64, level: nat) -> u64 {
    (va - va as nat % crate::mm::addr::span(level)) as u64
}

pub(crate) proof fn lemma_page_start(va: u64, level: nat)
    requires
        level <= MAX_LEVEL,
    ensures
        page_start(va, level) as nat % crate::mm::addr::span(level) == 0,
        page_start(va, level) <= va,
        crate::mm::translation::in_page(va, page_start(va, level), level),
        crate::mm::addr::canonical(va) ==> crate::mm::addr::canonical(page_start(va, level)),
{
    crate::mm::addr::lemma_spans();
    assert(level == 0 || level == 1 || level == 2);
    if level == 0 {
        assert(page_start(va, level) % 4096 == 0);
    } else if level == 1 {
        assert(page_start(va, level) % 0x20_0000 == 0);
    } else {
        assert(page_start(va, level) % 0x4000_0000 == 0);
    }
}

/// In a tree of tables, unmapping an address removes exactly the page around it:
/// it gives back the physical address the page started at, no address of the
/// page is translated any more, and every other address is translated as before.
/// Where nothing was mapped, nothing changes. The tables go on being a tree.
pub proof fn unmapping_removes_exactly_its_page(m: Map<int, u64>, root: u64, va: u64, b: u64)
    requires
        crate::mm::translation::is_tree(m, root),
    ensures
        ({
            let (m2, r) = crate::mm::page_table::unmapped(m, root, va);
            &&& crate::mm::translation::is_tree(m2, root)
            &&& match crate::mm::page_table::translated(m, root, va) {
                None => {
                    &&& m2 == m
                    &&& r == Err::<PhysAddr, MapError>(
                        if crate::mm::addr::canonical(va) {
                            MapError::NotMapped
                        } else {
                            MapError::NonCanonical
                        },
                    )
                },
                Some((pa, flags, level)) => {
                    let start = page_start(va, level as nat);
                    &&& level <= MAX_LEVEL
                    &&& crate::mm::page_table::translated(m, root, start) matches Some(first)
                    &&& r == Ok::<PhysAddr, MapError>(first.0)
                    &&& first.0.0 as nat % crate::mm::addr::span(level as nat) == 0 ==> first.0.0
                        == pa.0 - va as nat % crate::mm::addr::span(level as nat)
                    &&& crate::mm::page_table::translated(m2, root, b) == if
                        crate::mm::translation::in_page(b, start, level as nat) {
                        None
                    } else {
                        crate::mm::page_table::translated(m, root, b)
                    }
                },
            }
        }),
{
    if crate::mm::addr::canonical(va) {
        let t = lemma_unmapped_leaf(m, root, root, va, MAX_LEVEL as nat);
        if let Some((pa, flags, level)) = crate::mm::page_table::translated(m, root, va) {
            let l = level as nat;
            let w = crate::mm::page_table::entry_word(t, va, l);
            let start = page_start(va, l);
            let m2 = m.insert(w, 0);
            let e = crate::mm::page_table::entry_for(m, t, va, l);
            lemma_page_start(va, l);
            lemma_shared_page(m, root, va, start, l, t);
            lemma_shared_page(m, root, va, va, l, t);
            lemma_first_of_page(e.target(), va, start, l);
            lemma_still_a_tree(m, root, w);
            if crate::mm::translation::in_page(b, start, l) {
                lemma_shared_page(m, root, va, b, l, t);
            } else if crate::mm::addr::canonical(b) {
                lemma_unread_outside(m, root, va, b, l, t);
                crate::mm::translation::unread_words_do_not_matter(m, root, b, w, 0);
            }
        }
    }
}

/// Once an address is unmapped, no address of the page around it is translated,
/// whether the tables are a tree or not.
pub(crate) proof fn lemma_page_unmapped(m: Map<int, u64>, root: u64, va: u64, b: u64)
    requires
        crate::mm::page_table::translated(m, root, va) is Some,
        crate::mm::translation::in_page(
            b,
            page_start(va, crate::mm::page_table::translated(m, root, va)->Some_0.2 as nat),
            crate::mm::page_table::translated(m, root, va)->Some_0.2 as nat,
        ),
    ensures
        ({
            let level = crate::mm::page_table::translated(m, root, va)->Some_0.2 as nat;
            let (m2, r) = crate::mm::page_table::unmapped(m, root, va);
            &&& crate::mm::page_table::translated(m, root, page_start(va, level)) matches Some(
                first,
            )
            &&& r == Ok::<PhysAddr, MapError>(first.0)
            &&& crate::mm::page_table::translated(m2, root, b) is None
        }),
{
    let level = crate::mm::page_table::translated(m, root, va)->Some_0.2 as nat;
    let t = lemma_unmapped_leaf(m, root, root, va, MAX_LEVEL as nat);
    let e = crate::mm::page_table::entry_for(m, t, va, level);
    lemma_page_start(va, level);
    lemma_shared_page(m, root, va, page_start(va, level), level, t);
    lemma_shared_page(m, root, va, b, level, t);
    lemma_first_of_page(e.target(), va, page_start(va, level), level);
}

/// The addresses of one small page are translated at the same level, or none is.
pub(crate) proof fn lemma_one_page(m: Map<int, u64>, root: u64, va: u64)
    ensures
        ({
            let first = crate::mm::page_table::translated(m, root, page_start(va, 0));
            let found = crate::mm::page_table::translated(m, root, va);
            crate::mm::addr::canonical(va) ==> first is Some == found is Some && (found is Some
                ==> first->Some_0.2 == found->Some_0.2)
        }),
{
    if crate::mm::addr::canonical(va) {
        lemma_page_start(va, 0);
        lemma_one_page_below(m, root, va, MAX_LEVEL as nat);
    }
}

proof fn lemma_one_page_below(m: Map<int, u64>, table: u64, va: u64, level: nat)
    requires
        level <= MAX_LEVEL,
    ensures
        ({
            let first = crate::mm::page_table::translated_from(m, table, page_start(va, 0), level);
            let found = crate::mm::page_table::translated_from(m, table, va, level);
            first is Some == found is Some && (found is Some ==> first->Some_0.2
                == found->Some_0.2)
        }),
    decreases level,
{
    lemma_page_start(va, 0);
    crate::mm::translation::lemma_same_page(page_start(va, 0), va, 0, level);
    let e = crate::mm::page_table::entry_for(m, table, va, level);
    if e.branch_entry() && level > 0 {
        lemma_one_page_below(m, e.target(), va, (level - 1) as nat);
    }
}

/// Unmapping puts no table where frames are still to be handed out.
pub proof fn unmapping_keeps_frames_apart(m: Map<int, u64>, frames: Seq<u64>, root: u64, va: u64)
    requires
        crate::mm::keeping::apart(m, frames, root),
    ensures
        crate::mm::keeping::apart(
            crate::mm::page_table::unmapped(m, root, va).0,
            frames,
            root,
        ),
{
    if crate::mm::addr::canonical(va) {
        let t = lemma_unmapped_leaf(m, root, root, va, MAX_LEVEL as nat);
        if let Some((pa, flags, level)) = crate::mm::page_table::translated(m, root, va) {
            reveal(crate::mm::keeping::apart);
            let w = crate::mm::page_table::entry_word(t, va, level as nat);
            let m2 = m.insert(w, 0);
            assert forall|b: u64| #[trigger]
                crate::mm::translation::path_avoids(m2, frames, root, b, MAX_LEVEL as nat) by {
                assert(crate::mm::translation::path_avoids(m, frames, root, b, MAX_LEVEL as nat));
                lemma_avoids_after_clearing(m, frames, root, b, MAX_LEVEL as nat, w);
            }
        }
    }
}

proof fn lemma_avoids_after_clearing(
    m: Map<int, u64>,
    frames: Seq<u64>,
    table: u64,
    b: u64,
    from: nat,
    w: int,
)
    requires
        crate::mm::translation::path_avoids(m, frames, table, b, from),
    ensures
        crate::mm::translation::path_avoids(m.insert(w, 0), frames, table, b, from),
    decreases from,
{
    crate::mm::page_table::lemma_empty_entry();
    let e = crate::mm::page_table::entry_for(m, table, b, from);
    if e.branch_entry() && from > 0 {
        lemma_avoids_after_clearing(m, frames, e.target(), b, (from - 1) as nat, w);
    }
}

/// Clearing a word leaves an address translated as it was, or not at all.
pub(crate) proof fn lemma_cleared_word(m: Map<int, u64>, table: u64, b: u64, level: nat, w: int)
    ensures
        ({
            let after = crate::mm::page_table::translated_from(m.insert(w, 0), table, b, level);
            after is None || after == crate::mm::page_table::translated_from(m, table, b, level)
        }),
    decreases level,
{
    crate::mm::page_table::lemma_empty_entry();
    let e = crate::mm::page_table::entry_for(m, table, b, level);
    if e.branch_entry() && level > 0 {
        lemma_cleared_word(m, e.target(), b, (level - 1) as nat, w);
    }
}

/// What the leaf of `va` means for an address of the same page.
proof fn lemma_shared_page(m: Map<int, u64>, root: u64, va: u64, b: u64, level: nat, t: u64)
    requires
        level <= MAX_LEVEL,
        crate::mm::translation::reaches(m, root, va, level, t),
        crate::mm::page_table::entry_for(m, t, va, level).leaf_entry(),
        crate::mm::translation::in_page(b, page_start(va, level), level),
        crate::mm::addr::canonical(va),
    ensures
        ({
            let w = crate::mm::page_table::entry_word(t, va, level);
            let e = crate::mm::page_table::entry_for(m, t, va, level);
            &&& crate::mm::page_table::translated(m.insert(w, 0), root, b) is None
            &&& crate::mm::page_table::translated(m, root, b) == Some(
                (
                    PhysAddr(e.target() | (b & ((crate::mm::addr::span(level) - 1) as u64))),
                    e.flags_spec(),
                    level as usize,
                ),
            )
        }),
{
    let start = page_start(va, level);
    lemma_page_start(va, level);
    crate::mm::translation::lemma_page_is_canonical(start, b, level);
    assert forall|k: nat| level <= k <= MAX_LEVEL implies #[trigger] crate::mm::addr::vpn_of(b, k)
        == crate::mm::addr::vpn_of(va, k) by {
        crate::mm::translation::lemma_same_page(start, b, level, k);
        crate::mm::translation::lemma_same_page(start, va, level, k);
    }
    lemma_leaf_cleared(m, root, va, b, MAX_LEVEL as nat, level, t);
}

proof fn lemma_first_of_page(target: u64, va: u64, start: u64, level: nat)
    requires
        level <= MAX_LEVEL,
        start == page_start(va, level),
    ensures
        target | (start & ((crate::mm::addr::span(level) - 1) as u64)) == target,
        target as nat % crate::mm::addr::span(level) == 0 ==> target | (va & ((
        crate::mm::addr::span(level) - 1) as u64)) == target + va as nat % crate::mm::addr::span(
            level,
        ),
{
    crate::mm::addr::lemma_spans();
    crate::bits::lemma_known_powers();
    assert(level == 0 || level == 1 || level == 2);
    lemma_page_start(va, level);
    let s = crate::mm::addr::span(level) as u64;
    crate::bits::lemma_mask(start, s);
    crate::bits::lemma_mask(va, s);
    crate::bits::lemma_mask(target, s);
    lemma_or_zero(target);
    let x = va & ((s - 1) as u64);
    crate::bits::lemma_mask(x, s);
    assert(x % s == x) by {
        vstd::arithmetic::div_mod::lemma_small_mod(x as nat, s as nat);
    }
    if target as nat % crate::mm::addr::span(level) == 0 {
        crate::mm::translation::lemma_or_is_add(target, x, (s - 1) as u64);
    }
}

proof fn lemma_or_zero(x: u64)
    by (bit_vector)
    ensures
        x | 0 == x,
{
}

/// Clearing an entry keeps a tree of tables a tree.
proof fn lemma_still_a_tree(m: Map<int, u64>, root: u64, w: int)
    requires
        crate::mm::translation::is_tree(m, root),
    ensures
        crate::mm::translation::is_tree(m.insert(w, 0), root),
{
    let m2 = m.insert(w, 0);
    crate::mm::page_table::lemma_empty_entry();
    assert forall|a: u64, k: nat, u: u64|
        crate::mm::translation::reaches(m2, root, a, k, u) implies #[trigger]
        crate::mm::translation::reaches(m, root, a, k, u) by {
        crate::mm::translation::lemma_walk_without(m, w, Pte(0), root, a, MAX_LEVEL as nat, k);
    }
    assert forall|a: u64, b: u64, k: nat, l: nat, u: u64|
        #![trigger crate::mm::translation::reaches(m2, root, a, k, u), crate::mm::translation::reaches(m2, root, b, l, u)]
        crate::mm::translation::reaches(m2, root, a, k, u) && crate::mm::translation::reaches(
            m2,
            root,
            b,
            l,
            u,
        ) implies k == l && crate::mm::translation::same_above(a, b, k) by {
        assert(crate::mm::translation::reaches(m, root, a, k, u));
        assert(crate::mm::translation::reaches(m, root, b, l, u));
    }
}

/// In a tree, translating an address outside a page does not read its leaf.
proof fn lemma_unread_outside(m: Map<int, u64>, root: u64, va: u64, b: u64, level: nat, t: u64)
    requires
        level <= MAX_LEVEL,
        crate::mm::translation::is_tree(m, root),
        crate::mm::translation::reaches(m, root, va, level, t),
        crate::mm::addr::canonical(va),
        crate::mm::addr::canonical(b),
        !crate::mm::translation::in_page(b, page_start(va, level), level),
    ensures
        !crate::mm::translation::reads(
            m,
            root,
            b,
            MAX_LEVEL as nat,
            crate::mm::page_table::entry_word(t, va, level),
        ),
{
    let w = crate::mm::page_table::entry_word(t, va, level);
    if crate::mm::translation::reads(m, root, b, MAX_LEVEL as nat, w) {
        crate::mm::translation::lemma_reader(m, root, root, b, MAX_LEVEL as nat, w);
        let (k, u) = choose|k: nat, u: u64|
            #[trigger] crate::mm::translation::reaches(m, root, b, k, u)
                && crate::mm::page_table::entry_word(u, b, k) == w && u % 4096 == 0;
        crate::mm::translation::lemma_walk_aligned(m, root, va, MAX_LEVEL as nat, level);
        assert(u as int / 8 == t as int / 8) by {
            assert(0 <= crate::mm::addr::vpn_of(b, k) < 512);
            assert(0 <= crate::mm::addr::vpn_of(va, level) < 512);
        }
        assert(u == t);
        assert(k == level && crate::mm::translation::same_above(b, va, level));
        let start = page_start(va, level);
        lemma_page_start(va, level);
        assert forall|n: nat| level <= n <= MAX_LEVEL implies #[trigger] crate::mm::addr::vpn_of(
            b,
            n,
        ) == crate::mm::addr::vpn_of(start, n) by {
            crate::mm::translation::lemma_same_page(start, va, level, n);
        }
        crate::mm::translation::lemma_entries_identify_the_page(b, start, level);
    }
}

} // verus!
