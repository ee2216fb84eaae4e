//! What changing a page table means for the addresses it translates.

use crate::mm::addr::PhysAddr;
use crate::mm::page_table::{MapError, Pte, PteFlags, Walk, MAX_LEVEL, V};
use vstd::prelude::*;

verus! {

/// Whether `a` lies in the page of `level` that starts at `va`.
pub open spec fn in_page(a: u64, va: u64, level: nat) -> bool {
    va <= a < va + crate::mm::addr::span(level)
}

/// Whether translating `b` below a table of level `level` reads word `w`.
pub open spec fn reads(m: Map<int, u64>, table: u64, b: u64, level: nat, w: int) -> bool
    decreases level,
{
    let e = crate::mm::page_table::entry_for(m, table, b, level);
    ||| crate::mm::page_table::entry_word(table, b, level) == w
    ||| e.branch_entry() && level > 0 && reads(m, e.target(), b, (level - 1) as nat, w)
}

/// Whether every table is reached in one way only: two addresses that lead to
/// the same table do so at the same level and through the same entries.
pub open spec fn is_tree(m: Map<int, u64>, root: u64) -> bool {
    &&& root % 4096 == 0
    &&& forall|a: u64, b: u64, k: nat, l: nat, t: u64|
        #![trigger reaches(m, root, a, k, t), reaches(m, root, b, l, t)]
        reaches(m, root, a, k, t) && reaches(m, root, b, l, t) ==> k == l && same_above(a, b, k)
}

/// Whether `a` leads to the table `t` at level `k`.
pub open spec fn reaches(m: Map<int, u64>, root: u64, a: u64, k: nat, t: u64) -> bool {
    k <= MAX_LEVEL && crate::mm::page_table::walk(m, root, a, MAX_LEVEL as nat, k) == Walk::Table(t)
}

/// Whether two addresses use the same entries at every level above `k`.
pub open spec fn same_above(a: u64, b: u64, k: nat) -> bool {
    forall|l: nat|
        k < l <= MAX_LEVEL ==> #[trigger] crate::mm::addr::vpn_of(a, l)
            == crate::mm::addr::vpn_of(b, l)
}

/// Whether none of the frames at hand is a table that `va` passes through.
pub open spec fn path_avoids(
    m: Map<int, u64>,
    frames: Seq<u64>,
    table: u64,
    va: u64,
    from: nat,
) -> bool
    decreases from,
{
    let e = crate::mm::page_table::entry_for(m, table, va, from);
    &&& table % 4096 == 0
    &&& !frames.contains(table)
    &&& e.branch_entry() && from > 0 ==> path_avoids(m, frames, e.target(), va, (from - 1) as nat)
}

/// Whether the frames are pages of physical memory, each listed once.
pub open spec fn proper_frames(frames: Seq<u64>) -> bool {
    &&& frames.no_duplicates()
    &&& forall|i: int|
        0 <= i < frames.len() ==> (#[trigger] frames[i]) % 4096 == 0 && frames[i]
            < crate::mm::addr::PHYS_LIMIT
}

/// Whether word `w` lies in one of the frames.
pub open spec fn in_frames(frames: Seq<u64>, w: int) -> bool {
    exists|i: int|
        0 <= i < frames.len() && (#[trigger] frames[i]) as int / 8 <= w < frames[i] as int / 8 + 512
}

// --- Arithmetic ---

pub(crate) proof fn lemma_or_is_add(p: u64, x: u64, m: u64)
    by (bit_vector)
    requires
        p & m == 0,
        x & m == x,
    ensures
        p | x == p + x,
{
}

/// Addresses of one page use the same entry at its level and at every level
/// above.
pub proof fn lemma_same_page(va: u64, a: u64, level: nat, l: nat)
    requires
        va as nat % crate::mm::addr::span(level) == 0,
        in_page(a, va, level),
        level <= l <= MAX_LEVEL,
    ensures
        crate::mm::addr::vpn_of(a, l) == crate::mm::addr::vpn_of(va, l),
{
    crate::mm::addr::lemma_spans();
    let s = crate::mm::addr::span(level) as int;
    let k: int = if l == level {
        1
    } else if l == level + 1 {
        512
    } else {
        0x4_0000
    };
    assert(level == 0 || level == 1 || level == 2);
    assert(l == 0 || l == 1 || l == 2);
    assert(crate::mm::addr::span(l) as int == s * k);
    let q = va as int / s;
    assert(va as int == s * q) by {
        vstd::arithmetic::div_mod::lemma_fundamental_div_mod(va as int, s);
    }
    assert(a as int / s == q) by {
        vstd::arithmetic::div_mod::lemma_fundamental_div_mod_converse(
            a as int,
            s,
            q,
            a as int - va as int,
        );
    }
    vstd::arithmetic::div_mod::lemma_div_denominator(a as int, s, k);
    vstd::arithmetic::div_mod::lemma_div_denominator(va as int, s, k);
}

pub proof fn lemma_page_is_canonical(va: u64, a: u64, level: nat)
    requires
        va as nat % crate::mm::addr::span(level) == 0,
        in_page(a, va, level),
        level <= MAX_LEVEL,
        crate::mm::addr::canonical(va),
    ensures
        crate::mm::addr::canonical(a),
{
    lemma_aligned(va, level);
    crate::mm::addr::lemma_spans();
    if level == 0 {
    } else if level == 1 {
    } else {
    }
}

/// Alignment to a page of `level`, with the page sizes written out.
proof fn lemma_aligned(x: u64, level: nat)
    requires
        x as nat % crate::mm::addr::span(level) == 0,
        level <= MAX_LEVEL,
    ensures
        level == 0 ==> x % 0x1000 == 0,
        level == 1 ==> x % 0x20_0000 == 0,
        level == 2 ==> x % 0x4000_0000 == 0,
        x % 4096 == 0,
{
    crate::mm::addr::lemma_spans();
    if level == 0 {
        assert(x as nat % 0x1000 == 0);
    } else if level == 1 {
        assert(x as nat % 0x20_0000 == 0);
    } else {
        assert(x as nat % 0x4000_0000 == 0);
    }
}

/// Two canonical addresses that use the same entries from `level` up lie in the
/// same page of that level.
pub(crate) proof fn lemma_entries_identify_the_page(a: u64, va: u64, level: nat)
    requires
        level <= MAX_LEVEL,
        crate::mm::addr::canonical(a),
        crate::mm::addr::canonical(va),
        va as nat % crate::mm::addr::span(level) == 0,
        same_above(a, va, level),
        crate::mm::addr::vpn_of(a, level) == crate::mm::addr::vpn_of(va, level),
    ensures
        in_page(a, va, level),
{
    crate::mm::addr::lemma_spans();
    lemma_aligned(va, level);
    assert(crate::mm::addr::vpn_of(a, 2) == crate::mm::addr::vpn_of(va, 2));
    if level <= 1 {
        assert(crate::mm::addr::vpn_of(a, 1) == crate::mm::addr::vpn_of(va, 1));
    }
    lemma_digits(a, va);
    if level == 0 {
        assert(crate::mm::addr::vpn_of(a, 0) == crate::mm::addr::vpn_of(va, 0));
        assert(a / 0x1000 == va / 0x1000);
    } else if level == 1 {
        assert(a / 0x20_0000 == va / 0x20_0000);
    } else {
        assert(a / 0x4000_0000 == va / 0x4000_0000);
    }
}

proof fn lemma_digits(a: u64, va: u64)
    by (bit_vector)
    requires
        a < 0x40_0000_0000 || a >= 0xFFFF_FFC0_0000_0000,
        va < 0x40_0000_0000 || va >= 0xFFFF_FFC0_0000_0000,
        (a / 0x4000_0000) % 512 == (va / 0x4000_0000) % 512,
    ensures
        a / 0x4000_0000 == va / 0x4000_0000,
        (a / 0x20_0000) % 512 == (va / 0x20_0000) % 512 ==> a / 0x20_0000 == va / 0x20_0000,
        (a / 0x20_0000) % 512 == (va / 0x20_0000) % 512 && (a / 0x1000) % 512 == (va / 0x1000)
            % 512 ==> a / 0x1000 == va / 0x1000,
{
}

/// An entry that maps the page at `va`, read by translating an address in it.
pub proof fn lemma_leaf_translation(va: u64, pa: u64, level: nat, flags: PteFlags, a: u64)
    requires
        level <= MAX_LEVEL,
        va as nat % crate::mm::addr::span(level) == 0,
        pa as nat % crate::mm::addr::span(level) == 0,
        pa < crate::mm::addr::PHYS_LIMIT,
        flags.0 <= 0xff,
        flags.leaf(),
        in_page(a, va, level),
    ensures
        Pte::leaf_of(pa, flags.0).leaf_entry(),
        Pte::leaf_of(pa, flags.0).target() == pa,
        Pte::leaf_of(pa, flags.0).flags_spec() == PteFlags(flags.0 | V),
        pa | (a & ((crate::mm::addr::span(level) - 1) as u64)) == pa + (a - va),
{
    crate::mm::addr::lemma_spans();
    assert(level == 0 || level == 1 || level == 2);
    lemma_aligned(pa, level);
    crate::mm::page_table::leaf_entries_round_trip(pa, flags);
    crate::bits::lemma_known_powers();
    let s = crate::mm::addr::span(level) as u64;
    crate::bits::lemma_mask(a, s);
    crate::bits::lemma_mask(pa, s);
    let x = a & ((s - 1) as u64);
    crate::bits::lemma_mask(x, s);
    assert(a as int % s as int == a - va) by {
        vstd::arithmetic::div_mod::lemma_fundamental_div_mod(va as int, s as int);
        vstd::arithmetic::div_mod::lemma_fundamental_div_mod_converse(
            a as int,
            s as int,
            va as int / s as int,
            a as int - va as int,
        );
    }
    assert(x % s == x) by {
        vstd::arithmetic::div_mod::lemma_small_mod(x as nat, s as nat);
    }
    lemma_or_is_add(pa, x, (s - 1) as u64);
}

// --- Leaves under tables that are already there ---

proof fn lemma_translate_below(
    m: Map<int, u64>,
    table: u64,
    va: u64,
    pa: u64,
    from: nat,
    level: nat,
    flags: PteFlags,
    a: u64,
    t: u64,
)
    requires
        level <= from <= MAX_LEVEL,
        va as nat % crate::mm::addr::span(level) == 0,
        pa as nat % crate::mm::addr::span(level) == 0,
        pa < crate::mm::addr::PHYS_LIMIT,
        flags.0 <= 0xff,
        flags.leaf(),
        in_page(a, va, level),
        crate::mm::page_table::walk(m, table, va, from, level) == Walk::Table(t),
        !crate::mm::page_table::entry_for(m, t, va, level).valid(),
    ensures
        ({
            let w = crate::mm::page_table::entry_word(t, va, level);
            let m2 = m.insert(w, Pte::leaf_of(pa, flags.0).0);
            &&& crate::mm::page_table::translated_from(m2, table, a, from) == Some(
                (PhysAddr((pa + (a - va)) as u64), PteFlags(flags.0 | V), level as usize),
            )
            &&& crate::mm::page_table::unmapped_from(m2, table, a, from) == (
                m2.insert(w, 0),
                Ok::<PhysAddr, MapError>(PhysAddr(pa)),
            )
            &&& crate::mm::page_table::translated_from(m2.insert(w, 0), table, a, from) is None
        }),
    decreases from,
{
    let w = crate::mm::page_table::entry_word(t, va, level);
    let leaf = Pte::leaf_of(pa, flags.0);
    let m2 = m.insert(w, leaf.0);
    let m3 = m2.insert(w, 0);
    lemma_same_page(va, a, level, from);
    lemma_leaf_translation(va, pa, level, flags, a);
    crate::mm::page_table::lemma_empty_entry();
    if from == level {
    } else {
        let e = crate::mm::page_table::entry_for(m, table, va, from);
        assert(crate::mm::page_table::entry_word(table, va, from) != w);
        assert(crate::mm::page_table::entry_for(m2, table, a, from) == e);
        assert(crate::mm::page_table::entry_for(m3, table, a, from) == e);
        lemma_translate_below(
            m,
            e.target(),
            va,
            pa,
            (from - 1) as nat,
            level,
            flags,
            a,
            t,
        );
    }
}

/// After a leaf is installed, every address of its page translates to the
/// corresponding physical address, with the leaf's permissions.
pub proof fn an_installed_leaf_translates(
    m: Map<int, u64>,
    root: u64,
    va: u64,
    pa: u64,
    level: int,
    flags: PteFlags,
    a: u64,
)
    requires
        crate::mm::page_table::leaf_installed(m, root, va, pa, level, flags).1 is Ok,
        pa < crate::mm::addr::PHYS_LIMIT,
        flags.0 <= 0xff,
        0 <= level,
        in_page(a, va, level as nat),
    ensures
        crate::mm::page_table::translated(
            crate::mm::page_table::leaf_installed(m, root, va, pa, level, flags).0,
            root,
            a,
        ) == Some((PhysAddr((pa + (a - va)) as u64), PteFlags(flags.0 | V), level as usize)),
{
    let t = crate::mm::page_table::walk(m, root, va, MAX_LEVEL as nat, level as nat)->Table_0;
    lemma_page_is_canonical(va, a, level as nat);
    lemma_translate_below(m, root, va, pa, MAX_LEVEL as nat, level as nat, flags, a, t);
}

/// Unmapping a page that was just mapped gives back the frame it pointed at and
/// leaves no translation behind. Memory is what it was before the mapping, but
/// for the one entry, which now maps nothing.
pub proof fn unmapping_undoes_mapping(
    m: Map<int, u64>,
    root: u64,
    va: u64,
    pa: u64,
    level: int,
    flags: PteFlags,
)
    requires
        crate::mm::page_table::leaf_installed(m, root, va, pa, level, flags).1 is Ok,
        pa < crate::mm::addr::PHYS_LIMIT,
        flags.0 <= 0xff,
        0 <= level,
    ensures
        ({
            let m2 = crate::mm::page_table::leaf_installed(m, root, va, pa, level, flags).0;
            let (m3, r) = crate::mm::page_table::unmapped(m2, root, va);
            &&& r == Ok::<PhysAddr, MapError>(PhysAddr(pa))
            &&& crate::mm::page_table::translated(m3, root, va) is None
            &&& exists|w: int| !Pte(m[w]).valid() && m3 == #[trigger] m.insert(w, 0)
        }),
{
    crate::mm::addr::lemma_spans();
    let t = crate::mm::page_table::walk(m, root, va, MAX_LEVEL as nat, level as nat)->Table_0;
    lemma_translate_below(m, root, va, pa, MAX_LEVEL as nat, level as nat, flags, va, t);
    let w = crate::mm::page_table::entry_word(t, va, level as nat);
    let m2 = crate::mm::page_table::leaf_installed(m, root, va, pa, level, flags).0;
    assert(m2.insert(w, 0) =~= m.insert(w, 0));
}

/// Changing a word that translating `b` does not read does not change what `b`
/// translates to.
pub proof fn unread_words_do_not_matter(m: Map<int, u64>, root: u64, b: u64, w: int, value: u64)
    requires
        !reads(m, root, b, MAX_LEVEL as nat, w),
    ensures
        crate::mm::page_table::translated(m.insert(w, value), root, b)
            == crate::mm::page_table::translated(m, root, b),
{
    lemma_unread(m, root, b, MAX_LEVEL as nat, w, value);
}

proof fn lemma_unread(m: Map<int, u64>, table: u64, b: u64, level: nat, w: int, value: u64)
    requires
        !reads(m, table, b, level, w),
    ensures
        crate::mm::page_table::translated_from(m.insert(w, value), table, b, level)
            == crate::mm::page_table::translated_from(m, table, b, level),
    decreases level,
{
    let e = crate::mm::page_table::entry_for(m, table, b, level);
    assert(crate::mm::page_table::entry_for(m.insert(w, value), table, b, level) == e);
    if e.branch_entry() && level > 0 {
        lemma_unread(m, e.target(), b, (level - 1) as nat, w, value);
    }
}

/// In a tree of tables, mapping one page changes the translation of no address
/// outside it.
pub proof fn mapping_touches_only_its_own_page(
    m: Map<int, u64>,
    root: u64,
    va: u64,
    pa: u64,
    level: int,
    flags: PteFlags,
    b: u64,
)
    requires
        is_tree(m, root),
        crate::mm::page_table::leaf_installed(m, root, va, pa, level, flags).1 is Ok,
        0 <= level,
        !in_page(b, va, level as nat),
    ensures
        crate::mm::page_table::translated(
            crate::mm::page_table::leaf_installed(m, root, va, pa, level, flags).0,
            root,
            b,
        ) == crate::mm::page_table::translated(m, root, b),
{
    if crate::mm::addr::canonical(b) {
        let l = level as nat;
        let t = crate::mm::page_table::walk(m, root, va, MAX_LEVEL as nat, l)->Table_0;
        let w = crate::mm::page_table::entry_word(t, va, l);
        assert(reaches(m, root, va, l, t));
        if reads(m, root, b, MAX_LEVEL as nat, w) {
            lemma_reader(m, root, root, b, MAX_LEVEL as nat, w);
            let (k, u) = choose|k: nat, u: u64|
                #[trigger] reaches(m, root, b, k, u) && crate::mm::page_table::entry_word(u, b, k)
                    == w && u % 4096 == 0;
            lemma_walk_aligned(m, root, va, MAX_LEVEL as nat, l);
            assert(t % 4096 == 0);
            assert(u as int / 8 == t as int / 8) by {
                assert(0 <= crate::mm::addr::vpn_of(b, k) < 512);
                assert(0 <= crate::mm::addr::vpn_of(va, l) < 512);
            }
            assert(u == t);
            assert(k == l && same_above(b, va, l));
            lemma_entries_identify_the_page(b, va, l);
        }
        unread_words_do_not_matter(m, root, b, w, Pte::leaf_of(pa, flags.0).0);
    }
}

/// Every table an address leads to is page aligned.
pub proof fn lemma_walk_aligned(m: Map<int, u64>, table: u64, a: u64, from: nat, to: nat)
    requires
        table % 4096 == 0,
    ensures
        crate::mm::page_table::walk(m, table, a, from, to) matches Walk::Table(t) ==> t % 4096 == 0,
    decreases from,
{
    if from > to {
        let e = crate::mm::page_table::entry_for(m, table, a, from);
        if e.valid() && !e.leaf_entry() {
            assert(e.target() % 4096 == 0);
            lemma_walk_aligned(m, e.target(), a, (from - 1) as nat, to);
        }
    }
}

/// A word that a translation reads is an entry of a table the address reaches.
pub(crate) proof fn lemma_reader(m: Map<int, u64>, root: u64, table: u64, b: u64, level: nat, w: int)
    requires
        reads(m, table, b, level, w),
        level <= MAX_LEVEL,
        reaches(m, root, b, level, table),
        table % 4096 == 0,
    ensures
        exists|k: nat, u: u64|
            #[trigger] reaches(m, root, b, k, u) && crate::mm::page_table::entry_word(u, b, k) == w
                && u % 4096 == 0,
    decreases level,
{
    let e = crate::mm::page_table::entry_for(m, table, b, level);
    if crate::mm::page_table::entry_word(table, b, level) == w {
        assert(reaches(m, root, b, level, table));
    } else {
        lemma_walk_step(m, root, b, MAX_LEVEL as nat, level, table);
        assert(e.target() % 4096 == 0);
        lemma_reader(m, root, e.target(), b, (level - 1) as nat, w);
    }
}

/// A branch entry leads one level further down.
pub proof fn lemma_walk_step(m: Map<int, u64>, top: u64, b: u64, from: nat, level: nat, table: u64)
    requires
        0 < level <= from,
        crate::mm::page_table::walk(m, top, b, from, level) == Walk::Table(table),
        crate::mm::page_table::entry_for(m, table, b, level).branch_entry(),
    ensures
        crate::mm::page_table::walk(m, top, b, from, (level - 1) as nat) == Walk::Table(
            crate::mm::page_table::entry_for(m, table, b, level).target(),
        ),
    decreases from,
{
    let e = crate::mm::page_table::entry_for(m, top, b, from);
    if from == level {
        let next = crate::mm::page_table::entry_for(m, table, b, level).target();
        assert(crate::mm::page_table::walk(
            m,
            next,
            b,
            (level - 1) as nat,
            (level - 1) as nat,
        ) == Walk::Table(next));
    } else {
        lemma_walk_step(m, e.target(), b, (from - 1) as nat, level, table);
    }
}

/// Installing a leaf keeps a tree of tables a tree.
pub proof fn leaves_keep_a_tree_a_tree(
    m: Map<int, u64>,
    root: u64,
    va: u64,
    pa: u64,
    level: int,
    flags: PteFlags,
)
    requires
        is_tree(m, root),
        crate::mm::page_table::leaf_installed(m, root, va, pa, level, flags).1 is Ok,
        pa < crate::mm::addr::PHYS_LIMIT,
        flags.0 <= 0xff,
        0 <= level,
    ensures
        is_tree(crate::mm::page_table::leaf_installed(m, root, va, pa, level, flags).0, root),
{
    crate::mm::addr::lemma_spans();
    let m2 = crate::mm::page_table::leaf_installed(m, root, va, pa, level, flags).0;
    let t = crate::mm::page_table::walk(m, root, va, MAX_LEVEL as nat, level as nat)->Table_0;
    let w = crate::mm::page_table::entry_word(t, va, level as nat);
    let leaf = Pte::leaf_of(pa, flags.0);
    lemma_leaf_translation(va, pa, level as nat, flags, va);
    assert forall|a: u64, k: nat, u: u64| reaches(m2, root, a, k, u) implies #[trigger] reaches(
        m,
        root,
        a,
        k,
        u,
    ) by {
        lemma_walk_without(m, w, leaf, root, a, MAX_LEVEL as nat, k);
    }
    assert forall|a: u64, b: u64, k: nat, l: nat, u: u64|
        #![trigger reaches(m2, root, a, k, u), reaches(m2, root, b, l, u)]
        reaches(m2, root, a, k, u) && reaches(m2, root, b, l, u) implies k == l && same_above(
        a,
        b,
        k,
    ) by {
        assert(reaches(m, root, a, k, u) && reaches(m, root, b, l, u));
    }
}

/// An entry that is no branch leads nowhere that was not led to before.
pub(crate) proof fn lemma_walk_without(
    m: Map<int, u64>,
    w: int,
    leaf: Pte,
    table: u64,
    a: u64,
    from: nat,
    to: nat,
)
    requires
        !leaf.branch_entry(),
        crate::mm::page_table::walk(m.insert(w, leaf.0), table, a, from, to) is Table,
    ensures
        crate::mm::page_table::walk(m, table, a, from, to) == crate::mm::page_table::walk(
            m.insert(w, leaf.0),
            table,
            a,
            from,
            to,
        ),
    decreases from,
{
    if from > to {
        let m2 = m.insert(w, leaf.0);
        let e = crate::mm::page_table::entry_for(m2, table, a, from);
        assert(crate::mm::page_table::entry_word(table, a, from) != w);
        assert(crate::mm::page_table::entry_for(m, table, a, from) == e);
        lemma_walk_without(m, w, leaf, e.target(), a, (from - 1) as nat, to);
    }
}

// --- Mapping with tables created on the way ---

/// Mapping never changes an entry that was valid, except by zeroing a frame it
/// takes from the allocator.
pub proof fn mapping_keeps_valid_entries(
    m: Map<int, u64>,
    frames: Seq<u64>,
    root: u64,
    va: u64,
    pa: u64,
    level: int,
    flags: PteFlags,
    w: int,
)
    requires
        Pte(m[w]).valid(),
        !in_frames(frames, w),
        0 <= level,
    ensures
        crate::mm::page_table::mapped(m, frames, root, va, pa, level, flags).mem[w] == m[w],
{
    reveal(crate::mm::page_table::mapped);
    if crate::mm::page_table::leaf_refused(va, pa, level, flags) is None {
        lemma_grown_keeps(
            m,
            frames,
            root,
            va,
            MAX_LEVEL as nat,
            level as nat,
            Pte::leaf_of(pa, flags.0),
            w,
        );
    }
}

proof fn lemma_grown_keeps(
    m: Map<int, u64>,
    frames: Seq<u64>,
    table: u64,
    va: u64,
    from: nat,
    level: nat,
    leaf: Pte,
    w: int,
)
    requires
        Pte(m[w]).valid(),
        !in_frames(frames, w),
        level <= from,
    ensures
        crate::mm::page_table::grown(m, frames, table, va, from, level, leaf).mem[w] == m[w],
    decreases from,
{
    let x = crate::mm::page_table::entry_word(table, va, from);
    let e = Pte(m[x]);
    if from > level {
        if !e.valid() {
            if frames.len() > 0 {
                let f = frames[0];
                let m2 = crate::mm::memory::with_zero_frame(m, f).insert(
                    x,
                    Pte::branch_of(f).0,
                );
                assert(frames[0] == f);
                assert(m2[w] == m[w]);
                assert(!in_frames(frames.drop_first(), w)) by {
                    lemma_in_fewer_frames(frames, w);
                }
                lemma_grown_keeps(
                    m2,
                    frames.drop_first(),
                    Pte::branch_of(f).target(),
                    va,
                    (from - 1) as nat,
                    level,
                    leaf,
                    w,
                );
            }
        } else if !e.leaf_entry() {
            lemma_grown_keeps(m, frames, e.target(), va, (from - 1) as nat, level, leaf, w);
        }
    }
}

proof fn lemma_in_fewer_frames(frames: Seq<u64>, w: int)
    requires
        frames.len() > 0,
    ensures
        in_frames(frames.drop_first(), w) ==> in_frames(frames, w),
{
    let rest = frames.drop_first();
    if in_frames(rest, w) {
        let i = choose|i: int|
            0 <= i < rest.len() && (#[trigger] rest[i]) as int / 8 <= w < rest[i] as int / 8 + 512;
        assert(frames[i + 1] == rest[i]);
    }
}

/// The entries of a table that is none of the frames lie in none of them.
pub proof fn lemma_entry_outside_frames(frames: Seq<u64>, table: u64, index: int)
    requires
        proper_frames(frames),
        table % 4096 == 0,
        !frames.contains(table),
        0 <= index < 512,
    ensures
        !in_frames(frames, crate::mm::memory::word_number(table, index)),
{
    let w = crate::mm::memory::word_number(table, index);
    if in_frames(frames, w) {
        let i = choose|i: int|
            0 <= i < frames.len() && (#[trigger] frames[i]) as int / 8 <= w < frames[i] as int / 8
                + 512;
        assert(frames[i] % 4096 == 0);
        assert(frames[i] == table);
        assert(frames.contains(table));
    }
}

pub proof fn lemma_rest_of_frames(frames: Seq<u64>)
    requires
        proper_frames(frames),
        frames.len() > 0,
    ensures
        proper_frames(frames.drop_first()),
        !frames.drop_first().contains(frames[0]),
        forall|x: u64| #[trigger] frames.drop_first().contains(x) ==> frames.contains(x),
{
    let rest = frames.drop_first();
    assert forall|i: int| 0 <= i < rest.len() implies (#[trigger] rest[i]) % 4096 == 0 && rest[i]
        < crate::mm::addr::PHYS_LIMIT by {
        assert(rest[i] == frames[i + 1]);
    }
    assert forall|i: int, j: int| 0 <= i < rest.len() && 0 <= j < rest.len() && i != j implies (
    #[trigger] rest[i]) != (#[trigger] rest[j]) by {
        assert(rest[i] == frames[i + 1] && rest[j] == frames[j + 1]);
    }
    if rest.contains(frames[0]) {
        let i = choose|i: int| 0 <= i < rest.len() && rest[i] == frames[0];
        assert(frames[i + 1] == frames[0]);
    }
    assert forall|x: u64| #[trigger] rest.contains(x) implies frames.contains(x) by {
        let i = choose|i: int| 0 <= i < rest.len() && rest[i] == x;
        assert(frames[i + 1] == x);
    }
}

proof fn lemma_grown_translates(
    m: Map<int, u64>,
    frames: Seq<u64>,
    table: u64,
    va: u64,
    pa: u64,
    from: nat,
    level: nat,
    flags: PteFlags,
    a: u64,
)
    requires
        level <= from <= MAX_LEVEL,
        va as nat % crate::mm::addr::span(level) == 0,
        pa as nat % crate::mm::addr::span(level) == 0,
        pa < crate::mm::addr::PHYS_LIMIT,
        flags.0 <= 0xff,
        flags.leaf(),
        in_page(a, va, level),
        proper_frames(frames),
        path_avoids(m, frames, table, va, from),
        crate::mm::page_table::grown(
            m,
            frames,
            table,
            va,
            from,
            level,
            Pte::leaf_of(pa, flags.0),
        ).result is Ok,
    ensures
        crate::mm::page_table::translated_from(
            crate::mm::page_table::grown(
                m,
                frames,
                table,
                va,
                from,
                level,
                Pte::leaf_of(pa, flags.0),
            ).mem,
            table,
            a,
            from,
        ) == Some((PhysAddr((pa + (a - va)) as u64), PteFlags(flags.0 | V), level as usize)),
    decreases from,
{
    let leaf = Pte::leaf_of(pa, flags.0);
    let done = crate::mm::page_table::grown(m, frames, table, va, from, level, leaf);
    let x = crate::mm::page_table::entry_word(table, va, from);
    let e = Pte(m[x]);
    lemma_same_page(va, a, level, from);
    lemma_leaf_translation(va, pa, level, flags, a);
    lemma_entry_outside_frames(frames, table, crate::mm::addr::vpn_of(va, from));
    if from == level {
    } else if !e.valid() {
        let f = frames[0];
        let rest = frames.drop_first();
        let branch = Pte::branch_of(f);
        let m2 = crate::mm::memory::with_zero_frame(m, f).insert(x, branch.0);
        assert(f % 4096 == 0 && f < crate::mm::addr::PHYS_LIMIT);
        crate::mm::page_table::branch_entries_round_trip(f);
        lemma_rest_of_frames(frames);
        assert(!in_frames(rest, x)) by {
            lemma_in_fewer_frames(frames, x);
        }
        assert(f != table) by {
            assert(frames.contains(frames[0]));
        }
        assert(path_avoids(m2, rest, f, va, (from - 1) as nat)) by {
            let y = crate::mm::page_table::entry_word(f, va, (from - 1) as nat);
            assert(0 <= crate::mm::addr::vpn_of(va, (from - 1) as nat) < 512);
            assert(0 <= crate::mm::addr::vpn_of(va, from) < 512);
            assert(y != x);
            assert(m2[y] == 0);
            crate::mm::page_table::lemma_empty_entry();
            assert(!Pte(m2[y]).valid());
        }
        lemma_grown_translates(m2, rest, f, va, pa, (from - 1) as nat, level, flags, a);
        lemma_grown_keeps(m2, rest, f, va, (from - 1) as nat, level, leaf, x);
        assert(done.mem[x] == branch.0);
        assert(crate::mm::page_table::entry_for(done.mem, table, a, from) == branch);
    } else {
        lemma_grown_translates(m, frames, e.target(), va, pa, (from - 1) as nat, level, flags, a);
        lemma_grown_keeps(m, frames, e.target(), va, (from - 1) as nat, level, leaf, x);
        assert(crate::mm::page_table::entry_for(done.mem, table, a, from) == e);
    }
}

/// Mapping a page changes no word but the entries it passes through and the
/// frames it takes from the allocator.
pub proof fn mapping_changes_only_what_it_reads(
    m: Map<int, u64>,
    frames: Seq<u64>,
    root: u64,
    va: u64,
    pa: u64,
    level: int,
    flags: PteFlags,
    w: int,
)
    requires
        0 <= level,
        proper_frames(frames),
        path_avoids(m, frames, root, va, MAX_LEVEL as nat),
        !in_frames(frames, w),
        !reads(m, root, va, MAX_LEVEL as nat, w),
    ensures
        crate::mm::page_table::mapped(m, frames, root, va, pa, level, flags).mem[w] == m[w],
{
    reveal(crate::mm::page_table::mapped);
    if crate::mm::page_table::leaf_refused(va, pa, level, flags) is None {
        lemma_grown_changes(
            m,
            frames,
            root,
            va,
            MAX_LEVEL as nat,
            level as nat,
            Pte::leaf_of(pa, flags.0),
            w,
        );
    }
}

pub proof fn lemma_grown_changes(
    m: Map<int, u64>,
    frames: Seq<u64>,
    table: u64,
    va: u64,
    from: nat,
    level: nat,
    leaf: Pte,
    w: int,
)
    requires
        level <= from,
        proper_frames(frames),
        path_avoids(m, frames, table, va, from),
        !in_frames(frames, w),
        !reads(m, table, va, from, w),
    ensures
        crate::mm::page_table::grown(m, frames, table, va, from, level, leaf).mem[w] == m[w],
    decreases from,
{
    let x = crate::mm::page_table::entry_word(table, va, from);
    let e = Pte(m[x]);
    if from > level {
        if !e.valid() {
            if frames.len() > 0 {
                let f = frames[0];
                let rest = frames.drop_first();
                let branch = Pte::branch_of(f);
                let m2 = crate::mm::memory::with_zero_frame(m, f).insert(x, branch.0);
                assert(f % 4096 == 0 && f < crate::mm::addr::PHYS_LIMIT);
                crate::mm::page_table::branch_entries_round_trip(f);
                crate::mm::page_table::lemma_empty_entry();
                lemma_rest_of_frames(frames);
                lemma_in_fewer_frames(frames, w);
                lemma_entry_outside_frames(frames, table, crate::mm::addr::vpn_of(va, from));
                let y = crate::mm::page_table::entry_word(f, va, (from - 1) as nat);
                assert(0 <= crate::mm::addr::vpn_of(va, (from - 1) as nat) < 512);
                assert(frames[0] as int / 8 <= y < frames[0] as int / 8 + 512);
                assert(in_frames(frames, y));
                assert(m2[y] == 0);
                assert(path_avoids(m2, rest, f, va, (from - 1) as nat));
                lemma_grown_changes(m2, rest, f, va, (from - 1) as nat, level, leaf, w);
                assert(m2[w] == m[w]);
            }
        } else if !e.leaf_entry() {
            lemma_grown_changes(m, frames, e.target(), va, (from - 1) as nat, level, leaf, w);
        }
    }
}

/// After a page is mapped, every address in it translates to the corresponding
/// physical address with the mapping's permissions, provided the frames the
/// allocator hands out are not tables already on the way.
pub proof fn a_mapped_page_translates(
    m: Map<int, u64>,
    frames: Seq<u64>,
    root: u64,
    va: u64,
    pa: u64,
    level: int,
    flags: PteFlags,
    a: u64,
)
    requires
        crate::mm::page_table::mapped(m, frames, root, va, pa, level, flags).result is Ok,
        pa < crate::mm::addr::PHYS_LIMIT,
        flags.0 <= 0xff,
        0 <= level,
        in_page(a, va, level as nat),
        proper_frames(frames),
        path_avoids(m, frames, root, va, MAX_LEVEL as nat),
    ensures
        crate::mm::page_table::translated(
            crate::mm::page_table::mapped(m, frames, root, va, pa, level, flags).mem,
            root,
            a,
        ) == Some((PhysAddr((pa + (a - va)) as u64), PteFlags(flags.0 | V), level as usize)),
{
    reveal(crate::mm::page_table::mapped);
    lemma_page_is_canonical(va, a, level as nat);
    lemma_grown_translates(
        m,
        frames,
        root,
        va,
        pa,
        MAX_LEVEL as nat,
        level as nat,
        flags,
        a,
    );
}

/// A translation that exists survives every later mapping, provided the frames
/// the allocator hands out are not tables on its way.
pub proof fn translations_survive_mapping(
    m: Map<int, u64>,
    frames: Seq<u64>,
    root: u64,
    va: u64,
    pa: u64,
    level: int,
    flags: PteFlags,
    b: u64,
)
    requires
        crate::mm::page_table::translated(m, root, b) is Some,
        0 <= level,
        proper_frames(frames),
        path_avoids(m, frames, root, b, MAX_LEVEL as nat),
    ensures
        crate::mm::page_table::translated(
            crate::mm::page_table::mapped(m, frames, root, va, pa, level, flags).mem,
            root,
            b,
        ) == crate::mm::page_table::translated(m, root, b),
{
    let m2 = crate::mm::page_table::mapped(m, frames, root, va, pa, level, flags).mem;
    assert forall|w: int| Pte(m[w]).valid() && !in_frames(frames, w) implies #[trigger] m2[w]
        == m[w] by {
        mapping_keeps_valid_entries(m, frames, root, va, pa, level, flags, w);
    }
    lemma_translation_survives(m, m2, frames, root, b, MAX_LEVEL as nat);
}

proof fn lemma_translation_survives(
    m: Map<int, u64>,
    m2: Map<int, u64>,
    frames: Seq<u64>,
    table: u64,
    b: u64,
    level: nat,
)
    requires
        crate::mm::page_table::translated_from(m, table, b, level) is Some,
        proper_frames(frames),
        path_avoids(m, frames, table, b, level),
        forall|w: int| Pte(m[w]).valid() && !in_frames(frames, w) ==> #[trigger] m2[w] == m[w],
    ensures
        crate::mm::page_table::translated_from(m2, table, b, level)
            == crate::mm::page_table::translated_from(m, table, b, level),
    decreases level,
{
    let w = crate::mm::page_table::entry_word(table, b, level);
    lemma_entry_outside_frames(frames, table, crate::mm::addr::vpn_of(b, level));
    assert(m2[w] == m[w]);
    let e = Pte(m[w]);
    if e.branch_entry() && level > 0 {
        lemma_translation_survives(m, m2, frames, e.target(), b, (level - 1) as nat);
    }
}

// --- Ranges ---

/// Whether none of the frames at hand is a table that any address passes
/// through.
pub open spec fn tables_avoid(m: Map<int, u64>, frames: Seq<u64>, root: u64) -> bool {
    forall|b: u64| #[trigger] path_avoids(m, frames, root, b, MAX_LEVEL as nat)
}

pub proof fn lemma_avoids_fewer(
    m: Map<int, u64>,
    frames: Seq<u64>,
    rest: Seq<u64>,
    table: u64,
    b: u64,
    level: nat,
)
    requires
        path_avoids(m, frames, table, b, level),
        forall|x: u64| #[trigger] rest.contains(x) ==> frames.contains(x),
    ensures
        path_avoids(m, rest, table, b, level),
    decreases level,
{
    let e = crate::mm::page_table::entry_for(m, table, b, level);
    if e.branch_entry() && level > 0 {
        lemma_avoids_fewer(m, frames, rest, e.target(), b, (level - 1) as nat);
    }
}

/// A table created from the first frame is the only new one.
pub proof fn lemma_avoids_after_branch(
    m: Map<int, u64>,
    frames: Seq<u64>,
    x: int,
    table: u64,
    b: u64,
    level: nat,
)
    requires
        proper_frames(frames),
        frames.len() > 0,
        !in_frames(frames, x),
        path_avoids(m, frames, table, b, level),
    ensures
        path_avoids(
            crate::mm::memory::with_zero_frame(m, frames[0]).insert(
                x,
                Pte::branch_of(frames[0]).0,
            ),
            frames.drop_first(),
            table,
            b,
            level,
        ),
    decreases level,
{
    let f = frames[0];
    let rest = frames.drop_first();
    let branch = Pte::branch_of(f);
    let m2 = crate::mm::memory::with_zero_frame(m, f).insert(x, branch.0);
    lemma_rest_of_frames(frames);
    crate::mm::page_table::branch_entries_round_trip(f);
    let y = crate::mm::page_table::entry_word(table, b, level);
    lemma_entry_outside_frames(frames, table, crate::mm::addr::vpn_of(b, level));
    assert(!in_frames(frames, y));
    assert(frames[0] == f);
    assert(!rest.contains(table));
    if y == x {
        if level > 0 {
            let z = crate::mm::page_table::entry_word(f, b, (level - 1) as nat);
            assert(0 <= crate::mm::addr::vpn_of(b, (level - 1) as nat) < 512);
            assert(z != x) by {
                if z == x {
                    assert(in_frames(frames, x));
                }
            }
            assert(m2[z] == 0);
            crate::mm::page_table::lemma_empty_entry();
            assert(!Pte(m2[z]).valid());
            assert(path_avoids(m2, rest, f, b, (level - 1) as nat));
        }
    } else {
        assert(m2[y] == m[y]);
        let e = Pte(m[y]);
        if e.branch_entry() && level > 0 {
            lemma_avoids_after_branch(m, frames, x, e.target(), b, (level - 1) as nat);
        }
    }
}

pub proof fn lemma_avoids_after_leaf(
    m: Map<int, u64>,
    frames: Seq<u64>,
    w: int,
    leaf: Pte,
    table: u64,
    b: u64,
    level: nat,
)
    requires
        leaf.leaf_entry(),
        path_avoids(m, frames, table, b, level),
    ensures
        path_avoids(m.insert(w, leaf.0), frames, table, b, level),
    decreases level,
{
    let y = crate::mm::page_table::entry_word(table, b, level);
    if y != w {
        let e = Pte(m[y]);
        if e.branch_entry() && level > 0 {
            lemma_avoids_after_leaf(m, frames, w, leaf, e.target(), b, (level - 1) as nat);
        }
    }
}

proof fn lemma_grown_avoids(
    m: Map<int, u64>,
    frames: Seq<u64>,
    root: u64,
    table: u64,
    va: u64,
    from: nat,
    level: nat,
    leaf: Pte,
)
    requires
        level <= from,
        leaf.leaf_entry(),
        proper_frames(frames),
        tables_avoid(m, frames, root),
        path_avoids(m, frames, table, va, from),
    ensures
        ({
            let done = crate::mm::page_table::grown(m, frames, table, va, from, level, leaf);
            &&& proper_frames(done.frames)
            &&& tables_avoid(done.mem, done.frames, root)
        }),
    decreases from,
{
    let x = crate::mm::page_table::entry_word(table, va, from);
    let e = Pte(m[x]);
    if from == level {
        if !e.valid() {
            assert forall|b: u64| #[trigger]
                path_avoids(m.insert(x, leaf.0), frames, root, b, MAX_LEVEL as nat) by {
                lemma_avoids_after_leaf(m, frames, x, leaf, root, b, MAX_LEVEL as nat);
            }
        }
    } else if !e.valid() {
        if frames.len() > 0 {
            let f = frames[0];
            let rest = frames.drop_first();
            let m2 = crate::mm::memory::with_zero_frame(m, f).insert(x, Pte::branch_of(f).0);
            lemma_entry_outside_frames(frames, table, crate::mm::addr::vpn_of(va, from));
            lemma_rest_of_frames(frames);
            crate::mm::page_table::branch_entries_round_trip(f);
            assert forall|b: u64| #[trigger]
                path_avoids(m2, rest, root, b, MAX_LEVEL as nat) by {
                lemma_avoids_after_branch(m, frames, x, root, b, MAX_LEVEL as nat);
            }
            lemma_avoids_after_branch(m, frames, x, table, va, from);
            assert(path_avoids(m2, rest, f, va, (from - 1) as nat));
            lemma_grown_avoids(m2, rest, root, f, va, (from - 1) as nat, level, leaf);
        }
    } else if !e.leaf_entry() {
        lemma_grown_avoids(m, frames, root, e.target(), va, (from - 1) as nat, level, leaf);
    }
}

/// Mapping keeps the allocator's remaining frames apart from the tables.
pub proof fn mapping_keeps_frames_apart(
    m: Map<int, u64>,
    frames: Seq<u64>,
    root: u64,
    va: u64,
    pa: u64,
    level: int,
    flags: PteFlags,
)
    requires
        proper_frames(frames),
        tables_avoid(m, frames, root),
        0 <= level,
        pa < crate::mm::addr::PHYS_LIMIT,
        flags.0 <= 0xff,
    ensures
        ({
            let done = crate::mm::page_table::mapped(m, frames, root, va, pa, level, flags);
            &&& proper_frames(done.frames)
            &&& tables_avoid(done.mem, done.frames, root)
        }),
{
    reveal(crate::mm::page_table::mapped);
    if crate::mm::page_table::leaf_refused(va, pa, level, flags) is None {
        crate::mm::addr::lemma_spans();
        lemma_leaf_translation(va, pa, level as nat, flags, va);
        assert(path_avoids(m, frames, root, va, MAX_LEVEL as nat));
        lemma_grown_avoids(
            m,
            frames,
            root,
            root,
            va,
            MAX_LEVEL as nat,
            level as nat,
            Pte::leaf_of(pa, flags.0),
        );
    }
}

proof fn lemma_range_keeps(
    m: Map<int, u64>,
    frames: Seq<u64>,
    root: u64,
    va: u64,
    pa: u64,
    size: u64,
    flags: PteFlags,
    offset: int,
    b: u64,
)
    requires
        proper_frames(frames),
        tables_avoid(m, frames, root),
        flags.0 <= 0xff,
        pa + size <= crate::mm::addr::PHYS_LIMIT,
        va + size <= u64::MAX + 1,
        0 <= offset,
        crate::mm::page_table::translated(m, root, b) is Some,
    ensures
        ({
            let done = crate::mm::page_table::range_mapped(
                m,
                frames,
                root,
                va,
                pa,
                size,
                flags,
                offset,
            );
            crate::mm::page_table::translated(done.mem, root, b)
                == crate::mm::page_table::translated(m, root, b)
        }),
    decreases size + 4096 - offset,
{
    if offset < size {
        crate::mm::addr::lemma_spans();
        let level = crate::mm::page_table::best_level(va + offset, pa + offset, size - offset);
        let cur_va = (va + offset) as u64;
        let cur_pa = (pa + offset) as u64;
        let step = crate::mm::page_table::mapped(
            m,
            frames,
            root,
            cur_va,
            cur_pa,
            level as int,
            flags,
        );
        assert(path_avoids(m, frames, root, b, MAX_LEVEL as nat));
        translations_survive_mapping(m, frames, root, cur_va, cur_pa, level as int, flags, b);
        mapping_keeps_frames_apart(m, frames, root, cur_va, cur_pa, level as int, flags);
        if step.result is Ok {
            lemma_range_keeps(
                step.mem,
                step.frames,
                root,
                va,
                pa,
                size,
                flags,
                offset + crate::mm::addr::span(level),
                b,
            );
        }
    }
}

/// Mapping a range keeps the allocator's remaining frames apart from the
/// tables.
pub proof fn mapping_a_range_keeps_frames_apart(
    m: Map<int, u64>,
    frames: Seq<u64>,
    root: u64,
    va: u64,
    pa: u64,
    size: u64,
    flags: PteFlags,
    offset: int,
)
    requires
        proper_frames(frames),
        tables_avoid(m, frames, root),
        flags.0 <= 0xff,
        pa + size <= crate::mm::addr::PHYS_LIMIT,
        va + size <= u64::MAX + 1,
        0 <= offset,
    ensures
        ({
            let done = crate::mm::page_table::range_mapped(
                m,
                frames,
                root,
                va,
                pa,
                size,
                flags,
                offset,
            );
            &&& proper_frames(done.frames)
            &&& tables_avoid(done.mem, done.frames, root)
        }),
    decreases size + 4096 - offset,
{
    if offset < size {
        crate::mm::addr::lemma_spans();
        let level = crate::mm::page_table::best_level(va + offset, pa + offset, size - offset);
        let cur_va = (va + offset) as u64;
        let cur_pa = (pa + offset) as u64;
        let step = crate::mm::page_table::mapped(
            m,
            frames,
            root,
            cur_va,
            cur_pa,
            level as int,
            flags,
        );
        mapping_keeps_frames_apart(m, frames, root, cur_va, cur_pa, level as int, flags);
        if step.result is Ok {
            mapping_a_range_keeps_frames_apart(
                step.mem,
                step.frames,
                root,
                va,
                pa,
                size,
                flags,
                offset + crate::mm::addr::span(level),
            );
        }
    }
}

proof fn lemma_range_translates(
    m: Map<int, u64>,
    frames: Seq<u64>,
    root: u64,
    va: u64,
    pa: u64,
    size: u64,
    flags: PteFlags,
    offset: int,
    a: u64,
)
    requires
        proper_frames(frames),
        tables_avoid(m, frames, root),
        flags.0 <= 0xff,
        pa + size <= crate::mm::addr::PHYS_LIMIT,
        va + size <= u64::MAX + 1,
        0 <= offset,
        va + offset <= a < va + size,
        crate::mm::page_table::range_mapped(
            m,
            frames,
            root,
            va,
            pa,
            size,
            flags,
            offset,
        ).result is Ok,
    ensures
        ({
            let done = crate::mm::page_table::range_mapped(
                m,
                frames,
                root,
                va,
                pa,
                size,
                flags,
                offset,
            );
            crate::mm::page_table::translated(done.mem, root, a) matches Some(found) && found.0
                == PhysAddr((pa + (a - va)) as u64) && found.1 == PteFlags(flags.0 | V)
        }),
    decreases size + 4096 - offset,
{
    crate::mm::addr::lemma_spans();
    let level = crate::mm::page_table::best_level(va + offset, pa + offset, size - offset);
    let cur_va = (va + offset) as u64;
    let cur_pa = (pa + offset) as u64;
    let step = crate::mm::page_table::mapped(
        m,
        frames,
        root,
        cur_va,
        cur_pa,
        level as int,
        flags,
    );
    assert(path_avoids(m, frames, root, cur_va, MAX_LEVEL as nat));
    mapping_keeps_frames_apart(m, frames, root, cur_va, cur_pa, level as int, flags);
    let next = offset + crate::mm::addr::span(level);
    if a < va + next {
        a_mapped_page_translates(m, frames, root, cur_va, cur_pa, level as int, flags, a);
        lemma_range_keeps(step.mem, step.frames, root, va, pa, size, flags, next, a);
    } else {
        lemma_range_translates(step.mem, step.frames, root, va, pa, size, flags, next, a);
    }
}

/// Mapping a range covers every byte it promises: each address of the range
/// translates to the physical address at the same offset, with the permissions
/// asked for. The frames the allocator hands out must not be tables already.
pub proof fn a_mapped_range_is_covered(
    m: Map<int, u64>,
    frames: Seq<u64>,
    root: u64,
    va: u64,
    pa: u64,
    size: u64,
    flags: PteFlags,
    a: u64,
)
    requires
        proper_frames(frames),
        tables_avoid(m, frames, root),
        flags.0 <= 0xff,
        pa + size <= crate::mm::addr::PHYS_LIMIT,
        va + size <= u64::MAX + 1,
        va <= a < va + size,
        crate::mm::page_table::range_mapped(m, frames, root, va, pa, size, flags, 0).result is Ok,
    ensures
        crate::mm::page_table::translated(
            crate::mm::page_table::range_mapped(m, frames, root, va, pa, size, flags, 0).mem,
            root,
            a,
        ) matches Some(found) && found.0 == PhysAddr((pa + (a - va)) as u64) && found.1 == PteFlags(
            flags.0 | V,
        ),
{
    lemma_range_translates(m, frames, root, va, pa, size, flags, 0, a);
}

/// Mapping a range leaves every translation that exists as it was.
pub proof fn translations_survive_a_mapped_range(
    m: Map<int, u64>,
    frames: Seq<u64>,
    root: u64,
    va: u64,
    pa: u64,
    size: u64,
    flags: PteFlags,
    b: u64,
)
    requires
        proper_frames(frames),
        tables_avoid(m, frames, root),
        flags.0 <= 0xff,
        pa + size <= crate::mm::addr::PHYS_LIMIT,
        va + size <= u64::MAX + 1,
        crate::mm::page_table::translated(m, root, b) is Some,
    ensures
        crate::mm::page_table::translated(
            crate::mm::page_table::range_mapped(m, frames, root, va, pa, size, flags, 0).mem,
            root,
            b,
        ) == crate::mm::page_table::translated(m, root, b),
{
    lemma_range_keeps(m, frames, root, va, pa, size, flags, 0, b);
}

/// A root table made from a fresh frame has no tables below it yet, so the
/// remaining frames are apart from it.
pub proof fn a_fresh_root_is_apart(m: Map<int, u64>, frames: Seq<u64>)
    requires
        proper_frames(frames),
        frames.len() > 0,
    ensures
        proper_frames(frames.drop_first()),
        tables_avoid(
            crate::mm::memory::with_zero_frame(m, frames[0]),
            frames.drop_first(),
            frames[0],
        ),
{
    let root = frames[0];
    let m2 = crate::mm::memory::with_zero_frame(m, root);
    lemma_rest_of_frames(frames);
    crate::mm::page_table::lemma_empty_entry();
    assert forall|b: u64| #[trigger]
        path_avoids(m2, frames.drop_first(), root, b, MAX_LEVEL as nat) by {
        let w = crate::mm::page_table::entry_word(root, b, MAX_LEVEL as nat);
        assert(0 <= crate::mm::addr::vpn_of(b, MAX_LEVEL as nat) < 512);
        assert(m2[w] == 0);
    }
}

} // verus!
