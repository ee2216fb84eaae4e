//! What destroying capabilities does to the address spaces they were mapped in.

use crate::cap::slot::Mappings;
use crate::cap::RawCap;
use crate::mm::page_table::Pte;
use crate::objects::ObjectsView;
use vstd::prelude::*;

verus! {

/// Removing the mapping of one capability leaves an address translated as it
/// was, or not at all.
proof fn lemma_no_new_translation(cap: RawCap, m: Map<int, u64>, top: u64, b: u64)
    ensures
        ({
            let after = crate::mm::page_table::translated(
                crate::cap::vspace::cap_unmapped(cap, m).mem,
                top,
                b,
            );
            after is None || after == crate::mm::page_table::translated(m, top, b)
        }),
{
    let after = crate::cap::vspace::cap_unmapped(cap, m).mem;
    crate::cap::vspace::unmapping_removes_nothing_else(cap, m);
    if after != m {
        let w = choose|w: int| after == #[trigger] m.insert(w, 0);
        crate::mm::unmapping::lemma_cleared_word(m, top, b, 2, w);
    }
}

/// Removing the mappings of a list of capabilities leaves an address translated
/// as it was, or not at all.
proof fn lemma_no_new_translations(
    caps: Map<u64, RawCap>,
    order: Seq<u64>,
    v: Mappings,
    top: u64,
    b: u64,
)
    ensures
        ({
            let after = crate::mm::page_table::translated(
                crate::cap::slot::without_mappings(caps, order, v).mem,
                top,
                b,
            );
            after is None || after == crate::mm::page_table::translated(v.mem, top, b)
        }),
    decreases order.len(),
{
    if order.len() > 0 {
        let before = crate::cap::slot::without_mappings(caps, order.drop_last(), v);
        lemma_no_new_translations(caps, order.drop_last(), v, top, b);
        lemma_no_new_translation(caps[order.last()], before.mem, top, b);
    }
}

/// Whether `b` lies in the page that a frame capability records.
pub open spec fn is_in_recorded_page(frame: RawCap, b: u64) -> bool {
    &&& frame.mapping_spec() is Some
    &&& crate::mm::translation::in_page(
        b,
        crate::mm::unmapping::page_start(frame.mapping_spec()->Some_0.1, 0),
        0,
    )
}

/// Removing the mapping of a frame that was mapped before some translations went
/// leaves its page untranslated.
proof fn lemma_frame_gone(frame: RawCap, was: Map<int, u64>, now: Map<int, u64>, b: u64)
    requires
        frame.kind is Frame,
        crate::cap::vspace::is_mapped_there(frame, was),
        is_in_recorded_page(frame, b),
        ({
            let (top, va) = frame.mapping_spec()->Some_0;
            let start = crate::mm::unmapping::page_start(va, 0);
            let first = crate::mm::page_table::translated(now, top.0, start);
            first is None || first == crate::mm::page_table::translated(was, top.0, start)
        }),
    ensures
        crate::mm::page_table::translated(
            crate::cap::vspace::cap_unmapped(frame, now).mem,
            frame.mapping_spec()->Some_0.0.0,
            b,
        ) is None,
{
    let (top, va) = frame.mapping_spec()->Some_0;
    let start = crate::mm::unmapping::page_start(va, 0);
    if crate::cap::vspace::is_mapped_there(frame, now) {
        crate::cap::vspace::an_unmapped_frame_is_translated_no_longer(frame, now, b);
    } else {
        crate::mm::addr::lemma_spans();
        crate::mm::unmapping::lemma_page_start(va, 0);
        crate::mm::translation::lemma_page_is_canonical(start, b, 0);
        assert(crate::mm::unmapping::page_start(b, 0) == start);
        crate::mm::unmapping::lemma_one_page(now, top.0, b);
        lemma_no_new_translation(frame, now, top.0, b);
    }
}

proof fn lemma_listed_frame_gone(
    caps: Map<u64, RawCap>,
    order: Seq<u64>,
    v: Mappings,
    i: int,
    b: u64,
)
    requires
        0 <= i < order.len(),
        caps[order[i]].kind is Frame,
        crate::cap::vspace::is_mapped_there(caps[order[i]], v.mem),
        is_in_recorded_page(caps[order[i]], b),
    ensures
        crate::mm::page_table::translated(
            crate::cap::slot::without_mappings(caps, order, v).mem,
            caps[order[i]].mapping_spec()->Some_0.0.0,
            b,
        ) is None,
    decreases order.len(),
{
    let frame = caps[order[i]];
    let (top, va) = frame.mapping_spec()->Some_0;
    let before = crate::cap::slot::without_mappings(caps, order.drop_last(), v);
    if i == order.len() - 1 {
        let start = crate::mm::unmapping::page_start(va, 0);
        lemma_no_new_translations(caps, order.drop_last(), v, top.0, start);
        lemma_frame_gone(frame, v.mem, before.mem, b);
    } else {
        assert(order.drop_last()[i] == order[i]);
        lemma_listed_frame_gone(caps, order.drop_last(), v, i, b);
        lemma_no_new_translation(caps[order.last()], before.mem, top.0, b);
    }
}

/// Revocation takes memory away from whoever had it mapped: once `root` is
/// revoked, no address of a page that a frame derived from it was still mapped
/// at, by its capability's own record, is translated. Deleting `root` does so
/// too, and takes `root`'s own page with it.
pub proof fn a_destroyed_frame_is_translated_no_longer(v: ObjectsView, root: u64, c: u64, b: u64)
    requires
        v.slots.is_consistent(),
        v.slots.is_forest(),
        v.slots.caps[c].kind is Frame,
        crate::cap::vspace::is_mapped_there(v.slots.caps[c], v.mem),
        is_in_recorded_page(v.slots.caps[c], b),
    ensures
        ({
            let top = v.slots.caps[c].mapping_spec()->Some_0.0.0;
            &&& v.slots.descends(c, root) ==> crate::mm::page_table::translated(
                crate::cap::cspace::revoked(v, root).mem,
                top,
                b,
            ) is None
            &&& v.slots.descends(c, root) || c == root ==> crate::mm::page_table::translated(
                crate::cap::cspace::deleted(v, root).mem,
                top,
                b,
            ) is None
        }),
{
    let frame = v.slots.caps[c];
    let (top, va) = frame.mapping_spec()->Some_0;
    let order = v.slots.teardown(root);
    let all = Mappings { mem: v.mem, flushes: v.flushes };
    let left = crate::cap::cspace::mappings_revoked(v, root);
    let own = v.slots.revoked(root).caps[root];
    if v.slots.descends(c, root) {
        crate::cap::teardown::a_teardown_reaches_exactly_the_derivatives(v.slots, root, c);
        let i = order.index_of(c);
        lemma_listed_frame_gone(v.slots.caps, order, all, i, b);
        lemma_no_new_translation(own, left.mem, top.0, b);
    } else if c == root {
        let start = crate::mm::unmapping::page_start(va, 0);
        assert(own == frame);
        lemma_no_new_translations(v.slots.caps, order, all, top.0, start);
        lemma_frame_gone(frame, v.mem, left.mem, b);
    }
}

/// Whether `entry` names the memory of a capability: a page of it for a frame, a
/// table for a page table.
pub open spec fn names(entry: Pte, cap: RawCap) -> bool {
    &&& entry.target() == cap.paddr.0
    &&& if cap.kind is Frame {
        entry.leaf_entry()
    } else {
        entry.branch_entry()
    }
}

proof fn lemma_only_own_entries(caps: Map<u64, RawCap>, order: Seq<u64>, v: Mappings, w: int)
    ensures
        ({
            let after = crate::cap::slot::without_mappings(caps, order, v).mem;
            after[w] == v.mem[w] || (after[w] == 0 && exists|i: int|
                0 <= i < order.len() && names(Pte(v.mem[w]), caps[#[trigger] order[i]]))
        }),
    decreases order.len(),
{
    if order.len() > 0 {
        let last = order.last();
        let before = crate::cap::slot::without_mappings(caps, order.drop_last(), v);
        let after = crate::cap::slot::without_mappings(caps, order, v);
        lemma_only_own_entries(caps, order.drop_last(), v, w);
        crate::cap::vspace::unmapping_removes_nothing_else(caps[last], before.mem);
        if before.mem[w] != v.mem[w] {
            let i = choose|i: int|
                0 <= i < order.drop_last().len() && names(
                    Pte(v.mem[w]),
                    caps[#[trigger] order.drop_last()[i]],
                );
            assert(order[i] == order.drop_last()[i]);
        } else if after.mem[w] != before.mem[w] {
            assert(order[order.len() - 1] == last);
        }
    }
}

/// Revocation and deletion leave the mappings of other memory alone: every word
/// is what it was, but for entries that named the memory of a capability that was
/// destroyed, and those are empty.
pub proof fn destruction_spares_other_memory(v: ObjectsView, root: u64, w: int)
    requires
        v.slots.is_consistent(),
        v.slots.is_forest(),
    ensures
        ({
            let after = crate::cap::cspace::revoked(v, root).mem;
            after[w] == v.mem[w] || (after[w] == 0 && exists|c: u64| #[trigger]
                v.slots.descends(c, root) && names(Pte(v.mem[w]), v.slots.caps[c]))
        }),
        ({
            let after = crate::cap::cspace::deleted(v, root).mem;
            after[w] == v.mem[w] || (after[w] == 0 && exists|c: u64|
                (#[trigger] v.slots.descends(c, root) || c == root) && names(
                    Pte(v.mem[w]),
                    v.slots.caps[c],
                ))
        }),
{
    let order = v.slots.teardown(root);
    let all = Mappings { mem: v.mem, flushes: v.flushes };
    let left = crate::cap::cspace::mappings_revoked(v, root);
    let own = v.slots.revoked(root).caps[root];
    lemma_only_own_entries(v.slots.caps, order, all, w);
    if left.mem[w] != v.mem[w] {
        let i = choose|i: int|
            0 <= i < order.len() && names(Pte(v.mem[w]), v.slots.caps[#[trigger] order[i]]);
        assert(order.contains(order[i]));
        crate::cap::teardown::a_teardown_reaches_exactly_the_derivatives(v.slots, root, order[i]);
    }
    crate::cap::vspace::unmapping_removes_nothing_else(own, left.mem);
    let after = crate::cap::cspace::deleted(v, root).mem;
    if left.mem[w] == v.mem[w] && after[w] != left.mem[w] {
        assert(!v.slots.descends(root, root));
        assert(own == v.slots.caps[root] || v.slots.caps[root].kind.untyped());
        assert(names(Pte(v.mem[w]), v.slots.caps[root]));
    }
}

} // verus!
