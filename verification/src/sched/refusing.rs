//! What is refused, told from the trap: mappings that cannot be made, and memory
//! that cannot become what is asked for. What is refused changes nothing but the
//! answer.

use crate::sched::{KernelView, Next};
use vstd::prelude::*;

verus! {

proof fn lemma_kept_bits(rights: u8, mask: u8, flags: u64)
    by (bit_vector)
    ensures
        (rights & mask) & 1 != 0 <==> rights & 1 != 0 && mask & 1 != 0,
        (rights & mask) & 2 != 0 <==> rights & 2 != 0 && mask & 2 != 0,
        flags & 2 != 2 && flags & 4 != 4 && flags & 8 != 8 ==> flags & 0x0e == 0,
{
}

/// Putting a capability back where it was changes nothing.
proof fn lemma_put_back(k: KernelView, tcb: u64)
    requires
        k.objects.slots.is_consistent(),
    ensures
        ({
            let p = crate::sched::syscalls::past(k, tcb);
            let slot = crate::sched::invoking::slot_arg(k, tcb, 0);
            &&& p.objects.slots.with_cap(slot, p.objects.slots.caps[slot]) == p.objects.slots
            &&& p.with_objects(p.objects) == p
        }),
{
    let slot = crate::sched::invoking::slot_arg(k, tcb, 0);
    let caps = k.objects.slots.caps;
    assert(caps.dom().contains(slot));
    assert(caps.insert(slot, caps[slot]) =~= caps);
}

/// Where something is mapped, nothing else can be.
proof fn lemma_taken(m: Map<int, u64>, table: u64, va: u64, level: nat)
    requires
        crate::mm::page_table::translated_from(m, table, va, level) is Some,
    ensures
        match crate::mm::page_table::walk(m, table, va, level, 0) {
            crate::mm::page_table::Walk::Table(t) => crate::mm::page_table::entry_for(
                m,
                t,
                va,
                0,
            ).valid(),
            _ => true,
        },
    decreases level,
{
    let e = crate::mm::page_table::entry_for(m, table, va, level);
    if level > 0 && e.valid() && !e.leaf_entry() {
        lemma_taken(m, e.target(), va, (level - 1) as nat);
    }
}

/// A frame is mapped only where it can be: it is mapped nowhere else yet, `a2`
/// names a page table, the address is that of a page and nothing is there, and
/// what is asked for is neither nothing at all nor writing without reading.
/// Otherwise the answer is an error, and nothing else changes.
pub proof fn a_frame_that_cannot_be_mapped_is_refused(
    k: KernelView,
    tcb: u64,
    stval: u64,
    after: KernelView,
    next: Next,
)
    requires
        crate::sched::invoking::invokes(k, tcb, 5),
        crate::sched::invoking::invoked(k, tcb).kind is Frame,
        crate::sched::entry::is_user_trap(k, tcb, 8, stval, after, next),
    ensures
        ({
            let t = k.thread(tcb);
            let frame = crate::sched::invoking::invoked(k, tcb);
            let space = crate::sched::invoking::cap_arg(k, tcb, 2);
            let va = crate::sched::syscalls::arg(t, 3);
            let asked = (crate::sched::syscalls::arg(t, 4) % 256) as u8;
            let reads = frame.rights & 1 != 0 && asked & 1 != 0;
            let writes = frame.rights & 2 != 0 && asked & 2 != 0;
            let runs = crate::sched::syscalls::arg(t, 5) != 0 && frame.rights & 4 != 0;
            let refused = crate::sched::syscalls::is_answered(
                k,
                tcb,
                after,
                next,
                0xffff_ffff_ffff_fffb,
            );
            &&& crate::sched::syscalls::arg(after.thread(tcb), 0) != 0 ==> refused
            &&& frame.w0 != 0 ==> refused
            &&& !(space.kind is PageTable) ==> refused
            &&& va % 4096 != 0 ==> refused
            &&& 0x40_0000_0000 <= va < 0xffff_ffc0_0000_0000 ==> refused
            &&& crate::mm::page_table::translated(k.objects.mem, space.paddr.0, va) is Some
                ==> refused
            &&& writes && !reads ==> refused
            &&& !reads && !writes && !runs ==> refused
        }),
{
    let t = k.thread(tcb);
    let caps = k.objects.slots.caps;
    crate::sched::syscalls::lemma_named(caps, t.cspace, crate::sched::syscalls::arg(t, 0));
    crate::sched::syscalls::lemma_named(caps, t.cspace, crate::sched::syscalls::arg(t, 2));
    let frame = crate::sched::invoking::invoked(k, tcb);
    let space = crate::sched::invoking::cap_arg(k, tcb, 2);
    let va = crate::sched::syscalls::arg(t, 3);
    let asked = (crate::sched::syscalls::arg(t, 4) % 256) as u8;
    let runs = crate::sched::syscalls::arg(t, 5) != 0 && frame.rights & 4 != 0;
    crate::mm::addr::lemma_spans();
    crate::cap::vspace::user_permissions_follow_the_rights(frame.rights & asked, runs);
    let flags = crate::mm::page_table::PteFlags(
        crate::cap::vspace::user_flags(frame.rights & asked, runs),
    );
    lemma_kept_bits(frame.rights, asked, flags.0);
    let done = crate::cap::vspace::frame_mapped(frame, space, k.objects.mem, va, asked, runs);
    if crate::mm::page_table::translated(k.objects.mem, space.paddr.0, va) is Some {
        lemma_taken(k.objects.mem, space.paddr.0, va, 2);
    }
    lemma_put_back(k, tcb);
    crate::sched::syscalls::lemma_answered(k, tcb, 0xffff_ffff_ffff_fffb);
    if done.result is Err {
        assert(done.cap == frame && done.mem == k.objects.mem);
    }
}

/// A page table is mapped exactly where it can be: it is mapped nowhere else yet,
/// `a2` names a page table, `a5` says a level that takes tables, the address is
/// one that there can be, the tables above are in place, and nothing is there.
/// Otherwise the answer is an error, and nothing else changes.
pub proof fn a_table_is_mapped_where_it_can_be(
    k: KernelView,
    tcb: u64,
    stval: u64,
    after: KernelView,
    next: Next,
)
    requires
        crate::sched::invoking::invokes(k, tcb, 5),
        crate::sched::invoking::invoked(k, tcb).kind is PageTable,
        crate::sched::entry::is_user_trap(k, tcb, 8, stval, after, next),
    ensures
        ({
            let t = k.thread(tcb);
            let m = k.objects.mem;
            let table = crate::sched::invoking::invoked(k, tcb);
            let space = crate::sched::invoking::cap_arg(k, tcb, 2);
            let va = crate::sched::syscalls::arg(t, 3);
            let level = crate::sched::syscalls::arg(t, 5);
            let above = crate::mm::page_table::walk(m, space.paddr.0, va, 2, level as nat);
            let can_be = table.w0 == 0 && space.kind is PageTable && 1 <= level <= 2 && (va
                < 0x40_0000_0000 || va >= 0xffff_ffc0_0000_0000) && table.paddr.0 % 4096 == 0
                && above is Table && !crate::mm::page_table::entry_for(
                m,
                above->Table_0,
                va,
                level as nat,
            ).valid();
            &&& can_be ==> crate::sched::syscalls::arg(after.thread(tcb), 0) == 0
            &&& !can_be ==> crate::sched::syscalls::is_answered(
                k,
                tcb,
                after,
                next,
                0xffff_ffff_ffff_fffb,
            )
        }),
{
    let t = k.thread(tcb);
    let caps = k.objects.slots.caps;
    crate::sched::syscalls::lemma_named(caps, t.cspace, crate::sched::syscalls::arg(t, 0));
    crate::sched::syscalls::lemma_named(caps, t.cspace, crate::sched::syscalls::arg(t, 2));
    let table = crate::sched::invoking::invoked(k, tcb);
    let space = crate::sched::invoking::cap_arg(k, tcb, 2);
    let va = crate::sched::syscalls::arg(t, 3);
    let level = crate::sched::syscalls::arg(t, 5);
    let done = crate::cap::vspace::table_mapped(table, space, k.objects.mem, va, level as int);
    lemma_put_back(k, tcb);
    crate::sched::syscalls::lemma_answered(k, tcb, 0xffff_ffff_ffff_fffb);
    if done.result is Err {
        assert(done.cap == table && done.mem == k.objects.mem);
    }
}

/// Memory becomes nothing unless as many objects are asked for as one request may
/// be for, of a kind that has a number; and where they cannot be had, nothing
/// changes but the answer.
pub proof fn a_request_that_cannot_be_granted_is_refused(
    k: KernelView,
    tcb: u64,
    stval: u64,
    after: KernelView,
    next: Next,
)
    requires
        crate::sched::invoking::invokes(k, tcb, 1),
        crate::sched::invoking::invoked(k, tcb).kind is Untyped || crate::sched::invoking::invoked(
            k,
            tcb,
        ).kind is DeviceUntyped,
        crate::sched::retyping::holds_no_slots(k, tcb),
        crate::sched::entry::is_user_trap(k, tcb, 8, stval, after, next),
    ensures
        ({
            let kind = crate::sched::syscalls::arg(k.thread(tcb), 2);
            let n = crate::sched::syscalls::arg(k.thread(tcb), 5);
            let region = crate::sched::invoking::invoked(k, tcb);
            let makes_sense = 1 <= kind <= 11 && kind != 9 && 1 <= n <= 32;
            let refused = crate::sched::syscalls::is_answered(
                k,
                tcb,
                after,
                next,
                0xffff_ffff_ffff_ffff,
            );
            &&& !makes_sense ==> crate::sched::syscalls::is_answered(
                k,
                tcb,
                after,
                next,
                0xffff_ffff_ffff_fffe,
            )
            &&& makes_sense && crate::sched::syscalls::arg(after.thread(tcb), 0) != 0 ==> refused
            &&& makes_sense && region.rights & 2 == 0 ==> refused
            &&& makes_sense && kind >= 10 ==> refused
            &&& makes_sense && region.kind is DeviceUntyped && kind != 2 && kind != 4 ==> refused
            &&& makes_sense && region.kind is Untyped && kind == 2 ==> refused
            &&& makes_sense && !(k.objects.slots.caps[crate::sched::retyping::slot_for(
                k,
                tcb,
                0,
            )].kind is Null) ==> refused
        }),
{
    let t = k.thread(tcb);
    let p = crate::sched::syscalls::past(k, tcb);
    let n = crate::sched::retyping::wanted(k, tcb);
    let depth = crate::sched::message::own_depth(t.cspace);
    let named = crate::sched::invoke::kind_named(crate::sched::syscalls::arg(t, 2));
    let bits = (crate::sched::syscalls::arg(t, 3) % 256) as u8;
    let src = (crate::sched::syscalls::arg(t, 0), depth);
    let dst = (crate::sched::syscalls::arg(t, 4), depth);
    let region = crate::sched::invoking::invoked(k, tcb);
    crate::sched::syscalls::lemma_named(k.objects.slots.caps, t.cspace, src.0);
    crate::sched::syscalls::lemma_right_bits(region.rights, 0, 0);
    crate::sched::syscalls::lemma_answered(k, tcb, 0xffff_ffff_ffff_ffff);
    crate::sched::syscalls::lemma_answered(k, tcb, 0xffff_ffff_ffff_fffe);
    if 1 <= n <= 32 && named is Some {
        let target = named->0;
        let done = crate::cap::cspace::retyped(p.objects, t.cspace, src, target, bits, dst, n);
        crate::sched::invoke::lemma_retyped_threads(
            p.objects,
            t.cspace,
            src,
            target,
            bits,
            dst,
            n,
        );
        assert(done.0.threads[tcb].frame.x.len() == 32);
        crate::sched::retyping::lemma_in_order(k, tcb, target, bits);
        if done.1 is Err {
            crate::cap::cspace::a_refused_retype_changes_nothing(
                p.objects,
                t.cspace,
                src,
                target,
                bits,
                dst,
                n,
            );
            assert(p.with_objects(p.objects) == p);
        } else {
            crate::cap::cspace::lemma_free_one(p.objects.slots.caps, t.cspace, dst, n, 0);
            crate::sched::retyping::lemma_destination(k, tcb, 0);
        }
    }
}

} // verus!
