//! What invoking kernel objects is for, told from the trap: what the registers
//! ask, and what the slots, the memory and the threads hold afterwards.

use crate::cap::RawCap;
use crate::mm::addr::PhysAddr;
use crate::mm::tlb::Flush;
use crate::sched::{KernelView, Next};
use crate::thread::TcbView;
use vstd::prelude::*;

verus! {

/// Whether a thread traps to ask something of the object it names in `a0`, by a
/// send or a call: objects answer both alike.
pub open spec fn invokes(k: KernelView, tcb: u64, label: u64) -> bool {
    &&& crate::sched::syscalls::makes_call(k, tcb, 4) || crate::sched::syscalls::makes_call(
        k,
        tcb,
        6,
    )
    &&& crate::sched::syscalls::asks(k.thread(tcb)) == label
    &&& k.objects.slots.is_consistent()
}

/// The capability a thread invokes.
pub open spec fn invoked(k: KernelView, tcb: u64) -> RawCap {
    crate::sched::syscalls::cap_named(
        k,
        k.thread(tcb),
        crate::sched::syscalls::arg(k.thread(tcb), 0),
    )
}

/// The slot that a thread's argument `n` names.
pub open spec fn slot_arg(k: KernelView, tcb: u64, n: int) -> u64 {
    crate::sched::syscalls::slot_named(
        k.thread(tcb).cspace,
        crate::sched::syscalls::arg(k.thread(tcb), n),
    )
}

/// The capability that a thread's argument `n` names.
pub open spec fn cap_arg(k: KernelView, tcb: u64, n: int) -> RawCap {
    k.objects.slots.caps[slot_arg(k, tcb, n)]
}

/// Whether a thread goes on past its call with a value in `a0`, every other
/// register as it was, and no thread, endpoint or queue has changed otherwise.
pub open spec fn is_told(k: KernelView, tcb: u64, after: KernelView, next: Next, value: u64) -> bool {
    &&& goes_on(k, tcb, after, next, value)
    &&& forall|other: u64| other != tcb ==> #[trigger] after.thread(other) == k.thread(other)
    &&& after == (KernelView { objects: after.objects, ..k })
    &&& after.objects.notifications == k.objects.notifications
    &&& after.objects.waiters == k.objects.waiters
    &&& after.objects.ids == k.objects.ids
    &&& after.objects.kernel_root == k.objects.kernel_root
}

/// Whether a thread goes on past its call with a value in `a0`, and every queue
/// is as it was.
pub open spec fn goes_on(k: KernelView, tcb: u64, after: KernelView, next: Next, value: u64) -> bool {
    let t = k.thread(tcb);
    let me = after.thread(tcb);
    &&& next == Next::Resume(tcb)
    &&& me == (TcbView { frame: me.frame, ..t })
    &&& me.frame.x == t.frame.x.update(10, value)
    &&& me.frame.sepc == t.frame.sepc + 4
    &&& me.frame.sstatus == t.frame.sstatus
    &&& after.objects.endpoints == k.objects.endpoints
    &&& after.current == k.current
    &&& after.satp == k.satp
}

// --- CNodes ---

/// Minting puts a copy into the CNode that is invoked, in the slot that `a3`
/// names there: the object that `a2` names, with those of its rights that the low
/// byte of `a4` names too, and no others, and with the badge in `a5`. It takes
/// the right to write to the CNode and the right to hand the original on, and a
/// slot that is free; there is no second capability to retype memory through, and
/// no badge where none is carried. Otherwise no slot changes.
pub proof fn minting_copies_with_the_rights_asked_for(
    k: KernelView,
    tcb: u64,
    stval: u64,
    after: KernelView,
    next: Next,
)
    requires
        invokes(k, tcb, 2),
        invoked(k, tcb).kind is CNode,
        crate::sched::entry::is_user_trap(k, tcb, 8, stval, after, next),
    ensures
        ({
            let t = k.thread(tcb);
            let node = invoked(k, tcb);
            let src = slot_arg(k, tcb, 2);
            let original = k.objects.slots.caps[src];
            let dst = crate::sched::syscalls::slot_named(node, crate::sched::syscalls::arg(t, 3));
            let rights = original.rights & ((crate::sched::syscalls::arg(t, 4) % 256) as u8);
            let badge = crate::sched::syscalls::arg(t, 5);
            let badgeable = original.kind is Endpoint || original.kind is Notification;
            let untyped = original.kind is Untyped || original.kind is DeviceUntyped;
            let granted = node.rights & 2 != 0 && !(original.kind is Null) && original.rights & 4
                != 0 && k.objects.slots.caps[dst].kind is Null && !(untyped && rights & 2 != 0) && (
            badge == 0 || badgeable);
            let copy = after.objects.slots.caps[dst];
            &&& !granted ==> crate::sched::syscalls::is_answered(
                k,
                tcb,
                after,
                next,
                0xffff_ffff_ffff_ffff,
            )
            &&& granted ==> {
                &&& is_told(k, tcb, after, next, 0)
                &&& copy.kind == original.kind
                &&& copy.rights == rights
                &&& copy.size_bits == original.size_bits
                &&& copy.paddr == original.paddr
                &&& copy.asid == original.asid
                &&& copy.irq == original.irq
                &&& badgeable ==> copy.w1 == badge
                &&& copy.kind is Frame || copy.kind is PageTable ==> copy.w0 == 0 && copy.w1 == 0
                &&& untyped ==> copy.w0 == original.w0
                &&& after.objects.slots.parent[dst] == Some(src)
                &&& after.objects.slots.kids[src] == seq![dst] + k.objects.slots.kids[src]
                &&& after.objects.mem == k.objects.mem
                &&& forall|a: u64|
                    a != dst ==> #[trigger] after.objects.slots.caps[a] == k.objects.slots.caps[a]
                &&& forall|a: u64|
                    a != dst ==> #[trigger] after.objects.slots.parent[a]
                        == k.objects.slots.parent[a]
            }
        }),
{
    let t = k.thread(tcb);
    let caps = k.objects.slots.caps;
    let node = invoked(k, tcb);
    assert(node.is_sound());
    crate::sched::syscalls::lemma_named(caps, t.cspace, crate::sched::syscalls::arg(t, 0));
    crate::sched::syscalls::lemma_named(caps, t.cspace, crate::sched::syscalls::arg(t, 2));
    crate::sched::syscalls::lemma_named(caps, node, crate::sched::syscalls::arg(t, 3));
    let p = crate::sched::syscalls::past(k, tcb);
    assert(p.with_slots(p.objects.slots) == p);
    crate::sched::syscalls::lemma_answered(k, tcb, 0xffff_ffff_ffff_ffff);
}

/// Revoking destroys everything that was ever derived from the capability that
/// `a2` names, leaves that capability, and gives its memory back if it is
/// untyped; deleting destroys it too. Nothing else is destroyed. A page that a
/// destroyed frame was still mapped at is no longer translated.
pub proof fn revoking_and_deleting_destroy_what_was_derived(
    k: KernelView,
    tcb: u64,
    stval: u64,
    after: KernelView,
    next: Next,
    c: u64,
    b: u64,
)
    requires
        invokes(k, tcb, 3) || invokes(k, tcb, 4),
        invoked(k, tcb).kind is CNode,
        k.objects.slots.is_forest(),
        crate::sched::entry::is_user_trap(k, tcb, 8, stval, after, next),
    ensures
        ({
            let root = slot_arg(k, tcb, 2);
            let d = k.objects.slots;
            let deletes = crate::sched::syscalls::asks(k.thread(tcb)) == 4;
            let gone = d.descends(c, root) || (c == root && deletes);
            let frame = d.caps[c];
            &&& is_told(k, tcb, after, next, 0)
            &&& gone ==> after.objects.slots.caps[c].kind is Null
            &&& gone ==> after.objects.slots.parent[c] is None
            &&& !gone && c != root ==> after.objects.slots.caps[c] == d.caps[c]
            &&& c == root && !deletes ==> {
                &&& after.objects.slots.caps[c] == (RawCap {
                    w0: after.objects.slots.caps[c].w0,
                    ..d.caps[c]
                })
                &&& after.objects.slots.caps[c].w0 == if frame.kind is Untyped
                    || frame.kind is DeviceUntyped {
                    0
                } else {
                    frame.w0
                }
            }
            &&& gone && frame.kind is Frame && crate::cap::vspace::is_mapped_there(
                frame,
                k.objects.mem,
            ) && crate::cap::revocation::is_in_recorded_page(frame, b)
                ==> crate::mm::page_table::translated(
                after.objects.mem,
                frame.mapping_spec()->Some_0.0.0,
                b,
            ) is None
        }),
{
    let t = k.thread(tcb);
    let caps = k.objects.slots.caps;
    crate::sched::syscalls::lemma_named(caps, t.cspace, crate::sched::syscalls::arg(t, 0));
    crate::sched::syscalls::lemma_named(caps, t.cspace, crate::sched::syscalls::arg(t, 2));
    let p = crate::sched::syscalls::past(k, tcb);
    let root = slot_arg(k, tcb, 2);
    let d = k.objects.slots;
    let deletes = crate::sched::syscalls::asks(t) == 4;
    let v = crate::sched::invoke::destroyed(p.objects, root, deletes);
    assert((after, next) == p.with_objects(v).finished(tcb, 0));
    assert(!d.descends(root, root));
    let frame = d.caps[c];
    if frame.kind is Frame && crate::cap::vspace::is_mapped_there(frame, k.objects.mem)
        && crate::cap::revocation::is_in_recorded_page(frame, b) {
        crate::cap::revocation::a_destroyed_frame_is_translated_no_longer(p.objects, root, c, b);
    }
}

// --- Frames and page tables ---

/// Mapping a frame makes the page at `a3` show the frame's memory, in the address
/// space that `a2` names: readable exactly if the capability and the low byte of
/// `a4` both say so, writable exactly if both say so, executable exactly if `a5`
/// asks for it and the capability may be handed on, and always for user mode. The
/// capability remembers where it is mapped.
pub proof fn a_mapped_frame_has_the_rights_asked_for(
    k: KernelView,
    tcb: u64,
    stval: u64,
    after: KernelView,
    next: Next,
    a: u64,
)
    requires
        invokes(k, tcb, 5),
        invoked(k, tcb).kind is Frame,
        crate::sched::entry::is_user_trap(k, tcb, 8, stval, after, next),
        crate::sched::syscalls::arg(after.thread(tcb), 0) == 0,
        invoked(k, tcb).paddr.0 < crate::mm::addr::PHYS_LIMIT,
        crate::sched::syscalls::arg(k.thread(tcb), 3) <= a < crate::sched::syscalls::arg(
            k.thread(tcb),
            3,
        ) + 4096,
    ensures
        ({
            let t = k.thread(tcb);
            let frame = invoked(k, tcb);
            let space = cap_arg(k, tcb, 2);
            let va = crate::sched::syscalls::arg(t, 3);
            let asked = (crate::sched::syscalls::arg(t, 4) % 256) as u8;
            let kept = after.objects.slots.caps[slot_arg(k, tcb, 0)];
            &&& is_told(k, tcb, after, next, 0)
            &&& space.kind is PageTable
            &&& crate::mm::page_table::translated(after.objects.mem, space.paddr.0, a) matches Some(
                found,
            )
            &&& found.0 == PhysAddr((frame.paddr.0 + (a - va)) as u64)
            &&& found.2 == 0
            &&& found.1.0 & 2 != 0 <==> frame.rights & 1 != 0 && asked & 1 != 0
            &&& found.1.0 & 4 != 0 <==> frame.rights & 2 != 0 && asked & 2 != 0
            &&& found.1.0 & 8 != 0 <==> crate::sched::syscalls::arg(t, 5) != 0 && frame.rights & 4
                != 0
            &&& found.1.0 & 16 != 0
            &&& kept == RawCap { w0: space.paddr.0, w1: va, ..frame }
            &&& after.objects.flushes == k.objects.flushes.push(
                Flush::Page(crate::mm::addr::VirtAddr(va)),
            )
            &&& forall|s: u64|
                s != slot_arg(k, tcb, 0) ==> #[trigger] after.objects.slots.caps[s]
                    == k.objects.slots.caps[s]
            &&& after.objects.slots.parent == k.objects.slots.parent
        }),
{
    let t = k.thread(tcb);
    let caps = k.objects.slots.caps;
    crate::sched::syscalls::lemma_named(caps, t.cspace, crate::sched::syscalls::arg(t, 0));
    crate::sched::syscalls::lemma_named(caps, t.cspace, crate::sched::syscalls::arg(t, 2));
    crate::cap::vspace::a_mapped_frame_translates(
        invoked(k, tcb),
        cap_arg(k, tcb, 2),
        k.objects.mem,
        crate::sched::syscalls::arg(t, 3),
        (crate::sched::syscalls::arg(t, 4) % 256) as u8,
        crate::sched::syscalls::arg(t, 5) != 0 && invoked(k, tcb).rights & 4 != 0,
        a,
    );
}

/// A frame is mapped whenever it can be: it is mapped nowhere, `a2` names a page
/// table, the address is one of a page that a user can have there, the tables on
/// the way are in place, and nothing is mapped there yet.
pub proof fn a_frame_that_can_be_mapped_is(
    k: KernelView,
    tcb: u64,
    stval: u64,
    after: KernelView,
    next: Next,
    t0: u64,
)
    requires
        invokes(k, tcb, 5),
        invoked(k, tcb).kind is Frame,
        invoked(k, tcb).w0 == 0,
        invoked(k, tcb).paddr.0 % 4096 == 0,
        cap_arg(k, tcb, 2).kind is PageTable,
        ({
            let va = crate::sched::syscalls::arg(k.thread(tcb), 3);
            let m = k.objects.mem;
            let asked = (crate::sched::syscalls::arg(k.thread(tcb), 4) % 256) as u8;
            &&& va % 4096 == 0
            &&& crate::mm::addr::canonical(va)
            &&& crate::mm::page_table::walk(m, cap_arg(k, tcb, 2).paddr.0, va, 2, 0)
                == crate::mm::page_table::Walk::Table(t0)
            &&& !crate::mm::page_table::entry_for(m, t0, va, 0).valid()
            &&& invoked(k, tcb).rights & 1 != 0
            &&& asked & 1 != 0
        }),
        crate::sched::entry::is_user_trap(k, tcb, 8, stval, after, next),
    ensures
        crate::sched::syscalls::arg(after.thread(tcb), 0) == 0,
{
    let t = k.thread(tcb);
    let caps = k.objects.slots.caps;
    crate::sched::syscalls::lemma_named(caps, t.cspace, crate::sched::syscalls::arg(t, 0));
    crate::sched::syscalls::lemma_named(caps, t.cspace, crate::sched::syscalls::arg(t, 2));
    let frame = invoked(k, tcb);
    let asked = (crate::sched::syscalls::arg(t, 4) % 256) as u8;
    let executable = crate::sched::syscalls::arg(t, 5) != 0 && frame.rights & 4 != 0;
    crate::mm::addr::lemma_spans();
    crate::cap::vspace::user_permissions_follow_the_rights(frame.rights & asked, executable);
    let flags = crate::mm::page_table::PteFlags(
        crate::cap::vspace::user_flags(frame.rights & asked, executable),
    );
    crate::sched::syscalls::lemma_right_bits(frame.rights, asked, flags.0);
    assert(crate::mm::page_table::leaf_refused(
        crate::sched::syscalls::arg(t, 3),
        frame.paddr.0,
        0,
        flags,
    ) is None);
}

/// Unmapping takes the page a frame capability records away from its address
/// space, whatever was left of it, and the capability forgets where it was.
pub proof fn unmapping_takes_the_page_away(
    k: KernelView,
    tcb: u64,
    stval: u64,
    after: KernelView,
    next: Next,
    b: u64,
)
    requires
        invokes(k, tcb, 6),
        invoked(k, tcb).kind is Frame,
        crate::cap::vspace::is_mapped_there(invoked(k, tcb), k.objects.mem),
        crate::cap::revocation::is_in_recorded_page(invoked(k, tcb), b),
        crate::sched::entry::is_user_trap(k, tcb, 8, stval, after, next),
    ensures
        ({
            let frame = invoked(k, tcb);
            let kept = after.objects.slots.caps[slot_arg(k, tcb, 0)];
            &&& is_told(k, tcb, after, next, 0)
            &&& crate::mm::page_table::translated(after.objects.mem, frame.w0, b) is None
            &&& kept == RawCap { w0: 0, w1: 0, ..frame }
            &&& after.objects.flushes == k.objects.flushes.push(
                Flush::Page(crate::mm::addr::VirtAddr(frame.w1)),
            )
            &&& forall|s: u64|
                s != slot_arg(k, tcb, 0) ==> #[trigger] after.objects.slots.caps[s]
                    == k.objects.slots.caps[s]
        }),
{
    let t = k.thread(tcb);
    crate::sched::syscalls::lemma_named(
        k.objects.slots.caps,
        t.cspace,
        crate::sched::syscalls::arg(t, 0),
    );
    crate::cap::vspace::an_unmapped_frame_is_translated_no_longer(
        invoked(k, tcb),
        k.objects.mem,
        b,
    );
    crate::cap::vspace::lemma_unmapping_answers(invoked(k, tcb), k.objects.mem);
}

/// Unmapping a page table cuts it off: the address that its capability records no
/// longer leads to it, and the capability forgets the address. Since a table
/// covers many pages, everything that was cached of translations goes.
pub proof fn unmapping_cuts_a_table_off(
    k: KernelView,
    tcb: u64,
    stval: u64,
    after: KernelView,
    next: Next,
)
    requires
        invokes(k, tcb, 6),
        invoked(k, tcb).kind is PageTable,
        invoked(k, tcb).w0 != 0,
        crate::sched::entry::is_user_trap(k, tcb, 8, stval, after, next),
        crate::sched::syscalls::arg(after.thread(tcb), 0) == 0,
    ensures
        ({
            let table = invoked(k, tcb);
            let kept = after.objects.slots.caps[slot_arg(k, tcb, 0)];
            &&& is_told(k, tcb, after, next, 0)
            &&& !crate::cap::vspace::passes(
                after.objects.mem,
                table.w0,
                table.w1,
                table.paddr.0,
                2,
                0,
            )
            &&& kept == RawCap { w0: 0, w1: 0, ..table }
            &&& after.objects.flushes == k.objects.flushes.push(Flush::All)
            &&& forall|s: u64|
                s != slot_arg(k, tcb, 0) ==> #[trigger] after.objects.slots.caps[s]
                    == k.objects.slots.caps[s]
        }),
{
    let t = k.thread(tcb);
    crate::sched::syscalls::lemma_named(
        k.objects.slots.caps,
        t.cspace,
        crate::sched::syscalls::arg(t, 0),
    );
    crate::cap::vspace::an_unmapped_table_is_cut_off(invoked(k, tcb), k.objects.mem);
}

/// Unmapping what is mapped nowhere is no mistake, and changes nothing.
pub proof fn unmapping_nothing_is_no_mistake(
    k: KernelView,
    tcb: u64,
    stval: u64,
    after: KernelView,
    next: Next,
)
    requires
        invokes(k, tcb, 6),
        invoked(k, tcb).kind is Frame || invoked(k, tcb).kind is PageTable,
        invoked(k, tcb).w0 == 0,
        crate::sched::entry::is_user_trap(k, tcb, 8, stval, after, next),
    ensures
        crate::sched::syscalls::is_answered(k, tcb, after, next, 0),
{
    let t = k.thread(tcb);
    crate::sched::syscalls::lemma_named(
        k.objects.slots.caps,
        t.cspace,
        crate::sched::syscalls::arg(t, 0),
    );
    let slot = slot_arg(k, tcb, 0);
    let p = crate::sched::syscalls::past(k, tcb);
    assert(k.objects.slots.caps.dom().contains(slot));
    assert(k.objects.slots.caps.insert(slot, k.objects.slots.caps[slot])
        =~= k.objects.slots.caps);
    assert(p.objects.slots.with_cap(slot, p.objects.slots.caps[slot]) == p.objects.slots);
    assert(p.with_objects(p.objects) == p);
    crate::sched::syscalls::lemma_answered(k, tcb, 0);
}

/// The address of a frame is told to whoever may write to it, and to nobody
/// else. Nothing changes.
pub proof fn a_frames_address_takes_the_right_to_write(
    k: KernelView,
    tcb: u64,
    stval: u64,
    after: KernelView,
    next: Next,
)
    requires
        invokes(k, tcb, 13),
        invoked(k, tcb).kind is Frame,
        crate::sched::entry::is_user_trap(k, tcb, 8, stval, after, next),
    ensures
        invoked(k, tcb).rights & 2 != 0 ==> crate::sched::syscalls::is_answered(
            k,
            tcb,
            after,
            next,
            invoked(k, tcb).paddr.0,
        ),
        invoked(k, tcb).rights & 2 == 0 ==> crate::sched::syscalls::is_answered(
            k,
            tcb,
            after,
            next,
            0xffff_ffff_ffff_ffff,
        ),
{
    let t = k.thread(tcb);
    crate::sched::syscalls::lemma_named(
        k.objects.slots.caps,
        t.cspace,
        crate::sched::syscalls::arg(t, 0),
    );
    crate::sched::syscalls::lemma_right_bits(invoked(k, tcb).rights, 0, 0);
    crate::sched::syscalls::lemma_answered(k, tcb, invoked(k, tcb).paddr.0);
    crate::sched::syscalls::lemma_answered(k, tcb, 0xffff_ffff_ffff_ffff);
}

/// Writing an entry where there was none leaves every address that is translated
/// as it is.
proof fn lemma_still_translated(m: Map<int, u64>, table: u64, b: u64, level: nat, w: int, entry: u64)
    requires
        !crate::mm::page_table::Pte(m[w]).valid(),
        crate::mm::page_table::translated_from(m, table, b, level) is Some,
    ensures
        crate::mm::page_table::translated_from(m.insert(w, entry), table, b, level)
            == crate::mm::page_table::translated_from(m, table, b, level),
    decreases level,
{
    let e = crate::mm::page_table::entry_for(m, table, b, level);
    assert(e.valid());
    assert(crate::mm::page_table::entry_word(table, b, level) != w);
    assert(crate::mm::page_table::entry_for(m.insert(w, entry), table, b, level) == e);
    if e.branch_entry() && level > 0 {
        lemma_still_translated(m, e.target(), b, (level - 1) as nat, w, entry);
    }
}

/// Mapping disturbs nobody: whatever was translated before, in this address space
/// or any other, is translated as it was.
pub proof fn mapping_disturbs_no_other_mapping(
    k: KernelView,
    tcb: u64,
    stval: u64,
    after: KernelView,
    next: Next,
    root: u64,
    b: u64,
)
    requires
        invokes(k, tcb, 5),
        invoked(k, tcb).kind is Frame || invoked(k, tcb).kind is PageTable,
        crate::sched::entry::is_user_trap(k, tcb, 8, stval, after, next),
        crate::mm::page_table::translated(k.objects.mem, root, b) is Some,
    ensures
        crate::mm::page_table::translated(after.objects.mem, root, b)
            == crate::mm::page_table::translated(k.objects.mem, root, b),
{
    let t = k.thread(tcb);
    let caps = k.objects.slots.caps;
    crate::sched::syscalls::lemma_named(caps, t.cspace, crate::sched::syscalls::arg(t, 0));
    crate::sched::syscalls::lemma_named(caps, t.cspace, crate::sched::syscalls::arg(t, 2));
    let m = k.objects.mem;
    let va = crate::sched::syscalls::arg(t, 3);
    let level: nat = if invoked(k, tcb).kind is Frame {
        0
    } else {
        crate::sched::syscalls::arg(t, 5) as nat
    };
    if after.objects.mem != m {
        let at = crate::mm::page_table::walk(m, cap_arg(k, tcb, 2).paddr.0, va, 2, level)->Table_0;
        let w = crate::mm::page_table::entry_word(at, va, level);
        assert(after.objects.mem == m.insert(w, after.objects.mem[w]));
        lemma_still_translated(m, root, b, 2, w, after.objects.mem[w]);
    }
}

/// Assigning makes a page table that is mapped nowhere the root of an address
/// space of its own: it gets an identifier that no other has, and its kernel half
/// translates as the kernel's own table does. It can be assigned once.
pub proof fn assigning_makes_an_address_space(
    k: KernelView,
    tcb: u64,
    stval: u64,
    after: KernelView,
    next: Next,
    a: u64,
)
    requires
        invokes(k, tcb, 12),
        invoked(k, tcb).kind is PageTable,
        invoked(k, tcb).paddr.0 % 4096 == 0,
        k.objects.kernel_root.pa % 4096 == 0,
        k.objects.asids.ready,
        k.objects.asids.pool.bits > 0,
        crate::mm::address_space::in_kernel_half(a),
        crate::sched::entry::is_user_trap(k, tcb, 8, stval, after, next),
    ensures
        ({
            let table = invoked(k, tcb);
            let kept = after.objects.slots.caps[slot_arg(k, tcb, 0)];
            let pool = k.objects.asids.pool;
            let left = exists|i: int| 0 <= i < pool.room() && !(#[trigger] pool.taken(i));
            let fit = table.asid == 0 && table.w0 == 0 && k.objects.kernel_root.pa != 0;
            &&& fit && left ==> {
                &&& is_told(k, tcb, after, next, 0)
                &&& kept == RawCap { asid: kept.asid, ..table }
                &&& kept.asid != 0
                &&& !pool.taken(kept.asid - 1)
                &&& after.objects.asids.pool.taken(kept.asid - 1)
                &&& crate::mm::page_table::translated(after.objects.mem, table.paddr.0, a)
                    == crate::mm::page_table::translated(
                    after.objects.mem,
                    k.objects.kernel_root.pa,
                    a,
                )
                &&& forall|s: u64|
                    s != slot_arg(k, tcb, 0) ==> #[trigger] after.objects.slots.caps[s]
                        == k.objects.slots.caps[s]
            }
            &&& table.asid != 0 ==> crate::sched::syscalls::is_answered(
                k,
                tcb,
                after,
                next,
                0xffff_ffff_ffff_fff9,
            )
            &&& table.asid == 0 && table.w0 != 0 ==> crate::sched::syscalls::is_answered(
                k,
                tcb,
                after,
                next,
                0xffff_ffff_ffff_fffb,
            )
            &&& fit && !left ==> crate::sched::syscalls::arg(after.thread(tcb), 0)
                == 0xffff_ffff_ffff_fff9 && kept == table
        }),
{
    let t = k.thread(tcb);
    crate::sched::syscalls::lemma_named(
        k.objects.slots.caps,
        t.cspace,
        crate::sched::syscalls::arg(t, 0),
    );
    let table = invoked(k, tcb);
    let slot = slot_arg(k, tcb, 0);
    let p = crate::sched::syscalls::past(k, tcb);
    assert(k.objects.slots.caps.dom().contains(slot));
    assert(k.objects.slots.caps.insert(slot, k.objects.slots.caps[slot])
        =~= k.objects.slots.caps);
    assert(p.objects.slots.with_cap(slot, p.objects.slots.caps[slot]) == p.objects.slots);
    assert(p.with_objects(p.objects) == p);
    crate::sched::syscalls::lemma_answered(k, tcb, 0xffff_ffff_ffff_fff9);
    crate::sched::syscalls::lemma_answered(k, tcb, 0xffff_ffff_ffff_fffb);
    crate::cap::asid::an_allocated_asid_was_free(k.objects.asids.pool);
    crate::mm::address_space::the_kernel_half_is_shared(
        k.objects.mem,
        table.paddr.0,
        k.objects.kernel_root.pa,
        a,
    );
}

/// An object is asked only what it can do; and an empty slot, a notification, a
/// right to reply and the rights to interrupts are asked nothing at all. Whatever
/// else is asked changes nothing.
pub proof fn unknown_requests_are_refused(
    k: KernelView,
    tcb: u64,
    stval: u64,
    after: KernelView,
    next: Next,
    label: u64,
)
    requires
        invokes(k, tcb, label),
        !(invoked(k, tcb).kind is Endpoint),
        crate::sched::entry::is_user_trap(k, tcb, 8, stval, after, next),
    ensures
        ({
            let cap = invoked(k, tcb);
            let untyped = cap.kind is Untyped || cap.kind is DeviceUntyped;
            let mappable = cap.kind is Frame || cap.kind is PageTable;
            &&& (untyped && label != 1) || (cap.kind is CNode && !(2 <= label <= 4)) || (mappable
                && label != 5 && label != 6 && label != 12 && label != 13)
                ==> crate::sched::syscalls::is_answered(
                k,
                tcb,
                after,
                next,
                0xffff_ffff_ffff_fffe,
            )
            &&& cap.kind is Null || cap.kind is Notification || cap.kind is Reply
                || cap.kind is IrqControl || cap.kind is IrqHandler
                ==> crate::sched::syscalls::is_answered(
                k,
                tcb,
                after,
                next,
                0xffff_ffff_ffff_ffff,
            )
        }),
{
    let t = k.thread(tcb);
    crate::sched::syscalls::lemma_named(
        k.objects.slots.caps,
        t.cspace,
        crate::sched::syscalls::arg(t, 0),
    );
    crate::sched::syscalls::lemma_answered(k, tcb, 0xffff_ffff_ffff_fffe);
    crate::sched::syscalls::lemma_answered(k, tcb, 0xffff_ffff_ffff_ffff);
}

/// Mapping a page table puts it on the way to the address in `a3`, at the level
/// in `a5`: whoever looks for a lower level there finds the table. The capability
/// remembers where it is mapped.
pub proof fn a_mapped_table_is_on_the_way(
    k: KernelView,
    tcb: u64,
    stval: u64,
    after: KernelView,
    next: Next,
)
    requires
        invokes(k, tcb, 5),
        invoked(k, tcb).kind is PageTable,
        crate::sched::entry::is_user_trap(k, tcb, 8, stval, after, next),
        crate::sched::syscalls::arg(after.thread(tcb), 0) == 0,
        invoked(k, tcb).paddr.0 < crate::mm::addr::PHYS_LIMIT,
    ensures
        ({
            let t = k.thread(tcb);
            let table = invoked(k, tcb);
            let space = cap_arg(k, tcb, 2);
            let va = crate::sched::syscalls::arg(t, 3);
            let level = crate::sched::syscalls::arg(t, 5);
            &&& is_told(k, tcb, after, next, 0)
            &&& space.kind is PageTable
            &&& level == 1 || level == 2
            &&& crate::mm::page_table::walk(
                after.objects.mem,
                space.paddr.0,
                va,
                2,
                (level - 1) as nat,
            ) == crate::mm::page_table::Walk::Table(table.paddr.0)
            &&& after.objects.slots.caps[slot_arg(k, tcb, 0)] == RawCap {
                w0: space.paddr.0,
                w1: va,
                ..table
            }
            &&& forall|s: u64|
                s != slot_arg(k, tcb, 0) ==> #[trigger] after.objects.slots.caps[s]
                    == k.objects.slots.caps[s]
        }),
{
    let t = k.thread(tcb);
    let caps = k.objects.slots.caps;
    crate::sched::syscalls::lemma_named(caps, t.cspace, crate::sched::syscalls::arg(t, 0));
    crate::sched::syscalls::lemma_named(caps, t.cspace, crate::sched::syscalls::arg(t, 2));
    crate::cap::vspace::a_mapped_table_is_reached(
        invoked(k, tcb),
        cap_arg(k, tcb, 2),
        k.objects.mem,
        crate::sched::syscalls::arg(t, 3),
        crate::sched::syscalls::arg(t, 5) as int,
    );
}

} // verus!
