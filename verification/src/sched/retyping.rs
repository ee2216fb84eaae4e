//! What retyping is for, told from the trap: memory becomes objects, as many and
//! of the kind that was asked for, and nobody else's memory does.

use crate::abi::object::ObjectType;
use crate::cap::RawCap;
use crate::objects::ObjectsView;
use crate::sched::{KernelView, Next};
use vstd::prelude::*;

verus! {

/// The slot that the `i`th object of a request goes to: the one that `a4` names,
/// and those that follow.
pub open spec fn slot_for(k: KernelView, tcb: u64, i: int) -> u64 {
    crate::sched::syscalls::slot_named(
        k.thread(tcb).cspace,
        ((crate::sched::syscalls::arg(k.thread(tcb), 4) + i) % 0x1_0000_0000_0000_0000) as u64,
    )
}

/// How many objects a request is for.
pub open spec fn wanted(k: KernelView, tcb: u64) -> nat {
    crate::sched::syscalls::arg(k.thread(tcb), 5) as nat
}

/// Whether what a region has yet to hand out holds no slot that is in use, and
/// none that the objects of a request go to.
pub open spec fn holds_no_slots(k: KernelView, tcb: u64) -> bool {
    let region = crate::sched::invoking::invoked(k, tcb);
    forall|a: u64|
        region.paddr.0 + region.w0 <= a < region.paddr.0 + region.size_spec() ==> (
        #[trigger] k.objects.slots.caps[a]).kind is Null && forall|i: int|
            0 <= i < wanted(k, tcb) ==> #[trigger] slot_for(k, tcb, i) != a
}

/// Whether a thread asks untyped memory that it may use to become objects, and is
/// told that it has.
pub open spec fn retypes(k: KernelView, tcb: u64, stval: u64, after: KernelView, next: Next) -> bool {
    let region = crate::sched::invoking::invoked(k, tcb);
    &&& crate::sched::invoking::invokes(k, tcb, 1)
    &&& region.kind is Untyped || region.kind is DeviceUntyped
    &&& holds_no_slots(k, tcb)
    &&& crate::sched::entry::is_user_trap(k, tcb, 8, stval, after, next)
    &&& crate::sched::syscalls::arg(after.thread(tcb), 0) == 0
}

/// Retyping makes as many objects as `a5` says, of the kind that `a2` says and,
/// where a kind comes in sizes, of the size that `a3` says, in the slots from the
/// one that `a4` names on, which were free. They come with every right and belong
/// to nobody yet, lie in the region beyond what it has handed out before, are
/// aligned to their size and do not overlap, and are derived from the region,
/// which remembers that they are gone. No slot in use changes otherwise.
pub proof fn retyping_makes_what_was_asked_for(
    k: KernelView,
    tcb: u64,
    stval: u64,
    after: KernelView,
    next: Next,
    i: int,
    j: int,
)
    requires
        retypes(k, tcb, stval, after, next),
        0 <= i < wanted(k, tcb),
        0 <= j < wanted(k, tcb),
    ensures
        ({
            let t = k.thread(tcb);
            let region = crate::sched::invoking::invoked(k, tcb);
            let source = crate::sched::invoking::slot_arg(k, tcb, 0);
            let kept = after.objects.slots.caps[source];
            let got = after.objects.slots.caps[slot_for(k, tcb, i)];
            let other = after.objects.slots.caps[slot_for(k, tcb, j)];
            let kind = crate::sched::syscalls::arg(t, 2);
            &&& wanted(k, tcb) <= 32
            &&& region.rights & 2 != 0
            &&& k.objects.slots.caps[slot_for(k, tcb, i)].kind is Null
            &&& got.kind is Untyped <==> kind == 1
            &&& got.kind is DeviceUntyped <==> kind == 2
            &&& got.kind is CNode <==> kind == 3
            &&& got.kind is Frame <==> kind == 4
            &&& got.kind is PageTable <==> kind == 5
            &&& got.kind is Tcb <==> kind == 6
            &&& got.kind is Endpoint <==> kind == 7
            &&& got.kind is Notification <==> kind == 8
            &&& 1 <= kind <= 8
            &&& region.kind is DeviceUntyped ==> kind == 2 || kind == 4
            &&& region.kind is Untyped ==> kind != 2
            &&& got.rights == 7
            &&& got.w0 == 0 && got.w1 == 0 && got.asid == 0
            &&& kind <= 3 ==> got.size_bits == crate::sched::syscalls::arg(t, 3) % 256
            &&& 4 <= kind <= 6 ==> got.size_bits == 12
            &&& 7 <= kind ==> got.size_bits == 7
            &&& got.paddr.0 as nat % got.size_spec() == 0
            &&& region.paddr.0 + region.w0 <= got.paddr.0
            &&& got.paddr.0 + got.size_spec() <= region.paddr.0 + kept.w0
            &&& kept.w0 <= region.size_spec()
            &&& kept == RawCap { w0: kept.w0, ..region }
            &&& i < j ==> got.paddr.0 + got.size_spec() <= other.paddr.0
            &&& after.objects.slots.parent[slot_for(k, tcb, i)] == Some(source)
            &&& forall|a: u64|
                !((#[trigger] k.objects.slots.caps[a]).kind is Null) && a != source
                    ==> after.objects.slots.caps[a] == k.objects.slots.caps[a]
            &&& next == Next::Resume(tcb)
            &&& after.queue == k.queue
            &&& after.current == k.current
        }),
{
    let t = k.thread(tcb);
    let p = crate::sched::syscalls::past(k, tcb);
    let n = wanted(k, tcb);
    let depth = crate::sched::message::own_depth(t.cspace);
    let target = crate::sched::invoke::kind_named(crate::sched::syscalls::arg(t, 2))->0;
    let bits = (crate::sched::syscalls::arg(t, 3) % 256) as u8;
    let src = (crate::sched::syscalls::arg(t, 0), depth);
    let dst = (crate::sched::syscalls::arg(t, 4), depth);
    lemma_asked(k, tcb, stval, after, next);
    crate::cap::ownership::lemma_retyped(p.objects, t.cspace, src, target, bits, dst, n);
    lemma_destination(k, tcb, i);
    lemma_destination(k, tcb, j);
    let region = crate::sched::invoking::invoked(k, tcb);
    let plan = crate::cap::untyped::retype_plan(region, target, bits, n)->Ok_0;
    assert(plan.0[i].kind == target && plan.0[j].kind == target);
    assert(crate::cap::cspace::destination(p.objects, t.cspace, dst, i) is Ok);
    assert(crate::cap::cspace::destination(p.objects, t.cspace, dst, j) is Ok);
}

/// Where the `i`th object of a request goes.
pub(crate) proof fn lemma_destination(k: KernelView, tcb: u64, i: int)
    requires
        k.thread(tcb).cspace.kind is CNode,
        k.thread(tcb).cspace.is_sound(),
        0 <= i,
    ensures
        crate::cap::cspace::destination(
            crate::sched::syscalls::past(k, tcb).objects,
            k.thread(tcb).cspace,
            (
                crate::sched::syscalls::arg(k.thread(tcb), 4),
                crate::sched::message::own_depth(k.thread(tcb).cspace),
            ),
            i,
        ) == Ok::<u64, crate::cap::ResolveError>(slot_for(k, tcb, i)),
{
    let t = k.thread(tcb);
    crate::sched::syscalls::lemma_named(
        k.objects.slots.caps,
        t.cspace,
        crate::cap::cspace::cptr_after(crate::sched::syscalls::arg(t, 4), i),
    );
}

/// What a request that was granted asked for.
proof fn lemma_asked(k: KernelView, tcb: u64, stval: u64, after: KernelView, next: Next)
    requires
        retypes(k, tcb, stval, after, next),
    ensures
        ({
            let t = k.thread(tcb);
            let p = crate::sched::syscalls::past(k, tcb);
            let n = wanted(k, tcb);
            let depth = crate::sched::message::own_depth(t.cspace);
            let named = crate::sched::invoke::kind_named(crate::sched::syscalls::arg(t, 2));
            let bits = (crate::sched::syscalls::arg(t, 3) % 256) as u8;
            let src = (crate::sched::syscalls::arg(t, 0), depth);
            let dst = (crate::sched::syscalls::arg(t, 4), depth);
            let target = named->0;
            let done = crate::cap::cspace::retyped(
                p.objects,
                t.cspace,
                src,
                target,
                bits,
                dst,
                n,
            );
            &&& named is Some
            &&& !(target is Null)
            &&& 1 <= n <= 32
            &&& done.1 is Ok
            &&& (after, next) == p.with_objects(done.0).finished(tcb, 0)
            &&& crate::cap::ownership::retypes_in_order(
                p.objects,
                t.cspace,
                src,
                target,
                bits,
                dst,
                n,
            )
            &&& crate::cap::cspace::located(k.objects.slots.caps, t.cspace, src.0, src.1) == Ok::<
                u64,
                crate::cap::ResolveError,
            >(crate::sched::invoking::slot_arg(k, tcb, 0))
        }),
{
    let t = k.thread(tcb);
    let p = crate::sched::syscalls::past(k, tcb);
    let n = wanted(k, tcb);
    let depth = crate::sched::message::own_depth(t.cspace);
    let named = crate::sched::invoke::kind_named(crate::sched::syscalls::arg(t, 2));
    let bits = (crate::sched::syscalls::arg(t, 3) % 256) as u8;
    let src = (crate::sched::syscalls::arg(t, 0), depth);
    let dst = (crate::sched::syscalls::arg(t, 4), depth);
    crate::sched::syscalls::lemma_named(k.objects.slots.caps, t.cspace, src.0);
    if let Some(target) = named {
        crate::sched::invoke::lemma_retyped_threads(
            p.objects,
            t.cspace,
            src,
            target,
            bits,
            dst,
            n,
        );
        let done = crate::cap::cspace::retyped(p.objects, t.cspace, src, target, bits, dst, n);
        assert(done.0.threads[tcb].frame.x.len() == 32);
        lemma_in_order(k, tcb, target, bits);
    }
}

pub(crate) proof fn lemma_in_order(k: KernelView, tcb: u64, target: ObjectType, bits: u8)
    requires
        crate::sched::invoking::invokes(k, tcb, 1),
        holds_no_slots(k, tcb),
        crate::sched::invoking::invoked(k, tcb).kind.untyped(),
    ensures
        ({
            let t = k.thread(tcb);
            let depth = crate::sched::message::own_depth(t.cspace);
            crate::cap::ownership::retypes_in_order(
                crate::sched::syscalls::past(k, tcb).objects,
                t.cspace,
                (crate::sched::syscalls::arg(t, 0), depth),
                target,
                bits,
                (crate::sched::syscalls::arg(t, 4), depth),
                wanted(k, tcb),
            )
        }),
{
    let t = k.thread(tcb);
    let p = crate::sched::syscalls::past(k, tcb);
    let n = wanted(k, tcb);
    let depth = crate::sched::message::own_depth(t.cspace);
    let dst = (crate::sched::syscalls::arg(t, 4), depth);
    crate::sched::syscalls::lemma_named(
        k.objects.slots.caps,
        t.cspace,
        crate::sched::syscalls::arg(t, 0),
    );
    let region = crate::sched::invoking::invoked(k, tcb);
    assert(region.is_sound());
    if let Ok(plan) = crate::cap::untyped::retype_plan(region, target, bits, n) {
        let made = plan.0;
        let size = crate::cap::untyped::retype_bits(region.kind, target, bits)->Ok_0;
        crate::cap::untyped::retyped_objects_are_disjoint(region, target, size, n);
        assert forall|o: int, x: int|
            #![trigger made[o], crate::cap::slot::slot_address(made[o].paddr.0, x)]
            0 <= o < made.len() && made[o].kind is CNode && 0 <= x < crate::cap::cspace::slots_in(
                made[o].size_bits,
            ) implies ({
            let a = crate::cap::slot::slot_address(made[o].paddr.0, x);
            &&& p.objects.slots.caps[a].kind is Null
            &&& forall|i: int|
                0 <= i < n ==> #[trigger] crate::cap::cspace::destination(
                    p.objects,
                    t.cspace,
                    dst,
                    i,
                ) != Ok::<u64, crate::cap::ResolveError>(a)
        }) by {
            let a = crate::cap::slot::slot_address(made[o].paddr.0, x);
            vstd::arithmetic::power2::lemma2_to64();
            vstd::arithmetic::power2::lemma_pow2_adds(7, (size - 7) as nat);
            assert(made[o] == made[o]);
            assert(x * 128 + 128 <= crate::cap::untyped::block(size));
            assert(a == made[o].paddr.0 + x * 128);
            assert(k.objects.slots.caps[a].kind is Null);
            assert forall|i: int| 0 <= i < n implies #[trigger] crate::cap::cspace::destination(
                p.objects,
                t.cspace,
                dst,
                i,
            ) != Ok::<u64, crate::cap::ResolveError>(a) by {
                lemma_destination(k, tcb, i);
                assert(slot_for(k, tcb, i) != a);
            }
        }
    }
}

/// Log2 of the size of the objects a request is for.
pub open spec fn bits_wanted(k: KernelView, tcb: u64) -> u8 {
    let kind = crate::sched::syscalls::arg(k.thread(tcb), 2);
    if kind <= 3 {
        (crate::sched::syscalls::arg(k.thread(tcb), 3) % 256) as u8
    } else if kind <= 6 {
        12
    } else {
        7
    }
}

/// A request is granted whenever it can be: it is for one to 32 objects of a kind
/// that the region can become, their slots are free and different, the region may
/// be written, and the objects fit at some multiple of their size beyond what the
/// region has handed out.
pub proof fn a_request_that_fits_is_granted(
    k: KernelView,
    tcb: u64,
    stval: u64,
    after: KernelView,
    next: Next,
    start: int,
)
    requires
        crate::sched::invoking::invokes(k, tcb, 1),
        holds_no_slots(k, tcb),
        crate::sched::entry::is_user_trap(k, tcb, 8, stval, after, next),
        1 <= wanted(k, tcb) <= 32,
        ({
            let region = crate::sched::invoking::invoked(k, tcb);
            let kind = crate::sched::syscalls::arg(k.thread(tcb), 2);
            let size = vstd::arithmetic::power2::pow2(bits_wanted(k, tcb) as nat);
            &&& region.kind is Untyped && (kind == 1 || 3 <= kind <= 8) || region.kind is DeviceUntyped
                && (kind == 2 || kind == 4)
            &&& kind == 3 ==> bits_wanted(k, tcb) > 7
            &&& region.rights & 2 != 0
            &&& bits_wanted(k, tcb) <= region.size_bits < 64
            &&& region.paddr.0 as nat % region.size_spec() == 0
            &&& start % (size as int) == 0
            &&& region.w0 <= start
            &&& start + wanted(k, tcb) * size <= region.size_spec()
        }),
        forall|i: int|
            0 <= i < wanted(k, tcb) ==> k.objects.slots.caps[#[trigger] slot_for(
                k,
                tcb,
                i,
            )].kind is Null,
        forall|i: int, j: int|
            0 <= i < j < wanted(k, tcb) ==> #[trigger] slot_for(k, tcb, i) != #[trigger] slot_for(
                k,
                tcb,
                j,
            ),
    ensures
        crate::sched::syscalls::arg(after.thread(tcb), 0) == 0,
{
    let t = k.thread(tcb);
    let p = crate::sched::syscalls::past(k, tcb);
    let n = wanted(k, tcb);
    let depth = crate::sched::message::own_depth(t.cspace);
    let target = crate::sched::invoke::kind_named(crate::sched::syscalls::arg(t, 2))->0;
    let bits = (crate::sched::syscalls::arg(t, 3) % 256) as u8;
    let src = (crate::sched::syscalls::arg(t, 0), depth);
    let dst = (crate::sched::syscalls::arg(t, 4), depth);
    let region = crate::sched::invoking::invoked(k, tcb);
    let caps = p.objects.slots.caps;
    crate::sched::syscalls::lemma_named(k.objects.slots.caps, t.cspace, src.0);
    crate::sched::syscalls::lemma_right_bits(region.rights, 0, 0);
    assert(crate::cap::untyped::retype_bits(region.kind, target, bits) == Ok::<
        u8,
        crate::cap::CapError,
    >(bits_wanted(k, tcb)));
    crate::cap::untyped::a_batch_that_fits_is_planned(
        region,
        target,
        bits_wanted(k, tcb),
        n,
        start,
    );
    assert forall|i: int| 0 <= i < n implies crate::cap::cspace::located(
        caps,
        t.cspace,
        #[trigger] crate::cap::cspace::cptr_after(dst.0, i),
        dst.1,
    ) == Ok::<u64, crate::cap::ResolveError>(slot_for(k, tcb, i)) by {
        lemma_destination(k, tcb, i);
    }
    crate::cap::cspace::lemma_free_all(caps, t.cspace, dst, n);
    lemma_in_order(k, tcb, target, bits);
    crate::cap::cspace::lemma_granted(p.objects, t.cspace, src, target, bits, dst, n);
    crate::sched::invoke::lemma_retyped_threads(p.objects, t.cspace, src, target, bits, dst, n);
    let done = crate::cap::cspace::retyped(p.objects, t.cspace, src, target, bits, dst, n);
    assert(done.0.threads[tcb].frame.x.len() == 32);
}

/// Memory that becomes objects is cleared, byte for byte, so that nothing of
/// whoever had it before is left; and no other memory is touched. The registers
/// of a device are not written at all.
pub proof fn retyped_memory_is_cleared(
    k: KernelView,
    tcb: u64,
    stval: u64,
    after: KernelView,
    next: Next,
    b: int,
)
    requires
        retypes(k, tcb, stval, after, next),
    ensures
        ({
            let region = crate::sched::invoking::invoked(k, tcb);
            let slots = after.objects.slots;
            let kept = slots.caps[crate::sched::invoking::slot_arg(k, tcb, 0)];
            let inside = exists|i: int|
                0 <= i < wanted(k, tcb) && slots.caps[#[trigger] slot_for(k, tcb, i)].paddr.0 <= b
                    < slots.caps[slot_for(k, tcb, i)].paddr.0 + slots.caps[slot_for(
                    k,
                    tcb,
                    i,
                )].size_spec();
            &&& region.kind is DeviceUntyped ==> after.objects.mem == k.objects.mem
            &&& region.kind is Untyped && inside ==> crate::mm::memory::byte_at(
                after.objects.mem,
                b,
            ) == 0
            &&& region.kind is Untyped && !inside ==> crate::mm::memory::byte_at(
                after.objects.mem,
                b,
            ) == crate::mm::memory::byte_at(k.objects.mem, b)
        }),
{
    let t = k.thread(tcb);
    let p = crate::sched::syscalls::past(k, tcb);
    let n = wanted(k, tcb);
    let depth = crate::sched::message::own_depth(t.cspace);
    let target = crate::sched::invoke::kind_named(crate::sched::syscalls::arg(t, 2))->0;
    let bits = (crate::sched::syscalls::arg(t, 3) % 256) as u8;
    let src = (crate::sched::syscalls::arg(t, 0), depth);
    let dst = (crate::sched::syscalls::arg(t, 4), depth);
    lemma_asked(k, tcb, stval, after, next);
    crate::cap::ownership::lemma_retyped(p.objects, t.cspace, src, target, bits, dst, n);
    let region = crate::sched::invoking::invoked(k, tcb);
    let made = crate::cap::untyped::retype_plan(region, target, bits, n)->Ok_0.0;
    let slots = after.objects.slots;
    let clean = ObjectsView {
        mem: crate::cap::untyped::retyped_memory(k.objects.mem, region.kind, made),
        ..p.objects
    };
    lemma_installed_memory(
        clean,
        t.cspace,
        crate::sched::invoking::slot_arg(k, tcb, 0),
        made,
        dst,
        n,
    );
    assert(after.objects.mem == clean.mem);
    crate::cap::untyped::retyping_clears_exactly_the_objects(k.objects.mem, made, b);
    assert forall|i: int| 0 <= i < n implies slots.caps[#[trigger] slot_for(k, tcb, i)]
        == made[i] by {
        lemma_destination(k, tcb, i);
        assert(crate::cap::cspace::destination(p.objects, t.cspace, dst, i) is Ok);
    }
    if exists|i: int|
        0 <= i < made.len() && (#[trigger] made[i]).paddr.0 <= b < made[i].paddr.0
            + crate::cap::untyped::block(made[i].size_bits) {
        let i = choose|i: int|
            0 <= i < made.len() && (#[trigger] made[i]).paddr.0 <= b < made[i].paddr.0
                + crate::cap::untyped::block(made[i].size_bits);
        assert(slots.caps[slot_for(k, tcb, i)] == made[i]);
    }
    if exists|i: int|
        0 <= i < n && slots.caps[#[trigger] slot_for(k, tcb, i)].paddr.0 <= b < slots.caps[slot_for(
            k,
            tcb,
            i,
        )].paddr.0 + slots.caps[slot_for(k, tcb, i)].size_spec() {
        let i = choose|i: int|
            0 <= i < n && slots.caps[#[trigger] slot_for(k, tcb, i)].paddr.0 <= b
                < slots.caps[slot_for(k, tcb, i)].paddr.0 + slots.caps[slot_for(
                k,
                tcb,
                i,
            )].size_spec();
        assert(slots.caps[slot_for(k, tcb, i)] == made[i]);
    }
}

/// Installing objects leaves memory alone.
proof fn lemma_installed_memory(
    v: ObjectsView,
    root: RawCap,
    source: u64,
    made: Seq<RawCap>,
    dst: (u64, u8),
    n: nat,
)
    ensures
        crate::cap::cspace::installed(v, root, source, made, dst, n).0.mem == v.mem,
    decreases n,
{
    if n > 0 {
        lemma_installed_memory(v, root, source, made, dst, (n - 1) as nat);
    }
}

/// Whether the first `n` objects that were made start out idle.
spec fn start_idle(v: ObjectsView, made: Seq<RawCap>, n: nat) -> bool {
    forall|i: int|
        0 <= i < n ==> {
            let a = (#[trigger] made[i]).paddr;
            &&& made[i].kind is Endpoint ==> v.endpoints[a.0].queue.len() == 0
                && v.endpoints[a.0].state is Idle
            &&& made[i].kind is Notification ==> v.notifications[a.0]
                == crate::notify::NotificationView::quiet()
            &&& made[i].kind is Tcb ==> v.threads[a.0].state is Inactive && v.threads[a.0].satp == 0
                && v.threads[a.0].cspace.kind is Null && v.threads[a.0].fault_ep.kind is Null
                && v.threads[a.0].reply.kind is Null && v.threads[a.0].self_paddr == a
        }
}

proof fn lemma_start_idle(
    v: ObjectsView,
    root: RawCap,
    source: u64,
    made: Seq<RawCap>,
    dst: (u64, u8),
    n: nat,
)
    requires
        n <= made.len(),
        crate::cap::cspace::installed(v, root, source, made, dst, n).1 is Ok,
    ensures
        start_idle(crate::cap::cspace::installed(v, root, source, made, dst, n).0, made, n),
    decreases n,
{
    if n > 0 {
        lemma_start_idle(v, root, source, made, dst, (n - 1) as nat);
    }
}

/// What is made is ready for use, and does nothing yet: nobody waits at a new
/// endpoint, nothing was signalled through a new notification, a new thread does
/// not run and can reach nothing, and the slots of a new CNode are free.
pub proof fn new_objects_start_idle(
    k: KernelView,
    tcb: u64,
    stval: u64,
    after: KernelView,
    next: Next,
    i: int,
    x: int,
)
    requires
        retypes(k, tcb, stval, after, next),
        0 <= i < wanted(k, tcb),
        after.objects.slots.caps[slot_for(k, tcb, i)].paddr.0 != tcb,
    ensures
        ({
            let got = after.objects.slots.caps[slot_for(k, tcb, i)];
            let a = got.paddr.0;
            &&& got.kind is Endpoint ==> after.objects.endpoints[a].queue.len() == 0
                && after.objects.endpoints[a].state is Idle
            &&& got.kind is Notification ==> after.objects.notifications[a].queue.len() == 0
                && !after.objects.notifications[a].pending
            &&& got.kind is Tcb ==> {
                &&& after.thread(a).state is Inactive
                &&& after.thread(a).satp == 0
                &&& after.thread(a).cspace.kind is Null
                &&& after.thread(a).fault_ep.kind is Null
                &&& after.thread(a).reply.kind is Null
                &&& after.thread(a).self_paddr == got.paddr
            }
            &&& got.kind is CNode && 0 <= x && 128 * x + 128 <= got.size_spec()
                ==> after.objects.slots.caps[(a + 128 * x) as u64].kind is Null
        }),
{
    let t = k.thread(tcb);
    let p = crate::sched::syscalls::past(k, tcb);
    let n = wanted(k, tcb);
    let depth = crate::sched::message::own_depth(t.cspace);
    let target = crate::sched::invoke::kind_named(crate::sched::syscalls::arg(t, 2))->0;
    let bits = (crate::sched::syscalls::arg(t, 3) % 256) as u8;
    let src = (crate::sched::syscalls::arg(t, 0), depth);
    let dst = (crate::sched::syscalls::arg(t, 4), depth);
    lemma_asked(k, tcb, stval, after, next);
    crate::cap::ownership::lemma_retyped(p.objects, t.cspace, src, target, bits, dst, n);
    let region = crate::sched::invoking::invoked(k, tcb);
    let source = crate::sched::invoking::slot_arg(k, tcb, 0);
    let made = crate::cap::untyped::retype_plan(region, target, bits, n)->Ok_0.0;
    let clean = ObjectsView {
        mem: crate::cap::untyped::retyped_memory(k.objects.mem, region.kind, made),
        ..p.objects
    };
    lemma_start_idle(clean, t.cspace, source, made, dst, n);
    lemma_destination(k, tcb, i);
    assert(crate::cap::cspace::destination(p.objects, t.cspace, dst, i) is Ok);
    let got = after.objects.slots.caps[slot_for(k, tcb, i)];
    assert(got == made[i]);
    if got.kind is CNode && 0 <= x && 128 * x + 128 <= got.size_spec() {
        let a = (got.paddr.0 + 128 * x) as u64;
        retyping_makes_what_was_asked_for(k, tcb, stval, after, next, i, i);
        assert(region.is_sound());
        assert(k.objects.slots.caps[a].kind is Null);
        if !(after.objects.slots.caps[a].kind is Null) {
            let d2 = crate::cap::cspace::retyped(
                p.objects,
                t.cspace,
                src,
                target,
                bits,
                dst,
                n,
            ).0.slots;
            assert(d2 == after.objects.slots);
            let o = choose|o: int|
                0 <= o < n && #[trigger] crate::cap::cspace::destination(
                    p.objects,
                    t.cspace,
                    dst,
                    o,
                ) == Ok::<u64, crate::cap::ResolveError>(a);
            lemma_destination(k, tcb, o);
            assert(slot_for(k, tcb, o) != a);
        }
    }
}

} // verus!
