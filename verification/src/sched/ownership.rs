//! Whatever threads do, memory has one owner.

use crate::abi::msg::MessageInfo;
use crate::abi::object::ObjectType;
use crate::cap::slot::Derivation;
use crate::cap::RawCap;
use crate::sched::{KernelView, Next, Retire};
use crate::thread::TcbView;
use crate::trap::Cause;
use vstd::prelude::*;

verus! {

/// Whether it is settled whose memory is whose, and empty slots are derived from
/// nothing.
spec fn is_owned(d: Derivation) -> bool {
    &&& crate::cap::ownership::memory_is_owned(d)
    &&& crate::cap::ownership::empty_slots_are_loose(d)
}

/// Handing a capability over in a message takes nobody's memory.
pub proof fn moving_keeps_memory_owned(d: Derivation, from: TcbView, to: TcbView)
    requires
        crate::cap::ownership::memory_is_owned(d),
        crate::cap::ownership::empty_slots_are_loose(d),
    ensures
        crate::cap::ownership::memory_is_owned(
            crate::sched::message::cap_moved(d, from, to).0,
        ),
        crate::cap::ownership::empty_slots_are_loose(
            crate::sched::message::cap_moved(d, from, to).0,
        ),
{
    let source = crate::cap::cspace::located(
        d.caps,
        from.cspace,
        from.frame.x[crate::trap::A6 as int],
        crate::sched::message::own_depth(from.cspace),
    );
    let at = crate::cap::cspace::located(
        d.caps,
        to.cspace,
        to.frame.x[crate::trap::A6 as int],
        crate::sched::message::own_depth(to.cspace),
    );
    if crate::sched::message::cap_moved(d, from, to).1 is Ok {
        let copy = d.caps[source->Ok_0].fresh_spec();
        crate::cap::ownership::lemma_copied(d, at->Ok_0, source->Ok_0, copy);
    }
}

proof fn lemma_delivered(k: KernelView, from: u64, to: u64, info: MessageInfo, badge: u64)
    requires
        is_owned(k.objects.slots),
    ensures
        is_owned(crate::sched::message::delivered(k, from, to, info, badge).objects.slots),
{
    let got = crate::ipc::received(k.thread(from), k.thread(to), info, badge);
    moving_keeps_memory_owned(k.objects.slots, k.thread(from), got);
}

proof fn lemma_sent(k: KernelView, tcb: u64, ep: RawCap, info: MessageInfo, is_call: bool)
    requires
        is_owned(k.objects.slots),
    ensures
        is_owned(crate::sched::message::sent(k, tcb, ep, info, is_call).0.objects.slots),
{
    let e = k.objects.endpoints[ep.paddr.0];
    let taken = k.with_endpoint(ep.paddr.0, e.left_with(e.queue.drop_first()));
    lemma_delivered(taken, tcb, e.queue[0], info, ep.badge_spec());
}

proof fn lemma_received(k: KernelView, tcb: u64, ep: RawCap)
    requires
        is_owned(k.objects.slots),
    ensures
        is_owned(crate::sched::message::received_on(k, tcb, ep).0.objects.slots),
{
    let e = k.objects.endpoints[ep.paddr.0];
    let sender = e.queue[0];
    let taken = k.with_endpoint(ep.paddr.0, e.left_with(e.queue.drop_first()));
    lemma_delivered(
        taken,
        sender,
        tcb,
        MessageInfo(k.thread(sender).frame.x[crate::trap::A1 as int]),
        k.thread(sender).badge,
    );
}

proof fn lemma_replied(k: KernelView, tcb: u64, then_receive: bool)
    requires
        is_owned(k.objects.slots),
    ensures
        is_owned(crate::sched::message::reply_called(k, tcb, then_receive).0.objects.slots),
{
    let t = k.thread(tcb);
    let caller = t.reply.paddr.0;
    lemma_delivered(k, tcb, caller, MessageInfo(t.frame.x[crate::trap::A1 as int]), 0);
    let done = crate::sched::message::answered(k, tcb);
    assert(is_owned(done.objects.slots));
    if let Ok(ep) = crate::sched::message::receivable(done, done.thread(tcb)) {
        lemma_received(done.with_ready(caller), tcb, ep);
    }
}

/// Changing where an object is mapped takes nobody's memory.
proof fn lemma_remapped(d: Derivation, slot: u64, cap: RawCap)
    requires
        is_owned(d),
        d.caps[slot].kind is Frame || d.caps[slot].kind is PageTable,
        cap.kind == d.caps[slot].kind,
        cap.paddr == d.caps[slot].paddr,
        cap.size_bits == d.caps[slot].size_bits,
    ensures
        is_owned(d.with_cap(slot, cap)),
{
    let d2 = d.with_cap(slot, cap);
    assert forall|c: u64, r: u64| #[trigger] d2.descends(c, r) == d.descends(c, r) by {}
    assert forall|s: u64, t: u64|
        #![trigger crate::cap::ownership::can_hand_out(d2.caps[s]), crate::cap::ownership::has_memory(d2.caps[t])]
        s != t && crate::cap::ownership::can_hand_out(d2.caps[s])
            && crate::cap::ownership::has_memory(d2.caps[t]) implies
        crate::cap::ownership::is_settled(d2, s, t) by {
        assert(crate::cap::ownership::can_hand_out(d.caps[s]));
        assert(crate::cap::ownership::has_memory(d.caps[t]));
        assert(crate::cap::ownership::is_settled(d, s, t));
    }
}

proof fn lemma_mapping(k: KernelView, tcb: u64, info: MessageInfo)
    requires
        is_owned(k.objects.slots),
        k.read(k.thread(tcb).cspace, k.thread(tcb).frame.x[crate::trap::A0 as int]) matches Ok(cap)
            ==> cap.kind is Frame || cap.kind is PageTable,
    ensures
        is_owned(crate::sched::invoke::mapping_invoked(k, tcb, info).0.objects.slots),
{
    let t = k.thread(tcb);
    let x = t.frame.x;
    let v = k.objects;
    if let Ok(slot) = k.find(t.cspace, x[crate::trap::A0 as int]) {
        let cap = v.slots.caps[slot];
        let after = crate::sched::invoke::mapping_invoked(k, tcb, info).0.objects.slots;
        assert(cap.kind is Frame || cap.kind is PageTable);
        lemma_remapped(v.slots, slot, after.caps[slot]);
        assert(after == v.slots || after == v.slots.with_cap(slot, after.caps[slot]));
    }
}

/// Whether the memory a thread asks its untyped memory to hand out holds no slot
/// in use.
pub open spec fn asks_in_order(k: KernelView, t: TcbView) -> bool {
    let x = t.frame.x;
    let depth = crate::sched::message::own_depth(t.cspace);
    crate::sched::invoke::kind_named(x[crate::trap::A2 as int]) matches Some(target)
        ==> MessageInfo(x[crate::trap::A1 as int]).label_spec() == crate::abi::label::RETYPE
        && t.cspace.kind is CNode ==> crate::cap::ownership::retypes_in_order(
        k.objects,
        t.cspace,
        (x[crate::trap::A0 as int], depth),
        target,
        (x[crate::trap::A3 as int] % 256) as u8,
        (x[crate::trap::A4 as int], depth),
        x[crate::trap::A5 as int] as nat,
    )
}

proof fn lemma_invoked(k: KernelView, tcb: u64, is_call: bool, after: KernelView, next: Next)
    requires
        k.objects.slots.is_consistent(),
        is_owned(k.objects.slots),
        asks_in_order(k, k.thread(tcb)),
        crate::sched::invoke::is_invocation(k, tcb, is_call, after, next),
    ensures
        crate::cap::ownership::memory_is_owned(after.objects.slots),
{
    let t = k.thread(tcb);
    let x = t.frame.x;
    let v = k.objects;
    let d = v.slots;
    let info = MessageInfo(x[crate::trap::A1 as int]);
    let depth = crate::sched::message::own_depth(t.cspace);
    if t.cspace.kind is CNode {
        if let Ok(cap) = k.read(t.cspace, x[crate::trap::A0 as int]) {
            match cap.kind {
                ObjectType::Endpoint => {
                    lemma_sent(k, tcb, cap, info, is_call);
                },
                ObjectType::Untyped | ObjectType::DeviceUntyped => {
                    let named = crate::sched::invoke::kind_named(x[crate::trap::A2 as int]);
                    if named is Some && info.label_spec() == crate::abi::label::RETYPE {
                        crate::cap::ownership::retyping_keeps_memory_owned(
                            v,
                            t.cspace,
                            (x[crate::trap::A0 as int], depth),
                            named->Some_0,
                            (x[crate::trap::A3 as int] % 256) as u8,
                            (x[crate::trap::A4 as int], depth),
                            x[crate::trap::A5 as int] as nat,
                        );
                    }
                },
                ObjectType::CNode => {
                    lemma_cnode(k, tcb, cap, info, after, next);
                },
                ObjectType::Frame | ObjectType::PageTable => {
                    lemma_mapping(k, tcb, info);
                },
                _ => {
                    assert(after.objects.slots == d);
                },
            }
        }
    }
}

proof fn lemma_cnode(
    k: KernelView,
    tcb: u64,
    node: RawCap,
    info: MessageInfo,
    after: KernelView,
    next: Next,
)
    requires
        is_owned(k.objects.slots),
        crate::sched::invoke::is_cnode_invocation(k, tcb, node, info, after, next),
    ensures
        crate::cap::ownership::memory_is_owned(after.objects.slots),
{
    let t = k.thread(tcb);
    let x = t.frame.x;
    let d = k.objects.slots;
    let depth = crate::sched::message::own_depth(t.cspace);
    let src = x[crate::trap::A2 as int];
    let label = info.label_spec();
    if label == crate::abi::label::MINT {
        crate::cap::ownership::minting_keeps_memory_owned(
            d,
            t.cspace,
            (src, depth),
            node,
            (x[crate::trap::A3 as int], crate::sched::message::own_depth(node)),
            (x[crate::trap::A4 as int] % 256) as u8,
            x[crate::trap::A5 as int],
        );
    } else if label == crate::abi::label::REVOKE || label == crate::abi::label::DELETE {
        if let Ok(a) = k.find(t.cspace, src) {
            crate::cap::ownership::revoking_keeps_memory_owned(d, a);
            crate::cap::ownership::deleting_keeps_memory_owned(d, a);
        }
    }
}

proof fn lemma_consistent(d: Derivation)
    requires
        d.is_consistent(),
        crate::cap::ownership::memory_is_owned(d),
    ensures
        is_owned(d),
{
    assert forall|a: u64| (#[trigger] d.caps[a]).kind is Null implies d.parent[a] is None by {
        assert(d.detached(a));
    }
}

/// Taking a thread off the hart touches no slot.
proof fn lemma_retired(k: KernelView, why: Retire)
    ensures
        k.retired(why).0.objects.slots == k.objects.slots,
{
}

proof fn lemma_syscall(k: KernelView, tcb: u64, after: KernelView, next: Next)
    requires
        k.objects.slots.is_consistent(),
        crate::cap::ownership::memory_is_owned(k.objects.slots),
        asks_in_order(k, k.thread(tcb)),
        crate::sched::entry::is_syscall(k, tcb, after, next),
    ensures
        crate::cap::ownership::memory_is_owned(after.objects.slots),
{
    let t = k.thread(tcb);
    let number = t.frame.x[crate::trap::A7 as int];
    let past = k.with_thread(tcb, crate::sched::entry::past_ecall(t));
    lemma_consistent(k.objects.slots);
    assert(past.objects.slots == k.objects.slots);
    if number == crate::abi::syscall::YIELD {
        lemma_retired(past, Retire::Requeue);
    } else if number == crate::abi::syscall::EXIT {
        lemma_retired(past, Retire::Exited);
    } else if number == crate::abi::syscall::CALL || number == crate::abi::syscall::SEND {
        lemma_asks_past(k, past, tcb);
        lemma_invoked(past, tcb, number == crate::abi::syscall::CALL, after, next);
    } else if number == crate::abi::syscall::RECV {
        if let Ok(ep) = crate::sched::message::receivable(past, past.thread(tcb)) {
            lemma_received(past, tcb, ep);
        }
    } else if number == crate::abi::syscall::REPLY {
        lemma_replied(past, tcb, false);
    } else if number == crate::abi::syscall::REPLY_RECV {
        lemma_replied(past, tcb, true);
    }
}

/// Whatever a thread does, memory goes on having one owner: what a region has
/// yet to hand out is nobody else's. New objects must lie in memory that holds
/// no slot in use.
pub proof fn every_trap_keeps_memory_owned(
    k: KernelView,
    tcb: u64,
    scause: u64,
    stval: u64,
    after: KernelView,
    next: Next,
)
    requires
        k.objects.slots.is_consistent(),
        crate::cap::ownership::memory_is_owned(k.objects.slots),
        Cause::decoded(scause) == Cause::Exception(8) ==> asks_in_order(k, k.thread(tcb)),
        crate::sched::entry::is_user_trap(k, tcb, scause, stval, after, next),
    ensures
        crate::cap::ownership::memory_is_owned(after.objects.slots),
{
    let t = k.thread(tcb);
    let cause = Cause::decoded(scause);
    if cause == Cause::Exception(8) {
        lemma_syscall(k, tcb, after, next);
    } else {
        let faulty = k.with_thread(tcb, crate::sched::entry::faulting(t, cause, stval));
        lemma_consistent(k.objects.slots);
        lemma_sent(faulty, tcb, t.fault_ep, crate::sched::entry::fault_header(), true);
        lemma_trapped(k, tcb, scause, stval, after, next);
    }
}

/// What a trap that is no system call leaves in the slots.
proof fn lemma_trapped(
    k: KernelView,
    tcb: u64,
    scause: u64,
    stval: u64,
    after: KernelView,
    next: Next,
)
    requires
        Cause::decoded(scause) != Cause::Exception(8),
        crate::sched::entry::is_user_trap(k, tcb, scause, stval, after, next),
    ensures
        ({
            let t = k.thread(tcb);
            let faulty = k.with_thread(
                tcb,
                crate::sched::entry::faulting(t, Cause::decoded(scause), stval),
            );
            ||| after.objects.slots == k.objects.slots
            ||| after == crate::sched::message::sent(
                faulty,
                tcb,
                t.fault_ep,
                crate::sched::entry::fault_header(),
                true,
            ).0
        }),
{
    let t = k.thread(tcb);
    let cause = Cause::decoded(scause);
    let is_fault = cause == Cause::Exception(12) || cause == Cause::Exception(13) || cause
        == Cause::Exception(15);
    lemma_retired(k.with_action(crate::sched::Action::Tick), Retire::Requeue);
    lemma_retired(
        k.with_action(
            crate::sched::Action::Report { id: t.id, cause, at: t.frame.sepc, no_pager: is_fault },
        ),
        Retire::Killed,
    );
}

/// Where the program counter stands makes no difference to what is asked.
proof fn lemma_asks_past(k: KernelView, past: KernelView, tcb: u64)
    requires
        asks_in_order(k, k.thread(tcb)),
        past == k.with_thread(tcb, crate::sched::entry::past_ecall(k.thread(tcb))),
    ensures
        asks_in_order(past, past.thread(tcb)),
{
    let t = k.thread(tcb);
    let x = t.frame.x;
    let depth = crate::sched::message::own_depth(t.cspace);
    assert forall|dst: (u64, u8), made: Seq<RawCap>, n: nat|
        crate::cap::cspace::spares_slots(k.objects, t.cspace, dst, made, n) implies #[trigger]
        crate::cap::cspace::spares_slots(past.objects, t.cspace, dst, made, n) by {
        assert forall|i: int| #[trigger] crate::cap::cspace::destination(
            past.objects,
            t.cspace,
            dst,
            i,
        ) == crate::cap::cspace::destination(k.objects, t.cspace, dst, i) by {}
    }
}

} // verus!
