//! What becomes of a thread that traps for any other reason than a message:
//! the plain system calls, page faults, interrupts and crashes.

use crate::ipc::EndpointState;
use crate::sched::{Action, KernelView, Next};
use crate::thread::{BlockedOn, TcbView};
use crate::trap::Cause;
use vstd::prelude::*;

verus! {

// --- System calls that concern nobody else ---

/// Whether the thread on the hart went to the back of the run queue, and the one
/// that has been ready longest came on.
pub open spec fn gives_way(k: KernelView, tcb: u64, after: KernelView, next: Next) -> bool {
    let line = k.queue.push(tcb);
    &&& next == Next::Resume(line[0])
    &&& after.current == Some(line[0])
    &&& after.thread(line[0]).state is Running
    &&& after.queue == line.drop_first()
    &&& line[0] != tcb ==> after.thread(tcb).state is Ready
    &&& after.thread(tcb).frame.x == k.thread(tcb).frame.x
    &&& line[0] != tcb ==> after.thread(line[0]).frame == k.thread(line[0]).frame
    &&& after.objects.slots == k.objects.slots
    &&& after.objects.endpoints == k.objects.endpoints
    &&& after.exited == k.exited
    &&& after.killed == k.killed
    &&& forall|other: u64|
        other != tcb && other != line[0] ==> #[trigger] after.thread(other) == k.thread(other)
}

proof fn lemma_gives_way(k: KernelView, tcb: u64)
    requires
        k.current == Some(tcb),
        !k.queue.contains(tcb),
    ensures
        gives_way(
            k,
            tcb,
            k.retired(crate::sched::Retire::Requeue).0,
            k.retired(crate::sched::Retire::Requeue).1,
        ),
        k.retired(crate::sched::Retire::Requeue).0.thread(tcb).frame == k.thread(tcb).frame,
{
    if k.queue.len() > 0 {
        assert(k.queue.contains(k.queue[0]));
    }
}

/// Yielding goes to the back of the run queue, past the call, with every
/// register as it was.
pub proof fn yielding_gives_way(k: KernelView, tcb: u64, stval: u64, after: KernelView, next: Next)
    requires
        crate::sched::syscalls::makes_call(k, tcb, 0),
        crate::sched::entry::is_user_trap(k, tcb, 8, stval, after, next),
        k.current == Some(tcb),
    ensures
        gives_way(k, tcb, after, next),
        after.thread(tcb).frame.sepc == k.thread(tcb).frame.sepc + 4,
{
    let p = crate::sched::syscalls::past(k, tcb);
    lemma_gives_way(p, tcb);
    if k.queue.len() > 0 {
        assert(k.queue.contains(k.queue[0]));
    }
}

/// The timer takes the hart from a thread in the middle of its work: it goes to
/// the back of the run queue, and will go on with the very instruction it was
/// at. The next tick is armed.
pub proof fn the_timer_takes_turns(k: KernelView, tcb: u64, stval: u64, after: KernelView, next: Next)
    requires
        crate::sched::entry::is_user_trap(k, tcb, 0x8000_0000_0000_0005, stval, after, next),
        k.current == Some(tcb),
        !k.queue.contains(tcb),
    ensures
        gives_way(k, tcb, after, next),
        after.thread(tcb).frame == k.thread(tcb).frame,
        after.actions.len() > k.actions.len(),
        after.actions[k.actions.len() as int] == Action::Tick,
{
    let ticked = k.with_action(Action::Tick);
    lemma_gives_way(ticked, tcb);
    lemma_actions_kept(ticked, crate::sched::Retire::Requeue);
    assert(ticked.actions[k.actions.len() as int] == Action::Tick);
}

/// Retiring a thread adds to what the hart has to do, and takes nothing away.
proof fn lemma_actions_kept(k: KernelView, why: crate::sched::Retire)
    ensures
        ({
            let after = k.retired(why).0;
            &&& after.actions.len() >= k.actions.len()
            &&& forall|i: int|
                0 <= i < k.actions.len() ==> #[trigger] after.actions[i] == k.actions[i]
        }),
{
}

/// A device's interrupt is no business of the thread that happens to run: it
/// goes on as it was, and the hart is told to see to the device.
pub proof fn a_device_interrupt_spares_the_thread(
    k: KernelView,
    tcb: u64,
    stval: u64,
    after: KernelView,
    next: Next,
)
    requires
        crate::sched::entry::is_user_trap(k, tcb, 0x8000_0000_0000_0009, stval, after, next),
    ensures
        next == Next::Resume(tcb),
        after.actions == k.actions.push(Action::External),
        after.objects == k.objects,
        after.queue == k.queue,
        after.current == k.current,
{
}

/// A thread that exits is never run again: it is on no queue for the hart, and
/// it is counted. Unless the kernel was asked to stop there, the thread that has
/// been ready longest runs.
pub proof fn an_exit_is_for_good(k: KernelView, tcb: u64, stval: u64, after: KernelView, next: Next)
    requires
        crate::sched::syscalls::makes_call(k, tcb, 1),
        crate::sched::entry::is_user_trap(k, tcb, 8, stval, after, next),
        k.current == Some(tcb),
        k.exited < u64::MAX,
    ensures
        after.thread(tcb).state is Exited,
        !after.queue.contains(tcb),
        next != Next::Resume(tcb),
        after.exited == k.exited + 1,
        after.killed == k.killed,
        after.objects.slots == k.objects.slots,
        k.stop_on_exit ==> next is Leave && after.queue == k.queue,
        !k.stop_on_exit ==> crate::sched::syscalls::runs_next(k, after, next),
{
    lemma_leaves(k, tcb);
    if k.queue.len() > 0 {
        assert(k.queue.contains(k.queue[0]));
    }
}

proof fn lemma_leaves(k: KernelView, tcb: u64)
    requires
        !k.queue.contains(tcb),
    ensures
        k.queue.len() > 0 ==> k.queue[0] != tcb && !k.queue.drop_first().contains(tcb),
{
    if k.queue.len() > 0 {
        assert(k.queue.contains(k.queue[0]));
        if k.queue.drop_first().contains(tcb) {
            let i = k.queue.drop_first().index_of(tcb);
            assert(k.queue[i + 1] == tcb);
        }
    }
}

/// Printing puts out the low byte of `a0`, once, and is answered with zero.
pub proof fn printing_puts_out_a_character(
    k: KernelView,
    tcb: u64,
    stval: u64,
    after: KernelView,
    next: Next,
)
    requires
        crate::sched::syscalls::makes_call(k, tcb, 2),
        crate::sched::entry::is_user_trap(k, tcb, 8, stval, after, next),
    ensures
        after.actions == k.actions.push(
            Action::Print((crate::sched::syscalls::arg(k.thread(tcb), 0) % 256) as u8),
        ),
        crate::sched::syscalls::is_answered(
            k,
            tcb,
            (KernelView { actions: k.actions, ..after }),
            next,
            0,
        ),
{
    crate::sched::syscalls::lemma_answered(k, tcb, 0);
    assert((KernelView { actions: k.actions, ..after }) == crate::sched::syscalls::past(
        k,
        tcb,
    ).finished(tcb, 0).0);
}

/// A thread that asks who it is gets its own number.
pub proof fn a_thread_learns_its_number(
    k: KernelView,
    tcb: u64,
    stval: u64,
    after: KernelView,
    next: Next,
)
    requires
        crate::sched::syscalls::makes_call(k, tcb, 3),
        crate::sched::entry::is_user_trap(k, tcb, 8, stval, after, next),
    ensures
        crate::sched::syscalls::is_answered(k, tcb, after, next, k.thread(tcb).id),
{
    crate::sched::syscalls::lemma_answered(k, tcb, k.thread(tcb).id);
}

/// A call the kernel does not know is answered with all ones.
pub proof fn an_unknown_call_is_refused(
    k: KernelView,
    tcb: u64,
    stval: u64,
    after: KernelView,
    next: Next,
    number: u64,
)
    requires
        number > 8,
        crate::sched::syscalls::makes_call(k, tcb, number),
        crate::sched::entry::is_user_trap(k, tcb, 8, stval, after, next),
    ensures
        crate::sched::syscalls::is_answered(k, tcb, after, next, 0xffff_ffff_ffff_ffff),
{
    crate::sched::syscalls::lemma_answered(k, tcb, 0xffff_ffff_ffff_ffff);
}

/// Without a capability space nothing can be named, and messages say so.
pub proof fn messages_take_a_capability_space(
    k: KernelView,
    tcb: u64,
    stval: u64,
    after: KernelView,
    next: Next,
)
    requires
        ({
            let number = crate::sched::syscalls::arg(k.thread(tcb), 7);
            number == 4 || number == 5 || number == 6
        }),
        !(k.thread(tcb).cspace.kind is CNode),
        k.thread(tcb).frame.x.len() == 32,
        k.thread(tcb).frame.sepc + 4 <= u64::MAX,
        crate::sched::entry::is_user_trap(k, tcb, 8, stval, after, next),
    ensures
        crate::sched::syscalls::is_answered(k, tcb, after, next, 0xffff_ffff_ffff_fffc),
{
    crate::sched::syscalls::lemma_answered(k, tcb, 0xffff_ffff_ffff_fffc);
}

// --- Page faults ---

/// Whether a message in a thread's registers tells of a fault: three words under
/// the label 0x100, the address, where the thread was, and what it was doing,
/// which is 1 for a write, 2 for a fetch and 0 for a read.
pub open spec fn tells_of_fault(t: TcbView, doing: u64, address: u64, at: u64) -> bool {
    &&& crate::sched::syscalls::asks(t) == 0x100
    &&& crate::sched::syscalls::words(t) == 3
    &&& !crate::sched::syscalls::brings_cap(t)
    &&& crate::sched::syscalls::arg(t, 2) == address
    &&& crate::sched::syscalls::arg(t, 3) == at
    &&& crate::sched::syscalls::arg(t, 4) == doing
}

/// A page fault becomes a message to the thread's pager. A pager that waits has
/// it at once, runs, and holds the right to let the thread go on: it learns the
/// address, where the thread was, and the access, which is 1 for a write, 2 for
/// a fetch and 0 for a read. The thread waits at the instruction that faulted,
/// on no queue.
pub proof fn a_fault_reaches_a_waiting_pager(
    k: KernelView,
    tcb: u64,
    scause: u64,
    stval: u64,
    after: KernelView,
    next: Next,
)
    requires
        scause == 12 || scause == 13 || scause == 15,
        crate::sched::entry::is_user_trap(k, tcb, scause, stval, after, next),
        k.thread(tcb).fault_ep.kind is Endpoint,
        k.objects.endpoints[k.thread(tcb).fault_ep.paddr.0].waiting(EndpointState::Receiving),
        k.objects.endpoints[k.thread(tcb).fault_ep.paddr.0].queue[0] != tcb,
        forall|a: u64| (#[trigger] k.objects.threads[a]).frame.x.len() == 32,
    ensures
        ({
            let t = k.thread(tcb);
            let e = k.objects.endpoints[t.fault_ep.paddr.0];
            let pager = e.queue[0];
            let got = after.thread(pager);
            let me = after.thread(tcb);
            &&& scause == 15 ==> tells_of_fault(got, 1, stval, t.frame.sepc)
            &&& scause == 12 ==> tells_of_fault(got, 2, stval, t.frame.sepc)
            &&& scause == 13 ==> tells_of_fault(got, 0, stval, t.frame.sepc)
            &&& crate::sched::syscalls::arg(got, 0) == t.fault_ep.w1
            &&& got.frame.sepc == k.thread(pager).frame.sepc
            &&& got.reply.kind is Reply
            &&& got.reply.paddr == t.self_paddr
            &&& got.state is Running
            &&& next == Next::Resume(pager)
            &&& after.current == Some(pager)
            &&& me.state is AwaitingReply
            &&& me.faulted
            &&& me.frame.sepc == t.frame.sepc
            &&& after.queue == k.queue
            &&& after.objects.slots == k.objects.slots
            &&& after.objects.endpoints[t.fault_ep.paddr.0].queue == e.queue.drop_first()
        }),
{
    let t = k.thread(tcb);
    let ep = t.fault_ep;
    let e = k.objects.endpoints[ep.paddr.0];
    let info = crate::sched::entry::fault_header();
    crate::abi::msg::headers_round_trip(crate::abi::label::FAULT_VM, 3, false);
    let told = k.with_thread(
        tcb,
        crate::sched::entry::faulting(t, Cause::Exception(scause), stval),
    );
    let taken = told.with_endpoint(ep.paddr.0, e.left_with(e.queue.drop_first()));
    crate::sched::laws::lemma_delivered(taken, tcb, e.queue[0], info, ep.badge_spec());
    crate::sched::syscalls::lemma_told_header(taken, tcb, e.queue[0], info, ep.badge_spec());
    let done = crate::sched::message::delivered(taken, tcb, e.queue[0], info, ep.badge_spec());
    let got = done.thread(e.queue[0]).frame.x;
    let x = told.thread(tcb).frame.x;
    assert(got[crate::trap::A2 + 0] == x[crate::trap::A2 + 0]);
    assert(got[crate::trap::A2 + 1] == x[crate::trap::A2 + 1]);
    assert(got[crate::trap::A2 + 2] == x[crate::trap::A2 + 2]);
}

/// A page fault whose pager is busy waits for it, last in line at the endpoint,
/// as a call with the same message.
pub proof fn a_fault_waits_for_its_pager(
    k: KernelView,
    tcb: u64,
    scause: u64,
    stval: u64,
    after: KernelView,
    next: Next,
)
    requires
        scause == 12 || scause == 13 || scause == 15,
        crate::sched::entry::is_user_trap(k, tcb, scause, stval, after, next),
        k.thread(tcb).fault_ep.kind is Endpoint,
        !k.objects.endpoints[k.thread(tcb).fault_ep.paddr.0].waiting(EndpointState::Receiving),
        k.thread(tcb).frame.x.len() == 32,
        !k.queue.contains(tcb),
    ensures
        ({
            let t = k.thread(tcb);
            let e = k.objects.endpoints[t.fault_ep.paddr.0];
            let me = after.thread(tcb);
            &&& scause == 15 ==> tells_of_fault(me, 1, stval, t.frame.sepc)
            &&& scause == 12 ==> tells_of_fault(me, 2, stval, t.frame.sepc)
            &&& scause == 13 ==> tells_of_fault(me, 0, stval, t.frame.sepc)
            &&& me.state is BlockedOnSend
            &&& me.blocked_on == BlockedOn::Endpoint(t.fault_ep.paddr)
            &&& me.call_pending
            &&& me.faulted
            &&& me.badge == t.fault_ep.w1
            &&& me.frame.sepc == t.frame.sepc
            &&& after.objects.endpoints[t.fault_ep.paddr.0].state is Sending
            &&& after.objects.endpoints[t.fault_ep.paddr.0].queue == e.queue.push(tcb)
            &&& crate::sched::syscalls::runs_next(k, after, next)
        }),
{
    let t = k.thread(tcb);
    let ep = t.fault_ep;
    crate::abi::msg::headers_round_trip(crate::abi::label::FAULT_VM, 3, false);
    let told = k.with_thread(
        tcb,
        crate::sched::entry::faulting(t, Cause::Exception(scause), stval),
    );
    let parked = told.with_thread(
        tcb,
        TcbView {
            badge: ep.badge_spec(),
            call_pending: true,
            state: crate::thread::ThreadState::BlockedOnSend,
            blocked_on: BlockedOn::Endpoint(ep.paddr),
            ..told.thread(tcb)
        },
    ).with_endpoint(
        ep.paddr.0,
        k.objects.endpoints[ep.paddr.0].joined(tcb, EndpointState::Sending),
    );
    assert((after, next) == parked.retired(crate::sched::Retire::Blocked));
    crate::sched::syscalls::lemma_parked(parked, tcb);
    if k.queue.len() > 0 {
        assert(k.queue.contains(k.queue[0]));
    }
}

/// Whether a thread was destroyed for what it did, and that was reported.
pub open spec fn is_killed(
    k: KernelView,
    tcb: u64,
    scause: u64,
    no_pager: bool,
    after: KernelView,
    next: Next,
) -> bool {
    &&& after.thread(tcb).state is Exited
    &&& !after.queue.contains(tcb)
    &&& next != Next::Resume(tcb)
    &&& after.killed == k.killed + 1
    &&& after.exited == k.exited
    &&& after.actions.len() > k.actions.len()
    &&& after.actions[k.actions.len() as int] == Action::Report {
        id: k.thread(tcb).id,
        cause: Cause::decoded(scause),
        at: k.thread(tcb).frame.sepc,
        no_pager,
    }
    &&& after.objects.slots == k.objects.slots
    &&& crate::sched::syscalls::runs_next(k, after, next)
}

proof fn lemma_killed(k: KernelView, tcb: u64, scause: u64, no_pager: bool)
    requires
        k.current == Some(tcb),
        !k.queue.contains(tcb),
        k.killed < u64::MAX,
    ensures
        ({
            let report = Action::Report {
                id: k.thread(tcb).id,
                cause: Cause::decoded(scause),
                at: k.thread(tcb).frame.sepc,
                no_pager,
            };
            let (after, next) = k.with_action(report).retired(crate::sched::Retire::Killed);
            is_killed(k, tcb, scause, no_pager, after, next)
        }),
{
    let report = Action::Report {
        id: k.thread(tcb).id,
        cause: Cause::decoded(scause),
        at: k.thread(tcb).frame.sepc,
        no_pager,
    };
    lemma_leaves(k, tcb);
    lemma_actions_kept(k.with_action(report), crate::sched::Retire::Killed);
    assert(k.with_action(report).actions[k.actions.len() as int] == report);
}

/// A page fault without a pager is the end of the thread.
pub proof fn a_fault_without_a_pager_is_fatal(
    k: KernelView,
    tcb: u64,
    scause: u64,
    stval: u64,
    after: KernelView,
    next: Next,
)
    requires
        scause == 12 || scause == 13 || scause == 15,
        crate::sched::entry::is_user_trap(k, tcb, scause, stval, after, next),
        !(k.thread(tcb).fault_ep.kind is Endpoint),
        k.current == Some(tcb),
        !k.queue.contains(tcb),
        k.killed < u64::MAX,
    ensures
        is_killed(k, tcb, scause, true, after, next),
{
    lemma_killed(k, tcb, scause, true);
}

/// Whether an instruction word is a floating-point one: a load, a store, one of
/// the four fused multiplications, or an operation.
pub open spec fn is_float(word: u64) -> bool {
    let opcode = word % 0x80;
    ||| opcode == 0x07 || opcode == 0x27
    ||| opcode == 0x43 || opcode == 0x47 || opcode == 0x4b || opcode == 0x4f
    ||| opcode == 0x53
}

proof fn lemma_fpu_on(status: u64)
    by (bit_vector)
    ensures
        ((status & !0x6000) | 0x2000) & 0x6000 == 0x2000,
        ((status & !0x6000) | 0x4000) & 0x6000 == 0x4000,
        ((status & !0x6000) | 0x2000) & !0x6000 == status & !0x6000,
        ((status & !0x6000) | 0x4000) & !0x6000 == status & !0x6000,
{
}

/// A floating-point instruction in a thread that has the FPU off turns it on and
/// is run again. The FPU is clean for a thread that has used it before and in its
/// initial state for any other; nothing else about the thread changes, and
/// nothing about anyone else.
pub proof fn a_float_turns_the_fpu_on(
    k: KernelView,
    tcb: u64,
    stval: u64,
    after: KernelView,
    next: Next,
)
    requires
        is_float(stval),
        k.thread(tcb).frame.sstatus & 0x6000 == 0,
        crate::sched::entry::is_user_trap(k, tcb, 2, stval, after, next),
    ensures
        ({
            let t = k.thread(tcb);
            let on = after.thread(tcb);
            &&& next == Next::Resume(tcb)
            &&& on.frame.x == t.frame.x
            &&& on.frame.sepc == t.frame.sepc
            &&& on.frame.sstatus & 0x6000 == if t.fp_valid {
                0x4000u64
            } else {
                0x2000
            }
            &&& on.frame.sstatus & !0x6000 == t.frame.sstatus & !0x6000
            &&& on.fp_valid
            &&& after == k.with_thread(tcb, on).with_action(Action::RestoreFp(tcb))
        }),
{
    lemma_fpu_on(k.thread(tcb).frame.sstatus);
}

/// Any other exception is the end of the thread, but for the first instruction
/// that needs the FPU. Nobody else is hurt.
pub proof fn a_crash_is_fatal(
    k: KernelView,
    tcb: u64,
    scause: u64,
    stval: u64,
    after: KernelView,
    next: Next,
)
    requires
        scause < 0x8000_0000_0000_0000,
        scause != 8 && scause != 12 && scause != 13 && scause != 15,
        scause == 2 ==> k.thread(tcb).frame.sstatus & 0x6000 != 0 || !is_float(stval),
        crate::sched::entry::is_user_trap(k, tcb, scause, stval, after, next),
        k.current == Some(tcb),
        !k.queue.contains(tcb),
        k.killed < u64::MAX,
    ensures
        is_killed(k, tcb, scause, false, after, next),
{
    lemma_killed(k, tcb, scause, false);
}

// --- Capabilities that come with a message ---

/// What handing a capability over comes to, from one space to another.
proof fn lemma_cap_moved(d: crate::cap::slot::Derivation, from: TcbView, to: TcbView)
    requires
        from.cspace.kind is CNode,
        to.cspace.kind is CNode,
        from.cspace.is_sound(),
        to.cspace.is_sound(),
    ensures
        ({
            let src = crate::sched::syscalls::slot_named(
                from.cspace,
                crate::sched::syscalls::arg(from, 6),
            );
            let dst = crate::sched::syscalls::slot_named(
                to.cspace,
                crate::sched::syscalls::arg(to, 6),
            );
            let given = d.caps[src];
            let (after, r) = crate::sched::message::cap_moved(d, from, to);
            let got = after.caps[dst];
            let comes = !(given.kind is Null) && given.rights & 4 != 0 && d.caps[dst].kind is Null
                && !((given.kind is Untyped || given.kind is DeviceUntyped) && given.rights & 2
                != 0);
            &&& r is Ok == comes
            &&& !comes ==> after == d
            &&& comes ==> {
                &&& got.kind == given.kind
                &&& got.rights == given.rights
                &&& got.size_bits == given.size_bits
                &&& got.paddr == given.paddr
                &&& got.w1 == 0
                &&& got.kind is Frame || got.kind is PageTable ==> got.w0 == 0
                &&& after.parent[dst] == Some(src)
                &&& forall|a: u64| a != dst ==> #[trigger] after.caps[a] == d.caps[a]
            }
        }),
{
    crate::sched::syscalls::lemma_named(
        d.caps,
        from.cspace,
        crate::sched::syscalls::arg(from, 6),
    );
    crate::sched::syscalls::lemma_named(d.caps, to.cspace, crate::sched::syscalls::arg(to, 6));
}

/// A capability that comes with a message lands in the slot that the receiver
/// names in its `a6`: the same object with the same rights as the one the sender
/// names in its own `a6`, without the badge and the mapping that were the
/// sender's, and derived from it. It comes exactly if the sender's capability
/// can be handed on and the receiver's slot is free; if it does not, no slot
/// changes. The receiver's header says which.
pub proof fn a_capability_comes_along(
    k: KernelView,
    tcb: u64,
    stval: u64,
    after: KernelView,
    next: Next,
)
    requires
        crate::sched::syscalls::makes_call(k, tcb, 4) || crate::sched::syscalls::makes_call(
            k,
            tcb,
            6,
        ),
        crate::sched::entry::is_user_trap(k, tcb, 8, stval, after, next),
        crate::sched::syscalls::brings_cap(k.thread(tcb)),
        ({
            let t = k.thread(tcb);
            let cap = crate::sched::syscalls::cap_named(k, t, crate::sched::syscalls::arg(t, 0));
            let e = k.objects.endpoints[cap.paddr.0];
            &&& cap.kind is Endpoint
            &&& cap.rights & 2 != 0
            &&& e.waiting(EndpointState::Receiving)
            &&& e.queue[0] != tcb
            &&& k.thread(e.queue[0]).cspace.kind is CNode
        }),
    ensures
        ({
            let t = k.thread(tcb);
            let ep = crate::sched::syscalls::cap_named(k, t, crate::sched::syscalls::arg(t, 0));
            let receiver = k.objects.endpoints[ep.paddr.0].queue[0];
            let was = k.thread(receiver);
            let src = crate::sched::syscalls::slot_named(
                t.cspace,
                crate::sched::syscalls::arg(t, 6),
            );
            let dst = crate::sched::syscalls::slot_named(
                was.cspace,
                crate::sched::syscalls::arg(was, 6),
            );
            let given = k.objects.slots.caps[src];
            let got = after.objects.slots.caps[dst];
            let comes = !(given.kind is Null) && given.rights & 4 != 0
                && k.objects.slots.caps[dst].kind is Null && !((given.kind is Untyped
                || given.kind is DeviceUntyped) && given.rights & 2 != 0);
            &&& crate::sched::syscalls::brings_cap(after.thread(receiver)) == comes
            &&& !comes ==> after.objects.slots == k.objects.slots
            &&& comes ==> {
                &&& got.kind == given.kind
                &&& got.rights == given.rights
                &&& got.size_bits == given.size_bits
                &&& got.paddr == given.paddr
                &&& got.w1 == 0
                &&& got.kind is Frame || got.kind is PageTable ==> got.w0 == 0
                &&& after.objects.slots.parent[dst] == Some(src)
                &&& forall|a: u64|
                    a != dst ==> #[trigger] after.objects.slots.caps[a] == k.objects.slots.caps[a]
            }
        }),
{
    let t = k.thread(tcb);
    let p = crate::sched::syscalls::past(k, tcb);
    let ep = crate::sched::syscalls::cap_named(k, t, crate::sched::syscalls::arg(t, 0));
    let e = k.objects.endpoints[ep.paddr.0];
    let was = k.thread(e.queue[0]);
    let caps = k.objects.slots.caps;
    crate::sched::syscalls::lemma_named(caps, t.cspace, crate::sched::syscalls::arg(t, 0));
    let info = crate::abi::msg::MessageInfo(crate::sched::syscalls::arg(t, 1));
    let taken = p.with_endpoint(ep.paddr.0, e.left_with(e.queue.drop_first()));
    crate::sched::laws::lemma_delivered(taken, tcb, e.queue[0], info, ep.badge_spec());
    let got = crate::ipc::received(
        taken.thread(tcb),
        taken.thread(e.queue[0]),
        info,
        ep.badge_spec(),
    );
    assert(crate::sched::syscalls::arg(got, 6) == crate::sched::syscalls::arg(was, 6));
    let n = info.length_spec();
    let m = crate::abi::msg::clamped(n);
    assert(crate::abi::msg::MessageInfo::packed(info.label_spec(), n, false)
        == crate::abi::msg::MessageInfo::packed(info.label_spec(), m, false));
    crate::abi::msg::headers_round_trip(info.label_spec(), m, false);
    lemma_cap_moved(k.objects.slots, p.thread(tcb), got);
    let told = crate::sched::message::delivered(taken, tcb, e.queue[0], info, ep.badge_spec());
    assert(told.objects.slots == crate::sched::message::cap_moved(
        k.objects.slots,
        p.thread(tcb),
        got,
    ).0);
    assert(after.objects.slots == told.objects.slots);
    assert(after.thread(e.queue[0]).frame == told.thread(e.queue[0]).frame);
}

} // verus!
