//! What the system calls are for, told from the trap that makes them: the
//! registers a thread traps with, and what becomes of it and of the others.
//!
//! Argument register `n` is `a<n>`. The numbers are those user programs are
//! compiled with.

use crate::cap::RawCap;
use crate::ipc::EndpointState;
use crate::sched::{KernelView, Next};
use crate::thread::{BlockedOn, TcbView};
use vstd::prelude::*;

verus! {

/// A thread's argument register `n`.
pub open spec fn arg(t: TcbView, n: int) -> u64 {
    t.frame.x[10 + n]
}

/// The slot that an address names in the space that a CNode is the root of: the
/// low bits of the address count 128-byte slots from where the CNode starts.
pub open spec fn slot_named(cspace: RawCap, cptr: u64) -> u64 {
    let index = cptr as nat % vstd::arithmetic::power2::pow2((cspace.size_bits - 7) as nat);
    (cspace.paddr.0 + 128 * index) as u64
}

/// The capability that an address names for a thread.
pub open spec fn cap_named(k: KernelView, t: TcbView, cptr: u64) -> RawCap {
    k.objects.slots.caps[slot_named(t.cspace, cptr)]
}

/// Whether a thread that has a capability space of its own, and is on no queue
/// for the hart, traps with a system call of this number.
pub open spec fn makes_call(k: KernelView, tcb: u64, number: u64) -> bool {
    &&& arg(k.thread(tcb), 7) == number
    &&& k.thread(tcb).cspace.kind is CNode
    &&& forall|a: u64| (#[trigger] k.objects.threads[a]).frame.x.len() == 32
    &&& forall|a: u64| (#[trigger] k.objects.threads[a]).cspace.is_sound()
    &&& !k.queue.contains(tcb)
    &&& k.thread(tcb).frame.sepc + 4 <= u64::MAX
}

/// How many words the message in a thread's registers has: the low three bits of
/// `a1`, and four at most.
pub open spec fn words(t: TcbView) -> int {
    if arg(t, 1) % 8 > 4 {
        4
    } else {
        (arg(t, 1) % 8) as int
    }
}

/// Whether the message in a thread's registers brings a capability: bit 3 of
/// `a1`.
pub open spec fn brings_cap(t: TcbView) -> bool {
    (arg(t, 1) / 8) % 2 == 1
}

/// What the message in a thread's registers asks of a kernel object.
pub open spec fn asks(t: TcbView) -> u64 {
    arg(t, 1) / 4096
}

// --- Finding the capability ---

pub(crate) proof fn lemma_named(caps: Map<u64, RawCap>, cspace: RawCap, cptr: u64)
    requires
        cspace.kind is CNode,
        cspace.is_sound(),
    ensures
        crate::cap::cspace::located(
            caps,
            cspace,
            cptr,
            crate::sched::message::own_depth(cspace),
        ) == Ok::<u64, crate::cap::ResolveError>(slot_named(cspace, cptr)),
{
    let depth = crate::sched::message::own_depth(cspace);
    assert(depth as int == cspace.size_bits - 7);
    vstd::arithmetic::power2::lemma2_to64();
    assert(vstd::arithmetic::power2::pow2(0) == 1);
    let a = crate::cap::cspace::picked(cspace, cptr, 0);
    let slots = vstd::arithmetic::power2::pow2((cspace.size_bits - 7) as nat);
    assert(cptr as nat / vstd::arithmetic::power2::pow2(0) == cptr as nat);
    assert(crate::cap::cspace::slots_in(cspace.size_bits) == slots);
    let index = cptr as nat % slots;
    assert(a == crate::cap::slot::slot_address(cspace.paddr.0, index as int));
    vstd::arithmetic::power2::lemma_pow2_pos((cspace.size_bits - 7) as nat);
    vstd::arithmetic::power2::lemma_pow2_adds(7, (cspace.size_bits - 7) as nat);
    assert(index < slots);
    assert(cspace.paddr.0 + 128 * index <= cspace.paddr.0 + cspace.size_spec());
    assert(a == slot_named(cspace, cptr));
    assert(crate::cap::cspace::resolved(caps, cspace, cptr, depth as nat) == Ok::<
        u64,
        crate::cap::ResolveError,
    >(crate::cap::cspace::picked(cspace, cptr, 0)));
}

/// One right is held or not, a common right is one that both masks name, and a
/// permission to read makes an entry a leaf.
pub(crate) proof fn lemma_right_bits(rights: u8, mask: u8, flags: u64)
    by (bit_vector)
    ensures
        rights & 1 == 1 || rights & 1 == 0,
        rights & 2 == 2 || rights & 2 == 0,
        rights & 1 != 0 && mask & 1 != 0 ==> (rights & mask) & 1 != 0,
        flags & 2 == 2 ==> flags & 0x0e != 0,
{
}

/// The kernel once the thread is past the instruction that trapped.
pub open spec fn past(k: KernelView, tcb: u64) -> KernelView {
    k.with_thread(tcb, crate::sched::entry::past_ecall(k.thread(tcb)))
}

// --- Sending and calling ---

/// A message reaches whoever has been waiting for one longest, whether it was
/// sent or is a call: the receiver finds the badge of the capability it came
/// through, its header and its words where the sender had them, keeps every
/// other register, and is what runs next. A capability that could not come along
/// is struck from the header, and nothing else of it is.
pub proof fn a_message_reaches_the_longest_waiting_receiver(
    k: KernelView,
    tcb: u64,
    stval: u64,
    after: KernelView,
    next: Next,
    i: int,
)
    requires
        makes_call(k, tcb, 4) || makes_call(k, tcb, 6),
        crate::sched::entry::is_user_trap(k, tcb, 8, stval, after, next),
        ({
            let cap = cap_named(k, k.thread(tcb), arg(k.thread(tcb), 0));
            &&& cap.kind is Endpoint
            &&& cap.rights & 2 != 0
            &&& k.objects.endpoints[cap.paddr.0].waiting(EndpointState::Receiving)
            &&& k.objects.endpoints[cap.paddr.0].queue[0] != tcb
        }),
        0 <= i < 32,
    ensures
        ({
            let t = k.thread(tcb);
            let cap = cap_named(k, t, arg(t, 0));
            let e = k.objects.endpoints[cap.paddr.0];
            let receiver = e.queue[0];
            let was = k.thread(receiver);
            let got = after.thread(receiver);
            &&& next == Next::Resume(receiver)
            &&& after.current == Some(receiver)
            &&& got.state is Running
            &&& got.blocked_on is Nothing
            &&& after.satp == was.satp
            &&& after.objects.endpoints[cap.paddr.0].queue == e.queue.drop_first()
            &&& after.last_badge == cap.w1
            &&& arg(got, 0) == cap.w1
            &&& arg(got, 1) == arg(t, 1) || (brings_cap(t) && !brings_cap(got) && asks(got) == asks(
                t,
            ))
            &&& !brings_cap(t) ==> after.objects.slots == k.objects.slots
            &&& 0 <= i < words(t) ==> arg(got, 2 + i) == arg(t, 2 + i)
            &&& i != 10 && i != 11 && !(12 <= i < 12 + words(t)) ==> got.frame.x[i]
                == was.frame.x[i]
            &&& got.frame.sepc == was.frame.sepc
            &&& got.cspace == was.cspace
            &&& got.fault_ep == was.fault_ep
            &&& got.id == was.id
            &&& forall|other: u64|
                other != tcb && other != receiver ==> #[trigger] after.thread(other) == k.thread(
                    other,
                )
        }),
{
    let t = k.thread(tcb);
    lemma_named(k.objects.slots.caps, t.cspace, arg(t, 0));
    let p = past(k, tcb);
    let cap = cap_named(k, t, arg(t, 0));
    let e = k.objects.endpoints[cap.paddr.0];
    let info = crate::abi::msg::MessageInfo(arg(t, 1));
    let taken = p.with_endpoint(cap.paddr.0, e.left_with(e.queue.drop_first()));
    crate::sched::laws::lemma_delivered(taken, tcb, e.queue[0], info, cap.badge_spec());
    let told = crate::sched::message::delivered(taken, tcb, e.queue[0], info, cap.badge_spec());
    lemma_told_header(taken, tcb, e.queue[0], info, cap.badge_spec());
    if 0 <= i < words(t) {
        assert(told.thread(e.queue[0]).frame.x[crate::trap::A2 + i] == t.frame.x[crate::trap::A2
            + i]);
    }
}

/// The header that arrives is the one that was sent, but for the bit that stands
/// for a capability that did not.
pub(crate) proof fn lemma_told_header(
    k: KernelView,
    from: u64,
    to: u64,
    info: crate::abi::msg::MessageInfo,
    badge: u64,
)
    requires
        k.thread(to).frame.x.len() == 32,
    ensures
        ({
            let got = crate::sched::message::delivered(k, from, to, info, badge).thread(to);
            &&& arg(got, 1) == info.0 || ((info.0 / 8) % 2 == 1 && !brings_cap(got) && asks(got)
                == info.0 / 4096)
            &&& (info.0 / 8) % 2 != 1 ==> arg(got, 1) == info.0
            &&& got.fault_ep == k.thread(to).fault_ep
            &&& got.blocked_on == k.thread(to).blocked_on
        }),
{
    let n = info.length_spec();
    let m = crate::abi::msg::clamped(n);
    assert(crate::abi::msg::MessageInfo::packed(info.label_spec(), n, false)
        == crate::abi::msg::MessageInfo::packed(info.label_spec(), m, false));
    crate::abi::msg::headers_round_trip(info.label_spec(), m, false);
}

/// Sending expects no reply: the sender is told that its message was taken, is
/// ready to run on past the call, last in line for the hart, and the receiver is
/// given nothing to reply with.
pub proof fn a_sender_runs_on(
    k: KernelView,
    tcb: u64,
    stval: u64,
    after: KernelView,
    next: Next,
)
    requires
        makes_call(k, tcb, 4),
        crate::sched::entry::is_user_trap(k, tcb, 8, stval, after, next),
        ({
            let cap = cap_named(k, k.thread(tcb), arg(k.thread(tcb), 0));
            &&& cap.kind is Endpoint
            &&& cap.rights & 2 != 0
            &&& k.objects.endpoints[cap.paddr.0].waiting(EndpointState::Receiving)
            &&& k.objects.endpoints[cap.paddr.0].queue[0] != tcb
        }),
    ensures
        ({
            let t = k.thread(tcb);
            let cap = cap_named(k, t, arg(t, 0));
            let receiver = k.objects.endpoints[cap.paddr.0].queue[0];
            let me = after.thread(tcb);
            &&& me.state is Ready
            &&& after.queue == k.queue.push(tcb)
            &&& after.pops == k.pops
            &&& me.frame.x == t.frame.x.update(10, 0)
            &&& me.frame.sepc == t.frame.sepc + 4
            &&& me.reply == t.reply
            &&& after.thread(receiver).reply.kind is Null
        }),
{
    let t = k.thread(tcb);
    lemma_named(k.objects.slots.caps, t.cspace, arg(t, 0));
    let p = past(k, tcb);
    let cap = cap_named(k, t, arg(t, 0));
    let e = k.objects.endpoints[cap.paddr.0];
    let info = crate::abi::msg::MessageInfo(arg(t, 1));
    let taken = p.with_endpoint(cap.paddr.0, e.left_with(e.queue.drop_first()));
    crate::sched::laws::lemma_delivered(taken, tcb, e.queue[0], info, cap.badge_spec());
}

/// Calling waits for the reply: the caller is on no queue, its registers are as
/// they were, and the receiver holds a capability to reply to it and to nobody
/// else. The run queue is neither read nor written.
pub proof fn a_caller_waits_for_the_reply(
    k: KernelView,
    tcb: u64,
    stval: u64,
    after: KernelView,
    next: Next,
)
    requires
        makes_call(k, tcb, 6),
        crate::sched::entry::is_user_trap(k, tcb, 8, stval, after, next),
        ({
            let cap = cap_named(k, k.thread(tcb), arg(k.thread(tcb), 0));
            &&& cap.kind is Endpoint
            &&& cap.rights & 2 != 0
            &&& k.objects.endpoints[cap.paddr.0].waiting(EndpointState::Receiving)
            &&& k.objects.endpoints[cap.paddr.0].queue[0] != tcb
        }),
    ensures
        ({
            let t = k.thread(tcb);
            let cap = cap_named(k, t, arg(t, 0));
            let receiver = k.objects.endpoints[cap.paddr.0].queue[0];
            let me = after.thread(tcb);
            &&& me.state is AwaitingReply
            &&& !me.call_pending
            &&& after.queue == k.queue
            &&& after.pops == k.pops
            &&& me.frame.x == t.frame.x
            &&& me.frame.sepc == t.frame.sepc + 4
            &&& me.reply == t.reply
            &&& after.thread(receiver).reply.kind is Reply
            &&& after.thread(receiver).reply.paddr == t.self_paddr
        }),
{
    let t = k.thread(tcb);
    lemma_named(k.objects.slots.caps, t.cspace, arg(t, 0));
    let p = past(k, tcb);
    let cap = cap_named(k, t, arg(t, 0));
    let e = k.objects.endpoints[cap.paddr.0];
    let info = crate::abi::msg::MessageInfo(arg(t, 1));
    let taken = p.with_endpoint(cap.paddr.0, e.left_with(e.queue.drop_first()));
    crate::sched::laws::lemma_delivered(taken, tcb, e.queue[0], info, cap.badge_spec());
}

/// With nobody to receive it, a message waits with its sender, last in line at
/// the endpoint. Whether the sender will want a reply is remembered: a call does,
/// a send does not. So is the badge that the message came with. The thread that
/// has been ready longest runs.
pub proof fn a_message_waits_for_a_receiver(
    k: KernelView,
    tcb: u64,
    stval: u64,
    after: KernelView,
    next: Next,
)
    requires
        makes_call(k, tcb, 4) || makes_call(k, tcb, 6),
        crate::sched::entry::is_user_trap(k, tcb, 8, stval, after, next),
        ({
            let cap = cap_named(k, k.thread(tcb), arg(k.thread(tcb), 0));
            &&& cap.kind is Endpoint
            &&& cap.rights & 2 != 0
            &&& !k.objects.endpoints[cap.paddr.0].waiting(EndpointState::Receiving)
        }),
    ensures
        ({
            let t = k.thread(tcb);
            let cap = cap_named(k, t, arg(t, 0));
            let e = k.objects.endpoints[cap.paddr.0];
            let me = after.thread(tcb);
            &&& me.state is BlockedOnSend
            &&& me.blocked_on == BlockedOn::Endpoint(cap.paddr)
            &&& me.call_pending == (arg(t, 7) == 6)
            &&& me.badge == cap.w1
            &&& me.frame.x == t.frame.x
            &&& me.frame.sepc == t.frame.sepc + 4
            &&& me.reply == t.reply
            &&& after.objects.endpoints[cap.paddr.0].state is Sending
            &&& after.objects.endpoints[cap.paddr.0].queue == e.queue.push(tcb)
            &&& after.objects.slots == k.objects.slots
            &&& runs_next(k, after, next)
        }),
{
    let t = k.thread(tcb);
    lemma_named(k.objects.slots.caps, t.cspace, arg(t, 0));
    let cap = cap_named(k, t, arg(t, 0));
    let parked = past(k, tcb).with_thread(
        tcb,
        TcbView {
            badge: cap.badge_spec(),
            call_pending: arg(t, 7) == 6,
            state: crate::thread::ThreadState::BlockedOnSend,
            blocked_on: BlockedOn::Endpoint(cap.paddr),
            ..past(k, tcb).thread(tcb)
        },
    ).with_endpoint(
        cap.paddr.0,
        k.objects.endpoints[cap.paddr.0].joined(tcb, EndpointState::Sending),
    );
    assert((after, next) == parked.retired(crate::sched::Retire::Blocked));
    lemma_parked(parked, tcb);
    if k.queue.len() > 0 {
        assert(k.queue.contains(k.queue[0]));
    }
}

/// Whether the thread that has been ready longest is on the hart, and the others
/// wait in the order they came; or the kernel has nothing to run.
pub open spec fn runs_next(k: KernelView, after: KernelView, next: Next) -> bool {
    if k.queue.len() == 0 {
        &&& next is Leave
        &&& after.current is None
        &&& after.queue == k.queue
    } else {
        &&& next == Next::Resume(k.queue[0])
        &&& after.current == Some(k.queue[0])
        &&& after.thread(k.queue[0]).state is Running
        &&& after.thread(k.queue[0]).frame == k.thread(k.queue[0]).frame
        &&& after.satp == k.thread(k.queue[0]).satp
        &&& after.queue == k.queue.drop_first()
    }
}

/// What a thread that has been parked leaves behind.
pub(crate) proof fn lemma_parked(k: KernelView, tcb: u64)
    requires
        !k.queue.contains(tcb),
    ensures
        ({
            let (after, next) = k.retired(crate::sched::Retire::Blocked);
            &&& runs_next(k, after, next)
            &&& after.thread(tcb) == k.thread(tcb)
            &&& after.objects.endpoints == k.objects.endpoints
            &&& after.objects.slots == k.objects.slots
            &&& forall|other: u64|
                k.queue.len() == 0 || other != k.queue[0] ==> #[trigger] after.thread(other)
                    == k.thread(other)
        }),
{
    if k.queue.len() > 0 {
        assert(k.queue.contains(k.queue[0]));
    }
}

/// What a call that is answered at once comes to.
pub(crate) proof fn lemma_answered(k: KernelView, tcb: u64, value: u64)
    requires
        k.thread(tcb).frame.x.len() == 32,
        k.thread(tcb).frame.sepc + 4 <= u64::MAX,
    ensures
        is_answered(
            k,
            tcb,
            past(k, tcb).finished(tcb, value).0,
            past(k, tcb).finished(tcb, value).1,
            value,
        ),
{
    let after = past(k, tcb).finished(tcb, value).0;
    assert(after.objects.threads =~= k.objects.threads.insert(tcb, after.thread(tcb)));
    assert(after =~= k.with_thread(tcb, after.thread(tcb)));
}

/// A message does not go through what does not let it: an endpoint held without
/// the right to write is answered with an error, and nothing else changes.
pub proof fn sending_takes_the_right_to_write(
    k: KernelView,
    tcb: u64,
    stval: u64,
    after: KernelView,
    next: Next,
)
    requires
        makes_call(k, tcb, 4) || makes_call(k, tcb, 6),
        crate::sched::entry::is_user_trap(k, tcb, 8, stval, after, next),
        cap_named(k, k.thread(tcb), arg(k.thread(tcb), 0)).kind is Endpoint,
        cap_named(k, k.thread(tcb), arg(k.thread(tcb), 0)).rights & 2 == 0,
    ensures
        is_answered(k, tcb, after, next, 0xffff_ffff_ffff_ffff),
{
    let t = k.thread(tcb);
    lemma_named(k.objects.slots.caps, t.cspace, arg(t, 0));
    lemma_answered(k, tcb, 0xffff_ffff_ffff_ffff);
}

/// Whether a thread goes on past its call with a value in `a0`, and nothing else
/// has changed.
pub open spec fn is_answered(
    k: KernelView,
    tcb: u64,
    after: KernelView,
    next: Next,
    value: u64,
) -> bool {
    &&& next == Next::Resume(tcb)
    &&& after == k.with_thread(tcb, after.thread(tcb))
    &&& after.thread(tcb) == (TcbView { frame: after.thread(tcb).frame, ..k.thread(tcb) })
    &&& after.thread(tcb).frame.x == k.thread(tcb).frame.x.update(10, value)
    &&& after.thread(tcb).frame.sepc == k.thread(tcb).frame.sepc + 4
    &&& after.thread(tcb).frame.sstatus == k.thread(tcb).frame.sstatus
}

} // verus!
