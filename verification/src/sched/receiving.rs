//! What receiving and replying are for, told from the trap: the other half of
//! the system calls in `syscalls`.

use crate::ipc::EndpointState;
use crate::sched::{KernelView, Next};
use crate::thread::{BlockedOn, TcbView};
use vstd::prelude::*;

verus! {

/// Whether a thread that traps names an endpoint in `a0` that it may receive on.
pub open spec fn may_receive(k: KernelView, t: TcbView) -> bool {
    let cap = crate::sched::syscalls::cap_named(k, t, crate::sched::syscalls::arg(t, 0));
    cap.kind is Endpoint && cap.rights & 1 == 1
}

/// Receiving takes the message that has been waiting longest: the receiver goes
/// on past its call with the message of that sender, as it was sent. A sender
/// that only sent is told so and is ready, last in line; one that called waits on
/// for the reply, which the receiver is given the right to make.
pub proof fn a_receiver_takes_the_longest_waiting_message(
    k: KernelView,
    tcb: u64,
    stval: u64,
    after: KernelView,
    next: Next,
    i: int,
)
    requires
        crate::sched::syscalls::makes_call(k, tcb, 5),
        crate::sched::entry::is_user_trap(k, tcb, 8, stval, after, next),
        may_receive(k, k.thread(tcb)),
        ({
            let t = k.thread(tcb);
            let cap = crate::sched::syscalls::cap_named(k, t, crate::sched::syscalls::arg(t, 0));
            &&& k.objects.endpoints[cap.paddr.0].waiting(EndpointState::Sending)
            &&& k.objects.endpoints[cap.paddr.0].queue[0] != tcb
        }),
        0 <= i < 32,
    ensures
        ({
            let t = k.thread(tcb);
            let cap = crate::sched::syscalls::cap_named(k, t, crate::sched::syscalls::arg(t, 0));
            let e = k.objects.endpoints[cap.paddr.0];
            let sender = k.thread(e.queue[0]);
            is_received(k, tcb, e.queue[0], after, i) && {
                &&& next == Next::Resume(tcb)
                &&& after.current == k.current
                &&& after.objects.endpoints[cap.paddr.0].queue == e.queue.drop_first()
                &&& after.queue == if sender.call_pending {
                    k.queue
                } else {
                    k.queue.push(e.queue[0])
                }
                &&& after.thread(tcb).frame.sepc == t.frame.sepc + 4
                &&& after.thread(tcb).state == t.state
            }
        }),
{
    let t = k.thread(tcb);
    crate::sched::syscalls::lemma_named(
        k.objects.slots.caps,
        t.cspace,
        crate::sched::syscalls::arg(t, 0),
    );
    let p = crate::sched::syscalls::past(k, tcb);
    let cap = crate::sched::syscalls::cap_named(k, t, crate::sched::syscalls::arg(t, 0));
    crate::sched::syscalls::lemma_right_bits(cap.rights, 0, 0);
    lemma_received(p, tcb, cap, i);
}

/// Whether a thread holds the message that another was waiting with: the badge,
/// the header and the words, every other register kept, and the right to reply
/// exactly if the sender wants one. The sender goes on if it does not.
pub open spec fn is_received(k: KernelView, tcb: u64, from: u64, after: KernelView, i: int) -> bool {
    let sender = k.thread(from);
    let was = k.thread(tcb);
    let got = after.thread(tcb);
    let done = after.thread(from);
    &&& crate::sched::syscalls::arg(got, 0) == sender.badge
    &&& crate::sched::syscalls::arg(got, 1) == crate::sched::syscalls::arg(sender, 1) || (
    crate::sched::syscalls::brings_cap(sender) && !crate::sched::syscalls::brings_cap(got)
        && crate::sched::syscalls::asks(got) == crate::sched::syscalls::asks(sender))
    &&& !crate::sched::syscalls::brings_cap(sender) ==> after.objects.slots == k.objects.slots
    &&& 0 <= i < crate::sched::syscalls::words(sender) ==> crate::sched::syscalls::arg(got, 2 + i)
        == crate::sched::syscalls::arg(sender, 2 + i)
    &&& i != 10 && i != 11 && !(12 <= i < 12 + crate::sched::syscalls::words(sender))
        ==> got.frame.x[i] == was.frame.x[i]
    &&& after.last_badge == sender.badge
    &&& done.blocked_on is Nothing
    &&& done.frame.sepc == sender.frame.sepc
    &&& done.reply == sender.reply
    &&& sender.call_pending ==> {
        &&& got.reply.kind is Reply
        &&& got.reply.paddr == sender.self_paddr
        &&& done.state is AwaitingReply
        &&& !done.call_pending
        &&& done.frame.x == sender.frame.x
    }
    &&& !sender.call_pending ==> {
        &&& got.reply.kind is Null
        &&& done.state is Ready
        &&& done.frame.x == sender.frame.x.update(10, 0)
    }
    &&& forall|other: u64|
        other != tcb && other != from ==> #[trigger] after.thread(other) == k.thread(other)
}

proof fn lemma_received(k: KernelView, tcb: u64, cap: crate::cap::RawCap, i: int)
    requires
        k.objects.endpoints[cap.paddr.0].waiting(EndpointState::Sending),
        k.objects.endpoints[cap.paddr.0].queue[0] != tcb,
        forall|a: u64| (#[trigger] k.objects.threads[a]).frame.x.len() == 32,
        0 <= i < 32,
    ensures
        ({
            let e = k.objects.endpoints[cap.paddr.0];
            let (after, next) = crate::sched::message::received_on(k, tcb, cap);
            let sender = k.thread(e.queue[0]);
            &&& is_received(k, tcb, e.queue[0], after, i)
            &&& next == Next::Resume(tcb)
            &&& after.current == k.current
            &&& after.objects.endpoints[cap.paddr.0].queue == e.queue.drop_first()
            &&& after.queue == if sender.call_pending {
                k.queue
            } else {
                k.queue.push(e.queue[0])
            }
            &&& after.thread(tcb).frame.sepc == k.thread(tcb).frame.sepc
            &&& after.thread(tcb).state == k.thread(tcb).state
        }),
{
    let e = k.objects.endpoints[cap.paddr.0];
    let from = e.queue[0];
    let sender = k.thread(from);
    let info = crate::abi::msg::MessageInfo(sender.frame.x[crate::trap::A1 as int]);
    let taken = k.with_endpoint(cap.paddr.0, e.left_with(e.queue.drop_first()));
    crate::sched::laws::lemma_delivered(taken, from, tcb, info, sender.badge);
    crate::sched::syscalls::lemma_told_header(taken, from, tcb, info, sender.badge);
    let told = crate::sched::message::delivered(taken, from, tcb, info, sender.badge);
    assert(!info.carries_cap_spec() ==> told.objects.slots == k.objects.slots);
    if 0 <= i < crate::sched::syscalls::words(sender) {
        assert(told.thread(tcb).frame.x[crate::trap::A2 + i] == sender.frame.x[crate::trap::A2
            + i]);
    }
}

/// With no message waiting, a receiver waits, last in line at the endpoint, and
/// the thread that has been ready longest runs.
pub proof fn a_receiver_waits_for_a_message(
    k: KernelView,
    tcb: u64,
    stval: u64,
    after: KernelView,
    next: Next,
)
    requires
        crate::sched::syscalls::makes_call(k, tcb, 5),
        crate::sched::entry::is_user_trap(k, tcb, 8, stval, after, next),
        may_receive(k, k.thread(tcb)),
        ({
            let t = k.thread(tcb);
            let cap = crate::sched::syscalls::cap_named(k, t, crate::sched::syscalls::arg(t, 0));
            !k.objects.endpoints[cap.paddr.0].waiting(EndpointState::Sending)
        }),
    ensures
        ({
            let t = k.thread(tcb);
            let cap = crate::sched::syscalls::cap_named(k, t, crate::sched::syscalls::arg(t, 0));
            let e = k.objects.endpoints[cap.paddr.0];
            let me = after.thread(tcb);
            &&& me.state is BlockedOnRecv
            &&& me.blocked_on == BlockedOn::Endpoint(cap.paddr)
            &&& me.frame.x == t.frame.x
            &&& me.frame.sepc == t.frame.sepc + 4
            &&& me.reply == t.reply
            &&& after.objects.endpoints[cap.paddr.0].state is Receiving
            &&& after.objects.endpoints[cap.paddr.0].queue == e.queue.push(tcb)
            &&& after.objects.slots == k.objects.slots
            &&& crate::sched::syscalls::runs_next(k, after, next)
        }),
{
    let t = k.thread(tcb);
    crate::sched::syscalls::lemma_named(
        k.objects.slots.caps,
        t.cspace,
        crate::sched::syscalls::arg(t, 0),
    );
    let cap = crate::sched::syscalls::cap_named(k, t, crate::sched::syscalls::arg(t, 0));
    crate::sched::syscalls::lemma_right_bits(cap.rights, 0, 0);
    let parked = crate::sched::syscalls::past(k, tcb).with_receiver(tcb, cap);
    crate::sched::syscalls::lemma_parked(parked, tcb);
    if k.queue.len() > 0 {
        assert(k.queue.contains(k.queue[0]));
    }
}

/// Receiving takes an endpoint, and the right to read from it.
pub proof fn receiving_takes_the_right_to_read(
    k: KernelView,
    tcb: u64,
    stval: u64,
    after: KernelView,
    next: Next,
)
    requires
        crate::sched::syscalls::makes_call(k, tcb, 5),
        crate::sched::entry::is_user_trap(k, tcb, 8, stval, after, next),
        !may_receive(k, k.thread(tcb)),
    ensures
        crate::sched::syscalls::is_answered(k, tcb, after, next, 0xffff_ffff_ffff_ffff),
{
    let t = k.thread(tcb);
    crate::sched::syscalls::lemma_named(
        k.objects.slots.caps,
        t.cspace,
        crate::sched::syscalls::arg(t, 0),
    );
    let cap = crate::sched::syscalls::cap_named(k, t, crate::sched::syscalls::arg(t, 0));
    crate::sched::syscalls::lemma_right_bits(cap.rights, 0, 0);
    crate::sched::syscalls::lemma_answered(k, tcb, 0xffff_ffff_ffff_ffff);
}

/// Whether a caller has its answer: a caller that faulted is let go on exactly
/// where it was, and any other finds the message of the thread that replies in
/// its registers, with no badge.
pub open spec fn is_replied(k: KernelView, tcb: u64, caller: u64, after: KernelView, i: int) -> bool {
    let t = k.thread(tcb);
    let was = k.thread(caller);
    let got = after.thread(caller);
    &&& was.faulted ==> got.frame == was.frame && !got.faulted
    &&& !was.faulted ==> {
        &&& crate::sched::syscalls::arg(got, 0) == 0
        &&& crate::sched::syscalls::arg(got, 1) == crate::sched::syscalls::arg(t, 1) || (
        crate::sched::syscalls::brings_cap(t) && !crate::sched::syscalls::brings_cap(got)
            && crate::sched::syscalls::asks(got) == crate::sched::syscalls::asks(t))
        &&& 0 <= i < crate::sched::syscalls::words(t) ==> crate::sched::syscalls::arg(got, 2 + i)
            == crate::sched::syscalls::arg(t, 2 + i)
        &&& i != 10 && i != 11 && !(12 <= i < 12 + crate::sched::syscalls::words(t))
            ==> got.frame.x[i] == was.frame.x[i]
        &&& got.frame.sepc == was.frame.sepc
    }
    &&& got.reply == was.reply
    &&& got.cspace == was.cspace
}

proof fn lemma_replied(k: KernelView, tcb: u64, i: int)
    requires
        k.thread(tcb).reply.kind is Reply,
        k.thread(tcb).reply.paddr.0 != tcb,
        forall|a: u64| (#[trigger] k.objects.threads[a]).frame.x.len() == 32,
        0 <= i < 32,
    ensures
        ({
            let caller = k.thread(tcb).reply.paddr.0;
            let done = crate::sched::message::answered(k, tcb);
            &&& is_replied(k, tcb, caller, done, i)
            &&& done.thread(caller).state is Ready
            &&& done.thread(caller).satp == k.thread(caller).satp
            &&& done.thread(tcb) == (TcbView {
                reply: crate::cap::RawCap::null_spec(),
                ..k.thread(tcb)
            })
            &&& done.queue == k.queue
            &&& done.pops == k.pops
            &&& done.current == k.current
            &&& done.objects.endpoints == k.objects.endpoints
            &&& !crate::sched::syscalls::brings_cap(k.thread(tcb)) || k.thread(caller).faulted
                ==> done.objects.slots == k.objects.slots
            &&& forall|a: u64| (#[trigger] done.objects.threads[a]).frame.x.len() == 32
            &&& forall|other: u64|
                other != tcb && other != caller ==> #[trigger] done.thread(other) == k.thread(
                    other,
                )
        }),
{
    let t = k.thread(tcb);
    let caller = t.reply.paddr.0;
    let info = crate::abi::msg::MessageInfo(t.frame.x[crate::trap::A1 as int]);
    let done = crate::sched::message::answered(k, tcb);
    if !k.thread(caller).faulted {
        crate::sched::laws::lemma_delivered(k, tcb, caller, info, 0);
        crate::sched::syscalls::lemma_told_header(k, tcb, caller, info, 0);
        let told = crate::sched::message::delivered(k, tcb, caller, info, 0);
        assert(!info.carries_cap_spec() ==> told.objects.slots == k.objects.slots);
        if 0 <= i < crate::sched::syscalls::words(t) {
            assert(told.thread(caller).frame.x[crate::trap::A2 + i] == t.frame.x[crate::trap::A2
                + i]);
        }
        assert(told.thread(tcb) == t);
        assert forall|a: u64| (#[trigger] done.objects.threads[a]).frame.x.len() == 32 by {
            if a != caller && a != tcb {
                assert(done.thread(a) == told.thread(a));
                assert(told.thread(a) == k.thread(a));
            }
        }
        assert forall|other: u64| other != tcb && other != caller implies #[trigger] done.thread(
            other,
        ) == k.thread(other) by {
            assert(told.thread(other) == k.thread(other));
        }
    }
}

/// Replying lets the caller go on, at once, with the answer. The thread that
/// replied is told so, is ready, last in line, and has nothing left to reply
/// with.
pub proof fn a_reply_lets_the_caller_go_on(
    k: KernelView,
    tcb: u64,
    stval: u64,
    after: KernelView,
    next: Next,
    i: int,
)
    requires
        crate::sched::syscalls::makes_call(k, tcb, 7),
        crate::sched::entry::is_user_trap(k, tcb, 8, stval, after, next),
        k.thread(tcb).reply.kind is Reply,
        k.thread(tcb).reply.paddr.0 != tcb,
        0 <= i < 32,
    ensures
        ({
            let t = k.thread(tcb);
            let caller = t.reply.paddr.0;
            let me = after.thread(tcb);
            &&& is_replied(k, tcb, caller, after, i)
            &&& next == Next::Resume(caller)
            &&& after.current == Some(caller)
            &&& after.thread(caller).state is Running
            &&& after.satp == k.thread(caller).satp
            &&& me.state is Ready
            &&& me.reply.kind is Null
            &&& me.frame.x == t.frame.x.update(10, 0)
            &&& me.frame.sepc == t.frame.sepc + 4
            &&& after.queue == k.queue.push(tcb)
            &&& after.pops == k.pops
        }),
{
    lemma_replied(crate::sched::syscalls::past(k, tcb), tcb, i);
}

/// There is no replying twice, or to nobody.
pub proof fn a_reply_takes_a_caller(
    k: KernelView,
    tcb: u64,
    stval: u64,
    after: KernelView,
    next: Next,
)
    requires
        crate::sched::syscalls::makes_call(k, tcb, 7) || crate::sched::syscalls::makes_call(
            k,
            tcb,
            8,
        ),
        crate::sched::entry::is_user_trap(k, tcb, 8, stval, after, next),
        !(k.thread(tcb).reply.kind is Reply),
    ensures
        crate::sched::syscalls::is_answered(k, tcb, after, next, 0xffff_ffff_ffff_fffd),
{
    crate::sched::syscalls::lemma_answered(k, tcb, 0xffff_ffff_ffff_fffd);
}

/// A server that replies and waits for the next request, with none waiting yet,
/// gives the hart to the caller it answered and waits, last in line at the
/// endpoint. The run queue is neither read nor written.
pub proof fn a_server_replies_and_waits(
    k: KernelView,
    tcb: u64,
    stval: u64,
    after: KernelView,
    next: Next,
    i: int,
)
    requires
        crate::sched::syscalls::makes_call(k, tcb, 8),
        crate::sched::entry::is_user_trap(k, tcb, 8, stval, after, next),
        k.thread(tcb).reply.kind is Reply,
        k.thread(tcb).reply.paddr.0 != tcb,
        !crate::sched::syscalls::brings_cap(k.thread(tcb)),
        may_receive(k, k.thread(tcb)),
        ({
            let t = k.thread(tcb);
            let cap = crate::sched::syscalls::cap_named(k, t, crate::sched::syscalls::arg(t, 0));
            !k.objects.endpoints[cap.paddr.0].waiting(EndpointState::Sending)
        }),
        0 <= i < 32,
    ensures
        ({
            let t = k.thread(tcb);
            let cap = crate::sched::syscalls::cap_named(k, t, crate::sched::syscalls::arg(t, 0));
            let caller = t.reply.paddr.0;
            let me = after.thread(tcb);
            &&& is_replied(k, tcb, caller, after, i)
            &&& next == Next::Resume(caller)
            &&& after.current == Some(caller)
            &&& after.thread(caller).state is Running
            &&& me.state is BlockedOnRecv
            &&& me.blocked_on == BlockedOn::Endpoint(cap.paddr)
            &&& me.reply.kind is Null
            &&& me.frame.x == t.frame.x
            &&& me.frame.sepc == t.frame.sepc + 4
            &&& after.objects.endpoints[cap.paddr.0].state is Receiving
            &&& after.objects.endpoints[cap.paddr.0].queue
                == k.objects.endpoints[cap.paddr.0].queue.push(tcb)
            &&& after.queue == k.queue
            &&& after.pops == k.pops
        }),
{
    let t = k.thread(tcb);
    let p = crate::sched::syscalls::past(k, tcb);
    lemma_replied(p, tcb, i);
    crate::sched::syscalls::lemma_named(
        k.objects.slots.caps,
        t.cspace,
        crate::sched::syscalls::arg(t, 0),
    );
    let cap = crate::sched::syscalls::cap_named(k, t, crate::sched::syscalls::arg(t, 0));
    crate::sched::syscalls::lemma_right_bits(cap.rights, 0, 0);
    let done = crate::sched::message::answered(p, tcb);
    assert(crate::sched::message::receivable(done, done.thread(tcb)) == Ok::<
        crate::cap::RawCap,
        u64,
    >(cap));
    assert((after, next) == done.with_receiver(tcb, cap).switched(t.reply.paddr.0));
}

/// A server that replies and has nothing to receive on is told so; its reply
/// stands all the same, and the caller it answered is ready, last in line.
pub proof fn a_reply_stands_without_an_endpoint(
    k: KernelView,
    tcb: u64,
    stval: u64,
    after: KernelView,
    next: Next,
    i: int,
)
    requires
        crate::sched::syscalls::makes_call(k, tcb, 8),
        crate::sched::entry::is_user_trap(k, tcb, 8, stval, after, next),
        k.thread(tcb).reply.kind is Reply,
        k.thread(tcb).reply.paddr.0 != tcb,
        !crate::sched::syscalls::brings_cap(k.thread(tcb)),
        !may_receive(k, k.thread(tcb)),
        0 <= i < 32,
    ensures
        ({
            let t = k.thread(tcb);
            let caller = t.reply.paddr.0;
            let me = after.thread(tcb);
            &&& is_replied(k, tcb, caller, after, i)
            &&& after.thread(caller).state is Ready
            &&& after.queue == k.queue.push(caller)
            &&& next == Next::Resume(tcb)
            &&& me.reply.kind is Null
            &&& me.frame.x == t.frame.x.update(10, 0xffff_ffff_ffff_ffff)
            &&& me.frame.sepc == t.frame.sepc + 4
        }),
{
    let t = k.thread(tcb);
    let p = crate::sched::syscalls::past(k, tcb);
    lemma_replied(p, tcb, i);
    crate::sched::syscalls::lemma_named(
        k.objects.slots.caps,
        t.cspace,
        crate::sched::syscalls::arg(t, 0),
    );
    let cap = crate::sched::syscalls::cap_named(k, t, crate::sched::syscalls::arg(t, 0));
    crate::sched::syscalls::lemma_right_bits(cap.rights, 0, 0);
    let done = crate::sched::message::answered(p, tcb);
    assert(crate::sched::message::receivable(done, done.thread(tcb)) is Err);
    assert((after, next) == done.with_ready(t.reply.paddr.0).finished(tcb, 0xffff_ffff_ffff_ffff));
}

/// A server that replies and waits for the next request, with one waiting, keeps
/// the hart and takes that request. The caller it answered is ready, last in
/// line; behind it comes the sender of the request, if that wants no reply.
pub proof fn a_server_replies_and_takes_the_next_request(
    k: KernelView,
    tcb: u64,
    stval: u64,
    after: KernelView,
    next: Next,
    i: int,
)
    requires
        crate::sched::syscalls::makes_call(k, tcb, 8),
        crate::sched::entry::is_user_trap(k, tcb, 8, stval, after, next),
        k.thread(tcb).reply.kind is Reply,
        k.thread(tcb).reply.paddr.0 != tcb,
        !crate::sched::syscalls::brings_cap(k.thread(tcb)),
        may_receive(k, k.thread(tcb)),
        ({
            let t = k.thread(tcb);
            let cap = crate::sched::syscalls::cap_named(k, t, crate::sched::syscalls::arg(t, 0));
            &&& k.objects.endpoints[cap.paddr.0].waiting(EndpointState::Sending)
            &&& k.objects.endpoints[cap.paddr.0].queue[0] != tcb
            &&& k.objects.endpoints[cap.paddr.0].queue[0] != t.reply.paddr.0
        }),
        0 <= i < 32,
    ensures
        ({
            let t = k.thread(tcb);
            let cap = crate::sched::syscalls::cap_named(k, t, crate::sched::syscalls::arg(t, 0));
            let caller = t.reply.paddr.0;
            let e = k.objects.endpoints[cap.paddr.0];
            let from = e.queue[0];
            let sender = k.thread(from);
            let me = after.thread(tcb);
            &&& is_replied(k, tcb, caller, after, i)
            &&& after.thread(caller).state is Ready
            &&& next == Next::Resume(tcb)
            &&& after.current == k.current
            &&& me.frame.sepc == t.frame.sepc + 4
            &&& crate::sched::syscalls::arg(me, 0) == sender.badge
            &&& 0 <= i < crate::sched::syscalls::words(sender) ==> crate::sched::syscalls::arg(
                me,
                2 + i,
            ) == crate::sched::syscalls::arg(sender, 2 + i)
            &&& after.objects.endpoints[cap.paddr.0].queue == e.queue.drop_first()
            &&& sender.call_pending ==> {
                &&& me.reply.kind is Reply
                &&& me.reply.paddr == sender.self_paddr
                &&& after.thread(from).state is AwaitingReply
                &&& after.queue == k.queue.push(caller)
            }
            &&& !sender.call_pending ==> {
                &&& me.reply.kind is Null
                &&& after.thread(from).state is Ready
                &&& crate::sched::syscalls::arg(after.thread(from), 0) == 0
                &&& after.queue == k.queue.push(caller).push(from)
            }
        }),
{
    let t = k.thread(tcb);
    let p = crate::sched::syscalls::past(k, tcb);
    let cap = crate::sched::syscalls::cap_named(k, t, crate::sched::syscalls::arg(t, 0));
    let caller = t.reply.paddr.0;
    lemma_replied(p, tcb, i);
    crate::sched::syscalls::lemma_named(
        k.objects.slots.caps,
        t.cspace,
        crate::sched::syscalls::arg(t, 0),
    );
    crate::sched::syscalls::lemma_right_bits(cap.rights, 0, 0);
    let done = crate::sched::message::answered(p, tcb);
    let ready = done.with_ready(caller);
    lemma_received(ready, tcb, cap, i);
    let from = k.objects.endpoints[cap.paddr.0].queue[0];
    assert(ready.thread(from) == k.thread(from));
    assert(after.thread(caller) == ready.thread(caller));
}

} // verus!
