//! What every step of the kernel keeps: a thread is on one queue at most, the
//! one its state says, and a reply capability names a thread that waits for it.

use crate::abi::msg::MessageInfo;
use crate::abi::object::ObjectType;
use crate::cap::slot::Derivation;
use crate::cap::RawCap;
use crate::ipc::{EndpointState, EndpointView};
use crate::mm::addr::PhysAddr;
use crate::objects::ObjectsView;
use crate::sched::{KernelView, Next, Retire};
use crate::thread::{BlockedOn, TcbView, ThreadState};
use crate::trap::Cause;
use vstd::prelude::*;

verus! {

// --- What is kept ---

/// Whether a thread waits on the endpoint at an address.
pub open spec fn waits_on(k: KernelView, at: u64, t: u64) -> bool {
    k.objects.endpoints[at].queue.contains(t)
}

/// Whether a thread's state is the one a queue of the given direction asks for.
pub open spec fn is_parked(direction: EndpointState, state: ThreadState) -> bool {
    match direction {
        EndpointState::Idle => false,
        EndpointState::Sending => state is BlockedOnSend,
        EndpointState::Receiving => state is BlockedOnRecv,
    }
}

/// The thread whose reply a thread holds.
pub open spec fn owed(k: KernelView, t: u64) -> Option<u64> {
    if k.thread(t).reply.kind is Reply {
        Some(k.thread(t).reply.paddr.0)
    } else {
        None
    }
}

/// Every thread on the run queue is there once, and is ready.
pub open spec fn run_queue_is_sound(k: KernelView) -> bool {
    &&& k.queue.no_duplicates()
    &&& forall|t: u64| #[trigger] k.queue.contains(t) ==> k.thread(t).state is Ready
}

/// Every thread on an endpoint is there once, is on no other, is blocked in the
/// direction of the endpoint, and knows which one it is.
pub open spec fn endpoints_are_sound(k: KernelView) -> bool {
    &&& forall|at: u64|
        (#[trigger] k.objects.endpoints[at]).is_settled()
            && k.objects.endpoints[at].queue.no_duplicates()
    &&& forall|at: u64, t: u64| #[trigger]
        waits_on(k, at, t) ==> is_parked(k.objects.endpoints[at].state, k.thread(t).state)
            && k.thread(t).blocked_on == BlockedOn::Endpoint(PhysAddr(at))
    &&& forall|at: u64, other: u64, t: u64|
        #![trigger waits_on(k, at, t), waits_on(k, other, t)]
        waits_on(k, at, t) && waits_on(k, other, t) ==> at == other
}

/// The thread on the hart, and no other, is running.
pub open spec fn hart_is_sound(k: KernelView) -> bool {
    forall|t: u64| (#[trigger] k.thread(t)).state is Running <==> k.current == Some(t)
}

/// A reply capability names a thread that awaits a reply, and no two name the
/// same.
pub open spec fn replies_are_sound(k: KernelView) -> bool {
    &&& forall|t: u64|
        (#[trigger] owed(k, t)) is Some ==> k.thread(owed(k, t)->Some_0).state is AwaitingReply
    &&& forall|t: u64, u: u64|
        #![trigger owed(k, t), owed(k, u)]
        owed(k, t) is Some && owed(k, t) == owed(k, u) ==> t == u
}

/// A thread whose fault has not been dealt with waits for that.
pub open spec fn faults_are_sound(k: KernelView) -> bool {
    forall|t: u64|
        (#[trigger] k.thread(t)).faulted ==> k.thread(t).state is AwaitingReply || k.thread(
            t,
        ).state is BlockedOnSend && k.thread(t).call_pending
}

/// A thread that was ever started knows its own address, and so does every
/// thread a capability names.
pub open spec fn names_are_true(k: KernelView) -> bool {
    &&& forall|t: u64|
        (#[trigger] k.thread(t)).state is Inactive || k.thread(t).self_paddr.0 == t
    &&& forall|s: u64|
        (#[trigger] k.objects.slots.caps[s]).kind is Tcb ==> k.thread(
            k.objects.slots.caps[s].paddr.0,
        ).self_paddr == k.objects.slots.caps[s].paddr
}

/// Whether threads, queues and reply capabilities agree with one another.
#[verifier::opaque]
pub open spec fn is_sound(k: KernelView) -> bool {
    &&& run_queue_is_sound(k)
    &&& endpoints_are_sound(k)
    &&& hart_is_sound(k)
    &&& replies_are_sound(k)
    &&& faults_are_sound(k)
    &&& names_are_true(k)
}

/// Whether a thread is ready and on no queue.
pub open spec fn is_loose(k: KernelView, t: u64) -> bool {
    k.thread(t).state is Ready && !k.queue.contains(t)
}

/// Whether two threads stand alike, whatever their registers hold.
spec fn alike(t: TcbView, u: TcbView) -> bool {
    &&& u.state == t.state
    &&& u.reply == t.reply
    &&& u.faulted == t.faulted
    &&& u.call_pending == t.call_pending
    &&& u.blocked_on == t.blocked_on
    &&& u.self_paddr == t.self_paddr
}

/// Whether every thread but two stands as it did, and the capabilities still
/// name what they did.
spec fn others_stand(k: KernelView, k2: KernelView, x: u64, y: u64) -> bool {
    &&& forall|t: u64| t != x && t != y ==> alike(k.thread(t), #[trigger] k2.thread(t))
    &&& k2.thread(x).self_paddr == k.thread(x).self_paddr
    &&& k2.thread(y).self_paddr == k.thread(y).self_paddr
    &&& caps_stand(k.objects.slots, k2.objects.slots)
}

/// Whether every thread that is named was named before.
#[verifier::opaque]
spec fn caps_stand(d: Derivation, d2: Derivation) -> bool {
    forall|s: u64|
        (#[trigger] d2.caps[s]).kind is Tcb ==> exists|o: u64|
            (#[trigger] d.caps[o]).kind is Tcb && d.caps[o].paddr == d2.caps[s].paddr
}

/// Whether the queues and the hart are as they were.
pub open spec fn queues_stand(k: KernelView, k2: KernelView) -> bool {
    &&& k2.queue == k.queue
    &&& k2.current == k.current
    &&& k2.objects.endpoints == k.objects.endpoints
}

/// Whatever happens to the derivation tree, capabilities that stay in place name
/// what they did.
proof fn lemma_caps_same(d: Derivation, d2: Derivation)
    requires
        forall|s: u64| (#[trigger] d2.caps[s]).kind is Tcb ==> d.caps[s] == d2.caps[s],
    ensures
        caps_stand(d, d2),
{
    reveal(caps_stand);
    assert forall|s: u64| (#[trigger] d2.caps[s]).kind is Tcb implies exists|o: u64|
        (#[trigger] d.caps[o]).kind is Tcb && d.caps[o].paddr == d2.caps[s].paddr by {
        assert(d.caps[s].kind is Tcb);
    }
}

proof fn lemma_names(k: KernelView, k2: KernelView, x: u64, y: u64)
    requires
        names_are_true(k),
        others_stand(k, k2, x, y),
        k2.thread(x).state is Inactive || k2.thread(x).self_paddr.0 == x,
        k2.thread(y).state is Inactive || k2.thread(y).self_paddr.0 == y,
    ensures
        names_are_true(k2),
{
    reveal(caps_stand);
    assert forall|s: u64| (#[trigger] k2.objects.slots.caps[s]).kind is Tcb implies k2.thread(
        k2.objects.slots.caps[s].paddr.0,
    ).self_paddr == k2.objects.slots.caps[s].paddr by {
        let p = k2.objects.slots.caps[s].paddr;
        let o = choose|o: u64|
            (#[trigger] k.objects.slots.caps[o]).kind is Tcb && k.objects.slots.caps[o].paddr == p;
        assert(k.thread(p.0).self_paddr == p);
        assert(k2.thread(p.0).self_paddr == k.thread(p.0).self_paddr);
    }
    assert forall|t: u64|
        (#[trigger] k2.thread(t)).state is Inactive || k2.thread(t).self_paddr.0 == t by {
        let before = k.thread(t);
        assert(before.state is Inactive || before.self_paddr.0 == t);
    }
}

/// What only touches registers leaves everything sound.
proof fn lemma_alike(k: KernelView, k2: KernelView)
    requires
        is_sound(k),
        queues_stand(k, k2),
        forall|t: u64| alike(k.thread(t), #[trigger] k2.thread(t)),
        caps_stand(k.objects.slots, k2.objects.slots),
    ensures
        is_sound(k2),
        forall|t: u64| #[trigger] is_loose(k2, t) == is_loose(k, t),
        forall|t: u64| #[trigger] owed(k2, t) == owed(k, t),
{
    reveal(is_sound);
    assert forall|t: u64| #[trigger] owed(k2, t) == owed(k, t) by {
        assert(alike(k.thread(t), k2.thread(t)));
    }
    assert forall|t: u64| #[trigger] is_loose(k2, t) == is_loose(k, t) by {
        assert(alike(k.thread(t), k2.thread(t)));
    }
    assert(alike(k.thread(0), k2.thread(0)));
    assert(k.thread(0).state is Inactive || k.thread(0).self_paddr.0 == 0);
    lemma_names(k, k2, 0, 0);
    assert forall|t: u64| #[trigger] k2.queue.contains(t) implies k2.thread(t).state is Ready by {
        assert(k.queue.contains(t));
        assert(alike(k.thread(t), k2.thread(t)));
    }
    assert forall|at: u64, t: u64| #[trigger] waits_on(k2, at, t) implies is_parked(
        k2.objects.endpoints[at].state,
        k2.thread(t).state,
    ) && k2.thread(t).blocked_on == BlockedOn::Endpoint(PhysAddr(at)) by {
        assert(waits_on(k, at, t));
        assert(alike(k.thread(t), k2.thread(t)));
    }
    assert forall|at: u64, other: u64, t: u64|
        #![trigger waits_on(k2, at, t), waits_on(k2, other, t)]
        waits_on(k2, at, t) && waits_on(k2, other, t) implies at == other by {
        assert(waits_on(k, at, t) && waits_on(k, other, t));
    }
    assert forall|t: u64| (#[trigger] k2.thread(t)).state is Running <==> k2.current == Some(t) by {
        assert(alike(k.thread(t), k2.thread(t)));
    }
    assert forall|t: u64| (#[trigger] owed(k2, t)) is Some implies k2.thread(
        owed(k2, t)->Some_0,
    ).state is AwaitingReply by {
        assert(owed(k, t) is Some);
        assert(alike(k.thread(owed(k, t)->Some_0), k2.thread(owed(k, t)->Some_0)));
    }
    assert forall|t: u64|
        (#[trigger] k2.thread(t)).faulted implies k2.thread(t).state is AwaitingReply || k2.thread(
        t,
    ).state is BlockedOnSend && k2.thread(t).call_pending by {
        assert(alike(k.thread(t), k2.thread(t)));
    }
}

// --- The run queue and the hart ---

/// The same state with no thread on the hart.
spec fn idle(k: KernelView) -> KernelView {
    KernelView { current: None, ..k }
}

/// Putting a thread that is loose on the run queue.
proof fn lemma_ready(k: KernelView, t: u64)
    requires
        is_sound(k),
        is_loose(k, t),
    ensures
        is_sound(k.with_ready(t)),
        forall|u: u64| #[trigger]
            is_loose(k.with_ready(t), u) <==> is_loose(k, u) && u != t,
{
    reveal(is_sound);
    let k2 = k.with_ready(t);
    assert forall|u: u64| #[trigger] is_loose(k2, u) <==> is_loose(k, u) && u != t by {
        if k.queue.contains(u) {
            let i = choose|i: int| 0 <= i < k.queue.len() && k.queue[i] == u;
            assert(k2.queue[i] == u);
        }
        assert(k2.queue[k.queue.len() as int] == t);
        if k2.queue.contains(u) {
            let i = choose|i: int| 0 <= i < k2.queue.len() && k2.queue[i] == u;
            if i < k.queue.len() {
                assert(k.queue[i] == u);
            }
        }
    }
    assert forall|u: u64| #[trigger] k2.queue.contains(u) implies k.queue.contains(u) || u == t by {
        let i = choose|i: int| 0 <= i < k2.queue.len() && k2.queue[i] == u;
        if i < k.queue.len() {
            assert(k.queue[i] == u);
        }
    }
    assert forall|i: int, j: int|
        0 <= i < k2.queue.len() && 0 <= j < k2.queue.len() && i != j implies k2.queue[i]
        != k2.queue[j] by {
        if i < k.queue.len() && j < k.queue.len() {
            assert(k.queue[i] != k.queue[j]);
        } else if i < k.queue.len() {
            assert(k.queue.contains(k.queue[i]));
        } else {
            assert(k.queue.contains(k.queue[j]));
        }
    }
    assert forall|u: u64| #[trigger] k2.queue.contains(u) implies k2.thread(u).state is Ready by {
        assert(k2.thread(u) == k.thread(u));
    }
    lemma_elsewhere(k, k2);
}

/// What touches neither threads, endpoints nor capabilities leaves all but the
/// run queue and the hart as sound as they were.
proof fn lemma_elsewhere(k: KernelView, k2: KernelView)
    requires
        k2.objects.threads == k.objects.threads,
        k2.objects.endpoints == k.objects.endpoints,
        k2.objects.slots == k.objects.slots,
    ensures
        endpoints_are_sound(k) ==> endpoints_are_sound(k2),
        replies_are_sound(k) ==> replies_are_sound(k2),
        faults_are_sound(k) ==> faults_are_sound(k2),
        names_are_true(k) ==> names_are_true(k2),
        k2.current == k.current && hart_is_sound(k) ==> hart_is_sound(k2),
        k2.queue == k.queue && run_queue_is_sound(k) ==> run_queue_is_sound(k2),
{
    assert forall|t: u64| #[trigger] k2.thread(t) == k.thread(t) by {}
    assert forall|t: u64| #[trigger] owed(k2, t) == owed(k, t) by {}
    assert forall|at: u64, t: u64| #[trigger] waits_on(k2, at, t) == waits_on(k, at, t) by {}
    if endpoints_are_sound(k) {
        assert forall|at: u64, other: u64, t: u64|
            #![trigger waits_on(k2, at, t), waits_on(k2, other, t)]
            waits_on(k2, at, t) && waits_on(k2, other, t) implies at == other by {
            assert(waits_on(k, at, t) && waits_on(k, other, t));
        }
    }
    if replies_are_sound(k) {
        assert forall|t: u64, u: u64|
            #![trigger owed(k2, t), owed(k2, u)]
            owed(k2, t) is Some && owed(k2, t) == owed(k2, u) implies t == u by {
            assert(owed(k, t) == owed(k, u));
        }
    }
}

/// A thread whose state changes between ready and running.
proof fn lemma_started(k: KernelView, k2: KernelView, t: u64)
    requires
        is_sound(idle(k)),
        is_loose(k, t),
        k2.queue == k.queue,
        k2.current == Some(t),
        k2.objects.endpoints == k.objects.endpoints,
        k2.objects.slots == k.objects.slots,
        others_stand(k, k2, t, t),
        k2.thread(t).state is Running,
        k2.thread(t).reply == k.thread(t).reply,
        k2.thread(t).faulted == k.thread(t).faulted,
    ensures
        is_sound(k2),
        forall|u: u64| #[trigger] is_loose(k2, u) ==> is_loose(k, u) && u != t,
{
    reveal(is_sound);
    let i = idle(k);
    assert(i.thread(t) == k.thread(t));
    assert(i.thread(t).state is Inactive || i.thread(t).self_paddr.0 == t);
    assert forall|u: u64| u != t implies alike(i.thread(u), #[trigger] k2.thread(u)) by {
        assert(alike(k.thread(u), k2.thread(u)));
    }
    lemma_names(i, k2, t, t);
    assert forall|u: u64| #[trigger] owed(k2, u) == owed(i, u) by {
        assert(k2.thread(u).reply == k.thread(u).reply);
    }
    assert forall|u: u64| #[trigger] k2.queue.contains(u) implies k2.thread(u).state is Ready by {
        assert(i.queue.contains(u));
        assert(u != t);
    }
    assert forall|at: u64, u: u64| #[trigger] waits_on(k2, at, u) implies is_parked(
        k2.objects.endpoints[at].state,
        k2.thread(u).state,
    ) && k2.thread(u).blocked_on == BlockedOn::Endpoint(PhysAddr(at)) by {
        assert(waits_on(i, at, u));
        assert(u != t);
    }
    assert forall|at: u64, other: u64, u: u64|
        #![trigger waits_on(k2, at, u), waits_on(k2, other, u)]
        waits_on(k2, at, u) && waits_on(k2, other, u) implies at == other by {
        assert(waits_on(i, at, u) && waits_on(i, other, u));
    }
    assert forall|u: u64| (#[trigger] k2.thread(u)).state is Running <==> k2.current == Some(u) by {
        if u != t {
            assert(!(i.thread(u).state is Running));
        }
    }
    assert forall|u: u64| (#[trigger] owed(k2, u)) is Some implies k2.thread(
        owed(k2, u)->Some_0,
    ).state is AwaitingReply by {
        assert(owed(i, u) is Some);
        let c = owed(i, u)->Some_0;
        assert(i.thread(c).state is AwaitingReply);
        assert(alike(k.thread(c), k2.thread(c)));
    }
    assert forall|u: u64, v: u64|
        #![trigger owed(k2, u), owed(k2, v)]
        owed(k2, u) is Some && owed(k2, u) == owed(k2, v) implies u == v by {
        assert(owed(i, u) == owed(i, v));
    }
    assert forall|u: u64|
        (#[trigger] k2.thread(u)).faulted implies k2.thread(u).state is AwaitingReply || k2.thread(
        u,
    ).state is BlockedOnSend && k2.thread(u).call_pending by {
        assert(i.thread(u).faulted);
    }
}

/// Making a thread that is loose the current one.
proof fn lemma_activated(k: KernelView, t: u64)
    requires
        is_sound(idle(k)),
        is_loose(k, t),
    ensures
        is_sound(k.activated(t)),
        k.activated(t).current == Some(t),
        forall|u: u64| #[trigger] is_loose(k.activated(t), u) ==> is_loose(k, u) && u != t,
{
    lemma_caps_same(k.objects.slots, k.activated(t).objects.slots);
    lemma_started(k, k.activated(t), t);
}

/// Taking the longest waiting thread off the run queue.
proof fn lemma_taken_off(k: KernelView)
    requires
        is_sound(k),
        k.queue.len() > 0,
    ensures
        is_sound(k.next_taken().0),
        is_loose(k.next_taken().0, k.queue[0]),
        k.thread(k.queue[0]).self_paddr.0 == k.queue[0],
        !k.thread(k.queue[0]).faulted,
        forall|u: u64| #[trigger]
            is_loose(k.next_taken().0, u) ==> is_loose(k, u) || u == k.queue[0],
{
    reveal(is_sound);
    let t = k.queue[0];
    let k2 = k.next_taken().0;
    assert(k.queue.contains(t));
    assert forall|u: u64| #[trigger] k2.queue.contains(u) implies k.queue.contains(u) && u != t by {
        let i = choose|i: int| 0 <= i < k2.queue.len() && k2.queue[i] == u;
        assert(k.queue[i + 1] == u);
    }
    assert forall|i: int, j: int|
        0 <= i < k2.queue.len() && 0 <= j < k2.queue.len() && i != j implies k2.queue[i]
        != k2.queue[j] by {
        assert(k.queue[i + 1] != k.queue[j + 1]);
    }
    assert forall|u: u64| #[trigger] k2.queue.contains(u) implies k2.thread(u).state is Ready by {
        assert(k2.thread(u) == k.thread(u));
    }
    lemma_elsewhere(k, k2);
    assert forall|u: u64| #[trigger] is_loose(k2, u) implies is_loose(k, u) || u == t by {
        if k.queue.contains(u) && u != t {
            let i = choose|i: int| 0 <= i < k.queue.len() && k.queue[i] == u;
            assert(k2.queue[i - 1] == u);
        }
    }
}

/// Resuming the longest waiting thread.
proof fn lemma_next(k: KernelView)
    requires
        is_sound(k),
        k.current is None,
    ensures
        is_sound(k.next_resumed().0),
        k.next_resumed().1 matches Next::Resume(t) ==> k.next_resumed().0.current == Some(t),
        k.next_resumed().1 is Leave ==> k.next_resumed().0.current is None,
        forall|u: u64| #[trigger] is_loose(k.next_resumed().0, u) ==> is_loose(k, u),
{
    if k.queue.len() > 0 {
        let k2 = k.next_taken().0;
        lemma_taken_off(k);
        assert(idle(k2) == k2);
        lemma_activated(k2, k.queue[0]);
    }
}

/// Taking the current thread off the hart, still runnable or for good.
proof fn lemma_retired(k: KernelView, why: Retire)
    requires
        is_sound(k),
        k.current is Some,
        !(why is Blocked),
    ensures
        is_sound(k.retired(why).0),
        k.retired(why).1 matches Next::Resume(t) ==> k.retired(why).0.current == Some(t),
        k.retired(why).1 is Leave ==> k.retired(why).0.current is None,
        forall|u: u64| #[trigger] is_loose(k.retired(why).0, u) ==> is_loose(k, u),
{
    reveal(is_sound);
    let t = k.current->Some_0;
    let state = if why is Requeue {
        ThreadState::Ready
    } else {
        ThreadState::Exited
    };
    let off = idle(k).with_state(t, state);
    assert(k.thread(t).state is Running);
    lemma_caps_same(k.objects.slots, off.objects.slots);
    lemma_endpoints_unread(k, off, t, t);
    lemma_no_reply(k, off, t, t);
    lemma_step(k, off, t, t);
    let parted = k.parted(why);
    assert forall|u: u64| #[trigger] is_loose(parted, u) implies is_loose(k, u) by {
        assert(is_loose(off, u) ==> is_loose(k, u) || u == t);
        if why is Requeue {
            assert(parted.queue[k.queue.len() as int] == t);
            if k.queue.contains(u) {
                let i = choose|i: int| 0 <= i < k.queue.len() && k.queue[i] == u;
                assert(parted.queue[i] == u);
            }
        }
    }
    if why is Requeue {
        assert(!k.queue.contains(t));
        assert(is_loose(off, t));
        lemma_ready(off, t);
        lemma_elsewhere(off.with_ready(t), parted);
    } else {
        lemma_elsewhere(off, parted);
    }
    if !(why is Exited && k.stop_on_exit) {
        lemma_next(parted);
    }
}

// --- One or two threads at a time ---

/// When two threads change and the rest of a sound state does not.
proof fn lemma_step(k: KernelView, k2: KernelView, x: u64, y: u64)
    requires
        is_sound(k),
        others_stand(k, k2, x, y),
        k2.queue == k.queue,
        k.queue.contains(x) ==> k2.thread(x).state is Ready,
        k.queue.contains(y) ==> k2.thread(y).state is Ready,
        k2.thread(x).state is Running <==> k2.current == Some(x),
        k2.thread(y).state is Running <==> k2.current == Some(y),
        k2.current is None && (k.current is None || k.current == Some(x) || k.current == Some(y))
            || k2.current == k.current,
        endpoints_are_sound(k2),
        replies_are_sound(k2),
        k2.thread(x).faulted ==> k2.thread(x).state is AwaitingReply || k2.thread(x).state is BlockedOnSend
            && k2.thread(x).call_pending,
        k2.thread(y).faulted ==> k2.thread(y).state is AwaitingReply || k2.thread(y).state is BlockedOnSend
            && k2.thread(y).call_pending,
        k2.thread(x).self_paddr.0 == x,
        k2.thread(y).self_paddr.0 == y,
    ensures
        is_sound(k2),
        forall|u: u64| #[trigger] is_loose(k2, u) ==> is_loose(k, u) || u == x || u == y,
{
    reveal(is_sound);
    lemma_names(k, k2, x, y);
    assert forall|u: u64| #[trigger] k2.queue.contains(u) implies k2.thread(u).state is Ready by {
        assert(k.queue.contains(u));
        if u != x && u != y {
            assert(alike(k.thread(u), k2.thread(u)));
        }
    }
    assert forall|u: u64| (#[trigger] k2.thread(u)).state is Running <==> k2.current == Some(u) by {
        if u != x && u != y {
            assert(alike(k.thread(u), k2.thread(u)));
            assert(k.thread(u).state is Running <==> k.current == Some(u));
        }
    }
    assert forall|u: u64|
        (#[trigger] k2.thread(u)).faulted implies k2.thread(u).state is AwaitingReply || k2.thread(
        u,
    ).state is BlockedOnSend && k2.thread(u).call_pending by {
        if u != x && u != y {
            assert(alike(k.thread(u), k2.thread(u)));
            assert(k.thread(u).faulted);
        }
    }
}

/// When the threads that change wait on no endpoint.
proof fn lemma_endpoints_unread(k: KernelView, k2: KernelView, x: u64, y: u64)
    requires
        endpoints_are_sound(k),
        k2.objects.endpoints == k.objects.endpoints,
        others_stand(k, k2, x, y),
        !k.thread(x).state.blocked() || k.thread(x).state is AwaitingReply,
        !k.thread(y).state.blocked() || k.thread(y).state is AwaitingReply,
    ensures
        endpoints_are_sound(k2),
{
    assert forall|at: u64, u: u64| #[trigger] waits_on(k2, at, u) implies is_parked(
        k2.objects.endpoints[at].state,
        k2.thread(u).state,
    ) && k2.thread(u).blocked_on == BlockedOn::Endpoint(PhysAddr(at)) by {
        assert(waits_on(k, at, u));
        assert(is_parked(k.objects.endpoints[at].state, k.thread(u).state));
        assert(u != x && u != y);
        assert(alike(k.thread(u), k2.thread(u)));
    }
    assert forall|at: u64, other: u64, u: u64|
        #![trigger waits_on(k2, at, u), waits_on(k2, other, u)]
        waits_on(k2, at, u) && waits_on(k2, other, u) implies at == other by {
        assert(waits_on(k, at, u) && waits_on(k, other, u));
    }
}

/// When the first thread on an endpoint leaves it.
proof fn lemma_endpoint_left(k: KernelView, k2: KernelView, at: u64, x: u64)
    requires
        endpoints_are_sound(k),
        k.objects.endpoints[at].queue.len() > 0,
        k2.objects.endpoints == k.objects.endpoints.insert(
            at,
            k.objects.endpoints[at].left_with(k.objects.endpoints[at].queue.drop_first()),
        ),
        others_stand(k, k2, x, k.objects.endpoints[at].queue[0]),
        !k.thread(x).state.blocked() || k.thread(x).state is AwaitingReply,
    ensures
        endpoints_are_sound(k2),
        k.thread(k.objects.endpoints[at].queue[0]).state.blocked(),
{
    let e = k.objects.endpoints[at];
    let y = e.queue[0];
    let e2 = k2.objects.endpoints[at];
    assert(e.queue.contains(y));
    assert(waits_on(k, at, y));
    assert forall|u: u64| #[trigger] e2.queue.contains(u) implies e.queue.contains(u) && u != y by {
        let i = choose|i: int| 0 <= i < e2.queue.len() && e2.queue[i] == u;
        assert(e.queue[i + 1] == u);
    }
    assert forall|i: int, j: int|
        0 <= i < e2.queue.len() && 0 <= j < e2.queue.len() && i != j implies e2.queue[i]
        != e2.queue[j] by {
        assert(e.queue[i + 1] != e.queue[j + 1]);
    }
    assert forall|b: u64, u: u64| #[trigger] waits_on(k2, b, u) implies waits_on(k, b, u) && u != y
        && u != x by {
        if b != at {
            assert(k2.objects.endpoints[b] == k.objects.endpoints[b]);
        }
        assert(waits_on(k, b, u));
        assert(is_parked(k.objects.endpoints[b].state, k.thread(u).state));
    }
    assert forall|b: u64, u: u64| #[trigger] waits_on(k2, b, u) implies is_parked(
        k2.objects.endpoints[b].state,
        k2.thread(u).state,
    ) && k2.thread(u).blocked_on == BlockedOn::Endpoint(PhysAddr(b)) by {
        assert(waits_on(k, b, u));
        assert(alike(k.thread(u), k2.thread(u)));
        assert(k2.objects.endpoints[b].queue.len() > 0);
    }
    assert forall|b: u64|
        (#[trigger] k2.objects.endpoints[b]).is_settled()
            && k2.objects.endpoints[b].queue.no_duplicates() by {
        assert(k.objects.endpoints[b].is_settled());
    }
    assert forall|b: u64, other: u64, u: u64|
        #![trigger waits_on(k2, b, u), waits_on(k2, other, u)]
        waits_on(k2, b, u) && waits_on(k2, other, u) implies b == other by {
        assert(waits_on(k, b, u) && waits_on(k, other, u));
    }
}

/// When a thread joins an endpoint whose queue goes its way.
proof fn lemma_endpoint_joined(
    k: KernelView,
    k2: KernelView,
    at: u64,
    x: u64,
    direction: EndpointState,
)
    requires
        endpoints_are_sound(k),
        !(direction is Idle),
        k.objects.endpoints[at].state is Idle || k.objects.endpoints[at].state == direction,
        k2.objects.endpoints == k.objects.endpoints.insert(
            at,
            k.objects.endpoints[at].joined(x, direction),
        ),
        others_stand(k, k2, x, x),
        !k.thread(x).state.blocked() || k.thread(x).state is AwaitingReply,
        is_parked(direction, k2.thread(x).state),
        k2.thread(x).blocked_on == BlockedOn::Endpoint(PhysAddr(at)),
    ensures
        endpoints_are_sound(k2),
{
    let e = k.objects.endpoints[at];
    let e2 = k2.objects.endpoints[at];
    assert(e.is_settled());
    assert forall|b: u64| !(#[trigger] waits_on(k, b, x)) by {
        if waits_on(k, b, x) {
            assert(is_parked(k.objects.endpoints[b].state, k.thread(x).state));
        }
    }
    assert(!waits_on(k, at, x));
    assert forall|u: u64| #[trigger] e2.queue.contains(u) implies e.queue.contains(u) || u == x by {
        let i = choose|i: int| 0 <= i < e2.queue.len() && e2.queue[i] == u;
        if i < e.queue.len() {
            assert(e.queue[i] == u);
        }
    }
    assert forall|i: int, j: int|
        0 <= i < e2.queue.len() && 0 <= j < e2.queue.len() && i != j implies e2.queue[i]
        != e2.queue[j] by {
        if i < e.queue.len() && j < e.queue.len() {
            assert(e.queue[i] != e.queue[j]);
        } else if i < e.queue.len() {
            assert(e.queue.contains(e.queue[i]));
        } else {
            assert(e.queue.contains(e.queue[j]));
        }
    }
    assert forall|b: u64, u: u64| #[trigger] waits_on(k2, b, u) implies waits_on(k, b, u) || (b == at
        && u == x) by {
        if b != at {
            assert(k2.objects.endpoints[b] == k.objects.endpoints[b]);
        }
    }
    assert forall|b: u64, u: u64| #[trigger] waits_on(k2, b, u) implies is_parked(
        k2.objects.endpoints[b].state,
        k2.thread(u).state,
    ) && k2.thread(u).blocked_on == BlockedOn::Endpoint(PhysAddr(b)) by {
        if u != x {
            assert(waits_on(k, b, u));
            assert(alike(k.thread(u), k2.thread(u)));
        }
    }
    assert forall|b: u64|
        (#[trigger] k2.objects.endpoints[b]).is_settled()
            && k2.objects.endpoints[b].queue.no_duplicates() by {
        assert(k.objects.endpoints[b].is_settled());
    }
    assert forall|b: u64, other: u64, u: u64|
        #![trigger waits_on(k2, b, u), waits_on(k2, other, u)]
        waits_on(k2, b, u) && waits_on(k2, other, u) implies b == other by {
        if u != x {
            assert(waits_on(k, b, u) && waits_on(k, other, u));
        }
    }
}

// --- Messages ---

proof fn lemma_inserted(
    d: Derivation,
    root: RawCap,
    cptr: u64,
    depth: u8,
    cap: RawCap,
    parent: Option<u64>,
)
    requires
        cap.kind is Tcb ==> exists|o: u64|
            (#[trigger] d.caps[o]).kind is Tcb && d.caps[o].paddr == cap.paddr,
    ensures
        caps_stand(d, crate::cap::cspace::inserted(d, root, cptr, depth, cap, parent).0),
{
    reveal(caps_stand);
    let d2 = crate::cap::cspace::inserted(d, root, cptr, depth, cap, parent).0;
    assert forall|s: u64| (#[trigger] d2.caps[s]).kind is Tcb implies exists|o: u64|
        (#[trigger] d.caps[o]).kind is Tcb && d.caps[o].paddr == d2.caps[s].paddr by {
        if d2.caps[s] == d.caps[s] {
            assert(d.caps[s].kind is Tcb);
        }
    }
}

/// Delivering a message moves no thread.
proof fn lemma_delivered(k: KernelView, from: u64, to: u64, info: MessageInfo, badge: u64)
    ensures
        ({
            let k2 = crate::sched::message::delivered(k, from, to, info, badge);
            &&& queues_stand(k, k2)
            &&& forall|t: u64| alike(k.thread(t), #[trigger] k2.thread(t))
            &&& caps_stand(k.objects.slots, k2.objects.slots)
        }),
{
    let d = k.objects.slots;
    let f = k.thread(from);
    let to_is = crate::ipc::received(f, k.thread(to), info, badge);
    let d2 = crate::sched::message::cap_moved(d, f, to_is).0;
    lemma_caps_same(d, d);
    let at = crate::cap::cspace::located(
        d.caps,
        f.cspace,
        f.frame.x[crate::trap::A6 as int],
        crate::sched::message::own_depth(f.cspace),
    );
    if let Ok(slot) = at {
        let cap = d.caps[slot];
        lemma_inserted(
            d,
            to_is.cspace,
            to_is.frame.x[crate::trap::A6 as int],
            crate::sched::message::own_depth(to_is.cspace),
            cap.fresh_spec(),
            Some(slot),
        );
    }
    assert(caps_stand(d, d2));
}

/// Going straight to a thread that is loose.
proof fn lemma_switched(k: KernelView, t: u64)
    requires
        is_sound(idle(k)),
        is_loose(k, t),
    ensures
        is_sound(k.switched(t).0),
        k.switched(t).0.current == Some(t),
        k.switched(t).1 == Next::Resume(t),
        forall|u: u64| #[trigger] is_loose(k.switched(t).0, u) ==> is_loose(k, u) && u != t,
{
    reveal(is_sound);
    let saved = match k.current {
        Some(a) => k.fp_saved(a),
        None => k,
    };
    lemma_elsewhere(idle(k), idle(saved));
    assert(is_loose(saved, t));
    lemma_activated(saved, t);
    assert forall|u: u64| #[trigger] is_loose(k.switched(t).0, u) implies is_loose(k, u) && u
        != t by {
        assert(is_loose(saved, u));
    }
}

/// When a thread comes to await a reply, and another to hold it.
proof fn lemma_reply_made(k: KernelView, k2: KernelView, caller: u64, holder: u64)
    requires
        replies_are_sound(k),
        others_stand(k, k2, caller, holder),
        caller != holder,
        k2.thread(caller).state is AwaitingReply,
        k2.thread(caller).reply == k.thread(caller).reply,
        k2.thread(holder).reply.kind is Reply,
        k2.thread(holder).reply.paddr.0 == caller,
        !(k.thread(caller).state is AwaitingReply),
        !(k.thread(holder).state is AwaitingReply),
    ensures
        replies_are_sound(k2),
{
    assert forall|u: u64| u != holder implies #[trigger] owed(k2, u) == owed(k, u) && owed(k2, u)
        != Some(caller) by {
        if u != caller {
            assert(alike(k.thread(u), k2.thread(u)));
        }
        assert(owed(k, u) is Some ==> k.thread(owed(k, u)->Some_0).state is AwaitingReply);
    }
    assert forall|u: u64| (#[trigger] owed(k2, u)) is Some implies k2.thread(
        owed(k2, u)->Some_0,
    ).state is AwaitingReply by {
        if u != holder {
            let c = owed(k, u)->Some_0;
            assert(k.thread(c).state is AwaitingReply);
            assert(alike(k.thread(c), k2.thread(c)));
        }
    }
    assert forall|u: u64, v: u64|
        #![trigger owed(k2, u), owed(k2, v)]
        owed(k2, u) is Some && owed(k2, u) == owed(k2, v) implies u == v by {
        if u != holder && v != holder {
            assert(owed(k, u) == owed(k, v));
        }
    }
}

/// When two threads change that nobody owes a reply, and neither comes to hold
/// one.
proof fn lemma_no_reply(k: KernelView, k2: KernelView, x: u64, y: u64)
    requires
        replies_are_sound(k),
        others_stand(k, k2, x, y),
        k2.thread(x).reply == k.thread(x).reply || !(k2.thread(x).reply.kind is Reply),
        k2.thread(y).reply == k.thread(y).reply || !(k2.thread(y).reply.kind is Reply),
        !(k.thread(x).state is AwaitingReply),
        !(k.thread(y).state is AwaitingReply),
    ensures
        replies_are_sound(k2),
{
    assert forall|u: u64| (#[trigger] owed(k2, u)) is Some implies owed(k, u) == owed(k2, u)
        && k2.thread(owed(k2, u)->Some_0).state is AwaitingReply by {
        if u != x && u != y {
            assert(alike(k.thread(u), k2.thread(u)));
        }
        assert(owed(k, u) is Some);
        let c = owed(k, u)->Some_0;
        assert(k.thread(c).state is AwaitingReply);
        assert(alike(k.thread(c), k2.thread(c)));
    }
    assert forall|u: u64, v: u64|
        #![trigger owed(k2, u), owed(k2, v)]
        owed(k2, u) is Some && owed(k2, u) == owed(k2, v) implies u == v by {
        assert(owed(k, u) == owed(k, v));
    }
}

/// Whether `k` is a sound state but for the registers and the fault of the
/// thread on the hart.
spec fn is_entered(k0: KernelView, k: KernelView, tcb: u64) -> bool {
    &&& is_sound(k0)
    &&& k0.current == Some(tcb)
    &&& queues_stand(k0, k)
    &&& others_stand(k0, k, tcb, tcb)
    &&& k.thread(tcb).state == k0.thread(tcb).state
    &&& k.thread(tcb).reply == k0.thread(tcb).reply
}

/// Handing a message to a thread that waits for one, as a call.
proof fn lemma_called(
    k0: KernelView,
    k: KernelView,
    tcb: u64,
    ep: RawCap,
    info: MessageInfo,
)
    requires
        is_entered(k0, k, tcb),
        k.objects.endpoints[ep.paddr.0].waiting(EndpointState::Receiving),
    ensures
        ({
            let done = crate::sched::message::sent(k, tcb, ep, info, true);
            let receiver = k.objects.endpoints[ep.paddr.0].queue[0];
            &&& is_sound(done.0)
            &&& done.0.current == Some(receiver)
            &&& done.1 == Next::Resume(receiver)
            &&& forall|u: u64| #[trigger] is_loose(done.0, u) ==> is_loose(k0, u)
        }),
{
    reveal(is_sound);
    let at = ep.paddr.0;
    let e = k.objects.endpoints[at];
    let badge = ep.badge_spec();
    let receiver = e.queue[0];
    assert(e.queue.contains(receiver));
    assert(waits_on(k0, at, receiver));
    assert(k0.thread(receiver).state is BlockedOnRecv);
    assert(k0.thread(tcb).state is Running);
    assert(receiver != tcb);
    let taken = k.with_endpoint(at, e.left_with(e.queue.drop_first()));
    lemma_delivered(taken, tcb, receiver, info, badge);
    let told = crate::sched::message::delivered(taken, tcb, receiver, info, badge).badge_logged(
        badge,
    );
    assert(alike(taken.thread(receiver), told.thread(receiver)));
    assert(alike(taken.thread(tcb), told.thread(tcb)));
    let woken = told.with_thread(
        receiver,
        TcbView {
            reply: crate::sched::message::reply_to(told.thread(tcb)),
            state: ThreadState::Ready,
            blocked_on: BlockedOn::Nothing,
            ..told.thread(receiver)
        },
    );
    let off = woken.with_thread(
        tcb,
        TcbView {
            state: ThreadState::AwaitingReply,
            call_pending: false,
            ..woken.thread(tcb)
        },
    );
    let k2 = idle(off);
    assert(alike(k0.thread(receiver), k.thread(receiver)));
    assert(k0.thread(tcb).self_paddr.0 == tcb && k0.thread(receiver).self_paddr.0 == receiver);
    assert(others_stand(k0, k2, tcb, receiver)) by {
        assert forall|t: u64| t != tcb && t != receiver implies alike(
            k0.thread(t),
            #[trigger] k2.thread(t),
        ) by {
            assert(alike(k0.thread(t), k.thread(t)));
            assert(alike(taken.thread(t), told.thread(t)));
        }
        lemma_caps_chain(k0.objects.slots, k.objects.slots, k2.objects.slots);
    }
    lemma_endpoint_left(k0, k2, at, tcb);
    lemma_reply_made(k0, k2, tcb, receiver);
    lemma_step(k0, k2, tcb, receiver);
    assert(!k0.queue.contains(receiver));
    assert(is_loose(off, receiver));
    lemma_switched(off, receiver);
    assert forall|u: u64| is_loose(off, u) && u != receiver implies #[trigger] is_loose(k0, u) by {
        assert(is_loose(k2, u));
    }
}

proof fn lemma_caps_chain(d: Derivation, mid: Derivation, d2: Derivation)
    requires
        caps_stand(d, mid),
        caps_stand(mid, d2),
    ensures
        caps_stand(d, d2),
{
    reveal(caps_stand);
    assert forall|s: u64| (#[trigger] d2.caps[s]).kind is Tcb implies exists|o: u64|
        (#[trigger] d.caps[o]).kind is Tcb && d.caps[o].paddr == d2.caps[s].paddr by {
        let m = choose|m: u64|
            (#[trigger] mid.caps[m]).kind is Tcb && mid.caps[m].paddr == d2.caps[s].paddr;
        let o = choose|o: u64|
            (#[trigger] d.caps[o]).kind is Tcb && d.caps[o].paddr == mid.caps[m].paddr;
        assert(d.caps[o].kind is Tcb && d.caps[o].paddr == d2.caps[s].paddr);
    }
}

/// Handing a message to a thread that waits for one, and staying runnable.
proof fn lemma_handed_over(
    k0: KernelView,
    k: KernelView,
    tcb: u64,
    ep: RawCap,
    info: MessageInfo,
)
    requires
        is_entered(k0, k, tcb),
        !k.thread(tcb).faulted,
        k.objects.endpoints[ep.paddr.0].waiting(EndpointState::Receiving),
    ensures
        ({
            let done = crate::sched::message::sent(k, tcb, ep, info, false);
            let receiver = k.objects.endpoints[ep.paddr.0].queue[0];
            &&& is_sound(done.0)
            &&& done.0.current == Some(receiver)
            &&& done.1 == Next::Resume(receiver)
            &&& forall|u: u64| #[trigger] is_loose(done.0, u) ==> is_loose(k0, u)
        }),
{
    reveal(is_sound);
    let at = ep.paddr.0;
    let e = k.objects.endpoints[at];
    let badge = ep.badge_spec();
    let receiver = e.queue[0];
    assert(e.queue.contains(receiver));
    assert(waits_on(k0, at, receiver));
    assert(k0.thread(receiver).state is BlockedOnRecv);
    assert(k0.thread(tcb).state is Running);
    assert(receiver != tcb);
    let taken = k.with_endpoint(at, e.left_with(e.queue.drop_first()));
    lemma_delivered(taken, tcb, receiver, info, badge);
    let told = crate::sched::message::delivered(taken, tcb, receiver, info, badge).badge_logged(
        badge,
    );
    assert(alike(taken.thread(receiver), told.thread(receiver)));
    assert(alike(taken.thread(tcb), told.thread(tcb)));
    let woken = told.with_thread(
        receiver,
        TcbView {
            reply: RawCap::null_spec(),
            state: ThreadState::Ready,
            blocked_on: BlockedOn::Nothing,
            ..told.thread(receiver)
        },
    );
    let off = woken.with_thread(
        tcb,
        TcbView { state: ThreadState::Ready, ..woken.thread(tcb) }.with_reg(
            crate::trap::A0 as int,
            crate::abi::result::OK,
        ),
    );
    let k2 = idle(off);
    assert(alike(k0.thread(receiver), k.thread(receiver)));
    assert(k0.thread(tcb).self_paddr.0 == tcb && k0.thread(receiver).self_paddr.0 == receiver);
    assert(!k0.thread(receiver).faulted);
    assert(others_stand(k0, k2, tcb, receiver)) by {
        assert forall|t: u64| t != tcb && t != receiver implies alike(
            k0.thread(t),
            #[trigger] k2.thread(t),
        ) by {
            assert(alike(k0.thread(t), k.thread(t)));
            assert(alike(taken.thread(t), told.thread(t)));
        }
        lemma_caps_chain(k0.objects.slots, k.objects.slots, k2.objects.slots);
    }
    lemma_endpoint_left(k0, k2, at, tcb);
    lemma_no_reply(k0, k2, tcb, receiver);
    lemma_step(k0, k2, tcb, receiver);
    assert(!k0.queue.contains(receiver) && !k0.queue.contains(tcb));
    assert(is_loose(k2, receiver) && is_loose(k2, tcb));
    lemma_ready(k2, tcb);
    let queued = off.with_ready(tcb);
    assert(idle(queued) == k2.with_ready(tcb));
    assert(is_loose(k2.with_ready(tcb), receiver));
    lemma_switched(queued, receiver);
    assert forall|u: u64| is_loose(queued, u) && u != receiver implies #[trigger] is_loose(
        k0,
        u,
    ) by {
        assert(is_loose(k2.with_ready(tcb), u));
        assert(is_loose(k2, u));
    }
}

/// Parking the thread on the hart on an endpoint.
proof fn lemma_parked(
    k0: KernelView,
    k: KernelView,
    tcb: u64,
    t: TcbView,
    at: u64,
    direction: EndpointState,
)
    requires
        is_entered(k0, k, tcb),
        !(direction is Idle),
        k.objects.endpoints[at].state is Idle || k.objects.endpoints[at].state == direction,
        is_parked(direction, t.state),
        t.blocked_on == BlockedOn::Endpoint(PhysAddr(at)),
        t.reply == k.thread(tcb).reply || !(t.reply.kind is Reply),
        t.self_paddr == k.thread(tcb).self_paddr,
        t.faulted ==> t.state is BlockedOnSend && t.call_pending,
    ensures
        ({
            let parked = k.with_thread(tcb, t).with_endpoint(
                at,
                k.objects.endpoints[at].joined(tcb, direction),
            );
            &&& is_sound(idle(parked))
            &&& forall|u: u64| #[trigger] is_loose(parked, u) ==> is_loose(k0, u)
        }),
{
    reveal(is_sound);
    let parked = k.with_thread(tcb, t).with_endpoint(
        at,
        k.objects.endpoints[at].joined(tcb, direction),
    );
    let k2 = idle(parked);
    assert(k0.thread(tcb).state is Running);
    assert(k0.thread(tcb).self_paddr.0 == tcb);
    assert(others_stand(k0, k2, tcb, tcb)) by {
        assert forall|u: u64| u != tcb implies alike(k0.thread(u), #[trigger] k2.thread(u)) by {
            assert(alike(k0.thread(u), k.thread(u)));
        }
    }
    lemma_endpoint_joined(k0, k2, at, tcb, direction);
    lemma_no_reply(k0, k2, tcb, tcb);
    lemma_step(k0, k2, tcb, tcb);
    assert forall|u: u64| #[trigger] is_loose(parked, u) implies is_loose(k0, u) by {
        assert(is_loose(k2, u));
    }
}

/// What comes after a thread parked itself.
proof fn lemma_next_after(k: KernelView)
    requires
        is_sound(idle(k)),
    ensures
        ({
            let done = k.retired(Retire::Blocked);
            &&& is_sound(done.0)
            &&& done.1 matches Next::Resume(t) ==> done.0.current == Some(t)
            &&& done.1 is Leave ==> done.0.current is None
            &&& forall|u: u64| #[trigger] is_loose(done.0, u) ==> is_loose(k, u)
        }),
{
    reveal(is_sound);
    let parted = k.parted(Retire::Blocked);
    lemma_elsewhere(idle(k), parted);
    lemma_next(parted);
    assert forall|u: u64| #[trigger] is_loose(parted, u) implies is_loose(k, u) by {}
}

/// Sending a message leaves everything sound.
proof fn lemma_sent(
    k0: KernelView,
    k: KernelView,
    tcb: u64,
    ep: RawCap,
    info: MessageInfo,
    is_call: bool,
)
    requires
        is_entered(k0, k, tcb),
        k.thread(tcb).faulted ==> is_call,
    ensures
        ({
            let done = crate::sched::message::sent(k, tcb, ep, info, is_call);
            &&& is_sound(done.0)
            &&& done.1 matches Next::Resume(t) ==> done.0.current == Some(t)
            &&& done.1 is Leave ==> done.0.current is None
            &&& forall|u: u64| #[trigger] is_loose(done.0, u) ==> is_loose(k0, u)
        }),
{
    let at = ep.paddr.0;
    let e = k.objects.endpoints[at];
    lemma_settled(k0, at);
    if e.waiting(EndpointState::Receiving) {
        if is_call {
            lemma_called(k0, k, tcb, ep, info);
        } else {
            lemma_handed_over(k0, k, tcb, ep, info);
        }
    } else {
        let t = TcbView {
            badge: ep.badge_spec(),
            call_pending: is_call,
            state: ThreadState::BlockedOnSend,
            blocked_on: BlockedOn::Endpoint(ep.paddr),
            ..k.thread(tcb)
        };
        lemma_parked(k0, k, tcb, t, at, EndpointState::Sending);
        lemma_next_after(
            k.with_thread(tcb, t).with_endpoint(at, e.joined(tcb, EndpointState::Sending)),
        );
    }
}

/// What is known of the thread on the hart.
proof fn lemma_on_the_hart(k: KernelView, tcb: u64)
    requires
        is_sound(k),
        k.current == Some(tcb),
    ensures
        k.thread(tcb).state is Running,
        k.thread(tcb).self_paddr.0 == tcb,
        !k.thread(tcb).faulted,
        !k.queue.contains(tcb),
{
    reveal(is_sound);
}

proof fn lemma_settled(k: KernelView, at: u64)
    requires
        is_sound(k),
    ensures
        k.objects.endpoints[at].is_settled(),
{
    reveal(is_sound);
}

proof fn lemma_entered_self(k: KernelView, tcb: u64)
    requires
        is_sound(k),
        k.current == Some(tcb),
    ensures
        is_entered(k, k, tcb),
{
    lemma_caps_same(k.objects.slots, k.objects.slots);
}

/// Taking the message of a thread that has been waiting to make a call.
proof fn lemma_call_collected(k: KernelView, tcb: u64, ep: RawCap)
    requires
        is_sound(k),
        k.current == Some(tcb),
        k.objects.endpoints[ep.paddr.0].waiting(EndpointState::Sending),
        k.thread(k.objects.endpoints[ep.paddr.0].queue[0]).call_pending,
    ensures
        ({
            let done = crate::sched::message::received_on(k, tcb, ep);
            &&& is_sound(done.0)
            &&& done.0.current == Some(tcb)
            &&& done.1 == Next::Resume(tcb)
            &&& forall|u: u64| #[trigger] is_loose(done.0, u) ==> is_loose(k, u)
        }),
{
    reveal(is_sound);
    let at = ep.paddr.0;
    let e = k.objects.endpoints[at];
    let sender = e.queue[0];
    let badge = k.thread(sender).badge;
    let info = MessageInfo(k.thread(sender).frame.x[crate::trap::A1 as int]);
    assert(e.queue.contains(sender));
    assert(waits_on(k, at, sender));
    assert(k.thread(sender).state is BlockedOnSend);
    assert(k.thread(tcb).state is Running);
    assert(sender != tcb);
    assert(k.thread(tcb).self_paddr.0 == tcb && k.thread(sender).self_paddr.0 == sender);
    assert(!k.thread(tcb).faulted);
    let taken = k.with_endpoint(at, e.left_with(e.queue.drop_first()));
    lemma_delivered(taken, sender, tcb, info, badge);
    let told = crate::sched::message::delivered(taken, sender, tcb, info, badge).badge_logged(badge);
    assert(alike(taken.thread(sender), told.thread(sender)));
    assert(alike(taken.thread(tcb), told.thread(tcb)));
    let holding = told.with_thread(tcb, TcbView { reply: crate::sched::message::reply_to(told.thread(sender)), ..told.thread(tcb) });
    let k2 = holding.with_thread(
        sender,
        TcbView {
            state: ThreadState::AwaitingReply,
            call_pending: false,
            blocked_on: BlockedOn::Nothing,
            ..holding.thread(sender)
        },
    );
    assert(others_stand(k, k2, tcb, sender)) by {
        assert forall|t: u64| t != tcb && t != sender implies alike(
            k.thread(t),
            #[trigger] k2.thread(t),
        ) by {
            assert(alike(taken.thread(t), told.thread(t)));
        }
    }
    lemma_endpoint_left(k, k2, at, tcb);
    assert(others_stand(k, k2, sender, tcb));
    lemma_reply_made(k, k2, sender, tcb);
    assert(!k.queue.contains(sender) && !k.queue.contains(tcb));
    lemma_step(k, k2, tcb, sender);
}

/// Taking the message of a thread that has been waiting to send it.
proof fn lemma_send_collected(k: KernelView, tcb: u64, ep: RawCap)
    requires
        is_sound(k),
        k.current == Some(tcb),
        k.objects.endpoints[ep.paddr.0].waiting(EndpointState::Sending),
        !k.thread(k.objects.endpoints[ep.paddr.0].queue[0]).call_pending,
    ensures
        ({
            let done = crate::sched::message::received_on(k, tcb, ep);
            &&& is_sound(done.0)
            &&& done.0.current == Some(tcb)
            &&& done.1 == Next::Resume(tcb)
            &&& forall|u: u64| #[trigger] is_loose(done.0, u) ==> is_loose(k, u)
        }),
{
    reveal(is_sound);
    let at = ep.paddr.0;
    let e = k.objects.endpoints[at];
    let sender = e.queue[0];
    let badge = k.thread(sender).badge;
    let info = MessageInfo(k.thread(sender).frame.x[crate::trap::A1 as int]);
    assert(e.queue.contains(sender));
    assert(waits_on(k, at, sender));
    assert(k.thread(sender).state is BlockedOnSend);
    assert(k.thread(tcb).state is Running);
    assert(sender != tcb);
    assert(k.thread(tcb).self_paddr.0 == tcb && k.thread(sender).self_paddr.0 == sender);
    assert(!k.thread(tcb).faulted);
    let taken = k.with_endpoint(at, e.left_with(e.queue.drop_first()));
    lemma_delivered(taken, sender, tcb, info, badge);
    let told = crate::sched::message::delivered(taken, sender, tcb, info, badge).badge_logged(badge);
    assert(alike(taken.thread(sender), told.thread(sender)));
    assert(alike(taken.thread(tcb), told.thread(tcb)));
    let holding = told.with_thread(tcb, TcbView { reply: RawCap::null_spec(), ..told.thread(tcb) });
    let k2 = holding.with_thread(
        sender,
        (TcbView {
            state: ThreadState::Ready,
            blocked_on: BlockedOn::Nothing,
            ..holding.thread(sender)
        }).with_reg(crate::trap::A0 as int, crate::abi::result::OK),
    );
    assert(others_stand(k, k2, tcb, sender)) by {
        assert forall|t: u64| t != tcb && t != sender implies alike(
            k.thread(t),
            #[trigger] k2.thread(t),
        ) by {
            assert(alike(taken.thread(t), told.thread(t)));
        }
    }
    lemma_endpoint_left(k, k2, at, tcb);
    lemma_no_reply(k, k2, tcb, sender);
    assert(!k.queue.contains(sender) && !k.queue.contains(tcb));
    lemma_step(k, k2, tcb, sender);
    assert(is_loose(k2, sender));
    lemma_ready(k2, sender);
    assert forall|u: u64| #[trigger] is_loose(k2.with_ready(sender), u) implies is_loose(k, u) by {
        assert(is_loose(k2, u));
    }
}

/// Receiving on an endpoint leaves everything sound.
proof fn lemma_received(k: KernelView, tcb: u64, ep: RawCap)
    requires
        is_sound(k),
        k.current == Some(tcb),
    ensures
        ({
            let done = crate::sched::message::received_on(k, tcb, ep);
            &&& is_sound(done.0)
            &&& done.1 matches Next::Resume(t) ==> done.0.current == Some(t)
            &&& done.1 is Leave ==> done.0.current is None
            &&& forall|u: u64| #[trigger] is_loose(done.0, u) ==> is_loose(k, u)
        }),
{
    let at = ep.paddr.0;
    let e = k.objects.endpoints[at];
    lemma_settled(k, at);
    lemma_on_the_hart(k, tcb);
    if e.waiting(EndpointState::Sending) {
        if k.thread(e.queue[0]).call_pending {
            lemma_call_collected(k, tcb, ep);
        } else {
            lemma_send_collected(k, tcb, ep);
        }
    } else {
        let t = TcbView {
            state: ThreadState::BlockedOnRecv,
            blocked_on: BlockedOn::Endpoint(ep.paddr),
            ..k.thread(tcb)
        };
        lemma_entered_self(k, tcb);
        lemma_parked(k, k, tcb, t, at, EndpointState::Receiving);
        lemma_next_after(
            k.with_thread(tcb, t).with_endpoint(at, e.joined(tcb, EndpointState::Receiving)),
        );
    }
}

/// Answering the thread whose reply is held makes it ready.
proof fn lemma_answered(k: KernelView, tcb: u64)
    requires
        is_sound(k),
        k.current == Some(tcb),
        k.thread(tcb).reply.kind is Reply,
    ensures
        ({
            let caller = k.thread(tcb).reply.paddr.0;
            let k2 = crate::sched::message::answered(k, tcb);
            &&& is_sound(k2)
            &&& k2.current == Some(tcb)
            &&& is_loose(k2, caller)
            &&& caller != tcb
            &&& forall|u: u64| #[trigger] is_loose(k2, u) ==> is_loose(k, u) || u == caller
        }),
{
    reveal(is_sound);
    let caller = k.thread(tcb).reply.paddr.0;
    let k2 = crate::sched::message::answered(k, tcb);
    let info = MessageInfo(k.thread(tcb).frame.x[crate::trap::A1 as int]);
    assert(owed(k, tcb) == Some(caller));
    assert(k.thread(caller).state is AwaitingReply);
    assert(k.thread(tcb).state is Running);
    assert(caller != tcb);
    assert(k.thread(tcb).self_paddr.0 == tcb && k.thread(caller).self_paddr.0 == caller);
    lemma_delivered(k, tcb, caller, info, 0);
    lemma_entered_self(k, tcb);
    let heard = crate::sched::message::delivered(k, tcb, caller, info, 0);
    assert(alike(k.thread(tcb), heard.thread(tcb)));
    assert(alike(k.thread(caller), heard.thread(caller)));
    assert(!k.thread(tcb).faulted);
    assert(others_stand(k, k2, tcb, caller)) by {
        assert forall|t: u64| t != tcb && t != caller implies alike(
            k.thread(t),
            #[trigger] k2.thread(t),
        ) by {
            assert(alike(k.thread(t), heard.thread(t)));
        }
    }
    lemma_endpoints_unread(k, k2, tcb, caller);
    assert(replies_are_sound(k2)) by {
        assert forall|u: u64| u != tcb implies #[trigger] owed(k2, u) == owed(k, u) by {
            if u != caller {
                assert(alike(k.thread(u), k2.thread(u)));
            }
        }
        assert forall|u: u64| (#[trigger] owed(k2, u)) is Some implies k2.thread(
            owed(k2, u)->Some_0,
        ).state is AwaitingReply by {
            assert(u != tcb);
            assert(owed(k, u) == owed(k2, u));
            assert(owed(k, u) != owed(k, tcb));
            let c = owed(k, u)->Some_0;
            assert(k.thread(c).state is AwaitingReply);
            assert(alike(k.thread(c), k2.thread(c)));
        }
        assert forall|u: u64, v: u64|
            #![trigger owed(k2, u), owed(k2, v)]
            owed(k2, u) is Some && owed(k2, u) == owed(k2, v) implies u == v by {
            assert(u != tcb && v != tcb);
            assert(owed(k, u) == owed(k, v));
        }
    }
    assert(!k.queue.contains(caller) && !k.queue.contains(tcb));
    lemma_step(k, k2, tcb, caller);
}

/// Replying leaves everything sound, and no thread that is ready off the queue.
proof fn lemma_replied(k: KernelView, tcb: u64, then_receive: bool)
    requires
        is_sound(k),
        k.current == Some(tcb),
    ensures
        ({
            let done = crate::sched::message::reply_called(k, tcb, then_receive);
            &&& is_sound(done.0)
            &&& done.1 matches Next::Resume(t) ==> done.0.current == Some(t)
            &&& done.1 is Leave ==> done.0.current is None
            &&& forall|u: u64| #[trigger] is_loose(done.0, u) ==> is_loose(k, u)
        }),
{
    if !(k.thread(tcb).reply.kind is Reply) {
        lemma_finished(k, tcb, crate::abi::result::ERR_NO_REPLY);
    } else {
        let caller = k.thread(tcb).reply.paddr.0;
        let done = crate::sched::message::answered(k, tcb);
        lemma_answered(k, tcb);
        lemma_on_the_hart(done, tcb);
        if then_receive {
            match crate::sched::message::receivable(done, done.thread(tcb)) {
                Err(_) => {
                    lemma_ready(done, caller);
                    lemma_finished(
                        done.with_ready(caller),
                        tcb,
                        crate::abi::result::ERR_BAD_CAP,
                    );
                },
                Ok(ep) => {
                    let e = done.objects.endpoints[ep.paddr.0];
                    lemma_settled(done, ep.paddr.0);
                    if e.waiting(EndpointState::Sending) {
                        lemma_ready(done, caller);
                        lemma_received(done.with_ready(caller), tcb, ep);
                    } else {
                        let t = TcbView {
                            state: ThreadState::BlockedOnRecv,
                            blocked_on: BlockedOn::Endpoint(ep.paddr),
                            ..done.thread(tcb)
                        };
                        lemma_entered_self(done, tcb);
                        lemma_parked(done, done, tcb, t, ep.paddr.0, EndpointState::Receiving);
                        let parked = done.with_thread(tcb, t).with_endpoint(
                            ep.paddr.0,
                            e.joined(tcb, EndpointState::Receiving),
                        );
                        assert(is_loose(parked, caller));
                        lemma_switched(parked, caller);
                    }
                },
            }
        } else {
            lemma_gave_way(done, tcb, caller);
        }
    }
}

/// A thread that makes way for one that is loose, and stays runnable.
proof fn lemma_gave_way(k: KernelView, tcb: u64, next: u64)
    requires
        is_sound(k),
        k.current == Some(tcb),
        is_loose(k, next),
    ensures
        ({
            let off = k.with_thread(
                tcb,
                TcbView { state: ThreadState::Ready, ..k.thread(tcb) }.with_reg(
                    crate::trap::A0 as int,
                    crate::abi::result::OK,
                ),
            );
            let done = off.with_ready(tcb).switched(next);
            &&& is_sound(done.0)
            &&& done.0.current == Some(next)
            &&& done.1 == Next::Resume(next)
            &&& forall|u: u64| #[trigger] is_loose(done.0, u) ==> is_loose(k, u) && u != next
        }),
{
    reveal(is_sound);
    let off = k.with_thread(
        tcb,
        TcbView { state: ThreadState::Ready, ..k.thread(tcb) }.with_reg(
            crate::trap::A0 as int,
            crate::abi::result::OK,
        ),
    );
    let k2 = idle(off);
    assert(k.thread(tcb).state is Running);
    assert(k.thread(tcb).self_paddr.0 == tcb);
    assert(!k.thread(tcb).faulted);
    assert(!k.queue.contains(tcb));
    lemma_entered_self(k, tcb);
    assert(others_stand(k, k2, tcb, tcb)) by {
        assert forall|t: u64| t != tcb implies alike(k.thread(t), #[trigger] k2.thread(t)) by {}
    }
    lemma_endpoints_unread(k, k2, tcb, tcb);
    lemma_no_reply(k, k2, tcb, tcb);
    lemma_step(k, k2, tcb, tcb);
    assert(is_loose(k2, tcb) && is_loose(k2, next));
    lemma_ready(k2, tcb);
    let queued = off.with_ready(tcb);
    assert(idle(queued) == k2.with_ready(tcb));
    assert(is_loose(k2.with_ready(tcb), next));
    lemma_switched(queued, next);
    assert forall|u: u64| is_loose(queued, u) && u != next implies #[trigger] is_loose(k, u) by {
        assert(is_loose(k2.with_ready(tcb), u));
        assert(is_loose(k2, u));
    }
}

/// Answering a system call leaves everything sound.
proof fn lemma_finished(k: KernelView, tcb: u64, value: u64)
    requires
        is_sound(k),
    ensures
        is_sound(k.finished(tcb, value).0),
        k.finished(tcb, value).0.current == k.current,
        forall|u: u64| #[trigger] is_loose(k.finished(tcb, value).0, u) == is_loose(k, u),
{
    let k2 = k.finished(tcb, value).0;
    lemma_caps_same(k.objects.slots, k2.objects.slots);
    lemma_alike(k, k2);
}

// --- Invocations ---

/// What changes objects but moves no thread leaves everything sound.
proof fn lemma_objects(k: KernelView, v: ObjectsView)
    requires
        is_sound(k),
        v.threads == k.objects.threads,
        v.endpoints == k.objects.endpoints,
        caps_stand(k.objects.slots, v.slots),
    ensures
        is_sound(k.with_objects(v)),
        forall|u: u64| #[trigger] is_loose(k.with_objects(v), u) == is_loose(k, u),
{
    lemma_alike(k, k.with_objects(v));
}

/// A thread that is not in use.
pub open spec fn is_unused(state: ThreadState) -> bool {
    state is Inactive || state is Exited
}

/// Setting up a new thread where no thread is in use.
proof fn lemma_thread_made(k: KernelView, k2: KernelView, x: u64)
    requires
        is_sound(k),
        is_unused(k.thread(x).state),
        queues_stand(k, k2),
        k2.objects.slots == k.objects.slots,
        forall|t: u64| t != x ==> k.thread(t) == #[trigger] k2.thread(t),
        k2.thread(x).state is Inactive,
        !(k2.thread(x).reply.kind is Reply),
        !k2.thread(x).faulted,
        k2.thread(x).self_paddr.0 == x,
    ensures
        is_sound(k2),
        forall|u: u64| #[trigger] is_loose(k2, u) ==> is_loose(k, u),
{
    reveal(is_sound);
    assert forall|u: u64| (#[trigger] owed(k2, u)) is Some implies owed(k, u) == owed(k2, u)
        && owed(k, u) != Some(x) by {
        assert(k2.thread(u) == k.thread(u));
    }
    assert forall|u: u64| #[trigger] k2.queue.contains(u) implies k2.thread(u).state is Ready by {
        assert(k.queue.contains(u));
    }
    assert forall|at: u64, u: u64| #[trigger] waits_on(k2, at, u) implies is_parked(
        k2.objects.endpoints[at].state,
        k2.thread(u).state,
    ) && k2.thread(u).blocked_on == BlockedOn::Endpoint(PhysAddr(at)) by {
        assert(waits_on(k, at, u));
        assert(u != x);
    }
    assert forall|at: u64, other: u64, u: u64|
        #![trigger waits_on(k2, at, u), waits_on(k2, other, u)]
        waits_on(k2, at, u) && waits_on(k2, other, u) implies at == other by {
        assert(waits_on(k, at, u) && waits_on(k, other, u));
    }
    assert forall|u: u64| (#[trigger] k2.thread(u)).state is Running <==> k2.current == Some(u) by {
        assert(k.thread(u).state is Running <==> k.current == Some(u));
    }
    assert forall|u: u64| (#[trigger] owed(k2, u)) is Some implies k2.thread(
        owed(k2, u)->Some_0,
    ).state is AwaitingReply by {
        let c = owed(k, u)->Some_0;
        assert(owed(k, u) is Some);
        assert(k.thread(c).state is AwaitingReply);
        assert(k2.thread(c) == k.thread(c));
    }
    assert forall|u: u64, v: u64|
        #![trigger owed(k2, u), owed(k2, v)]
        owed(k2, u) is Some && owed(k2, u) == owed(k2, v) implies u == v by {
        assert(owed(k, u) == owed(k, v));
    }
    assert forall|u: u64|
        (#[trigger] k2.thread(u)).faulted implies k2.thread(u).state is AwaitingReply || k2.thread(
        u,
    ).state is BlockedOnSend && k2.thread(u).call_pending by {
        assert(k.thread(u).faulted);
    }
    assert forall|s: u64| (#[trigger] k2.objects.slots.caps[s]).kind is Tcb implies k2.thread(
        k2.objects.slots.caps[s].paddr.0,
    ).self_paddr == k2.objects.slots.caps[s].paddr by {
        let p = k.objects.slots.caps[s].paddr;
        assert(k.thread(p.0).self_paddr == p);
    }
    assert forall|t: u64|
        (#[trigger] k2.thread(t)).state is Inactive || k2.thread(t).self_paddr.0 == t by {
        let before = k.thread(t);
        assert(before.state is Inactive || before.self_paddr.0 == t);
    }
}

/// Setting up a new endpoint.
proof fn lemma_endpoint_made(k: KernelView, k2: KernelView, at: u64)
    requires
        is_sound(k),
        k2.queue == k.queue,
        k2.current == k.current,
        k2.objects.endpoints == k.objects.endpoints.insert(at, EndpointView::idle()),
        k2.objects.threads == k.objects.threads,
        k2.objects.slots == k.objects.slots,
    ensures
        is_sound(k2),
        forall|u: u64| #[trigger] is_loose(k2, u) == is_loose(k, u),
{
    reveal(is_sound);
    assert forall|u: u64| #[trigger] owed(k2, u) == owed(k, u) by {}
    assert forall|u: u64| #[trigger] k2.thread(u) == k.thread(u) by {}
    assert forall|b: u64, u: u64| #[trigger] waits_on(k2, b, u) implies b != at && waits_on(
        k,
        b,
        u,
    ) by {}
    assert forall|b: u64, u: u64| #[trigger] waits_on(k2, b, u) implies is_parked(
        k2.objects.endpoints[b].state,
        k2.thread(u).state,
    ) && k2.thread(u).blocked_on == BlockedOn::Endpoint(PhysAddr(b)) by {
        assert(waits_on(k, b, u));
    }
    assert forall|b: u64|
        (#[trigger] k2.objects.endpoints[b]).is_settled()
            && k2.objects.endpoints[b].queue.no_duplicates() by {
        assert(k.objects.endpoints[b].is_settled());
    }
    assert forall|b: u64, other: u64, u: u64|
        #![trigger waits_on(k2, b, u), waits_on(k2, other, u)]
        waits_on(k2, b, u) && waits_on(k2, other, u) implies b == other by {
        assert(waits_on(k, b, u) && waits_on(k, other, u));
    }
    assert forall|u: u64, v: u64|
        #![trigger owed(k2, u), owed(k2, v)]
        owed(k2, u) is Some && owed(k2, u) == owed(k2, v) implies u == v by {
        assert(owed(k, u) == owed(k, v));
    }
}

/// Emptying a range of slots leaves no capability that was not there.
proof fn lemma_wiped(d: Derivation, base: u64, n: nat)
    ensures
        caps_stand(d, d.wiped_range(base, n)),
    decreases n,
{
    if n == 0 {
        lemma_caps_same(d, d);
    } else {
        let before = d.wiped_range(base, (n - 1) as nat);
        lemma_wiped(d, base, (n - 1) as nat);
        lemma_caps_same(before, d.wiped_range(base, n));
        lemma_caps_chain(d, before, d.wiped_range(base, n));
    }
}

/// Setting up a new object where no thread is in use.
proof fn lemma_laid_out(k: KernelView, made: RawCap)
    requires
        is_sound(k),
        made.kind is Tcb ==> is_unused(k.thread(made.paddr.0).state),
    ensures
        ({
            let k2 = k.with_objects(crate::cap::cspace::laid_out(k.objects, made));
            &&& is_sound(k2)
            &&& forall|u: u64| #[trigger] is_loose(k2, u) ==> is_loose(k, u)
            &&& made.kind is Tcb ==> k2.thread(made.paddr.0).self_paddr == made.paddr
            &&& forall|t: u64|
                is_unused(k.thread(t).state) ==> is_unused((#[trigger] k2.thread(t)).state)
        }),
{
    let v = crate::cap::cspace::laid_out(k.objects, made);
    let k2 = k.with_objects(v);
    match made.kind {
        ObjectType::Tcb => {
            lemma_thread_made(k, k2, made.paddr.0);
        },
        ObjectType::Endpoint => {
            lemma_endpoint_made(k, k2, made.paddr.0);
        },
        ObjectType::CNode => {
            lemma_wiped(k.objects.slots, made.paddr.0, crate::cap::cspace::slots_in(made.size_bits));
            lemma_objects(k, v);
        },
        _ => {
            lemma_caps_same(k.objects.slots, v.slots);
            lemma_objects(k, v);
        },
    }
}

/// Filling a slot with a capability whose name is true.
proof fn lemma_named(k: KernelView, root: RawCap, cptr: u64, depth: u8, cap: RawCap, parent: u64)
    requires
        is_sound(k),
        cap.kind is Tcb ==> k.thread(cap.paddr.0).self_paddr == cap.paddr,
    ensures
        ({
            let put = crate::cap::cspace::inserted(
                k.objects.slots,
                root,
                cptr,
                depth,
                cap,
                Some(parent),
            );
            let k2 = k.with_slots(put.0);
            &&& is_sound(k2)
            &&& forall|u: u64| #[trigger] is_loose(k2, u) == is_loose(k, u)
        }),
{
    let put = crate::cap::cspace::inserted(k.objects.slots, root, cptr, depth, cap, Some(parent));
    let k2 = k.with_slots(put.0);
    assert forall|s: u64| (#[trigger] k2.objects.slots.caps[s]).kind is Tcb implies k2.thread(
        k2.objects.slots.caps[s].paddr.0,
    ).self_paddr == k2.objects.slots.caps[s].paddr by {
        reveal(is_sound);
        if k2.objects.slots.caps[s] != cap {
            assert(k2.objects.slots.caps[s] == k.objects.slots.caps[s]);
        }
    }
    lemma_slots_only(k, k2);
}

/// Whether no thread among new objects takes the place of one in use.
pub open spec fn spares_threads(k: KernelView, made: Seq<RawCap>) -> bool {
    forall|i: int|
        0 <= i < made.len() && (#[trigger] made[i]).kind is Tcb ==> is_unused(
            k.thread(made[i].paddr.0).state,
        )
}

proof fn lemma_installed(
    k: KernelView,
    root: RawCap,
    source: u64,
    made: Seq<RawCap>,
    dst: (u64, u8),
    n: nat,
)
    requires
        is_sound(k),
        n <= made.len(),
        spares_threads(k, made),
    ensures
        ({
            let k2 = k.with_objects(
                crate::cap::cspace::installed(k.objects, root, source, made, dst, n).0,
            );
            &&& is_sound(k2)
            &&& spares_threads(k2, made)
            &&& forall|u: u64| #[trigger] is_loose(k2, u) ==> is_loose(k, u)
        }),
    decreases n,
{
    if n > 0 {
        lemma_installed(k, root, source, made, dst, (n - 1) as nat);
        let before = crate::cap::cspace::installed(
            k.objects,
            root,
            source,
            made,
            dst,
            (n - 1) as nat,
        );
        if before.1 is Ok {
            let w = k.with_objects(before.0);
            let cap = made[n - 1];
            let laid = w.with_objects(crate::cap::cspace::laid_out(w.objects, cap));
            lemma_laid_out(w, cap);
            let cptr = crate::cap::cspace::cptr_after(dst.0, n - 1);
            lemma_named(laid, root, cptr, dst.1, cap, source);
            let put = crate::cap::cspace::inserted(
                laid.objects.slots,
                root,
                cptr,
                dst.1,
                cap,
                Some(source),
            );
            let k2 = laid.with_slots(put.0);
            assert(k2 == k.with_objects(
                crate::cap::cspace::installed(k.objects, root, source, made, dst, n).0,
            ));
            assert forall|i: int| 0 <= i < made.len() && (#[trigger] made[i]).kind is Tcb implies
                is_unused(k2.thread(made[i].paddr.0).state) by {
                assert(k2.thread(made[i].paddr.0) == laid.thread(made[i].paddr.0));
                assert(is_unused(w.thread(made[i].paddr.0).state));
            }
            assert forall|u: u64| #[trigger] is_loose(k2, u) implies is_loose(k, u) by {
                assert(is_loose(laid, u));
                assert(is_loose(w, u));
            }
        }
    } else {
        assert(k.with_objects(k.objects) == k);
    }
}

/// Whether what a thread asks its untyped memory to become takes the place of
/// no thread in use.
pub open spec fn retype_spares_threads(k: KernelView, t: TcbView) -> bool {
    let x = t.frame.x;
    match (
        k.read(t.cspace, x[crate::trap::A0 as int]),
        crate::sched::invoke::kind_named(x[crate::trap::A2 as int]),
    ) {
        (Ok(region), Some(target)) => region.kind.untyped() && MessageInfo(
            x[crate::trap::A1 as int],
        ).label_spec() == crate::abi::label::RETYPE ==> match crate::cap::untyped::retype_plan(
            region,
            target,
            (x[crate::trap::A3 as int] % 256) as u8,
            x[crate::trap::A5 as int] as nat,
        ) {
            Ok(plan) => spares_threads(k, plan.0),
            Err(_) => true,
        },
        _ => true,
    }
}

proof fn lemma_plan_len(raw: RawCap, target: ObjectType, bits: u8, n: nat)
    ensures
        crate::cap::untyped::planned(raw, target, bits, n) matches Ok(plan) ==> plan.0.len() == n,
    decreases n,
{
    if n > 0 {
        lemma_plan_len(raw, target, bits, (n - 1) as nat);
    }
}

proof fn lemma_retyped(
    k: KernelView,
    root: RawCap,
    src: (u64, u8),
    target: ObjectType,
    size_bits: u8,
    dst: (u64, u8),
    n: nat,
)
    requires
        is_sound(k),
        crate::cap::cspace::located(k.objects.slots.caps, root, src.0, src.1) matches Ok(source)
            ==> (crate::cap::untyped::retype_plan(
            k.objects.slots.caps[source],
            target,
            size_bits,
            n,
        ) matches Ok(plan) ==> spares_threads(k, plan.0)),
    ensures
        ({
            let done = crate::cap::cspace::retyped(
                k.objects,
                root,
                src,
                target,
                size_bits,
                dst,
                n,
            );
            let k2 = k.with_objects(done.0);
            &&& is_sound(k2)
            &&& forall|u: u64| #[trigger] is_loose(k2, u) ==> is_loose(k, u)
        }),
{
    let v = k.objects;
    assert(k.with_objects(v) == k);
    if let Ok(source) = crate::cap::cspace::located(v.slots.caps, root, src.0, src.1) {
        let region = v.slots.caps[source];
        if let Ok(plan) = crate::cap::untyped::retype_plan(region, target, size_bits, n) {
            let bits = crate::cap::untyped::retype_bits(region.kind, target, size_bits)->Ok_0;
            lemma_plan_len(region, target, bits, n);
            let clean = ObjectsView {
                mem: crate::cap::untyped::retyped_memory(v.mem, region.kind, plan.0),
                ..v
            };
            lemma_caps_same(v.slots, clean.slots);
            lemma_objects(k, clean);
            let started = k.with_objects(clean);
            assert(spares_threads(started, plan.0)) by {
                assert forall|i: int|
                    0 <= i < plan.0.len() && (#[trigger] plan.0[i]).kind is Tcb implies is_unused(
                    started.thread(plan.0[i].paddr.0).state,
                ) by {
                    assert(started.thread(plan.0[i].paddr.0) == k.thread(plan.0[i].paddr.0));
                }
            }
            lemma_installed(started, root, source, plan.0, dst, n);
            let w = crate::cap::cspace::installed(clean, root, source, plan.0, dst, n).0;
            let filled = k.with_objects(w);
            assert(started.with_objects(w) == filled);
            assert forall|u: u64| #[trigger] is_loose(filled, u) implies is_loose(k, u) by {
                assert(is_loose(started, u));
            }
            let used = crate::cap::cspace::consumed(w, source, region, plan.1);
            if crate::cap::cspace::retypable(region) is Ok {
                lemma_caps_same(w.slots, used.slots);
                lemma_objects(filled, used);
                assert(filled.with_objects(used) == k.with_objects(used));
            }
        }
    }
}

proof fn lemma_untyped(k: KernelView, tcb: u64, info: MessageInfo)
    requires
        is_sound(k),
        retype_spares_threads(k, k.thread(tcb)),
        k.read(k.thread(tcb).cspace, k.thread(tcb).frame.x[crate::trap::A0 as int]) matches Ok(cap)
            ==> cap.kind.untyped(),
        info == MessageInfo(k.thread(tcb).frame.x[crate::trap::A1 as int]),
    ensures
        ({
            let done = crate::sched::invoke::untyped_invoked(k, tcb, info);
            &&& is_sound(done.0)
            &&& done.0.current == k.current
            &&& done.1 == Next::Resume(tcb)
            &&& forall|u: u64| #[trigger] is_loose(done.0, u) ==> is_loose(k, u)
        }),
{
    let t = k.thread(tcb);
    let x = t.frame.x;
    let depth = crate::sched::message::own_depth(t.cspace);
    let count = x[crate::trap::A5 as int];
    lemma_finished(k, tcb, crate::abi::result::ERR_BAD_LABEL);
    let named = crate::sched::invoke::kind_named(x[crate::trap::A2 as int]);
    if named is Some && info.label_spec() == crate::abi::label::RETYPE {
        let target = named->Some_0;
        let size_bits = (x[crate::trap::A3 as int] % 256) as u8;
        let src = (x[crate::trap::A0 as int], depth);
        let dst = (x[crate::trap::A4 as int], depth);
        lemma_retyped(k, t.cspace, src, target, size_bits, dst, count as nat);
        let done = crate::cap::cspace::retyped(
            k.objects,
            t.cspace,
            src,
            target,
            size_bits,
            dst,
            count as nat,
        );
        let code = crate::sched::invoke::code_or(done.1, crate::abi::result::ERR_BAD_CAP);
        lemma_finished(k.with_objects(done.0), tcb, code);
    }
}

proof fn lemma_cnode(
    k: KernelView,
    tcb: u64,
    node: RawCap,
    info: MessageInfo,
    after: KernelView,
    next: Next,
)
    requires
        is_sound(k),
        crate::sched::invoke::is_cnode_invocation(k, tcb, node, info, after, next),
    ensures
        is_sound(after),
        after.current == k.current,
        next == Next::Resume(tcb),
        forall|u: u64| #[trigger] is_loose(after, u) == is_loose(k, u),
{
    let t = k.thread(tcb);
    let x = t.frame.x;
    let depth = crate::sched::message::own_depth(t.cspace);
    let src = x[crate::trap::A2 as int];
    let label = info.label_spec();
    lemma_finished(k, tcb, crate::abi::result::ERR_BAD_CAP);
    lemma_finished(k, tcb, crate::abi::result::ERR_BAD_LABEL);
    if label == crate::abi::label::MINT {
        let d = k.objects.slots;
        let dst = (x[crate::trap::A3 as int], crate::sched::message::own_depth(node));
        let rights = (x[crate::trap::A4 as int] % 256) as u8;
        let badge = x[crate::trap::A5 as int];
        let done = crate::cap::cspace::minted(
            d,
            t.cspace,
            (src, depth),
            node,
            dst,
            rights,
            badge,
        );
        lemma_caps_same(d, d);
        if let Ok(source) = crate::cap::cspace::located(d.caps, t.cspace, src, depth) {
            if let Ok(copy) = crate::cap::cspace::minted_cap(d.caps[source], rights, badge) {
                lemma_inserted(d, node, dst.0, dst.1, copy, Some(source));
            }
        }
        let v = ObjectsView { slots: done.0, ..k.objects };
        lemma_objects(k, v);
        assert(k.with_slots(done.0) == k.with_objects(v));
        let code = crate::sched::invoke::code_or(done.1, crate::abi::result::ERR_BAD_CAP);
        lemma_finished(k.with_slots(done.0), tcb, code);
    } else if label == crate::abi::label::REVOKE || label == crate::abi::label::DELETE {
        if let Ok(a) = k.find(t.cspace, src) {
            let v = crate::sched::invoke::destroyed(
                k.objects,
                a,
                label == crate::abi::label::DELETE,
            );
            lemma_caps_same(k.objects.slots, v.slots);
            lemma_objects(k, v);
            lemma_finished(k.with_objects(v), tcb, crate::abi::result::OK);
        }
    }
}

/// Changing one capability for another of the same kind.
proof fn lemma_slot_changed(k: KernelView, v: ObjectsView, slot: u64)
    requires
        is_sound(k),
        v.threads == k.objects.threads,
        v.endpoints == k.objects.endpoints,
        v.slots.caps[slot].kind == k.objects.slots.caps[slot].kind,
        !(k.objects.slots.caps[slot].kind is Tcb),
        forall|s: u64| s != slot ==> #[trigger] v.slots.caps[s] == k.objects.slots.caps[s],
    ensures
        is_sound(k.with_objects(v)),
        forall|u: u64| #[trigger] is_loose(k.with_objects(v), u) == is_loose(k, u),
{
    lemma_caps_same(k.objects.slots, v.slots);
    lemma_objects(k, v);
}

proof fn lemma_mapping(k: KernelView, tcb: u64, info: MessageInfo)
    requires
        is_sound(k),
        k.read(k.thread(tcb).cspace, k.thread(tcb).frame.x[crate::trap::A0 as int]) matches Ok(cap)
            ==> cap.kind is Frame || cap.kind is PageTable,
    ensures
        ({
            let done = crate::sched::invoke::mapping_invoked(k, tcb, info);
            &&& is_sound(done.0)
            &&& done.0.current == k.current
            &&& done.1 == Next::Resume(tcb)
            &&& forall|u: u64| #[trigger] is_loose(done.0, u) == is_loose(k, u)
        }),
{
    let t = k.thread(tcb);
    let x = t.frame.x;
    let v = k.objects;
    if let Ok(slot) = k.find(t.cspace, x[crate::trap::A0 as int]) {
        let cap = v.slots.caps[slot];
        assert(cap.kind is Frame || cap.kind is PageTable);
        let label = info.label_spec();
        if label == crate::abi::label::MAP {
            lemma_map(k, tcb, slot);
        } else if label == crate::abi::label::UNMAP {
            let gone = crate::cap::vspace::cap_unmapped(cap, v.mem);
            let w = crate::sched::invoke::remapped(
                v,
                slot,
                gone,
                crate::cap::vspace::unmap_flushes(cap, v.mem, v.flushes),
            );
            assert(gone.cap.kind == cap.kind);
            lemma_slot_changed(k, w, slot);
            lemma_finished(
                k.with_objects(w),
                tcb,
                crate::sched::invoke::code_or(gone.result, crate::abi::result::ERR_MAP),
            );
        } else if label == crate::abi::label::GET_ADDRESS {
            lemma_finished(k, tcb, cap.paddr.0);
            if let Err(e) = crate::cap::typed(cap, ObjectType::Frame, crate::abi::rights::WRITE) {
                lemma_finished(k, tcb, crate::sched::invoke::error_code(e));
            }
        } else if label == crate::abi::label::ASSIGN {
            let given = crate::cap::vspace::table_assigned(cap, v.mem, v.asids, v.kernel_root);
            let w = ObjectsView {
                slots: v.slots.with_cap(slot, given.table),
                mem: given.mem,
                asids: given.asids,
                ..v
            };
            assert(given.table.kind == cap.kind);
            lemma_slot_changed(k, w, slot);
            lemma_finished(
                k.with_objects(w),
                tcb,
                crate::sched::invoke::outcome_code(given.result),
            );
        } else {
            lemma_finished(k, tcb, crate::abi::result::ERR_BAD_LABEL);
        }
    } else {
        lemma_finished(k, tcb, crate::abi::result::ERR_BAD_CAP);
    }
}

proof fn lemma_map(k: KernelView, tcb: u64, slot: u64)
    requires
        is_sound(k),
        k.objects.slots.caps[slot].kind is Frame || k.objects.slots.caps[slot].kind is PageTable,
    ensures
        ({
            let done = crate::sched::invoke::map_invoked(k, tcb, slot);
            &&& is_sound(done.0)
            &&& done.0.current == k.current
            &&& done.1 == Next::Resume(tcb)
            &&& forall|u: u64| #[trigger] is_loose(done.0, u) == is_loose(k, u)
        }),
{
    let t = k.thread(tcb);
    let x = t.frame.x;
    let v = k.objects;
    let cap = v.slots.caps[slot];
    let va = x[crate::trap::A3 as int];
    let level = x[crate::trap::A5 as int];
    lemma_finished(k, tcb, crate::abi::result::ERR_BAD_CAP);
    if let Ok(vspace) = k.read(t.cspace, x[crate::trap::A2 as int]) {
        if cap.kind is PageTable {
            let put = crate::cap::vspace::table_mapped(cap, vspace, v.mem, va, level as int);
            let w = crate::sched::invoke::remapped(v, slot, put, v.flushes);
            lemma_slot_changed(k, w, slot);
            lemma_finished(
                k.with_objects(w),
                tcb,
                crate::sched::invoke::code_or(put.result, crate::abi::result::ERR_MAP),
            );
        } else {
            let put = crate::cap::vspace::frame_mapped(
                cap,
                vspace,
                v.mem,
                va,
                (x[crate::trap::A4 as int] % 256) as u8,
                level != 0 && cap.rights & crate::abi::rights::GRANT != 0,
            );
            let w = crate::sched::invoke::remapped(
                v,
                slot,
                put,
                crate::cap::vspace::flushed(v.flushes, va, put.result is Ok),
            );
            lemma_slot_changed(k, w, slot);
            lemma_finished(
                k.with_objects(w),
                tcb,
                crate::sched::invoke::code_or(put.result, crate::abi::result::ERR_MAP),
            );
        }
    }
}

/// Changing a thread without moving it.
proof fn lemma_adjusted(k: KernelView, a: u64, t: TcbView)
    requires
        is_sound(k),
        alike(k.thread(a), t),
    ensures
        is_sound(k.with_thread(a, t)),
        forall|u: u64| #[trigger] is_loose(k.with_thread(a, t), u) == is_loose(k, u),
{
    let k2 = k.with_thread(a, t);
    lemma_caps_same(k.objects.slots, k2.objects.slots);
    lemma_alike(k, k2);
}

proof fn lemma_resumed(k: KernelView, a: u64)
    requires
        is_sound(k),
        k.thread(a).self_paddr.0 == a,
    ensures
        ({
            let k2 = crate::sched::invoke::resumed(k, a).0;
            &&& is_sound(k2)
            &&& k2.current == k.current
            &&& forall|u: u64| #[trigger] is_loose(k2, u) ==> is_loose(k, u)
        }),
{
    if k.thread(a).state is Inactive {
        reveal(is_sound);
        let ready = k.with_state(a, ThreadState::Ready);
        lemma_caps_same(k.objects.slots, ready.objects.slots);
        assert(others_stand(k, ready, a, a));
        lemma_endpoints_unread(k, ready, a, a);
        lemma_no_reply(k, ready, a, a);
        assert(!k.queue.contains(a));
        assert(k.current != Some(a));
        assert(!k.thread(a).faulted);
        lemma_step(k, ready, a, a);
        lemma_ready(ready, a);
        let k2 = crate::sched::enlisted(ready, a);
        lemma_elsewhere(ready.with_ready(a), k2);
        assert forall|u: u64| #[trigger] is_loose(k2, u) implies is_loose(k, u) by {
            assert(is_loose(ready.with_ready(a), u));
            assert(is_loose(ready, u));
        }
    }
}

/// What is left of a queue that has no repetitions.
proof fn lemma_without(s: Seq<u64>, a: u64)
    requires
        s.no_duplicates(),
    ensures
        crate::queue::without_first(s, a).no_duplicates(),
        forall|u: u64| #[trigger]
            crate::queue::without_first(s, a).contains(u) <==> s.contains(u) && u != a,
    decreases s.len(),
{
    let left = crate::queue::without_first(s, a);
    if s.len() > 0 {
        let rest = s.drop_first();
        assert forall|u: u64| #[trigger] rest.contains(u) <==> s.contains(u) && u != s[0] by {
            if rest.contains(u) {
                let i = choose|i: int| 0 <= i < rest.len() && rest[i] == u;
                assert(s[i + 1] == u);
            }
            if s.contains(u) && u != s[0] {
                let i = choose|i: int| 0 <= i < s.len() && s[i] == u;
                assert(rest[i - 1] == u);
            }
        }
        assert(rest.no_duplicates()) by {
            assert forall|i: int, j: int|
                0 <= i < rest.len() && 0 <= j < rest.len() && i != j implies rest[i] != rest[j] by {
                assert(s[i + 1] != s[j + 1]);
            }
        }
        if s[0] != a {
            lemma_without(rest, a);
            let tail = crate::queue::without_first(rest, a);
            assert(left == seq![s[0]] + tail);
            assert forall|u: u64| #[trigger] left.contains(u) <==> u == s[0] || tail.contains(u) by {
                if left.contains(u) && u != s[0] {
                    let i = choose|i: int| 0 <= i < left.len() && left[i] == u;
                    assert(tail[i - 1] == u);
                }
                if tail.contains(u) {
                    let i = choose|i: int| 0 <= i < tail.len() && tail[i] == u;
                    assert(left[i + 1] == u);
                }
                assert(left[0] == s[0]);
            }
            assert forall|i: int, j: int|
                0 <= i < left.len() && 0 <= j < left.len() && i != j implies left[i] != left[j] by {
                if i > 0 && j > 0 {
                    assert(tail[i - 1] != tail[j - 1]);
                } else if i > 0 {
                    assert(tail.contains(tail[i - 1]));
                } else {
                    assert(tail.contains(tail[j - 1]));
                }
            }
        }
    }
}

proof fn lemma_suspended(k: KernelView, a: u64)
    requires
        is_sound(k),
        k.thread(a).self_paddr.0 == a,
    ensures
        ({
            let k2 = crate::sched::invoke::suspended(k, a).0;
            &&& is_sound(k2)
            &&& k2.current == k.current
            &&& forall|u: u64| #[trigger] is_loose(k2, u) ==> is_loose(k, u)
        }),
{
    if k.thread(a).state is Ready {
        reveal(is_sound);
        lemma_without(k.queue, a);
        let off = KernelView { queue: crate::queue::without_first(k.queue, a), ..k };
        lemma_elsewhere(k, off);
        assert(is_sound(off)) by {
            assert forall|u: u64| #[trigger] off.queue.contains(u) implies off.thread(u).state is Ready by {
                assert(k.queue.contains(u));
            }
        }
        let k2 = crate::sched::invoke::suspended(k, a).0;
        lemma_caps_same(off.objects.slots, k2.objects.slots);
        assert(others_stand(off, k2, a, a));
        lemma_endpoints_unread(off, k2, a, a);
        lemma_no_reply(off, k2, a, a);
        assert(!off.queue.contains(a));
        assert(k.current != Some(a));
        assert(!k.thread(a).faulted);
        lemma_step(off, k2, a, a);
        assert forall|u: u64| #[trigger] is_loose(k2, u) implies is_loose(k, u) by {
            assert(u != a);
        }
    }
}

proof fn lemma_thread_invoked(k: KernelView, tcb: u64, cap: RawCap, info: MessageInfo)
    requires
        is_sound(k),
        k.current == Some(tcb),
        k.read(k.thread(tcb).cspace, k.thread(tcb).frame.x[crate::trap::A0 as int]) == Ok::<
            RawCap,
            crate::cap::CapError,
        >(cap),
    ensures
        ({
            let done = crate::sched::invoke::tcb_invoked(k, tcb, cap, info);
            &&& is_sound(done.0)
            &&& done.0.current == k.current
            &&& done.1 == Next::Resume(tcb)
            &&& forall|u: u64| #[trigger] is_loose(done.0, u) ==> is_loose(k, u)
        }),
{
    let t = k.thread(tcb);
    let x = t.frame.x;
    let a = cap.paddr.0;
    let label = info.label_spec();
    match crate::cap::tcb::checked(cap, t) {
        Err(e) => {
            lemma_finished(k, tcb, crate::sched::invoke::error_code(e));
        },
        Ok(_) => {
            assert(k.thread(a).self_paddr.0 == a) by {
                reveal(is_sound);
                let s = k.find(t.cspace, x[crate::trap::A0 as int])->Ok_0;
                assert(k.objects.slots.caps[s] == cap);
            }
            match crate::sched::invoke::thread_adjusted(k, t, a, label) {
                None => {
                    lemma_finished(k, tcb, crate::abi::result::ERR_BAD_LABEL);
                },
                Some((after, r)) => {
                    if label == crate::abi::label::RESUME {
                        lemma_resumed(k, a);
                    } else if label == crate::abi::label::SUSPEND {
                        lemma_suspended(k, a);
                    } else {
                        lemma_adjusted(k, a, after.thread(a));
                        assert(after == k || after == k.with_thread(a, after.thread(a)));
                    }
                    lemma_finished(after, tcb, crate::sched::invoke::outcome_code(r));
                },
            }
        },
    }
}

proof fn lemma_invoked(k: KernelView, tcb: u64, is_call: bool, after: KernelView, next: Next)
    requires
        is_sound(k),
        k.current == Some(tcb),
        retype_spares_threads(k, k.thread(tcb)),
        crate::sched::invoke::is_invocation(k, tcb, is_call, after, next),
    ensures
        is_sound(after),
        next matches Next::Resume(t) ==> after.current == Some(t),
        next is Leave ==> after.current is None,
        forall|u: u64| #[trigger] is_loose(after, u) ==> is_loose(k, u),
{
    let t = k.thread(tcb);
    let info = MessageInfo(t.frame.x[crate::trap::A1 as int]);
    lemma_finished(k, tcb, crate::abi::result::ERR_NO_CSPACE);
    lemma_finished(k, tcb, crate::abi::result::ERR_BAD_CAP);
    lemma_on_the_hart(k, tcb);
    if t.cspace.kind is CNode {
        if let Ok(cap) = k.read(t.cspace, t.frame.x[crate::trap::A0 as int]) {
            match cap.kind {
                ObjectType::Endpoint => {
                    lemma_entered_self(k, tcb);
                    lemma_sent(k, k, tcb, cap, info, is_call);
                },
                ObjectType::Untyped | ObjectType::DeviceUntyped => {
                    lemma_untyped(k, tcb, info);
                },
                ObjectType::CNode => {
                    lemma_cnode(k, tcb, cap, info, after, next);
                },
                ObjectType::Frame | ObjectType::PageTable => {
                    lemma_mapping(k, tcb, info);
                },
                ObjectType::Tcb => {
                    lemma_thread_invoked(k, tcb, cap, info);
                },
                _ => {},
            }
        }
    }
}

// --- Every step ---

proof fn lemma_syscall(k: KernelView, tcb: u64, after: KernelView, next: Next)
    requires
        is_sound(k),
        k.current == Some(tcb),
        retype_spares_threads(k, k.thread(tcb)),
        crate::sched::entry::is_syscall(k, tcb, after, next),
    ensures
        is_sound(after),
        next matches Next::Resume(t) ==> after.current == Some(t),
        next is Leave ==> after.current is None,
        forall|u: u64| #[trigger] is_loose(after, u) ==> is_loose(k, u),
{
    let number = k.thread(tcb).frame.x[crate::trap::A7 as int];
    let past = k.with_thread(tcb, crate::sched::entry::past_ecall(k.thread(tcb)));
    lemma_adjusted(k, tcb, crate::sched::entry::past_ecall(k.thread(tcb)));
    assert(past.objects.slots == k.objects.slots);
    if number == crate::abi::syscall::YIELD {
        lemma_retired(past, Retire::Requeue);
    } else if number == crate::abi::syscall::EXIT {
        lemma_retired(past, Retire::Exited);
    } else if number == crate::abi::syscall::CALL || number == crate::abi::syscall::SEND {
        assert(retype_spares_threads(past, past.thread(tcb))) by {
            lemma_spares_past(k, past, tcb);
        }
        lemma_invoked(past, tcb, number == crate::abi::syscall::CALL, after, next);
    } else if number == crate::abi::syscall::RECV {
        if let Ok(ep) = crate::sched::message::receivable(past, past.thread(tcb)) {
            lemma_received(past, tcb, ep);
        } else {
            lemma_finished(past, tcb, crate::abi::result::ERR_BAD_CAP);
            lemma_finished(past, tcb, crate::abi::result::ERR_NO_CSPACE);
        }
    } else if number == crate::abi::syscall::REPLY {
        lemma_replied(past, tcb, false);
    } else if number == crate::abi::syscall::REPLY_RECV {
        lemma_replied(past, tcb, true);
    } else if number == crate::abi::syscall::PUTC {
        let arg = k.thread(tcb).frame.x[crate::trap::A0 as int];
        let said = past.with_action(crate::sched::Action::Print((arg % 256) as u8));
        lemma_elsewhere_sound(past, said);
        lemma_finished(said, tcb, crate::abi::result::OK);
    } else if number == crate::abi::syscall::GET_ID {
        lemma_finished(past, tcb, past.thread(tcb).id);
    } else {
        lemma_finished(past, tcb, crate::sched::entry::UNKNOWN_CALL);
    }
}

/// Where the program counter stands makes no difference to what is asked.
proof fn lemma_spares_past(k: KernelView, past: KernelView, tcb: u64)
    requires
        retype_spares_threads(k, k.thread(tcb)),
        past == k.with_thread(tcb, crate::sched::entry::past_ecall(k.thread(tcb))),
    ensures
        retype_spares_threads(past, past.thread(tcb)),
{
    let t = k.thread(tcb);
    let x = t.frame.x;
    let read = k.read(t.cspace, x[crate::trap::A0 as int]);
    let named = crate::sched::invoke::kind_named(x[crate::trap::A2 as int]);
    if read is Ok && named is Some {
        let plan = crate::cap::untyped::retype_plan(
            read->Ok_0,
            named->Some_0,
            (x[crate::trap::A3 as int] % 256) as u8,
            x[crate::trap::A5 as int] as nat,
        );
        if plan is Ok && spares_threads(k, plan->Ok_0.0) {
            let made = plan->Ok_0.0;
            assert forall|i: int| 0 <= i < made.len() && (#[trigger] made[i]).kind is Tcb implies
                is_unused(past.thread(made[i].paddr.0).state) by {
                assert(is_unused(k.thread(made[i].paddr.0).state));
            }
        }
    }
}

/// What touches neither threads, queues nor capabilities leaves everything
/// sound.
pub(crate) proof fn lemma_elsewhere_sound(k: KernelView, k2: KernelView)
    requires
        is_sound(k),
        queues_stand(k, k2),
        k2.objects.threads == k.objects.threads,
        k2.objects.slots == k.objects.slots,
    ensures
        is_sound(k2),
        forall|u: u64| #[trigger] is_loose(k2, u) == is_loose(k, u),
{
    reveal(is_sound);
    lemma_elsewhere(k, k2);
}

proof fn lemma_trapped(
    k: KernelView,
    tcb: u64,
    scause: u64,
    stval: u64,
    after: KernelView,
    next: Next,
)
    requires
        is_sound(k),
        k.current == Some(tcb),
        Cause::decoded(scause) == Cause::Exception(8) ==> retype_spares_threads(k, k.thread(tcb)),
        crate::sched::entry::is_user_trap(k, tcb, scause, stval, after, next),
    ensures
        is_sound(after),
        next matches Next::Resume(t) ==> after.current == Some(t),
        next is Leave ==> after.current is None,
        forall|u: u64| #[trigger] is_loose(after, u) ==> is_loose(k, u),
{
    let cause = Cause::decoded(scause);
    let t = k.thread(tcb);
    if cause == Cause::Interrupt(5) {
        let ticked = k.with_action(crate::sched::Action::Tick);
        lemma_elsewhere_sound(k, ticked);
        lemma_retired(ticked, Retire::Requeue);
    } else if cause == Cause::Interrupt(9) {
        lemma_elsewhere_sound(k, k.with_action(crate::sched::Action::External));
    } else if cause == Cause::Exception(8) {
        lemma_syscall(k, tcb, after, next);
    } else if cause == Cause::Exception(2) && !t.fp_used() && crate::thread::fp_instruction(stval) {
        lemma_adjusted(k, tcb, t.with_fp());
        let on = k.with_thread(tcb, t.with_fp());
        lemma_elsewhere_sound(on, on.with_action(crate::sched::Action::RestoreFp(tcb)));
    } else {
        let told = k.with_action(
            crate::sched::Action::Report {
                id: t.id,
                cause,
                at: t.frame.sepc,
                no_pager: cause == Cause::Exception(12) || cause == Cause::Exception(13) || cause
                    == Cause::Exception(15),
            },
        );
        lemma_elsewhere_sound(k, told);
        lemma_retired(told, Retire::Killed);
        let faulty = k.with_thread(tcb, crate::sched::entry::faulting(t, cause, stval));
        lemma_caps_same(k.objects.slots, faulty.objects.slots);
        assert(is_entered(k, faulty, tcb));
        lemma_sent(
            k,
            faulty,
            tcb,
            t.fault_ep,
            crate::sched::entry::fault_header(),
            true,
        );
    }
}

/// Whatever a thread does, the run queue, the endpoints and the reply
/// capabilities go on agreeing with the threads: a thread is on one queue at
/// most, the one its state says; the thread on the hart alone is running; and
/// every reply capability names a thread of its own that waits for the reply. A
/// new thread must not be set up where one is still in use.
pub proof fn every_trap_keeps_the_kernel_sound(
    k: KernelView,
    tcb: u64,
    scause: u64,
    stval: u64,
    after: KernelView,
    next: Next,
)
    requires
        is_sound(k),
        k.current == Some(tcb),
        Cause::decoded(scause) == Cause::Exception(8) ==> retype_spares_threads(k, k.thread(tcb)),
        crate::sched::entry::is_user_trap(k, tcb, scause, stval, after, next),
    ensures
        is_sound(after),
        next matches Next::Resume(t) ==> after.current == Some(t),
        next is Leave ==> after.current is None,
{
    lemma_trapped(k, tcb, scause, stval, after, next);
}

/// A thread that is ready is on the run queue, whatever threads do.
pub proof fn ready_threads_are_not_forgotten(
    k: KernelView,
    tcb: u64,
    scause: u64,
    stval: u64,
    after: KernelView,
    next: Next,
    t: u64,
)
    requires
        is_sound(k),
        k.current == Some(tcb),
        Cause::decoded(scause) == Cause::Exception(8) ==> retype_spares_threads(k, k.thread(tcb)),
        crate::sched::entry::is_user_trap(k, tcb, scause, stval, after, next),
        k.thread(t).state is Ready ==> k.queue.contains(t),
    ensures
        after.thread(t).state is Ready ==> after.queue.contains(t),
{
    lemma_trapped(k, tcb, scause, stval, after, next);
    assert(is_loose(after, t) ==> is_loose(k, t));
}

/// Delivering an external interrupt keeps everything sound, and no thread that
/// is ready is forgotten. The thread it wakes must wait for nothing but the
/// notification.
pub proof fn an_external_interrupt_keeps_the_kernel_sound(
    k: KernelView,
    table: Seq<crate::irq::Entry>,
    plic: crate::plic::Plic,
    word: u32,
    t: u64,
)
    requires
        is_sound(k),
        crate::irq::delivered_to(table, word as u64) matches Some((at, badge)) ==> ({
            let n = k.objects.notifications[at.0];
            n.queue.len() > 0 ==> k.thread(n.queue[0]).state is BlockedOnRecv && k.thread(
                n.queue[0],
            ).blocked_on == BlockedOn::Notification(at)
        }),
    ensures
        is_sound(crate::sched::interrupt::interrupted(k, table, plic, word)),
        crate::sched::interrupt::interrupted(k, table, plic, word).current == k.current,
        is_loose(crate::sched::interrupt::interrupted(k, table, plic, word), t) ==> is_loose(k, t),
{
    if let Some((at, badge)) = crate::irq::delivered_to(table, word as u64) {
        if plic.base != 0 && word != 0 {
            let n = k.objects.notifications[at.0];
            if n.queue.len() == 0 {
                lemma_elsewhere_sound(k, crate::sched::interrupt::signalled(k, at.0, badge));
            } else {
                lemma_woken(k, at, badge);
            }
        }
    }
}

/// Waking a thread that waits for nothing but a notification.
proof fn lemma_woken(k: KernelView, at: PhysAddr, badge: u64)
    requires
        is_sound(k),
        k.objects.notifications[at.0].queue.len() > 0,
        ({
            let t = k.thread(k.objects.notifications[at.0].queue[0]);
            t.state is BlockedOnRecv && t.blocked_on == BlockedOn::Notification(at)
        }),
    ensures
        is_sound(crate::sched::interrupt::signalled(k, at.0, badge)),
        forall|u: u64| #[trigger]
            is_loose(crate::sched::interrupt::signalled(k, at.0, badge), u) ==> is_loose(k, u),
{
    reveal(is_sound);
    let x = k.objects.notifications[at.0].queue[0];
    let done = crate::sched::interrupt::signalled(k, at.0, badge);
    let k2 = KernelView { queue: k.queue, ..done };
    assert(k.thread(x).state is BlockedOnRecv);
    assert(k.thread(x).self_paddr.0 == x);
    assert(!k.thread(x).faulted);
    assert(!k.queue.contains(x));
    lemma_caps_same(k.objects.slots, k2.objects.slots);
    assert(others_stand(k, k2, x, x)) by {
        assert forall|u: u64| u != x implies alike(k.thread(u), #[trigger] k2.thread(u)) by {}
    }
    assert(endpoints_are_sound(k2)) by {
        assert forall|a: u64, u: u64| #[trigger] waits_on(k2, a, u) implies is_parked(
            k2.objects.endpoints[a].state,
            k2.thread(u).state,
        ) && k2.thread(u).blocked_on == BlockedOn::Endpoint(PhysAddr(a)) by {
            assert(waits_on(k, a, u));
            assert(u != x);
            assert(alike(k.thread(u), k2.thread(u)));
        }
        assert forall|a: u64, other: u64, u: u64|
            #![trigger waits_on(k2, a, u), waits_on(k2, other, u)]
            waits_on(k2, a, u) && waits_on(k2, other, u) implies a == other by {
            assert(waits_on(k, a, u) && waits_on(k, other, u));
        }
    }
    lemma_no_reply(k, k2, x, x);
    lemma_step(k, k2, x, x);
    lemma_ready(k2, x);
    assert(done == k2.with_ready(x));
}

// --- Starting and stopping ---

/// A kernel with no objects is sound.
pub proof fn a_new_kernel_is_sound(k: KernelView, asid_bits: u8)
    requires
        k.objects == ObjectsView::none(asid_bits),
        k.queue == Seq::<u64>::empty(),
        k.current is None,
    ensures
        is_sound(k),
{
    reveal(is_sound);
    assert forall|at: u64, t: u64| !(#[trigger] waits_on(k, at, t)) by {}
}

/// Putting a new thread on the run queue, and capabilities in place that name it
/// and no other.
pub(crate) proof fn lemma_thread_started(k: KernelView, k2: KernelView, a: u64)
    requires
        is_sound(k),
        is_unused(k.thread(a).state),
        k2.queue == k.queue.push(a),
        k2.current == k.current,
        k2.objects.endpoints == k.objects.endpoints,
        k2.objects.threads == k.objects.threads.insert(a, k2.thread(a)),
        k2.thread(a).state is Ready,
        !(k2.thread(a).reply.kind is Reply),
        !k2.thread(a).faulted,
        k2.thread(a).self_paddr.0 == a,
        forall|s: u64|
            (#[trigger] k2.objects.slots.caps[s]).kind is Tcb ==> k2.objects.slots.caps[s]
                == k.objects.slots.caps[s] || k2.objects.slots.caps[s].paddr.0 == a,
    ensures
        is_sound(k2),
        forall|t: u64| #[trigger] is_loose(k2, t) ==> is_loose(k, t),
{
    let blank = k.with_thread(a, TcbView { state: ThreadState::Inactive, ..k2.thread(a) });
    lemma_thread_made(k, blank, a);
    reveal(is_sound);
    let ready = blank.with_thread(a, k2.thread(a));
    lemma_caps_same(blank.objects.slots, ready.objects.slots);
    assert(others_stand(blank, ready, a, a));
    lemma_endpoints_unread(blank, ready, a, a);
    lemma_no_reply(blank, ready, a, a);
    assert(!blank.queue.contains(a));
    assert(blank.current != Some(a));
    lemma_step(blank, ready, a, a);
    lemma_ready(ready, a);
    let queued = ready.with_ready(a);
    assert(ready.objects.threads =~= k2.objects.threads);
    let before = KernelView {
        objects: ObjectsView { slots: queued.objects.slots, ..k2.objects },
        ..k2
    };
    lemma_elsewhere_sound(queued, before);
    assert forall|s: u64| (#[trigger] k2.objects.slots.caps[s]).kind is Tcb implies k2.thread(
        k2.objects.slots.caps[s].paddr.0,
    ).self_paddr == k2.objects.slots.caps[s].paddr by {
        let cap = k2.objects.slots.caps[s];
        if cap.paddr.0 != a {
            assert(k.objects.slots.caps[s] == cap);
            assert(k.thread(cap.paddr.0).self_paddr == cap.paddr);
        }
    }
    lemma_slots_only(before, k2);
    assert forall|t: u64| #[trigger] is_loose(k2, t) implies is_loose(k, t) by {
        assert(is_loose(before, t));
        assert(is_loose(queued, t));
        assert(is_loose(ready, t));
        assert(is_loose(blank, t));
    }
}

/// When nothing but capabilities changes, and their names are true.
proof fn lemma_slots_only(k: KernelView, k2: KernelView)
    requires
        is_sound(k),
        queues_stand(k, k2),
        k2.objects.threads == k.objects.threads,
        forall|s: u64|
            (#[trigger] k2.objects.slots.caps[s]).kind is Tcb ==> k2.thread(
                k2.objects.slots.caps[s].paddr.0,
            ).self_paddr == k2.objects.slots.caps[s].paddr,
    ensures
        is_sound(k2),
        forall|u: u64| #[trigger] is_loose(k2, u) == is_loose(k, u),
{
    reveal(is_sound);
    assert forall|u: u64| #[trigger] k2.thread(u) == k.thread(u) by {}
    assert forall|u: u64| #[trigger] owed(k2, u) == owed(k, u) by {}
    assert forall|b: u64, u: u64| #[trigger] waits_on(k2, b, u) == waits_on(k, b, u) by {}
    assert forall|b: u64, other: u64, u: u64|
        #![trigger waits_on(k2, b, u), waits_on(k2, other, u)]
        waits_on(k2, b, u) && waits_on(k2, other, u) implies b == other by {
        assert(waits_on(k, b, u) && waits_on(k, other, u));
    }
    assert forall|u: u64, v: u64|
        #![trigger owed(k2, u), owed(k2, v)]
        owed(k2, u) is Some && owed(k2, u) == owed(k2, v) implies u == v by {
        assert(owed(k, u) == owed(k, v));
    }
}

/// Creating a thread keeps the kernel sound, and the thread is on the run
/// queue, provided that no thread is in use in the frame it is put in.
pub proof fn spawning_keeps_the_kernel_sound(
    before: KernelView,
    after: KernelView,
    frames_before: Seq<u64>,
    frames_after: Seq<u64>,
    space: crate::mm::address_space::AddressSpace,
    entry: u64,
    stack_top: u64,
    cspace: RawCap,
    fault_ep: RawCap,
    r: Result<crate::thread::ThreadId, crate::sched::SpawnError>,
)
    requires
        is_sound(before),
        frames_before.len() > 0 ==> is_unused(before.thread(frames_before[0]).state),
        crate::sched::is_spawn(
            before,
            after,
            frames_before,
            frames_after,
            space,
            entry,
            stack_top,
            cspace,
            fault_ep,
            r,
        ),
    ensures
        is_sound(after),
        after.current == before.current,
        r is Ok ==> after.queue == before.queue.push(frames_before[0]),
        forall|t: u64| #[trigger] is_loose(after, t) ==> is_loose(before, t),
{
    if frames_before.len() > 0 {
        lemma_thread_started(before, after, frames_before[0]);
    }
}

/// Putting a thread that is ready and on no queue on the run queue keeps the
/// kernel sound.
pub proof fn enlisting_keeps_the_kernel_sound(k: KernelView, t: u64)
    requires
        is_sound(k),
        is_loose(k, t),
    ensures
        is_sound(crate::sched::enlisted(k, t)),
        !is_loose(crate::sched::enlisted(k, t), t),
{
    lemma_ready(k, t);
    let k2 = crate::sched::enlisted(k, t);
    lemma_elsewhere_sound(k.with_ready(t), k2);
    assert(is_loose(k2, t) == is_loose(k.with_ready(t), t));
}

/// Entering the threads keeps the kernel sound, and the thread resumed is the
/// current one.
pub proof fn running_keeps_the_kernel_sound(k: KernelView)
    requires
        is_sound(k),
        k.current is None,
    ensures
        is_sound(k.next_resumed().0),
        k.next_resumed().1 matches Next::Resume(t) ==> k.next_resumed().0.current == Some(t),
        k.next_resumed().1 is Leave ==> k.next_resumed().0.current is None,
        forall|t: u64| #[trigger] is_loose(k.next_resumed().0, t) ==> is_loose(k, t),
{
    lemma_next(k);
}

/// Destroying every thread on the run queue empties it, and keeps the kernel
/// sound.
pub proof fn killing_keeps_the_kernel_sound(k: KernelView)
    requires
        is_sound(k),
        k.current is None,
    ensures
        is_sound(crate::sched::all_killed(k, k.queue)),
        crate::sched::all_killed(k, k.queue).queue == Seq::<u64>::empty(),
{
    assert(k.queue.take(k.queue.len() as int) =~= k.queue);
    lemma_killed(k, k.queue.len() as int);
    assert(k.queue.skip(k.queue.len() as int) =~= Seq::<u64>::empty());
}

proof fn lemma_killed(k: KernelView, n: int)
    requires
        is_sound(k),
        k.current is None,
        0 <= n <= k.queue.len(),
    ensures
        ({
            let k2 = crate::sched::all_killed(k, k.queue.take(n));
            &&& is_sound(k2)
            &&& k2.current is None
            &&& k2.queue == k.queue.skip(n)
        }),
    decreases n,
{
    if n > 0 {
        lemma_killed(k, n - 1);
        assert(k.queue.take(n).drop_last() =~= k.queue.take(n - 1));
        assert(k.queue.skip(n - 1).drop_first() =~= k.queue.skip(n));
        let before = crate::sched::all_killed(k, k.queue.take(n - 1));
        let t = k.queue[n - 1];
        assert(before.queue[0] == t);
        let off = before.next_taken().0;
        let k2 = crate::sched::all_killed(k, k.queue.take(n));
        assert(k2 == off.with_state(t, ThreadState::Exited));
        lemma_taken_off(before);
        reveal(is_sound);
        lemma_caps_same(off.objects.slots, k2.objects.slots);
        assert(others_stand(off, k2, t, t));
        lemma_endpoints_unread(off, k2, t, t);
        lemma_no_reply(off, k2, t, t);
        lemma_step(off, k2, t, t);
    } else {
        assert(k.queue.take(0) =~= Seq::<u64>::empty());
        assert(k.queue.skip(0) =~= k.queue);
    }
}

} // verus!
