//! Messages between threads: sending, receiving and replying.

use crate::abi::msg::MessageInfo;
use crate::abi::object::ObjectType;
use crate::abi::result::{ERR_BAD_CAP, ERR_NO_CSPACE, ERR_NO_REPLY, OK};
use crate::abi::rights::{GRANT, READ};
use crate::cap::cspace::CSpace;
use crate::cap::kind;
use crate::cap::slot::Derivation;
use crate::cap::{Cap, CapError, RawCap, ResolveError};
use crate::ipc::{message_of, reply_cap, transfer, Endpoint, EndpointState, EndpointView};
use crate::objects::ObjectsView;
use crate::sched::{Kernel, KernelView, Next, Retire};
use crate::thread::{BlockedOn, Tcb, TcbView, ThreadState};
use crate::trap::{A0, A1, A6};
use vstd::prelude::*;

verus! {

impl KernelView {
    /// The kernel with one endpoint changed.
    pub open spec fn with_endpoint(self, a: u64, e: EndpointView) -> KernelView {
        KernelView {
            objects: ObjectsView { endpoints: self.objects.endpoints.insert(a, e), ..self.objects },
            ..self
        }
    }

    /// The kernel with other slots.
    pub open spec fn with_slots(self, d: Derivation) -> KernelView {
        KernelView { objects: ObjectsView { slots: d, ..self.objects }, ..self }
    }

    /// A thread parked on an endpoint, waiting for a message.
    pub open spec fn with_receiver(self, tcb: u64, ep: RawCap) -> KernelView {
        self.with_thread(
            tcb,
            TcbView {
                state: ThreadState::BlockedOnRecv,
                blocked_on: BlockedOn::Endpoint(ep.paddr),
                ..self.thread(tcb)
            },
        ).with_endpoint(
            ep.paddr.0,
            self.objects.endpoints[ep.paddr.0].joined(tcb, EndpointState::Receiving),
        )
    }
}

/// The root depth of a thread's capability space.
pub open spec fn own_depth(cspace: RawCap) -> u8 {
    crate::cap::cspace::radix(cspace) as u8
}

/// What handing a capability from one thread to another does to the slots. The
/// sender names the source and the receiver the destination, each in `a6`.
pub open spec fn cap_moved(d: Derivation, from: TcbView, to: TcbView) -> (
    Derivation,
    Result<(), CapError>,
) {
    if !(from.cspace.kind is CNode) || !(to.cspace.kind is CNode) {
        (d, Err(CapError::Resolve(ResolveError::NotACNode)))
    } else {
        match crate::cap::cspace::located(
            d.caps,
            from.cspace,
            from.frame.x[A6 as int],
            own_depth(from.cspace),
        ) {
            Err(e) => (d, Err(CapError::Resolve(e))),
            Ok(slot) => {
                let cap = d.caps[slot];
                if cap.kind is Null {
                    (d, Err(CapError::Null))
                } else if cap.rights & GRANT == 0 {
                    (d, Err(CapError::MissingRights { wanted: GRANT, held: cap.rights }))
                } else if !cap.copyable() {
                    (d, Err(CapError::CannotCopy))
                } else {
                    crate::cap::cspace::inserted(
                        d,
                        to.cspace,
                        to.frame.x[A6 as int],
                        own_depth(to.cspace),
                        cap.fresh_spec(),
                        Some(slot),
                    )
                }
            },
        }
    }
}

/// A message delivered, and the capability riding with it if there is one. The
/// receiver's header says whether the capability arrived.
pub open spec fn delivered(k: KernelView, from: u64, to: u64, info: MessageInfo, badge: u64) -> KernelView {
    let got = crate::ipc::received(k.thread(from), k.thread(to), info, badge);
    let told = k.with_thread(to, got);
    if !info.carries_cap_spec() {
        told
    } else {
        match cap_moved(k.objects.slots, k.thread(from), got) {
            (d, Ok(_)) => told.with_slots(d),
            (d, Err(_)) => told.with_slots(d).with_thread(
                to,
                got.with_reg(
                    A1 as int,
                    MessageInfo::packed(info.label_spec(), info.length_spec(), false).0,
                ),
            ),
        }
    }
}

/// The reply capability naming a caller.
pub open spec fn reply_to(caller: TcbView) -> RawCap {
    RawCap::plain(ObjectType::Reply, READ, 0, caller.self_paddr)
}

/// What sending, or calling, on an endpoint does.
pub open spec fn sent(k: KernelView, tcb: u64, ep: RawCap, info: MessageInfo, is_call: bool) -> (
    KernelView,
    Next,
) {
    let e = k.objects.endpoints[ep.paddr.0];
    let badge = ep.badge_spec();
    if e.waiting(EndpointState::Receiving) {
        let receiver = e.queue[0];
        let taken = k.with_endpoint(ep.paddr.0, e.left_with(e.queue.drop_first()));
        let told = delivered(taken, tcb, receiver, info, badge).badge_logged(badge);
        if is_call {
            // The caller is not runnable, so nothing goes on the run queue.
            let woken = told.with_thread(
                receiver,
                TcbView {
                    reply: reply_to(told.thread(tcb)),
                    state: ThreadState::Ready,
                    blocked_on: BlockedOn::Nothing,
                    ..told.thread(receiver)
                },
            );
            woken.with_thread(
                tcb,
                TcbView {
                    state: ThreadState::AwaitingReply,
                    call_pending: false,
                    ..woken.thread(tcb)
                },
            ).switched(receiver)
        } else {
            let woken = told.with_thread(
                receiver,
                TcbView {
                    reply: RawCap::null_spec(),
                    state: ThreadState::Ready,
                    blocked_on: BlockedOn::Nothing,
                    ..told.thread(receiver)
                },
            );
            woken.with_thread(
                tcb,
                TcbView { state: ThreadState::Ready, ..woken.thread(tcb) }.with_reg(A0 as int, OK),
            ).with_ready(tcb).switched(receiver)
        }
    } else {
        k.with_thread(
            tcb,
            TcbView {
                badge,
                call_pending: is_call,
                state: ThreadState::BlockedOnSend,
                blocked_on: BlockedOn::Endpoint(ep.paddr),
                ..k.thread(tcb)
            },
        ).with_endpoint(ep.paddr.0, e.joined(tcb, EndpointState::Sending)).retired(Retire::Blocked)
    }
}

/// What receiving on an endpoint does.
pub open spec fn received_on(k: KernelView, tcb: u64, ep: RawCap) -> (KernelView, Next) {
    let e = k.objects.endpoints[ep.paddr.0];
    if e.waiting(EndpointState::Sending) {
        let sender = e.queue[0];
        let badge = k.thread(sender).badge;
        let taken = k.with_endpoint(ep.paddr.0, e.left_with(e.queue.drop_first()));
        let told = delivered(
            taken,
            sender,
            tcb,
            MessageInfo(k.thread(sender).frame.x[A1 as int]),
            badge,
        ).badge_logged(badge);
        if k.thread(sender).call_pending {
            let holding = told.with_thread(
                tcb,
                TcbView { reply: reply_to(told.thread(sender)), ..told.thread(tcb) },
            );
            (
                holding.with_thread(
                    sender,
                    TcbView {
                        state: ThreadState::AwaitingReply,
                        call_pending: false,
                        blocked_on: BlockedOn::Nothing,
                        ..holding.thread(sender)
                    },
                ),
                Next::Resume(tcb),
            )
        } else {
            let holding = told.with_thread(
                tcb,
                TcbView { reply: RawCap::null_spec(), ..told.thread(tcb) },
            );
            (
                holding.with_thread(
                    sender,
                    (TcbView {
                        state: ThreadState::Ready,
                        blocked_on: BlockedOn::Nothing,
                        ..holding.thread(sender)
                    }).with_reg(A0 as int, OK),
                ).with_ready(sender),
                Next::Resume(tcb),
            )
        }
    } else {
        k.with_receiver(tcb, ep).retired(Retire::Blocked)
    }
}

/// The endpoint a thread may receive on at an address, or the error code that
/// refuses it.
pub open spec fn receivable(k: KernelView, t: TcbView) -> Result<RawCap, u64> {
    if !(t.cspace.kind is CNode) {
        Err(ERR_NO_CSPACE)
    } else {
        match crate::cap::cspace::located(
            k.objects.slots.caps,
            t.cspace,
            t.frame.x[A0 as int],
            own_depth(t.cspace),
        ) {
            Err(_) => Err(ERR_BAD_CAP),
            Ok(a) => match crate::cap::typed(k.objects.slots.caps[a], ObjectType::Endpoint, READ) {
                Err(_) => Err(ERR_BAD_CAP),
                Ok(_) => Ok(k.objects.slots.caps[a]),
            },
        }
    }
}

/// What the receive system call does.
pub open spec fn recv_called(k: KernelView, tcb: u64) -> (KernelView, Next) {
    match receivable(k, k.thread(tcb)) {
        Err(code) => k.finished(tcb, code),
        Ok(ep) => received_on(k, tcb, ep),
    }
}

/// The caller that a thread holds the right to answer, answered: its message
/// delivered, or, where it waits for a fault to be dealt with, nothing but
/// permission to carry on.
pub open spec fn answered(k: KernelView, tcb: u64) -> KernelView {
    let t = k.thread(tcb);
    let caller = t.reply.paddr.0;
    let told = if k.thread(caller).faulted {
        k.with_thread(caller, TcbView { faulted: false, ..k.thread(caller) })
    } else {
        delivered(k, tcb, caller, MessageInfo(t.frame.x[A1 as int]), 0)
    };
    let ready = told.with_state(caller, ThreadState::Ready);
    ready.with_thread(tcb, TcbView { reply: RawCap::null_spec(), ..ready.thread(tcb) })
}

/// What the reply system calls do.
pub open spec fn reply_called(k: KernelView, tcb: u64, then_receive: bool) -> (KernelView, Next) {
    let t = k.thread(tcb);
    let caller = t.reply.paddr.0;
    let done = answered(k, tcb);
    if !(t.reply.kind is Reply) {
        k.finished(tcb, ERR_NO_REPLY)
    } else if then_receive {
        match receivable(done, done.thread(tcb)) {
            // Nothing to receive on: the server hears of it, and the answered
            // caller waits its turn.
            Err(_) => done.with_ready(caller).finished(tcb, ERR_BAD_CAP),
            Ok(ep) => {
                let e = done.objects.endpoints[ep.paddr.0];
                if e.waiting(EndpointState::Sending) {
                    // Someone was already queued: the answered caller goes on
                    // the run queue, and the server keeps the hart.
                    received_on(done.with_ready(caller), tcb, ep)
                } else {
                    done.with_receiver(tcb, ep).switched(caller)
                }
            },
        }
    } else {
        done.with_thread(
            tcb,
            TcbView { state: ThreadState::Ready, ..done.thread(tcb) }.with_reg(A0 as int, OK),
        ).with_ready(tcb).switched(caller)
    }
}

impl Kernel {
    /// Take whoever waits longest on an endpoint for `wanted`.
    fn dequeue(&mut self, a: u64, wanted: EndpointState) -> (r: Option<u64>)
        requires
            old(self).wf(),
        ensures
            final(self).wf(),
            ({
                let e = old(self)@.objects.endpoints[a];
                if e.waiting(wanted) {
                    &&& r == Some(e.queue[0])
                    &&& final(self)@ == old(self)@.with_endpoint(
                        a,
                        e.left_with(e.queue.drop_first()),
                    )
                } else {
                    r is None && final(self)@ == old(self)@
                }
            }),
    {
        proof {
            self.objects.endpoints.is_total();
        }
        let mut ep: Endpoint = self.objects.endpoints.take(a);
        let r: Option<u64> = ep.dequeue(wanted);
        self.objects.endpoints.put(a, ep);
        proof {
            let e = old(self)@.objects.endpoints[a];
            if e.waiting(wanted) {
                assert(self@.objects.endpoints =~= old(self)@.objects.endpoints.insert(
                    a,
                    e.left_with(e.queue.drop_first()),
                ));
            } else {
                assert(self@.objects.endpoints =~= old(self)@.objects.endpoints);
            }
        }
        r
    }

    /// Park a thread on an endpoint.
    fn enqueue(&mut self, a: u64, tcb: u64, state: EndpointState)
        requires
            old(self).wf(),
        ensures
            final(self).wf(),
            final(self)@ == old(self)@.with_endpoint(
                a,
                old(self)@.objects.endpoints[a].joined(tcb, state),
            ),
    {
        let mut ep: Endpoint = self.objects.endpoints.take(a);
        ep.enqueue(tcb, state);
        self.objects.endpoints.put(a, ep);
        assert(self@.objects.endpoints =~= old(self)@.objects.endpoints.insert(
            a,
            old(self)@.objects.endpoints[a].joined(tcb, state),
        ));
    }

    /// Move a capability from the sender's CSpace into the receiver's.
    ///
    /// The copy becomes a derivative of the original, which is what makes it
    /// revocable. It carries no badge of its own: badges identify a holder to a
    /// server, and this is a new holder.
    fn transfer_cap(&mut self, from: &Tcb, to: &Tcb) -> (r: Result<(), CapError>)
        requires
            old(self).wf(),
            from.cspace.is_sound(),
            to.cspace.is_sound(),
        ensures
            final(self).wf(),
            ({
                let done = cap_moved(old(self)@.objects.slots, from@, to@);
                &&& final(self)@ == old(self)@.with_slots(done.0)
                &&& match done.1 {
                    Ok(_) => r is Ok,
                    Err(e) => r is Err && r->Err_0 == e,
                }
            }),
    {
        let from_cs: CSpace = match CSpace::new(from.cspace) {
            Ok(cs) => cs,
            Err(e) => {
                return Err(e);
            },
        };
        let to_cs: CSpace = match CSpace::new(to.cspace) {
            Ok(cs) => cs,
            Err(e) => {
                return Err(e);
            },
        };
        let slot: u64 = match from_cs.resolve(
            &self.objects.slots,
            from.frame.x[A6],
            from_cs.root_depth(),
        ) {
            Ok(a) => a,
            Err(e) => {
                return Err(CapError::Resolve(e));
            },
        };
        let cap: RawCap = self.objects.slots.cap(slot);
        if cap.is_null() {
            return Err(CapError::Null);
        }
        if cap.rights & GRANT == 0 {
            return Err(CapError::MissingRights { wanted: GRANT, held: cap.rights });
        }
        if !cap.is_copyable() {
            return Err(CapError::CannotCopy);
        }
        to_cs.insert(
            &mut self.objects.slots,
            to.frame.x[A6],
            to_cs.root_depth(),
            cap.fresh_copy(),
            Some(slot),
        )
    }

    /// Deliver a message, and the capability riding with it if there is one.
    fn deliver(&mut self, from: u64, to: u64, info: MessageInfo, badge: u64)
        requires
            old(self).wf(),
        ensures
            final(self).wf(),
            final(self)@ == delivered(old(self)@, from, to, info, badge),
    {
        let sender: Tcb = self.thread(from);
        let mut receiver: Tcb = self.thread(to);
        transfer(&sender, &mut receiver, info, badge);
        self.set_thread(to, receiver);
        if info.carries_cap() {
            // A failed transfer is reported in the receiver's header, not by
            // killing anyone: the sender may simply have named a slot that is
            // full.
            match self.transfer_cap(&sender, &receiver) {
                Ok(_) => {},
                Err(_) => {
                    receiver.set_reg(
                        A1,
                        MessageInfo::new(info.label(), info.length(), false).bits(),
                    );
                    self.set_thread(to, receiver);
                },
            }
        }
    }

    /// Hand a message to a receiver, or block until one arrives.
    pub(crate) fn ipc_send(&mut self, tcb: u64, ep: RawCap, info: MessageInfo, is_call: bool) -> (r:
        Next)
        requires
            old(self).wf(),
        ensures
            final(self).wf(),
            (final(self)@, r) == sent(old(self)@, tcb, ep, info, is_call),
    {
        let at: u64 = ep.paddr.as_usize();
        match self.dequeue(at, EndpointState::Receiving) {
            Some(receiver) => {
                self.deliver(tcb, receiver, info, ep.badge());
                self.log_badge(ep.badge());
                let reply: RawCap = if is_call {
                    reply_cap(self.thread(tcb).self_paddr)
                } else {
                    RawCap::null()
                };
                let mut woken: Tcb = self.thread(receiver);
                woken.reply = reply;
                woken.state = ThreadState::Ready;
                woken.blocked_on = BlockedOn::Nothing;
                self.set_thread(receiver, woken);
                let mut me: Tcb = self.thread(tcb);
                if is_call {
                    // The caller is not runnable, so nothing goes on the run
                    // queue and the receiver gets the rest of this timeslice.
                    // The whole point.
                    me.state = ThreadState::AwaitingReply;
                    me.call_pending = false;
                    self.set_thread(tcb, me);
                } else {
                    // A bare `send` stays runnable; the receiver still gets the
                    // hart, and the sender goes to the back of the queue.
                    me.state = ThreadState::Ready;
                    me.set_return(OK);
                    self.set_thread(tcb, me);
                    self.push(tcb);
                }
                self.switch_direct(receiver)
            },
            None => {
                // Nobody is waiting: park on the endpoint.
                let mut me: Tcb = self.thread(tcb);
                me.badge = ep.badge();
                me.call_pending = is_call;
                me.state = ThreadState::BlockedOnSend;
                me.blocked_on = BlockedOn::Endpoint(ep.paddr);
                self.set_thread(tcb, me);
                self.enqueue(at, tcb, EndpointState::Sending);
                self.retire(Retire::Blocked)
            },
        }
    }

    /// Park a thread on an endpoint until a message arrives.
    fn park_receiver(&mut self, tcb: u64, ep: RawCap)
        requires
            old(self).wf(),
        ensures
            final(self).wf(),
            final(self)@ == old(self)@.with_receiver(tcb, ep),
    {
        let mut me: Tcb = self.thread(tcb);
        me.state = ThreadState::BlockedOnRecv;
        me.blocked_on = BlockedOn::Endpoint(ep.paddr);
        self.set_thread(tcb, me);
        self.enqueue(ep.paddr.as_usize(), tcb, EndpointState::Receiving);
    }

    /// The receive half, shared by `recv` and `reply_recv`.
    fn receive_on(&mut self, tcb: u64, ep: RawCap) -> (r: Next)
        requires
            old(self).wf(),
        ensures
            final(self).wf(),
            (final(self)@, r) == received_on(old(self)@, tcb, ep),
    {
        let at: u64 = ep.paddr.as_usize();
        match self.dequeue(at, EndpointState::Sending) {
            Some(queued) => {
                let sender: Tcb = self.thread(queued);
                let info: MessageInfo = message_of(&sender);
                self.deliver(queued, tcb, info, sender.badge);
                self.log_badge(sender.badge);
                let reply: RawCap = if sender.call_pending {
                    reply_cap(self.thread(queued).self_paddr)
                } else {
                    RawCap::null()
                };
                let mut me: Tcb = self.thread(tcb);
                me.reply = reply;
                self.set_thread(tcb, me);
                let mut other: Tcb = self.thread(queued);
                other.blocked_on = BlockedOn::Nothing;
                if sender.call_pending {
                    other.state = ThreadState::AwaitingReply;
                    other.call_pending = false;
                    self.set_thread(queued, other);
                } else {
                    other.state = ThreadState::Ready;
                    other.set_return(OK);
                    self.set_thread(queued, other);
                    self.push(queued);
                }
                // We already have the hart and a message; just go back to user
                // mode.
                Next::Resume(tcb)
            },
            None => {
                self.park_receiver(tcb, ep);
                self.retire(Retire::Blocked)
            },
        }
    }

    /// The endpoint the thread names in `a0`, if it may receive on it.
    fn receivable(&self, t: &Tcb) -> (r: Result<RawCap, u64>)
        requires
            self.wf(),
            t.cspace.is_sound(),
        ensures
            r == receivable(self@, t@),
    {
        let cs: CSpace = match CSpace::new(t.cspace) {
            Ok(cs) => cs,
            Err(_) => {
                return Err(ERR_NO_CSPACE);
            },
        };
        match cs.read(&self.objects.slots, t.frame.x[A0], cs.root_depth()) {
            Ok(cap) => match Cap::<kind::Endpoint, READ>::from_raw(cap) {
                Ok(_) => Ok(cap),
                Err(_) => Err(ERR_BAD_CAP),
            },
            Err(_) => Err(ERR_BAD_CAP),
        }
    }

    /// Take a queued message, or block waiting for one.
    pub(crate) fn sys_recv(&mut self, tcb: u64) -> (r: Next)
        requires
            old(self).wf(),
        ensures
            final(self).wf(),
            (final(self)@, r) == recv_called(old(self)@, tcb),
    {
        let t: Tcb = self.thread(tcb);
        match self.receivable(&t) {
            Ok(ep) => self.receive_on(tcb, ep),
            Err(code) => self.finish(tcb, code),
        }
    }

    /// Answer the caller whose reply capability this thread holds.
    pub(crate) fn sys_reply(&mut self, tcb: u64, then_receive: bool) -> (r: Next)
        requires
            old(self).wf(),
        ensures
            final(self).wf(),
            (final(self)@, r) == reply_called(old(self)@, tcb, then_receive),
    {
        let t: Tcb = self.thread(tcb);
        if t.reply.kind != ObjectType::Reply {
            return self.finish(tcb, ERR_NO_REPLY);
        }
        let info: MessageInfo = message_of(&t);
        // The reply capability names the caller's TCB directly, so answering it
        // costs no lookup at all.
        let caller: u64 = t.reply.paddr.as_usize();
        let mut callee: Tcb = self.thread(caller);
        if callee.faulted {
            // The reply is permission to carry on, not a return value. Its
            // registers and `sepc` are untouched, so it re-runs the instruction
            // that faulted against whatever the pager has now arranged.
            callee.faulted = false;
            self.set_thread(caller, callee);
        } else {
            self.deliver(tcb, caller, info, 0);
        }
        self.set_state(caller, ThreadState::Ready);
        let mut me: Tcb = self.thread(tcb);
        me.reply = RawCap::null();
        self.set_thread(tcb, me);
        assert(self@ == answered(old(self)@, tcb));
        if then_receive {
            match self.receivable(&me) {
                Ok(ep) => {
                    let at: u64 = ep.paddr.as_usize();
                    let waiting: bool = self.objects.endpoints.get(at).has_waiting(
                        EndpointState::Sending,
                    );
                    if waiting {
                        // Someone was already queued: the caller we just
                        // answered goes on the run queue, we keep the hart, and
                        // `receive_on` takes the sender that has been waiting
                        // longest.
                        self.push(caller);
                        return self.receive_on(tcb, ep);
                    }
                    self.park_receiver(tcb, ep);
                    // The server is parked, so the thread we just answered gets
                    // the hart directly -- the other half of the fast path.
                    self.switch_direct(caller)
                },
                Err(_) => {
                    // Nothing to receive on: we hear of it, and the caller we
                    // just answered waits its turn.
                    self.push(caller);
                    self.finish(tcb, ERR_BAD_CAP)
                },
            }
        } else {
            // A bare reply: we stay runnable, but the caller gets the hart.
            me.set_return(OK);
            me.state = ThreadState::Ready;
            self.set_thread(tcb, me);
            self.push(tcb);
            self.switch_direct(caller)
        }
    }
}

} // verus!
