//! Synchronous IPC: endpoints, messages, and what moves between threads.

use crate::abi::msg::{MessageInfo, MSG_REGS};
use crate::abi::object::ObjectType;
use crate::abi::rights::READ;
use crate::cap::RawCap;
use crate::mm::addr::PhysAddr;
use crate::queue::Queue;
use crate::store::{Blank, Store};
use crate::thread::{Tcb, TcbView, ThreadState};
use crate::trap::{FrameView, A0, A1, A2};
use vstd::prelude::*;

verus! {

/// What an endpoint is doing. It never has senders and receivers queued at the
/// same time: whichever arrives second is matched immediately.
#[derive(Debug, Clone, Copy, PartialEq, Eq, Structural)]
pub enum EndpointState {
    Idle,
    /// Threads are queued with messages to hand over.
    Sending,
    /// Threads are queued waiting for one.
    Receiving,
}

/// The rendezvous point itself.
pub struct Endpoint {
    pub state: EndpointState,
    pub queue: Queue,
}

/// An endpoint, seen from outside.
#[verifier::ext_equal]
pub struct EndpointView {
    pub state: EndpointState,
    pub queue: Seq<u64>,
}

impl View for Endpoint {
    type V = EndpointView;

    open spec fn view(&self) -> EndpointView {
        EndpointView { state: self.state, queue: self.queue@ }
    }
}

impl EndpointView {
    /// Nobody is waiting.
    pub open spec fn idle() -> EndpointView {
        EndpointView { state: EndpointState::Idle, queue: Seq::empty() }
    }

    /// Whether the endpoint is idle exactly while nobody waits.
    pub open spec fn is_settled(self) -> bool {
        self.state is Idle <==> self.queue.len() == 0
    }

    /// Whether anyone is queued for `wanted`.
    pub open spec fn waiting(self, wanted: EndpointState) -> bool {
        self.state == wanted && self.queue.len() > 0
    }

    /// With one more thread at the back.
    pub open spec fn joined(self, a: u64, state: EndpointState) -> EndpointView {
        EndpointView { state, queue: self.queue.push(a) }
    }

    /// With the queue replaced, and idle once it is empty.
    pub open spec fn left_with(self, queue: Seq<u64>) -> EndpointView {
        EndpointView {
            state: if queue.len() == 0 {
                EndpointState::Idle
            } else {
                self.state
            },
            queue,
        }
    }
}

impl Blank for Endpoint {
    open spec fn blank_view() -> EndpointView {
        EndpointView::idle()
    }

    fn blank() -> (r: Endpoint) {
        Endpoint::new()
    }
}

impl Endpoint {
    pub fn new() -> (r: Self)
        ensures
            r@ == EndpointView::idle(),
    {
        Endpoint { state: EndpointState::Idle, queue: Queue::new() }
    }

    pub fn is_empty(&self) -> (r: bool)
        ensures
            r == (self@.queue.len() == 0),
    {
        self.queue.is_empty()
    }

    /// Put `tcb` at the back of the queue, and record what the queue is for.
    pub fn enqueue(&mut self, tcb: u64, state: EndpointState)
        ensures
            final(self)@ == old(self)@.joined(tcb, state),
    {
        self.queue.push(tcb);
        self.state = state;
    }

    /// Take the thread at the front, if the queue is for `wanted`.
    pub fn dequeue(&mut self, wanted: EndpointState) -> (r: Option<u64>)
        ensures
            !old(self)@.waiting(wanted) ==> r is None && final(self)@ == old(self)@,
            old(self)@.waiting(wanted) ==> {
                &&& r == Some(old(self)@.queue[0])
                &&& final(self)@ == old(self)@.left_with(old(self)@.queue.drop_first())
            },
    {
        if self.state != wanted {
            return None;
        }
        match self.queue.pop() {
            Some(head) => {
                if self.queue.is_empty() {
                    self.state = EndpointState::Idle;
                }
                Some(head)
            },
            None => None,
        }
    }

    /// Whether anyone is queued for `wanted`, without disturbing the order.
    ///
    /// `reply_recv` needs to know whether a sender is already waiting before it
    /// decides who gets the hart. Answering that by dequeuing and re-enqueuing
    /// would move the head to the tail and quietly break FIFO delivery.
    pub fn has_waiting(&self, wanted: EndpointState) -> (r: bool)
        ensures
            r == self@.waiting(wanted),
    {
        self.state == wanted && !self.queue.is_empty()
    }

    /// Remove `tcb` from this queue wherever it is. Needed when a blocked
    /// thread is destroyed rather than woken.
    pub fn remove(&mut self, tcb: u64) -> (r: bool)
        ensures
            r == old(self)@.queue.contains(tcb),
            r ==> final(self)@ == old(self)@.left_with(
                crate::queue::without_first(old(self)@.queue, tcb),
            ),
            !r ==> final(self)@ == old(self)@,
    {
        if !self.queue.remove(tcb) {
            proof {
                crate::queue::lemma_without_absent(old(self)@.queue, tcb);
            }
            return false;
        }
        if self.queue.is_empty() {
            self.state = EndpointState::Idle;
        }
        true
    }
}

/// An endpoint that is idle exactly while nobody waits stays so, whatever joins
/// or leaves; and it is never asked to hold senders and receivers at once when
/// a thread joins only after finding nobody to match.
pub proof fn endpoints_stay_settled(e: EndpointView, a: u64)
    requires
        e.is_settled(),
    ensures
        e.joined(a, EndpointState::Sending).is_settled(),
        e.joined(a, EndpointState::Receiving).is_settled(),
        e.left_with(e.queue.drop_first()).is_settled() || e.queue.len() == 0,
        e.left_with(crate::queue::without_first(e.queue, a)).is_settled(),
        !e.waiting(EndpointState::Receiving) ==> !(e.state is Receiving),
        !e.waiting(EndpointState::Sending) ==> !(e.state is Sending),
{
    if e.queue.len() == 0 {
        assert(crate::queue::without_first(e.queue, a) == e.queue);
    }
}

/// Lay out a freshly retyped endpoint.
pub fn init_endpoint(endpoints: &mut Store<Endpoint>, paddr: PhysAddr)
    ensures
        final(endpoints)@ == old(endpoints)@.insert(paddr.0, EndpointView::idle()),
{
    endpoints.put(paddr.as_usize(), Endpoint::new());
}

/// The endpoint at an object's address.
pub fn endpoint_at<'a>(endpoints: &'a Store<Endpoint>, paddr: PhysAddr) -> (r: &'a Endpoint)
    ensures
        r@ == endpoints@[paddr.0],
{
    endpoints.get(paddr.as_usize())
}

/// How many words a message with this header carries: what the header claims,
/// and never more than there are message registers.
pub open spec fn carried(info: MessageInfo) -> u64 {
    crate::abi::msg::clamped(info.length_spec())
}

/// The receiver of a message, once it has arrived.
pub open spec fn received(from: TcbView, to: TcbView, info: MessageInfo, badge: u64) -> TcbView {
    TcbView {
        frame: FrameView {
            x: Seq::new(
                to.frame.x.len(),
                |i: int|
                    if i == A0 {
                        badge
                    } else if i == A1 {
                        info.0
                    } else if A2 <= i < A2 + carried(info) {
                        from.frame.x[i]
                    } else {
                        to.frame.x[i]
                    },
            ),
            ..to.frame
        },
        badge,
        ..to
    }
}

/// Copy the message registers from one thread's frame to another's.
///
/// This is the whole of the fast path's data movement: four words, register to
/// register, with no buffer to bound-check and no memory the sender can change
/// after the header has been read. A header that claims more words than there
/// are message registers moves those registers and no others.
pub fn transfer(from: &Tcb, to: &mut Tcb, info: MessageInfo, badge: u64)
    ensures
        final(to)@ == received(from@, old(to)@, info, badge),
{
    let ghost was = to@;
    let claimed: u64 = info.length();
    let length: usize = (if claimed > MSG_REGS {
        MSG_REGS
    } else {
        claimed
    }) as usize;
    let mut i: usize = 0;
    while i < length
        invariant
            i <= length <= MSG_REGS,
            length == carried(info),
            forall|k: int|
                0 <= k < 32 ==> #[trigger] to@.frame.x[k] == if A2 <= k < A2 + i {
                    from@.frame.x[k]
                } else {
                    was.frame.x[k]
                },
            to@ == (TcbView { frame: FrameView { x: to@.frame.x, ..was.frame }, ..was }),
        decreases length - i,
    {
        to.frame.x[A2 + i] = from.frame.x[A2 + i];
        i = i + 1;
    }
    to.frame.set(A0, badge);
    to.frame.set(A1, info.bits());
    to.badge = badge;
    assert(to@.frame.x =~= received(from@, was, info, badge).frame.x);
}

/// Only the badge, the header and the message registers `a2..a5` are written by
/// a transfer: every other register of the receiver survives it, whatever the
/// header claims.
pub proof fn other_registers_survive_every_transfer(
    from: TcbView,
    to: TcbView,
    info: MessageInfo,
    badge: u64,
    i: int,
)
    requires
        0 <= i < to.frame.x.len(),
        i < A0 || A2 + MSG_REGS <= i,
    ensures
        received(from, to, info, badge).frame.x[i] == to.frame.x[i],
{
}

/// Read the message a thread is sending, out of its trap frame.
pub fn message_of(tcb: &Tcb) -> (r: MessageInfo)
    ensures
        r.0 == tcb@.frame.x[A1 as int],
{
    MessageInfo::from_bits(tcb.frame.x[A1])
}

/// A one-shot capability naming the thread waiting for a reply.
///
/// The `paddr` is the caller's TCB, which is how `reply` finds it without a
/// lookup. Rights are READ only: a reply is used, not delegated onward with
/// more authority than it arrived with.
pub fn reply_cap(caller: PhysAddr) -> (r: RawCap)
    ensures
        r == RawCap::plain(ObjectType::Reply, READ, 0, caller),
{
    RawCap::new(ObjectType::Reply, READ, 0, caller)
}

/// Whether a thread is parked on an endpoint and can be woken with a message.
pub fn is_waiting(tcb: &Tcb) -> (r: bool)
    ensures
        r == (tcb.state is BlockedOnRecv || tcb.state is BlockedOnSend),
{
    matches!(tcb.state, ThreadState::BlockedOnRecv | ThreadState::BlockedOnSend)
}

} // verus!
