//! Notifications: the asynchronous half of IPC.

use crate::mm::addr::PhysAddr;
use crate::queue::Queue;
use crate::store::{Blank, Store};
use crate::thread::{BlockedOn, Tcb, TcbView};
use vstd::prelude::*;

verus! {

/// The rendezvous-free wake-up.
pub struct Notification {
    /// Badges of every signal since the last wait, OR'd together.
    pub word: u64,
    /// Whether anything has been signalled at all.
    pub pending: bool,
    pub queue: Queue,
}

/// A notification, seen from outside.
#[verifier::ext_equal]
pub struct NotificationView {
    pub word: u64,
    pub pending: bool,
    pub queue: Seq<u64>,
}

impl View for Notification {
    type V = NotificationView;

    open spec fn view(&self) -> NotificationView {
        NotificationView { word: self.word, pending: self.pending, queue: self.queue@ }
    }
}

impl NotificationView {
    /// Nothing signalled, nobody waiting.
    pub open spec fn quiet() -> NotificationView {
        NotificationView { word: 0, pending: false, queue: Seq::empty() }
    }

    /// With one more signal recorded.
    pub open spec fn posted(self, badge: u64) -> NotificationView {
        NotificationView { word: self.word | badge, pending: true, ..self }
    }

    /// What a waiter gets, and what is left.
    pub open spec fn taken(self) -> (NotificationView, Option<u64>) {
        if self.pending {
            (NotificationView { word: 0, pending: false, ..self }, Some(self.word))
        } else {
            (self, None)
        }
    }
}

impl Blank for Notification {
    open spec fn blank_view() -> NotificationView {
        NotificationView::quiet()
    }

    fn blank() -> (r: Notification) {
        Notification::new()
    }
}

/// A thread that waits on nothing any more.
pub open spec fn released(t: TcbView) -> TcbView {
    TcbView { blocked_on: BlockedOn::Nothing, ..t }
}

/// How many threads are parked on notifications. The scheduler idles only
/// while one of these exists: an interrupt can wake a waiter, and once the run
/// queue is empty nothing else can wake anyone at all.
#[derive(Debug, Clone, Copy, PartialEq, Eq, Structural)]
pub struct Waiters {
    pub count: u64,
}

impl Waiters {
    pub fn new() -> (r: Self)
        ensures
            r.count == 0,
    {
        Waiters { count: 0 }
    }

    pub fn waiters(&self) -> (r: u64)
        ensures
            r == self.count,
    {
        self.count
    }
}

impl Notification {
    pub fn new() -> (r: Self)
        ensures
            r@ == NotificationView::quiet(),
    {
        Notification { word: 0, pending: false, queue: Queue::new() }
    }

    pub fn is_empty(&self) -> (r: bool)
        ensures
            r == (self@.queue.len() == 0),
    {
        self.queue.is_empty()
    }

    /// Record a signal that nobody was waiting for.
    pub fn post(&mut self, badge: u64)
        ensures
            final(self)@ == old(self)@.posted(badge),
    {
        self.word = self.word | badge;
        self.pending = true;
    }

    /// Take everything posted since the last take, if anything was.
    pub fn take(&mut self) -> (r: Option<u64>)
        ensures
            (final(self)@, r) == old(self)@.taken(),
    {
        if !self.pending {
            return None;
        }
        self.pending = false;
        let word: u64 = self.word;
        self.word = 0;
        Some(word)
    }

    /// Park the thread at address `tcb` until someone signals. `at` is where
    /// this notification lives.
    pub fn enqueue(
        &mut self,
        tcb: u64,
        at: PhysAddr,
        threads: &mut Store<Tcb>,
        waiters: &mut Waiters,
    )
        ensures
            final(self)@ == (NotificationView { queue: old(self)@.queue.push(tcb), ..old(self)@ }),
            final(threads)@ == old(threads)@.insert(
                tcb,
                TcbView { blocked_on: BlockedOn::Notification(at), ..old(threads)@[tcb] },
            ),
            final(waiters).count == crate::bits::one_more(old(waiters).count),
    {
        // Which queue, so the thread can be taken off it again.
        let mut t: Tcb = *threads.get(tcb);
        t.blocked_on = BlockedOn::Notification(at);
        threads.put(tcb, t);
        waiters.count = crate::bits::increment(waiters.count);
        self.queue.push(tcb);
    }

    /// Take the thread that has been waiting longest, if any.
    pub fn dequeue(&mut self, threads: &mut Store<Tcb>, waiters: &mut Waiters) -> (r: Option<u64>)
        ensures
            old(self)@.queue.len() == 0 ==> {
                &&& r is None
                &&& final(self)@ == old(self)@
                &&& final(threads)@ == old(threads)@
                &&& *final(waiters) == *old(waiters)
            },
            old(self)@.queue.len() > 0 ==> {
                let tcb = old(self)@.queue[0];
                &&& r == Some(tcb)
                &&& final(self)@ == (NotificationView {
                    queue: old(self)@.queue.drop_first(),
                    ..old(self)@
                })
                &&& final(threads)@ == old(threads)@.insert(tcb, released(old(threads)@[tcb]))
                &&& final(waiters).count == crate::bits::one_less(old(waiters).count)
            },
    {
        match self.queue.pop() {
            None => None,
            Some(tcb) => {
                let mut t: Tcb = *threads.get(tcb);
                t.blocked_on = BlockedOn::Nothing;
                threads.put(tcb, t);
                waiters.count = crate::bits::decrement(waiters.count);
                Some(tcb)
            },
        }
    }

    /// Take `tcb` off the queue wherever it sits, and say whether it was there.
    pub fn remove(&mut self, tcb: u64, threads: &mut Store<Tcb>, waiters: &mut Waiters) -> (r: bool)
        ensures
            r == old(self)@.queue.contains(tcb),
            final(self)@ == (NotificationView {
                queue: crate::queue::without_first(old(self)@.queue, tcb),
                ..old(self)@
            }),
            r ==> {
                &&& final(threads)@ == old(threads)@.insert(tcb, released(old(threads)@[tcb]))
                &&& final(waiters).count == crate::bits::one_less(old(waiters).count)
            },
            !r ==> final(threads)@ == old(threads)@ && *final(waiters) == *old(waiters),
    {
        if !self.queue.remove(tcb) {
            return false;
        }
        let mut t: Tcb = *threads.get(tcb);
        t.blocked_on = BlockedOn::Nothing;
        threads.put(tcb, t);
        waiters.count = crate::bits::decrement(waiters.count);
        true
    }
}

/// The badges of all signals since the last wait arrive together: what two
/// signals leave behind is one wake-up with both badges.
pub proof fn signals_collapse_into_one(n: NotificationView, a: u64, b: u64)
    requires
        !n.pending,
        n.word == 0,
    ensures
        n.posted(a).posted(b).taken().1 == Some(a | b),
        n.posted(a).posted(b).taken().0.taken().1 is None,
{
    lemma_collapse(a, b);
}

proof fn lemma_collapse(a: u64, b: u64)
    by (bit_vector)
    ensures
        ((0u64 | a) | b) == a | b,
{
}

/// A signal is never lost, not even one without a badge: whoever waits next is
/// woken at once.
pub proof fn signals_are_never_lost(n: NotificationView, badge: u64)
    ensures
        n.posted(badge).taken().1 == Some(n.word | badge),
        !n.posted(badge).taken().0.pending,
        n.posted(badge).taken().0.word == 0,
{
}

/// Lay an empty notification over memory that was just retyped into one.
pub fn init(notifications: &mut Store<Notification>, paddr: PhysAddr)
    ensures
        final(notifications)@ == old(notifications)@.insert(paddr.0, NotificationView::quiet()),
{
    notifications.put(paddr.as_usize(), Notification::new());
}

/// The notification living at `paddr`.
pub fn at<'a>(notifications: &'a Store<Notification>, paddr: PhysAddr) -> (r: &'a Notification)
    ensures
        r@ == notifications@[paddr.0],
{
    notifications.get(paddr.as_usize())
}

} // verus!
