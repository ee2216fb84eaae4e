//! External interrupts: who is told that a device wants something.

use crate::irq::IrqTable;
use crate::mm::addr::PhysAddr;
use crate::notify::{Notification, NotificationView, Waiters};
use crate::objects::ObjectsView;
use crate::plic::{Plic, RegOp, CLAIM, CONTEXT_STRIDE};
use crate::sched::{Kernel, KernelView};
use crate::thread::{Tcb, TcbView, ThreadState};
use crate::trap::A0;
use vstd::prelude::*;

verus! {

/// The accesses an interrupt takes, if the claim register held `word`: the
/// source is completed while it is still enabled, or the controller would
/// ignore that, and masked until a driver has served it.
pub open spec fn interrupt_accesses(plic: Plic, word: u32) -> Seq<RegOp> {
    if plic.base == 0 || word == 0 {
        Seq::empty()
    } else {
        seq![
            RegOp::Write {
                offset: (CLAIM + plic.context() * CONTEXT_STRIDE) as u64,
                value: word,
            },
            plic.masking(word as u64),
        ]
    }
}

/// A thread that a signal woke: it goes on with the badge in `a0`.
pub open spec fn woken(t: TcbView, badge: u64) -> TcbView {
    TcbView { state: ThreadState::Ready, badge, ..crate::notify::released(t) }.with_reg(
        A0 as int,
        badge,
    )
}

/// What signalling the notification at an address does: the thread that has been
/// waiting longest goes on, or the signal is kept for whoever waits next.
pub open spec fn signalled(k: KernelView, at: u64, badge: u64) -> KernelView {
    let n = k.objects.notifications[at];
    if n.queue.len() == 0 {
        KernelView {
            objects: ObjectsView {
                notifications: k.objects.notifications.insert(at, n.posted(badge)),
                ..k.objects
            },
            ..k
        }
    } else {
        let t = n.queue[0];
        KernelView {
            objects: ObjectsView {
                notifications: k.objects.notifications.insert(
                    at,
                    NotificationView { queue: n.queue.drop_first(), ..n },
                ),
                waiters: Waiters { count: crate::bits::one_less(k.objects.waiters.count) },
                threads: k.objects.threads.insert(t, woken(k.thread(t), badge)),
                ..k.objects
            },
            queue: k.queue.push(t),
            ..k
        }
    }
}

/// What an external interrupt does, if the claim register held `word`: whoever
/// the source is bound to is signalled.
pub open spec fn interrupted(
    k: KernelView,
    table: Seq<crate::irq::Entry>,
    plic: Plic,
    word: u32,
) -> KernelView {
    if plic.base == 0 || word == 0 {
        k
    } else {
        match crate::irq::delivered_to(table, word as u64) {
            None => k,
            Some((at, badge)) => signalled(k, at.0, badge),
        }
    }
}

impl Kernel {
    /// An external interrupt arrived, and the claim register held `word`: tell
    /// whoever the source is bound to, and say which registers of the controller
    /// have to be written, in order. The thread on the hart stays there.
    pub fn on_external_interrupt(&mut self, irqs: &IrqTable, plic: &Plic, word: u32) -> (r: Vec<
        RegOp,
    >)
        requires
            old(self).wf(),
            plic.context() <= u32::MAX,
        ensures
            final(self).wf(),
            r@ == interrupt_accesses(*plic, word),
            final(self)@ == interrupted(old(self)@, irqs@, *plic, word),
    {
        let mut ops: Vec<RegOp> = Vec::new();
        if !plic.is_ready() {
            return ops;
        }
        let irq: u64 = match plic.claim(word) {
            Some(irq) => irq,
            None => {
                return ops;
            },
        };
        ops.push(plic.complete(word));
        ops.push(plic.disable(irq));
        assert(ops@ =~= interrupt_accesses(*plic, word));
        match irqs.target(irq) {
            Some((at, badge)) => self.signal(at, badge),
            None => {},
        }
        ops
    }

    /// Signal the notification at an address.
    fn signal(&mut self, at: PhysAddr, badge: u64)
        requires
            old(self).wf(),
        ensures
            final(self).wf(),
            final(self)@ == signalled(old(self)@, at.0, badge),
    {
        proof {
            self.objects.notifications.is_total();
        }
        let a: u64 = at.as_usize();
        let mut held: Notification = self.objects.notifications.take(a);
        match held.dequeue(&mut self.objects.threads, &mut self.objects.waiters) {
            None => {
                held.post(badge);
                self.objects.notifications.put(a, held);
            },
            Some(t) => {
                self.objects.notifications.put(a, held);
                let mut woken: Tcb = *self.objects.threads.get(t);
                woken.state = ThreadState::Ready;
                woken.badge = badge;
                woken.set_return(badge);
                self.objects.threads.put(t, woken);
                self.queue.push(t);
            },
        }
        assert(self@.objects.notifications =~= signalled(
            old(self)@,
            at.0,
            badge,
        ).objects.notifications);
        assert(self@.objects.threads =~= signalled(old(self)@, at.0, badge).objects.threads);
    }
}

/// An interrupt from a source that is bound is never lost: the thread that has
/// been waiting longest can run, with the badge in `a0`, or whoever waits next
/// finds the badge among those that were posted.
pub proof fn interrupts_are_never_lost(
    k: KernelView,
    table: Seq<crate::irq::Entry>,
    plic: Plic,
    word: u32,
)
    requires
        plic.base != 0,
        word != 0,
        crate::irq::delivered_to(table, word as u64) is Some,
        forall|a: u64| (#[trigger] k.objects.threads[a]).frame.x.len() == 32,
    ensures
        ({
            let (at, badge) = crate::irq::delivered_to(table, word as u64)->Some_0;
            let n = k.objects.notifications[at.0];
            let after = interrupted(k, table, plic, word);
            if n.queue.len() > 0 {
                let t = n.queue[0];
                &&& after.queue == k.queue.push(t)
                &&& after.thread(t).state is Ready
                &&& after.thread(t).frame.x[A0 as int] == badge
                &&& after.objects.notifications[at.0].queue == n.queue.drop_first()
            } else {
                &&& after.objects.notifications[at.0].taken().1 == Some(n.word | badge)
                &&& after.queue == k.queue
            }
        }),
{
}

/// An interrupt that was claimed is completed, and then masked until a driver has
/// served its device: two accesses, the first to the claim register of this
/// hart's context, the second to the enable word of the source, in which every
/// other source stays as it was. Without an interrupt there is none.
pub proof fn an_interrupt_is_completed_and_masked(plic: Plic, word: u32, other: u64, held: u32)
    requires
        plic.context() <= u32::MAX,
        other % 32 != word as u64 % 32,
    ensures
        plic.base == 0 || word == 0 ==> interrupt_accesses(plic, word).len() == 0,
        plic.base != 0 && word != 0 ==> {
            let ops = interrupt_accesses(plic, word);
            &&& ops.len() == 2
            &&& ops[0].register() == 0x20_0004 + 0x1000 * plic.context()
            &&& ops[0].result(held) == word
            &&& ops[1].register() == 0x2000 + 0x80 * plic.context() + 4 * (word as u64 / 32)
            &&& ops[1].result(held) & (1u32 << ((word as u64 % 32) as u32)) == 0
            &&& ops[1].result(held) & (1u32 << ((other % 32) as u32)) == held & (1u32 << ((other
                % 32) as u32))
        },
{
    crate::plic::masking_affects_one_source(plic, word as u64, other, held);
}

/// A thread that an interrupt wakes waits for nothing any more, has the badge on
/// record, and every register but `a0` as it was; nobody else has changed.
pub proof fn an_interrupt_wakes_one_thread(
    k: KernelView,
    table: Seq<crate::irq::Entry>,
    plic: Plic,
    word: u32,
    other: u64,
)
    requires
        plic.base != 0,
        0 < word < 96,
        table.len() == 96,
        table[word as int].notification.0 != 0,
        k.objects.notifications[table[word as int].notification.0].queue.len() > 0,
        k.objects.waiters.count > 0,
    ensures
        ({
            let t = k.objects.notifications[table[word as int].notification.0].queue[0];
            let after = interrupted(k, table, plic, word);
            &&& after.thread(t).blocked_on is Nothing
            &&& after.thread(t).badge == table[word as int].badge
            &&& after.thread(t).frame.x == k.thread(t).frame.x.update(
                10,
                table[word as int].badge,
            )
            &&& after.thread(t).frame.sepc == k.thread(t).frame.sepc
            &&& after.objects.waiters.count == k.objects.waiters.count - 1
            &&& after.objects.slots == k.objects.slots
            &&& after.objects.endpoints == k.objects.endpoints
            &&& other != t ==> after.thread(other) == k.thread(other)
        }),
{
}

/// An external interrupt leaves the thread on the hart where it is, and one from
/// a source that is bound to nothing changes no state at all.
pub proof fn interrupts_leave_the_hart_alone(
    k: KernelView,
    table: Seq<crate::irq::Entry>,
    plic: Plic,
    word: u32,
)
    ensures
        interrupted(k, table, plic, word).current == k.current,
        interrupted(k, table, plic, word).satp == k.satp,
        interrupted(k, table, plic, word).actions == k.actions,
        crate::irq::delivered_to(table, word as u64) is None ==> interrupted(k, table, plic, word)
            == k,
{
}

} // verus!
