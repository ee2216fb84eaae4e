//! What threads start from, and what the hart does when it goes from one to
//! another.

use crate::cap::RawCap;
use crate::mm::address_space::AddressSpace;
use crate::sched::{Action, KernelView, Next, Retire, SpawnError};
use crate::thread::ThreadId;
use vstd::prelude::*;

verus! {

/// What is done, if it has to be.
pub open spec fn due(needed: bool, action: Action) -> Seq<Action> {
    if needed {
        seq![action]
    } else {
        Seq::empty()
    }
}

/// Whether the hart, going to a thread, saves what has to be saved of the one it
/// leaves and restores what has to be restored of the one it comes to, in this
/// order, and installs the address space of the new one if it is another. A
/// thread has floating-point registers to save once it has used them, which the
/// two bits from 13 on say. Identifier zero is shared, so what is cached under it
/// has to go.
pub open spec fn is_switch(k: KernelView, left: Option<u64>, to: u64, after: KernelView) -> bool {
    let saves = left is Some && k.thread(left->0).frame.sstatus & 0x6000 != 0;
    let restores = k.thread(to).frame.sstatus & 0x6000 != 0;
    let satp = k.thread(to).satp;
    let shared = (satp >> 44) & 0xffff == 0;
    &&& after.satp == satp
    &&& after.current == Some(to)
    &&& after.thread(to).state is Running
    &&& after.actions == k.actions + due(saves, Action::SaveFp(left->0)) + due(
        restores,
        Action::RestoreFp(to),
    ) + due(k.satp != satp, Action::Install { satp, flush: shared })
}

proof fn lemma_shared(satp: u64)
    by (bit_vector)
    ensures
        (satp >> 44) & 0xffff == (satp / 0x1000_0000_0000) % 0x1_0000,
{
}

/// Going straight from one thread to another takes the hart over in full.
pub proof fn switching_takes_the_hart_over(k: KernelView, to: u64)
    ensures
        is_switch(k, k.current, to, k.switched(to).0),
        k.switched(to).1 == Next::Resume(to),
        k.switched(to).0.queue == k.queue,
{
    lemma_shared(k.thread(to).satp);
    let after = k.switched(to).0;
    let saved = match k.current {
        Some(a) => k.fp_saved(a),
        None => k,
    };
    assert(after.actions =~= k.actions + due(
        k.current is Some && k.thread(k.current->0).frame.sstatus & 0x6000 != 0,
        Action::SaveFp(k.current->0),
    ) + due(k.thread(to).frame.sstatus & 0x6000 != 0, Action::RestoreFp(to)) + due(
        k.satp != k.thread(to).satp,
        Action::Install {
            satp: k.thread(to).satp,
            flush: (k.thread(to).satp >> 44) & 0xffff == 0,
        },
    ));
}

/// Taking a thread off the hart saves what it has to keep, and the next one in
/// line takes the hart over in full.
pub proof fn retiring_hands_the_hart_on(k: KernelView, why: Retire)
    requires
        k.current is Some,
        !k.queue.contains(k.current->0),
        k.queue.len() > 0,
        !(why is Exited && k.stop_on_exit),
    ensures
        ({
            let left = k.current->0;
            let (after, next) = k.retired(why);
            &&& next == Next::Resume(k.queue[0])
            &&& is_switch(k, k.current, k.queue[0], after)
            &&& why is Requeue ==> after.queue == k.queue.drop_first().push(left)
                && after.thread(left).state is Ready
            &&& !(why is Requeue) ==> after.queue == k.queue.drop_first()
            &&& why is Blocked ==> after.thread(left) == k.thread(left)
            &&& why is Exited || why is Killed ==> after.thread(left).state is Exited
            &&& after.thread(left).frame == k.thread(left).frame
        }),
{
    let left = k.current->0;
    let to = k.queue[0];
    assert(k.queue.contains(to));
    assert(k.queue.push(left).drop_first() =~= k.queue.drop_first().push(left));
    let parted = k.parted(why);
    lemma_parted(k, why);
    lemma_first_resumed(parted);
    let saves = due(k.thread(left).frame.sstatus & 0x6000 != 0, Action::SaveFp(left));
    assert((k.actions + saves) + due(false, Action::SaveFp(0)) =~= k.actions + saves);
    lemma_others_kept(parted, left);
}

/// What taking a thread off the hart leaves.
proof fn lemma_parted(k: KernelView, why: Retire)
    requires
        k.current is Some,
        !k.queue.contains(k.current->0),
        k.queue.len() > 0,
    ensures
        ({
            let left = k.current->0;
            let parted = k.parted(why);
            &&& parted.actions == k.actions + due(
                k.thread(left).frame.sstatus & 0x6000 != 0,
                Action::SaveFp(left),
            )
            &&& parted.satp == k.satp
            &&& parted.thread(k.queue[0]) == k.thread(k.queue[0])
            &&& parted.queue == if why is Requeue {
                k.queue.push(left)
            } else {
                k.queue
            }
            &&& why is Requeue ==> parted.thread(left).state is Ready
            &&& why is Blocked ==> parted.thread(left) == k.thread(left)
            &&& why is Exited || why is Killed ==> parted.thread(left).state is Exited
            &&& parted.thread(left).frame == k.thread(left).frame
        }),
{
    let left = k.current->0;
    assert(k.queue.contains(k.queue[0]));
    assert(k.parted(why).actions =~= k.actions + due(
        k.thread(left).frame.sstatus & 0x6000 != 0,
        Action::SaveFp(left),
    ));
}

/// Resuming the first thread in line changes no other.
proof fn lemma_others_kept(k: KernelView, other: u64)
    requires
        k.queue.len() > 0,
        k.queue[0] != other,
    ensures
        k.next_resumed().0.thread(other) == k.thread(other),
        k.next_resumed().0.queue == k.queue.drop_first(),
        k.next_resumed().1 == Next::Resume(k.queue[0]),
{
}

/// What resuming the first thread in line comes to.
proof fn lemma_first_resumed(k: KernelView)
    requires
        k.queue.len() > 0,
    ensures
        is_switch(k, None, k.queue[0], k.next_resumed().0),
        k.next_resumed().0.actions == k.actions + due(false, Action::SaveFp(0)) + due(
            k.thread(k.queue[0]).frame.sstatus & 0x6000 != 0,
            Action::RestoreFp(k.queue[0]),
        ) + due(
            k.satp != k.thread(k.queue[0]).satp,
            Action::Install {
                satp: k.thread(k.queue[0]).satp,
                flush: (k.thread(k.queue[0]).satp >> 44) & 0xffff == 0,
            },
        ),
{
    let to = k.queue[0];
    lemma_shared(k.thread(to).satp);
    assert(k.next_resumed().0.actions =~= k.actions + due(false, Action::SaveFp(0)) + due(
        k.thread(to).frame.sstatus & 0x6000 != 0,
        Action::RestoreFp(to),
    ) + due(
        k.satp != k.thread(to).satp,
        Action::Install {
            satp: k.thread(to).satp,
            flush: (k.thread(to).satp >> 44) & 0xffff == 0,
        },
    ));
}

/// Starting to run resumes the thread that has been ready longest, and leaves the
/// others in line; with nobody in line there is nothing to run.
pub proof fn running_resumes_the_first_in_line(k: KernelView)
    requires
        k.pops < u64::MAX,
    ensures
        ({
            let (after, next) = k.next_resumed();
            &&& k.queue.len() == 0 ==> next is Leave && after == k
            &&& k.queue.len() > 0 ==> {
                &&& next == Next::Resume(k.queue[0])
                &&& is_switch(k, None, k.queue[0], after)
                &&& after.queue == k.queue.drop_first()
                &&& after.pops == k.pops + 1
            }
        }),
{
    if k.queue.len() > 0 {
        lemma_first_resumed(k);
    }
}

/// Whether a thread starts out as it was asked for: at its entry, on its stack,
/// with every other register zero, in user mode, with interrupts on and the FPU
/// off, in its own spaces and with its own pager, waiting for nobody.
pub open spec fn starts_afresh(
    t: crate::thread::TcbView,
    at: u64,
    id: ThreadId,
    space: AddressSpace,
    entry: u64,
    stack_top: u64,
    cspace: RawCap,
    fault_ep: RawCap,
) -> bool {
    &&& t.frame.sepc == entry
    &&& t.frame.x.len() == 32
    &&& t.frame.x[2] == stack_top
    &&& forall|i: int| 0 <= i < 32 && i != 2 ==> #[trigger] t.frame.x[i] == 0
    &&& t.frame.sstatus == 0x20
    &&& t.satp >> 60 == 8
    &&& (t.satp >> 44) & 0xffff == space.asid.0
    &&& t.satp & 0xfff_ffff_ffff == space.mapper.root.0 / 4096
    &&& t.state is Ready
    &&& t.id == id
    &&& t.cspace == cspace
    &&& t.fault_ep == fault_ep
    &&& t.reply.kind is Null
    &&& t.blocked_on is Nothing
    &&& !t.call_pending
    &&& !t.faulted
    &&& t.self_paddr.0 == at
}

/// A new thread takes a frame of its own, starts out as it was asked for, and is
/// last in line for the hart; no thread that was there before has changed. With
/// no frame left there is no thread.
pub proof fn a_spawned_thread_starts_afresh(
    before: KernelView,
    after: KernelView,
    frames_before: Seq<u64>,
    frames_after: Seq<u64>,
    space: AddressSpace,
    entry: u64,
    stack_top: u64,
    cspace: RawCap,
    fault_ep: RawCap,
    r: Result<ThreadId, SpawnError>,
)
    requires
        crate::sched::is_spawn(
            before,
            after,
            frames_before,
            frames_after,
            space,
            entry,
            stack_top,
            cspace,
            fault_ep,
            r,
        ),
        space.mapper.root.0 < crate::mm::addr::PHYS_LIMIT,
        before.spawned < u64::MAX,
    ensures
        frames_before.len() == 0 <==> r is Err,
        r is Ok ==> {
            let at = frames_before[0];
            &&& frames_after == frames_before.drop_first()
            &&& after.queue == before.queue.push(at)
            &&& after.current == before.current
            &&& after.spawned == before.spawned + 1
            &&& r->Ok_0 == before.objects.ids.next
            &&& before.objects.ids.next < u64::MAX ==> after.objects.ids.next != r->Ok_0
            &&& starts_afresh(
                after.thread(at),
                at,
                r->Ok_0,
                space,
                entry,
                stack_top,
                cspace,
                fault_ep,
            )
            &&& after.objects.slots == before.objects.slots
            &&& forall|other: u64|
                other != at ==> #[trigger] after.thread(other) == before.thread(other)
        },
        r is Err ==> after.queue == before.queue && after.objects.threads
            == before.objects.threads,
{
    crate::mm::address_space::satp_holds_its_fields(space.mapper.root.0, space.asid);
    lemma_fresh_status();
}

proof fn lemma_fresh_status()
    ensures
        crate::thread::SPIE | crate::thread::FS_OFF == 0x20,
{
    assert(0x20u64 | 0u64 == 0x20u64) by (bit_vector);
}

/// Destroying all threads in line leaves nobody in line, and every one of them
/// ended; nobody else is touched.
pub proof fn destroying_all_leaves_nobody_in_line(k: KernelView, t: u64)
    ensures
        ({
            let after = crate::sched::all_killed(k, k.queue);
            &&& after.queue.len() == 0
            &&& k.queue.contains(t) ==> after.thread(t).state is Exited
            &&& !k.queue.contains(t) ==> after.thread(t) == k.thread(t)
            &&& after.objects.slots == k.objects.slots
        }),
{
    lemma_killed(k, k.queue, t);
    assert(k.queue.skip(k.queue.len() as int).len() == 0);
}

proof fn lemma_killed(k: KernelView, list: Seq<u64>, t: u64)
    requires
        list.len() <= k.queue.len(),
    ensures
        ({
            let after = crate::sched::all_killed(k, list);
            &&& after.queue == k.queue.skip(list.len() as int)
            &&& list.contains(t) ==> after.thread(t).state is Exited
            &&& !list.contains(t) ==> after.thread(t) == k.thread(t)
            &&& after.objects.slots == k.objects.slots
        }),
    decreases list.len(),
{
    if list.len() == 0 {
        assert(k.queue.skip(0) =~= k.queue);
    } else {
        let rest = list.drop_last();
        lemma_killed(k, rest, t);
        let n = rest.len() as int;
        assert(k.queue.skip(n).drop_first() =~= k.queue.skip(n + 1));
        if list.contains(t) && t != list.last() {
            let i = list.index_of(t);
            assert(rest[i] == t);
        }
        if rest.contains(t) {
            let i = rest.index_of(t);
            assert(list[i] == t);
        }
        if t == list.last() {
            assert(list[list.len() - 1] == t);
        }
    }
}

} // verus!
