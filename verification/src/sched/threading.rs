//! What invoking a thread is for, told from the trap: how a task is set up,
//! started and stopped by another.

use crate::cap::RawCap;
use crate::sched::{KernelView, Next};
use crate::thread::TcbView;
use vstd::prelude::*;

verus! {

/// Whether a thread asks something of another thread that it may ask.
pub open spec fn commands(k: KernelView, tcb: u64, label: u64) -> bool {
    let cap = crate::sched::invoking::invoked(k, tcb);
    &&& crate::sched::invoking::invokes(k, tcb, label)
    &&& cap.kind is Tcb
    &&& cap.rights & 2 != 0
    &&& cap.paddr != k.thread(tcb).self_paddr
    &&& cap.paddr.0 != tcb
    &&& forall|a: u64| #[trigger] k.objects.threads.contains_key(a)
}

/// The thread that another one commands.
pub open spec fn commanded(k: KernelView, tcb: u64) -> u64 {
    crate::sched::invoking::invoked(k, tcb).paddr.0
}

/// Whether the commanding thread goes on with zero in `a0`, and of everybody else
/// only the commanded thread has changed.
pub open spec fn only_commanded_changes(
    k: KernelView,
    tcb: u64,
    after: KernelView,
    next: Next,
) -> bool {
    &&& crate::sched::invoking::goes_on(k, tcb, after, next, 0)
    &&& after.objects.slots == k.objects.slots
    &&& after.objects.mem == k.objects.mem
    &&& forall|other: u64|
        other != tcb && other != commanded(k, tcb) ==> #[trigger] after.thread(other) == k.thread(
            other,
        )
}

/// A thread is commanded only with the right to write to it, and never by itself;
/// anything else is answered with an error and changes nothing.
pub proof fn commanding_takes_the_right_to_write(
    k: KernelView,
    tcb: u64,
    stval: u64,
    after: KernelView,
    next: Next,
    label: u64,
)
    requires
        crate::sched::invoking::invokes(k, tcb, label),
        crate::sched::invoking::invoked(k, tcb).kind is Tcb,
        crate::sched::entry::is_user_trap(k, tcb, 8, stval, after, next),
    ensures
        ({
            let cap = crate::sched::invoking::invoked(k, tcb);
            &&& cap.rights & 2 == 0 ==> crate::sched::syscalls::is_answered(
                k,
                tcb,
                after,
                next,
                0xffff_ffff_ffff_ffff,
            )
            &&& cap.rights & 2 != 0 && cap.paddr == k.thread(tcb).self_paddr
                ==> crate::sched::syscalls::is_answered(
                k,
                tcb,
                after,
                next,
                0xffff_ffff_ffff_fffa,
            )
        }),
{
    let t = k.thread(tcb);
    crate::sched::syscalls::lemma_named(
        k.objects.slots.caps,
        t.cspace,
        crate::sched::syscalls::arg(t, 0),
    );
    crate::sched::syscalls::lemma_right_bits(crate::sched::invoking::invoked(k, tcb).rights, 0, 0);
    crate::sched::syscalls::lemma_answered(k, tcb, 0xffff_ffff_ffff_ffff);
    crate::sched::syscalls::lemma_answered(k, tcb, 0xffff_ffff_ffff_fffa);
}

/// What a command to a thread comes to.
proof fn lemma_commanded(k: KernelView, tcb: u64, stval: u64, after: KernelView, next: Next, label: u64)
    requires
        commands(k, tcb, label),
        crate::sched::entry::is_user_trap(k, tcb, 8, stval, after, next),
    ensures
        ({
            let p = crate::sched::syscalls::past(k, tcb);
            let done = crate::sched::invoke::thread_adjusted(
                p,
                p.thread(tcb),
                commanded(k, tcb),
                label,
            );
            match done {
                Some((w, r)) => (after, next) == w.finished(
                    tcb,
                    crate::sched::invoke::outcome_code(r),
                ),
                None => (after, next) == p.finished(tcb, 0xffff_ffff_ffff_fffe),
            }
        }),
        ({
            let p = crate::sched::syscalls::past(k, tcb);
            let t = k.thread(tcb);
            &&& p.thread(commanded(k, tcb)) == k.thread(commanded(k, tcb))
            &&& forall|n: int|
                2 <= n <= 4 ==> #[trigger] p.read(t.cspace, crate::sched::syscalls::arg(t, n))
                    == Ok::<RawCap, crate::cap::CapError>(
                    crate::sched::invoking::cap_arg(k, tcb, n),
                )
        }),
{
    let t = k.thread(tcb);
    let caps = k.objects.slots.caps;
    let p = crate::sched::syscalls::past(k, tcb);
    crate::sched::syscalls::lemma_named(caps, t.cspace, crate::sched::syscalls::arg(t, 0));
    crate::sched::syscalls::lemma_right_bits(crate::sched::invoking::invoked(k, tcb).rights, 0, 0);
    assert forall|n: int|
        2 <= n <= 4 implies #[trigger] p.read(t.cspace, crate::sched::syscalls::arg(t, n))
        == Ok::<RawCap, crate::cap::CapError>(crate::sched::invoking::cap_arg(k, tcb, n)) by {
        crate::sched::syscalls::lemma_named(caps, t.cspace, crate::sched::syscalls::arg(t, n));
    }
}

/// A thread is asked only what a thread can do.
pub proof fn unknown_commands_are_refused(
    k: KernelView,
    tcb: u64,
    stval: u64,
    after: KernelView,
    next: Next,
    label: u64,
)
    requires
        commands(k, tcb, label),
        !(7 <= label <= 11),
        crate::sched::entry::is_user_trap(k, tcb, 8, stval, after, next),
    ensures
        crate::sched::syscalls::is_answered(k, tcb, after, next, 0xffff_ffff_ffff_fffe),
{
    lemma_commanded(k, tcb, stval, after, next, label);
    crate::sched::syscalls::lemma_answered(k, tcb, 0xffff_ffff_ffff_fffe);
}

/// Putting a thread back as it was changes nothing.
proof fn lemma_same_thread(k: KernelView, a: u64)
    requires
        k.objects.threads.contains_key(a),
    ensures
        k.with_thread(a, k.thread(a)) == k,
{
    assert(k.objects.threads.insert(a, k.thread(a)) =~= k.objects.threads);
}

/// Whether a capability can be a thread's way to its pager: an endpoint that may
/// be sent to, or none at all.
pub open spec fn leads_to_pager(cap: RawCap) -> bool {
    cap.kind is Null || (cap.kind is Endpoint && cap.rights & 2 != 0)
}

/// Configuring gives a thread that does not run yet the capability space in `a2`,
/// the address space in `a3` and the pager in `a4`, each a capability of the
/// right kind: its translations will be those of that page table, under the
/// identifier assigned to it. Otherwise nothing changes.
pub proof fn configuring_gives_a_thread_its_spaces(
    k: KernelView,
    tcb: u64,
    stval: u64,
    after: KernelView,
    next: Next,
)
    requires
        commands(k, tcb, 8),
        crate::sched::entry::is_user_trap(k, tcb, 8, stval, after, next),
        crate::sched::invoking::cap_arg(k, tcb, 3).paddr.0 < crate::mm::addr::PHYS_LIMIT,
    ensures
        ({
            let cspace = crate::sched::invoking::cap_arg(k, tcb, 2);
            let vspace = crate::sched::invoking::cap_arg(k, tcb, 3);
            let pager = crate::sched::invoking::cap_arg(k, tcb, 4);
            let was = k.thread(commanded(k, tcb));
            let now = after.thread(commanded(k, tcb));
            let fits = cspace.kind is CNode && vspace.kind is PageTable;
            &&& was.state is Inactive && fits && vspace.asid != 0 && leads_to_pager(pager) ==> {
                &&& only_commanded_changes(k, tcb, after, next)
                &&& now == (TcbView { cspace, fault_ep: pager, satp: now.satp, ..was })
                &&& now.satp >> 60 == 8
                &&& (now.satp >> 44) & 0xffff == vspace.asid
                &&& now.satp & 0xfff_ffff_ffff == vspace.paddr.0 / 4096
                &&& after.queue == k.queue
            }
            &&& !(was.state is Inactive) ==> crate::sched::syscalls::is_answered(
                k,
                tcb,
                after,
                next,
                0xffff_ffff_ffff_fffa,
            )
            &&& was.state is Inactive && fits && vspace.asid == 0
                ==> crate::sched::syscalls::is_answered(
                k,
                tcb,
                after,
                next,
                0xffff_ffff_ffff_fff9,
            )
            &&& was.state is Inactive && (!fits || (vspace.asid != 0 && !leads_to_pager(pager)))
                ==> crate::sched::syscalls::is_answered(
                k,
                tcb,
                after,
                next,
                0xffff_ffff_ffff_ffff,
            )
        }),
{
    let t = k.thread(tcb);
    let a = commanded(k, tcb);
    let p = crate::sched::syscalls::past(k, tcb);
    lemma_commanded(k, tcb, stval, after, next, 8);
    assert(p.read(t.cspace, crate::sched::syscalls::arg(t, 2)) is Ok);
    assert(p.read(t.cspace, crate::sched::syscalls::arg(t, 3)) is Ok);
    assert(p.read(t.cspace, crate::sched::syscalls::arg(t, 4)) is Ok);
    let vspace = crate::sched::invoking::cap_arg(k, tcb, 3);
    crate::mm::address_space::satp_holds_its_fields(
        vspace.paddr.0,
        crate::mm::address_space::Asid(vspace.asid),
    );
    crate::sched::syscalls::lemma_right_bits(
        crate::sched::invoking::cap_arg(k, tcb, 4).rights,
        0,
        0,
    );
    lemma_same_thread(p, a);
    crate::sched::syscalls::lemma_answered(k, tcb, 0xffff_ffff_ffff_ffff);
    crate::sched::syscalls::lemma_answered(k, tcb, 0xffff_ffff_ffff_fffa);
    crate::sched::syscalls::lemma_answered(k, tcb, 0xffff_ffff_ffff_fff9);
}

/// Attaching a pager changes nothing else of a thread.
pub proof fn attaching_a_pager_changes_nothing_else(
    k: KernelView,
    tcb: u64,
    stval: u64,
    after: KernelView,
    next: Next,
)
    requires
        commands(k, tcb, 7),
        crate::sched::entry::is_user_trap(k, tcb, 8, stval, after, next),
    ensures
        ({
            let pager = crate::sched::invoking::cap_arg(k, tcb, 2);
            let a = commanded(k, tcb);
            &&& leads_to_pager(pager) ==> {
                &&& only_commanded_changes(k, tcb, after, next)
                &&& after.thread(a) == (TcbView { fault_ep: pager, ..k.thread(a) })
                &&& after.queue == k.queue
            }
            &&& !leads_to_pager(pager) ==> crate::sched::syscalls::is_answered(
                k,
                tcb,
                after,
                next,
                0xffff_ffff_ffff_ffff,
            )
        }),
{
    let t = k.thread(tcb);
    let p = crate::sched::syscalls::past(k, tcb);
    lemma_commanded(k, tcb, stval, after, next, 7);
    assert(p.read(t.cspace, crate::sched::syscalls::arg(t, 2)) is Ok);
    crate::sched::syscalls::lemma_right_bits(
        crate::sched::invoking::cap_arg(k, tcb, 2).rights,
        0,
        0,
    );
    lemma_same_thread(p, commanded(k, tcb));
    crate::sched::syscalls::lemma_answered(k, tcb, 0xffff_ffff_ffff_ffff);
}

/// Writing registers sets where a thread goes on, in `a2`, and on what stack, in
/// `a3`, unless it is in the middle of a message.
pub proof fn registers_are_written_as_asked(
    k: KernelView,
    tcb: u64,
    stval: u64,
    after: KernelView,
    next: Next,
)
    requires
        commands(k, tcb, 9),
        crate::sched::entry::is_user_trap(k, tcb, 8, stval, after, next),
    ensures
        ({
            let t = k.thread(tcb);
            let a = commanded(k, tcb);
            let was = k.thread(a);
            let now = after.thread(a);
            let busy = was.state is BlockedOnSend || was.state is BlockedOnRecv
                || was.state is AwaitingReply;
            &&& !busy ==> {
                &&& only_commanded_changes(k, tcb, after, next)
                &&& now == (TcbView { frame: now.frame, ..was })
                &&& now.frame.sepc == crate::sched::syscalls::arg(t, 2)
                &&& now.frame.x == was.frame.x.update(2, crate::sched::syscalls::arg(t, 3))
                &&& now.frame.sstatus == was.frame.sstatus
                &&& after.queue == k.queue
            }
            &&& busy ==> crate::sched::syscalls::is_answered(
                k,
                tcb,
                after,
                next,
                0xffff_ffff_ffff_fffa,
            )
        }),
{
    let p = crate::sched::syscalls::past(k, tcb);
    lemma_commanded(k, tcb, stval, after, next, 9);
    lemma_same_thread(p, commanded(k, tcb));
    crate::sched::syscalls::lemma_answered(k, tcb, 0xffff_ffff_ffff_fffa);
}

/// Resuming makes a thread ready, last in line for the hart, if it has an address
/// space and does not run already. Otherwise nothing changes.
pub proof fn resuming_makes_a_thread_ready(
    k: KernelView,
    tcb: u64,
    stval: u64,
    after: KernelView,
    next: Next,
)
    requires
        commands(k, tcb, 10),
        crate::sched::entry::is_user_trap(k, tcb, 8, stval, after, next),
    ensures
        ({
            let a = commanded(k, tcb);
            let was = k.thread(a);
            let now = after.thread(a);
            &&& was.satp != 0 && was.state is Inactive ==> {
                &&& only_commanded_changes(k, tcb, after, next)
                &&& now == (TcbView { state: now.state, ..was })
                &&& now.state is Ready
                &&& after.queue == k.queue.push(a)
            }
            &&& was.satp == 0 ==> crate::sched::syscalls::is_answered(
                k,
                tcb,
                after,
                next,
                0xffff_ffff_ffff_fff9,
            )
            &&& was.satp != 0 && !(was.state is Inactive) ==> crate::sched::syscalls::is_answered(
                k,
                tcb,
                after,
                next,
                0xffff_ffff_ffff_fffa,
            )
        }),
{
    lemma_commanded(k, tcb, stval, after, next, 10);
    crate::sched::syscalls::lemma_answered(k, tcb, 0xffff_ffff_ffff_fffa);
    crate::sched::syscalls::lemma_answered(k, tcb, 0xffff_ffff_ffff_fff9);
}

/// Suspending takes a thread that is ready off the run queue, and leaves the
/// others in line as they were. It is no mistake to suspend a thread that does
/// not run; one that waits for a message, or has exited, is left alone.
pub proof fn suspending_takes_a_thread_out_of_line(
    k: KernelView,
    tcb: u64,
    stval: u64,
    after: KernelView,
    next: Next,
)
    requires
        commands(k, tcb, 11),
        crate::sched::entry::is_user_trap(k, tcb, 8, stval, after, next),
    ensures
        ({
            let a = commanded(k, tcb);
            let was = k.thread(a);
            let now = after.thread(a);
            &&& was.state is Ready ==> {
                &&& only_commanded_changes(k, tcb, after, next)
                &&& now == (TcbView { state: now.state, ..was })
                &&& now.state is Inactive
                &&& k.queue.contains(a) ==> exists|i: int|
                    {
                        &&& 0 <= i < k.queue.len()
                        &&& k.queue[i] == a
                        &&& !k.queue.take(i).contains(a)
                        &&& after.queue == #[trigger] k.queue.remove(i)
                    }
                &&& !k.queue.contains(a) ==> after.queue == k.queue
            }
            &&& was.state is Inactive ==> crate::sched::syscalls::is_answered(k, tcb, after, next, 0)
            &&& !(was.state is Ready) && !(was.state is Inactive)
                ==> crate::sched::syscalls::is_answered(
                k,
                tcb,
                after,
                next,
                0xffff_ffff_ffff_fffa,
            )
        }),
{
    lemma_commanded(k, tcb, stval, after, next, 11);
    let a = commanded(k, tcb);
    crate::sched::syscalls::lemma_answered(k, tcb, 0);
    crate::sched::syscalls::lemma_answered(k, tcb, 0xffff_ffff_ffff_fffa);
    if k.queue.contains(a) {
        let i = lemma_one_out(k.queue, a);
        assert(crate::queue::without_first(k.queue, a) == k.queue.remove(i));
    } else {
        crate::queue::lemma_without_absent(k.queue, a);
    }
}

proof fn lemma_one_out(s: Seq<u64>, a: u64) -> (i: int)
    requires
        s.contains(a),
    ensures
        0 <= i < s.len(),
        s[i] == a,
        !s.take(i).contains(a),
        crate::queue::without_first(s, a) == s.remove(i),
    decreases s.len(),
{
    if s[0] == a {
        assert(s.drop_first() =~= s.remove(0));
        0
    } else {
        let rest = s.drop_first();
        let j = s.index_of(a);
        assert(rest[j - 1] == a);
        let i = lemma_one_out(rest, a);
        assert(seq![s[0]] + rest.remove(i) =~= s.remove(i + 1));
        assert(!s.take(i + 1).contains(a)) by {
            if s.take(i + 1).contains(a) {
                let m = s.take(i + 1).index_of(a);
                assert(rest.take(i)[m - 1] == a);
            }
        }
        i + 1
    }
}

} // verus!
