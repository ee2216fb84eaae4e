//! What holds of scheduling and messages whatever the threads do.

use crate::abi::msg::MessageInfo;
use crate::abi::object::ObjectType;
use crate::abi::result::{ERR_NO_REPLY, OK};
use crate::cap::slot::Derivation;
use crate::cap::RawCap;
use crate::ipc::EndpointState;
use crate::sched::{KernelView, Next, Retire};
use crate::thread::TcbView;
use crate::trap::{A0, A1, A2, A6};
use vstd::prelude::*;

verus! {

/// Delivering a message touches the receiver and the slots, and nothing else.
pub(crate) proof fn lemma_delivered(k: KernelView, from: u64, to: u64, info: MessageInfo, badge: u64)
    requires
        k.thread(to).frame.x.len() == 32,
    ensures
        ({
            let after = crate::sched::message::delivered(k, from, to, info, badge);
            let got = after.thread(to);
            &&& after.queue == k.queue
            &&& after.pops == k.pops
            &&& after.current == k.current
            &&& after.satp == k.satp
            &&& after.objects.endpoints == k.objects.endpoints
            &&& forall|a: u64| a != to ==> #[trigger] after.thread(a) == k.thread(a)
            &&& got.frame.x.len() == 32
            &&& got.frame.x[A0 as int] == badge
            &&& got.badge == badge
            &&& forall|i: int|
                0 <= i < crate::ipc::carried(info) ==> #[trigger] got.frame.x[A2 + i]
                    == k.thread(from).frame.x[A2 + i]
            &&& forall|i: int|
                0 <= i < 32 && i != A0 && i != A1 && !(A2 <= i < A2 + crate::ipc::carried(info))
                    ==> #[trigger] got.frame.x[i] == k.thread(to).frame.x[i]
            &&& got.frame.sepc == k.thread(to).frame.sepc
            &&& got.frame.sstatus == k.thread(to).frame.sstatus
            &&& got.satp == k.thread(to).satp
            &&& got.cspace == k.thread(to).cspace
            &&& got.self_paddr == k.thread(to).self_paddr
            &&& got.state == k.thread(to).state
            &&& got.id == k.thread(to).id
        }),
{
}

/// Calling a server that is already waiting switches straight to it: the run
/// queue is neither read nor written. The caller waits for the reply, and the
/// server holds the right to give it.
pub proof fn a_call_bypasses_the_run_queue(
    k: KernelView,
    tcb: u64,
    ep: RawCap,
    info: MessageInfo,
)
    requires
        k.objects.endpoints[ep.paddr.0].waiting(EndpointState::Receiving),
        k.objects.endpoints[ep.paddr.0].queue[0] != tcb,
        k.thread(k.objects.endpoints[ep.paddr.0].queue[0]).frame.x.len() == 32,
    ensures
        ({
            let server = k.objects.endpoints[ep.paddr.0].queue[0];
            let (after, next) = crate::sched::message::sent(k, tcb, ep, info, true);
            &&& after.queue == k.queue
            &&& after.pops == k.pops
            &&& next == Next::Resume(server)
            &&& after.current == Some(server)
            &&& after.thread(server).state is Running
            &&& after.thread(tcb).state is AwaitingReply
            &&& after.thread(server).reply.kind is Reply
            &&& after.thread(server).reply.paddr == k.thread(tcb).self_paddr
        }),
{
    let e = k.objects.endpoints[ep.paddr.0];
    let taken = k.with_endpoint(ep.paddr.0, e.left_with(e.queue.drop_first()));
    lemma_delivered(taken, tcb, e.queue[0], info, ep.badge_spec());
}

/// Replying and waiting for the next request, with no other request queued,
/// switches straight back to the caller: the run queue is neither read nor
/// written.
pub proof fn a_reply_bypasses_the_run_queue(k: KernelView, tcb: u64)
    requires
        k.thread(tcb).reply.kind is Reply,
        k.thread(tcb).reply.paddr.0 != tcb,
        k.thread(k.thread(tcb).reply.paddr.0).frame.x.len() == 32,
        ({
            let done = crate::sched::message::answered(k, tcb);
            &&& crate::sched::message::receivable(done, done.thread(tcb)) matches Ok(ep)
            &&& !k.objects.endpoints[ep.paddr.0].waiting(EndpointState::Sending)
        }),
    ensures
        ({
            let caller = k.thread(tcb).reply.paddr.0;
            let (after, next) = crate::sched::message::reply_called(k, tcb, true);
            &&& after.queue == k.queue
            &&& after.pops == k.pops
            &&& next == Next::Resume(caller)
            &&& after.current == Some(caller)
            &&& after.thread(caller).state is Running
            &&& after.thread(tcb).state is BlockedOnRecv
            &&& after.thread(tcb).reply.kind is Null
        }),
{
    lemma_delivered(
        k,
        tcb,
        k.thread(tcb).reply.paddr.0,
        MessageInfo(k.thread(tcb).frame.x[A1 as int]),
        0,
    );
}

/// A message arrives as it was sent: the receiver's message registers hold what
/// the sender's held, `a0` holds the badge of the capability that was invoked,
/// and no register beyond the message has changed.
pub proof fn messages_arrive_as_sent(
    k: KernelView,
    tcb: u64,
    ep: RawCap,
    info: MessageInfo,
    is_call: bool,
    i: int,
)
    requires
        k.objects.endpoints[ep.paddr.0].waiting(EndpointState::Receiving),
        k.objects.endpoints[ep.paddr.0].queue[0] != tcb,
        k.thread(k.objects.endpoints[ep.paddr.0].queue[0]).frame.x.len() == 32,
        0 <= i < 32,
    ensures
        ({
            let receiver = k.objects.endpoints[ep.paddr.0].queue[0];
            let after = crate::sched::message::sent(k, tcb, ep, info, is_call).0;
            let got = after.thread(receiver).frame;
            &&& got.x[A0 as int] == ep.badge_spec()
            &&& A2 <= i < A2 + crate::ipc::carried(info) ==> got.x[i] == k.thread(tcb).frame.x[i]
            &&& i != A0 && i != A1 && !(A2 <= i < A2 + crate::ipc::carried(info)) ==> got.x[i]
                == k.thread(receiver).frame.x[i]
            &&& got.sepc == k.thread(receiver).frame.sepc
        }),
{
    let e = k.objects.endpoints[ep.paddr.0];
    let taken = k.with_endpoint(ep.paddr.0, e.left_with(e.queue.drop_first()));
    lemma_delivered(taken, tcb, e.queue[0], info, ep.badge_spec());
    if A2 <= i < A2 + crate::ipc::carried(info) {
        let told = crate::sched::message::delivered(
            taken,
            tcb,
            e.queue[0],
            info,
            ep.badge_spec(),
        );
        assert(told.thread(e.queue[0]).frame.x[A2 + (i - A2)] == k.thread(tcb).frame.x[A2 + (i
            - A2)]);
    }
}

/// The sender that has been waiting longest is received first, and its message
/// arrives as it was sent.
pub proof fn the_longest_waiting_sender_is_received_first(k: KernelView, tcb: u64, ep: RawCap, i: int)
    requires
        k.objects.endpoints[ep.paddr.0].waiting(EndpointState::Sending),
        k.objects.endpoints[ep.paddr.0].queue[0] != tcb,
        k.thread(tcb).frame.x.len() == 32,
        0 <= i,
    ensures
        ({
            let e = k.objects.endpoints[ep.paddr.0];
            let sender = k.thread(e.queue[0]);
            let info = MessageInfo(sender.frame.x[A1 as int]);
            let (after, next) = crate::sched::message::received_on(k, tcb, ep);
            let got = after.thread(tcb);
            &&& next == Next::Resume(tcb)
            &&& after.objects.endpoints[ep.paddr.0].queue == e.queue.drop_first()
            &&& got.frame.x[A0 as int] == sender.badge
            &&& i < crate::ipc::carried(info) ==> got.frame.x[A2 + i] == sender.frame.x[A2 + i]
            &&& sender.call_pending ==> got.reply.kind is Reply && got.reply.paddr
                == sender.self_paddr && after.queue == k.queue
            &&& !sender.call_pending ==> got.reply.kind is Null && after.queue == k.queue.push(
                e.queue[0],
            )
        }),
{
    let e = k.objects.endpoints[ep.paddr.0];
    let sender = k.thread(e.queue[0]);
    let info = MessageInfo(sender.frame.x[A1 as int]);
    let taken = k.with_endpoint(ep.paddr.0, e.left_with(e.queue.drop_first()));
    lemma_delivered(taken, e.queue[0], tcb, info, sender.badge);
}

/// A reply can be given once: having replied, a thread holds no reply
/// capability, and another attempt is refused.
pub proof fn a_reply_is_given_once(k: KernelView, tcb: u64)
    requires
        k.thread(tcb).reply.kind is Reply,
        k.thread(tcb).reply.paddr.0 != tcb,
        k.thread(k.thread(tcb).reply.paddr.0).frame.x.len() == 32,
    ensures
        ({
            let after = crate::sched::message::reply_called(k, tcb, false).0;
            &&& after.thread(tcb).reply.kind is Null
            &&& crate::sched::message::reply_called(after, tcb, false) == after.finished(
                tcb,
                ERR_NO_REPLY,
            )
        }),
{
    lemma_delivered(
        k,
        tcb,
        k.thread(tcb).reply.paddr.0,
        MessageInfo(k.thread(tcb).frame.x[A1 as int]),
        0,
    );
}

/// Answering a thread that waits for a fault to be dealt with leaves its
/// registers and its program counter alone: it runs the instruction again.
pub proof fn a_faulted_thread_resumes_where_it_was(k: KernelView, tcb: u64)
    requires
        k.thread(tcb).reply.kind is Reply,
        k.thread(tcb).reply.paddr.0 != tcb,
        k.thread(k.thread(tcb).reply.paddr.0).faulted,
    ensures
        ({
            let caller = k.thread(tcb).reply.paddr.0;
            let after = crate::sched::message::answered(k, tcb);
            &&& after.thread(caller).frame == k.thread(caller).frame
            &&& !after.thread(caller).faulted
            &&& after.thread(caller).state is Ready
        }),
{
}

/// A fault keeps the program counter where it is, and tells the pager the
/// address, the program counter and the kind of access.
pub proof fn a_fault_reports_what_happened(
    k: KernelView,
    tcb: u64,
    cause: crate::trap::Cause,
    address: u64,
)
    requires
        k.thread(tcb).fault_ep.kind is Endpoint,
        k.objects.endpoints[k.thread(tcb).fault_ep.paddr.0].waiting(EndpointState::Receiving),
        k.objects.endpoints[k.thread(tcb).fault_ep.paddr.0].queue[0] != tcb,
        k.thread(tcb).frame.x.len() == 32,
        k.thread(k.objects.endpoints[k.thread(tcb).fault_ep.paddr.0].queue[0]).frame.x.len() == 32,
    ensures
        ({
            let pager = k.objects.endpoints[k.thread(tcb).fault_ep.paddr.0].queue[0];
            let (after, next) = crate::sched::entry::fault_delivered(k, tcb, cause, address);
            &&& next == Next::Resume(pager)
            &&& after.thread(pager).frame.x[A2 as int] == address
            &&& after.thread(pager).frame.x[A2 + 1] == k.thread(tcb).frame.sepc
            &&& after.thread(pager).frame.x[A2 + 2] == crate::sched::entry::fault_kind(cause)
            &&& after.thread(tcb).frame.sepc == k.thread(tcb).frame.sepc
            &&& after.thread(tcb).faulted
            &&& after.thread(tcb).state is AwaitingReply
            &&& after.queue == k.queue
        }),
{
    let t = k.thread(tcb);
    let ep = t.fault_ep;
    let told = k.with_thread(tcb, crate::sched::entry::faulting(t, cause, address));
    let info = crate::sched::entry::fault_header();
    crate::abi::msg::headers_round_trip(crate::abi::label::FAULT_VM, 3, false);
    messages_arrive_as_sent(told, tcb, ep, info, true, A2 as int);
    messages_arrive_as_sent(told, tcb, ep, info, true, A2 + 1);
    messages_arrive_as_sent(told, tcb, ep, info, true, A2 + 2);
    a_call_bypasses_the_run_queue(told, tcb, ep, info);
    let e = told.objects.endpoints[ep.paddr.0];
    let taken = told.with_endpoint(ep.paddr.0, e.left_with(e.queue.drop_first()));
    lemma_delivered(taken, tcb, e.queue[0], info, ep.badge_spec());
}

/// A thread that yields, or whose time is up, goes to the back of the queue, and
/// the thread that has waited longest runs next.
pub proof fn scheduling_is_round_robin(k: KernelView, a: u64)
    requires
        k.current == Some(a),
        k.queue.len() > 0,
        k.queue[0] != a,
    ensures
        ({
            let (after, next) = k.retired(Retire::Requeue);
            &&& next == Next::Resume(k.queue[0])
            &&& after.queue == k.queue.drop_first().push(a)
            &&& after.current == Some(k.queue[0])
            &&& after.thread(a).state is Ready
            &&& after.thread(k.queue[0]).state is Running
        }),
{
    assert(k.queue.push(a).drop_first() =~= k.queue.drop_first().push(a));
}

/// A thread that is alone keeps the hart when it yields.
pub proof fn a_lone_thread_keeps_the_hart(k: KernelView, a: u64)
    requires
        k.current == Some(a),
        k.queue.len() == 0,
    ensures
        ({
            let (after, next) = k.retired(Retire::Requeue);
            &&& next == Next::Resume(a)
            &&& after.queue == k.queue
            &&& after.current == Some(a)
            &&& after.thread(a).state is Running
        }),
{
    assert(k.queue.push(a).drop_first() =~= k.queue);
}

/// Whatever thread comes onto the hart is the current one, is marked as running,
/// and has its own address space installed.
pub proof fn the_resumed_thread_is_installed(k: KernelView, a: u64)
    ensures
        k.switched(a).0.current == Some(a),
        k.switched(a).0.thread(a).state is Running,
        k.switched(a).0.satp == k.thread(a).satp,
        k.next_resumed().1 matches Next::Resume(b) ==> {
            let after = k.next_resumed().0;
            &&& after.current == Some(b)
            &&& after.thread(b).state is Running
            &&& after.satp == after.thread(b).satp
        },
{
}

/// A thread that exited or was killed is never resumed by the scheduler, unless
/// it is on the run queue some other way.
pub proof fn a_finished_thread_leaves_for_good(k: KernelView, a: u64, why: Retire)
    requires
        k.current == Some(a),
        why is Exited || why is Killed,
        !k.queue.contains(a),
    ensures
        ({
            let (after, next) = k.retired(why);
            &&& after.thread(a).state is Exited
            &&& !after.queue.contains(a)
            &&& next != Next::Resume(a)
        }),
{
    let parted = k.parted(why);
    assert(parted.queue == k.queue);
    if k.queue.len() > 0 {
        assert(k.queue.contains(k.queue[0]));
        assert forall|i: int| 0 <= i < k.queue.drop_first().len() implies k.queue.drop_first()[i]
            != a by {
            assert(k.queue.drop_first()[i] == k.queue[i + 1]);
        }
    }
}

/// Suspending a thread that was just resumed takes it back off the run queue.
pub proof fn suspending_undoes_resuming(k: KernelView, a: u64)
    requires
        crate::sched::invoke::resumed(k, a).1 is Ok,
        !k.queue.contains(a),
    ensures
        ({
            let woken = crate::sched::invoke::resumed(k, a).0;
            let (after, r) = crate::sched::invoke::suspended(woken, a);
            &&& r is Ok
            &&& after.queue == k.queue
            &&& after.thread(a) == k.thread(a)
        }),
{
    lemma_last_out(k.queue, a);
}

proof fn lemma_last_out(s: Seq<u64>, a: u64)
    requires
        !s.contains(a),
    ensures
        crate::queue::without_first(s.push(a), a) == s,
    decreases s.len(),
{
    let t = s.push(a);
    if s.len() == 0 {
        assert(t.drop_first() =~= s);
    } else {
        assert(s.contains(s[0]));
        let rest = s.drop_first();
        assert forall|i: int| 0 <= i < rest.len() implies rest[i] != a by {
            assert(rest[i] == s[i + 1]);
        }
        lemma_last_out(rest, a);
        assert(t.drop_first() =~= rest.push(a));
        assert(seq![t[0]] + rest =~= s);
    }
}

/// A capability handed over in a message is derived from the sender's: revoking
/// the sender's takes it away again.
pub proof fn a_moved_capability_can_be_revoked(d: Derivation, from: TcbView, to: TcbView)
    requires
        d.is_consistent(),
        crate::sched::message::cap_moved(d, from, to).1 is Ok,
    ensures
        ({
            let after = crate::sched::message::cap_moved(d, from, to).0;
            let source = crate::cap::cspace::located(
                d.caps,
                from.cspace,
                from.frame.x[A6 as int],
                crate::sched::message::own_depth(from.cspace),
            )->Ok_0;
            let copy = crate::cap::cspace::located(
                d.caps,
                to.cspace,
                to.frame.x[A6 as int],
                crate::sched::message::own_depth(to.cspace),
            )->Ok_0;
            &&& after.caps[copy] == d.caps[source].fresh_spec()
            &&& after.descends(copy, source)
            &&& after.revoked(source).caps[copy] == RawCap::null_spec()
        }),
{
    let after = crate::sched::message::cap_moved(d, from, to).0;
    let source = crate::cap::cspace::located(
        d.caps,
        from.cspace,
        from.frame.x[A6 as int],
        crate::sched::message::own_depth(from.cspace),
    )->Ok_0;
    let copy = crate::cap::cspace::located(
        d.caps,
        to.cspace,
        to.frame.x[A6 as int],
        crate::sched::message::own_depth(to.cspace),
    )->Ok_0;
    assert(after.parent[copy] == Some(source));
    crate::cap::slot::lemma_descends_step(after, copy, source);
}

/// A thread's first floating-point instruction is run again with the FPU on, its
/// registers untouched. The thread keeps the FPU, so this happens to it once.
pub proof fn the_first_float_turns_the_fpu_on(
    k: KernelView,
    tcb: u64,
    word: u64,
    after: KernelView,
    next: Next,
)
    requires
        !k.thread(tcb).fp_used(),
        crate::thread::fp_instruction(word),
        crate::sched::entry::is_user_trap(k, tcb, 2, word, after, next),
    ensures
        next == Next::Resume(tcb),
        after.thread(tcb).fp_used(),
        after.thread(tcb).frame.sepc == k.thread(tcb).frame.sepc,
        after.thread(tcb).frame.x == k.thread(tcb).frame.x,
        after.queue == k.queue,
{
    crate::thread::lemma_fp_bits(k.thread(tcb).frame.sstatus);
}

// --- Requests that are refused ---

/// A mapping that is refused changes neither the capability nor memory.
proof fn lemma_refused_mappings(
    cap: RawCap,
    vspace: RawCap,
    m: Map<int, u64>,
    va: u64,
    level: int,
    rights: u8,
    executable: bool,
)
    ensures
        ({
            let done = crate::cap::vspace::frame_mapped(cap, vspace, m, va, rights, executable);
            done.result is Err ==> done.cap == cap && done.mem == m
        }),
        ({
            let done = crate::cap::vspace::table_mapped(cap, vspace, m, va, level);
            done.result is Err ==> done.cap == cap && done.mem == m
        }),
        ({
            let done = crate::cap::vspace::cap_unmapped(cap, m);
            done.result is Err ==> done.cap == cap && done.mem == m
        }),
{
    if let Some((root, va)) = cap.mapping_spec() {
        if crate::mm::page_table::unmapped(m, root.0, va).1 is Err && crate::mm::addr::canonical(va) {
            lemma_refused_unmapping(m, root.0, va, 2);
        }
    }
}

proof fn lemma_refused_unmapping(m: Map<int, u64>, table: u64, va: u64, level: nat)
    requires
        crate::mm::page_table::unmapped_from(m, table, va, level).1 is Err,
    ensures
        crate::mm::page_table::unmapped_from(m, table, va, level).0 == m,
    decreases level,
{
    let e = crate::mm::page_table::entry_for(m, table, va, level);
    if e.branch_entry() && level > 0 {
        lemma_refused_unmapping(m, e.target(), va, (level - 1) as nat);
    }
}

/// Putting back what a slot holds changes nothing.
proof fn lemma_same_slot(k: KernelView, slot: u64)
    requires
        k.objects.slots.caps.contains_key(slot),
    ensures
        k.objects.slots.with_cap(slot, k.objects.slots.caps[slot]) == k.objects.slots,
        k.with_objects(k.objects) == k,
{
    assert(k.objects.slots.caps.insert(slot, k.objects.slots.caps[slot])
        =~= k.objects.slots.caps);
}

proof fn lemma_refused_mapping_request(k: KernelView, tcb: u64, info: MessageInfo)
    requires
        k.thread(tcb).frame.x.len() == 32,
        k.objects.slots.is_consistent(),
        forall|a: u64| (#[trigger] k.objects.slots.caps[a]).paddr.0 < crate::mm::addr::PHYS_LIMIT,
        k.objects.asids.assigned().1 is Ok,
        crate::abi::result::is_error_code(
            crate::sched::invoke::mapping_invoked(k, tcb, info).0.thread(tcb).frame.x[A0 as int],
        ),
    ensures
        ({
            let after = crate::sched::invoke::mapping_invoked(k, tcb, info).0;
            crate::sched::invoke::mapping_invoked(k, tcb, info) == k.finished(
                tcb,
                after.thread(tcb).frame.x[A0 as int],
            )
        }),
{
    let t = k.thread(tcb);
    let v = k.objects;
    if let Ok(slot) = k.find(t.cspace, t.frame.x[A0 as int]) {
        let cap = v.slots.caps[slot];
        assert(k.objects.slots.caps.dom().contains(slot));
        crate::abi::result::physical_addresses_are_not_error_codes(cap.paddr.0);
        lemma_same_slot(k, slot);
        let va = t.frame.x[crate::trap::A3 as int];
        let level = t.frame.x[crate::trap::A5 as int];
        let rights = (t.frame.x[crate::trap::A4 as int] % 256) as u8;
        if let Ok(vspace) = k.read(t.cspace, t.frame.x[A2 as int]) {
            lemma_refused_mappings(
                cap,
                vspace,
                v.mem,
                va,
                level as int,
                rights,
                level != 0 && cap.rights & crate::abi::rights::GRANT != 0,
            );
        } else {
            lemma_refused_mappings(cap, cap, v.mem, va, level as int, rights, true);
        }
    }
}

proof fn lemma_refused_thread_request(k: KernelView, tcb: u64, cap: RawCap, info: MessageInfo)
    requires
        k.thread(tcb).frame.x.len() == 32,
        forall|a: u64| #[trigger] k.objects.threads.contains_key(a),
        crate::abi::result::is_error_code(
            crate::sched::invoke::tcb_invoked(k, tcb, cap, info).0.thread(tcb).frame.x[A0 as int],
        ),
    ensures
        ({
            let after = crate::sched::invoke::tcb_invoked(k, tcb, cap, info).0;
            crate::sched::invoke::tcb_invoked(k, tcb, cap, info) == k.finished(
                tcb,
                after.thread(tcb).frame.x[A0 as int],
            )
        }),
{
    let a = cap.paddr.0;
    assert(k.objects.threads.insert(a, k.thread(a)) =~= k.objects.threads);
    assert(k.with_thread(a, k.thread(a)) == k);
}

/// A request to an object that is answered with an error code has changed
/// nothing but the answer. A message to a thread is no such request. For a
/// retype, the memory of the objects must hold no slot in use; for an
/// assignment, an identifier must be left. Objects lie in physical memory, so
/// the address of one is no error code.
pub proof fn a_refused_request_changes_only_the_answer(
    k: KernelView,
    tcb: u64,
    is_call: bool,
    after: KernelView,
    next: Next,
)
    requires
        crate::sched::invoke::is_invocation(k, tcb, is_call, after, next),
        crate::abi::result::is_error_code(after.thread(tcb).frame.x[A0 as int]),
        forall|a: u64| (#[trigger] k.objects.threads[a]).cspace.is_sound(),
        forall|a: u64| (#[trigger] k.objects.threads[a]).frame.x.len() == 32,
        k.objects.slots.is_consistent(),
        forall|a: u64| (#[trigger] k.objects.slots.caps[a]).paddr.0 < crate::mm::addr::PHYS_LIMIT,
        forall|a: u64| #[trigger] k.objects.threads.contains_key(a),
        k.objects.asids.assigned().1 is Ok,
        ({
            let t = k.thread(tcb);
            let depth = crate::sched::message::own_depth(t.cspace);
            let dst = (t.frame.x[crate::trap::A4 as int], depth);
            let count = t.frame.x[crate::trap::A5 as int] as nat;
            match k.read(t.cspace, t.frame.x[A0 as int]) {
                Err(_) => true,
                Ok(cap) => {
                    &&& !(cap.kind is Endpoint)
                    &&& forall|target: ObjectType, bits: u8|
                        cap.kind.untyped() && (#[trigger] crate::cap::untyped::retype_plan(
                            cap,
                            target,
                            bits,
                            count,
                        )) is Ok ==> crate::cap::cspace::spares_slots(
                            k.objects,
                            t.cspace,
                            dst,
                            crate::cap::untyped::retype_plan(cap, target, bits, count)->Ok_0.0,
                            count,
                        )
                },
            }
        }),
    ensures
        (after, next) == k.finished(tcb, after.thread(tcb).frame.x[A0 as int]),
{
    let t = k.thread(tcb);
    let info = MessageInfo(t.frame.x[A1 as int]);
    let depth = crate::sched::message::own_depth(t.cspace);
    if t.cspace.kind is CNode {
        if let Ok(cap) = k.read(t.cspace, t.frame.x[A0 as int]) {
            if cap.kind is Untyped || cap.kind is DeviceUntyped {
                if let Some(target) = crate::sched::invoke::kind_named(t.frame.x[A2 as int]) {
                    let count = t.frame.x[crate::trap::A5 as int];
                    let bits = (t.frame.x[crate::trap::A3 as int] % 256) as u8;
                    let dst = (t.frame.x[crate::trap::A4 as int], depth);
                    let done = crate::cap::cspace::retyped(
                        k.objects,
                        t.cspace,
                        (t.frame.x[A0 as int], depth),
                        target,
                        bits,
                        dst,
                        count as nat,
                    );
                    crate::sched::invoke::lemma_retyped_threads(
                        k.objects,
                        t.cspace,
                        (t.frame.x[A0 as int], depth),
                        target,
                        bits,
                        dst,
                        count as nat,
                    );
                    assert(done.0.threads[tcb].frame.x.len() == 32);
                    if done.1 is Err {
                        let plan = crate::cap::untyped::retype_plan(cap, target, bits, count as nat);
                        assert(plan is Ok ==> crate::cap::cspace::spares_slots(
                            k.objects,
                            t.cspace,
                            dst,
                            plan->Ok_0.0,
                            count as nat,
                        ));
                        crate::cap::cspace::a_refused_retype_changes_nothing(
                            k.objects,
                            t.cspace,
                            (t.frame.x[A0 as int], depth),
                            target,
                            bits,
                            dst,
                            count as nat,
                        );
                        assert(k.with_objects(k.objects) == k);
                    }
                }
            } else if cap.kind is Frame || cap.kind is PageTable {
                lemma_refused_mapping_request(k, tcb, info);
            } else if cap.kind is Tcb {
                lemma_refused_thread_request(k, tcb, cap, info);
            } else if cap.kind is CNode {
                assert(k.with_slots(k.objects.slots) == k);
                let label = info.label_spec();
                if label == crate::abi::label::REVOKE || label == crate::abi::label::DELETE {
                    if let Ok(a) = k.find(t.cspace, t.frame.x[A2 as int]) {
                        let itself = label == crate::abi::label::DELETE;
                        let v = crate::sched::invoke::destroyed(k.objects, a, itself);
                        assert(v.threads == k.objects.threads);
                        assert(k.with_objects(v).thread(tcb) == t);
                        assert(after.thread(tcb).frame.x[A0 as int] == OK);
                    }
                }
            }
        }
    }
}

} // verus!
