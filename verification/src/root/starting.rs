//! How the root task comes to run.

use crate::abi::bootinfo::UntypedDesc;
use crate::cap::slot::Derivation;
use crate::irq::Entry;
use crate::mm::address_space::Asid;
use crate::mm::region::Region;
use crate::root::Given;
use crate::sched::KernelView;
use vstd::prelude::*;

verus! {

/// Loading the root task leaves the kernel's queues and capabilities agreeing
/// with its threads, and the thread of the root task last on the run queue,
/// provided that the frame the thread is put in holds none that is in use.
pub proof fn loading_keeps_the_kernel_sound(
    k: KernelView,
    frames: Seq<u64>,
    irqs: Seq<Entry>,
    g: Given,
    left: Seq<Region>,
)
    requires
        crate::sched::soundness::is_sound(k),
        ({
            let done = crate::root::loaded(k, frames, irqs, g, left);
            done.result is Ok ==> crate::sched::soundness::is_unused(
                k.thread(done.kernel.queue.last()).state,
            )
        }),
    ensures
        ({
            let done = crate::root::loaded(k, frames, irqs, g, left);
            &&& crate::sched::soundness::is_sound(done.kernel)
            &&& done.kernel.current == k.current
            &&& done.result is Err ==> done.kernel.queue == k.queue
            &&& done.result is Ok ==> {
                let t = done.kernel.queue.last();
                &&& done.kernel.queue == k.queue.push(t)
                &&& done.kernel.thread(t).id == done.result->Ok_0.id
                &&& done.kernel.thread(t).cspace == done.result->Ok_0.cnode
                &&& done.kernel.thread(t).frame.sepc == done.result->Ok_0.entry
            }
        }),
{
    reveal(crate::root::loaded);
    let done = crate::root::loaded(k, frames, irqs, g, left);
    if done.result is Err {
        crate::sched::soundness::lemma_elsewhere_sound(k, done.kernel);
    } else {
        let tcb = done.kernel.queue.last();
        assert(k.queue.push(tcb).last() == tcb);
        let descs = crate::root::handed_over(left, g.devices);
        let n = descs.len() as int;
        let r = done.result->Ok_0;
        let cnode = r.cnode.paddr.0;
        let fresh = crate::root::laws::fresh_space(k.objects.mem, frames, g);
        let info = crate::root::space_filled(fresh, frames[0], g).1->Ok_0;
        lemma_furnished_names(k.objects.slots, cnode, frames[0], r.space.asid, tcb, info, descs, n);
        crate::sched::soundness::lemma_thread_started(k, done.kernel, tcb);
    }
}

/// The only thread the root task's capabilities name is its own.
proof fn lemma_furnished_names(
    d: Derivation,
    cnode: u64,
    root: u64,
    asid: Asid,
    tcb: u64,
    info: u64,
    descs: Seq<UntypedDesc>,
    n: int,
)
    ensures
        ({
            let d2 = crate::root::blocks_placed(
                crate::root::furnished(d, cnode, root, asid, tcb, info),
                cnode,
                descs,
                n,
            );
            forall|s: u64|
                (#[trigger] d2.caps[s]).kind is Tcb ==> d2.caps[s] == d.caps[s]
                    || d2.caps[s].paddr.0 == tcb
        }),
    decreases n,
{
    if n > 0 {
        lemma_furnished_names(d, cnode, root, asid, tcb, info, descs, n - 1);
    } else {
        lemma_wiped_names(d, cnode, crate::root::CNODE_SLOTS as nat);
    }
}

proof fn lemma_wiped_names(d: Derivation, base: u64, n: nat)
    ensures
        forall|s: u64|
            (#[trigger] d.wiped_range(base, n).caps[s]).kind is Tcb ==> d.wiped_range(
                base,
                n,
            ).caps[s] == d.caps[s],
    decreases n,
{
    if n > 0 {
        lemma_wiped_names(d, base, (n - 1) as nat);
    }
}

} // verus!
