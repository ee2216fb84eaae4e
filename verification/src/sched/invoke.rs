//! Invocations on kernel objects.

use crate::abi::label::{
    ASSIGN, CONFIGURE, DELETE, GET_ADDRESS, MAP, MINT, RESUME, RETYPE, REVOKE, SET_FAULT_EP, SUSPEND,
    UNMAP, WRITE_REGISTERS,
};
use crate::abi::msg::MessageInfo;
use crate::abi::object::ObjectType;
use crate::abi::result::{
    ERR_ASID, ERR_BAD_CAP, ERR_BAD_LABEL, ERR_MAP, ERR_NO_CSPACE, ERR_STATE, OK,
};
use crate::abi::rights::{GRANT, WRITE};
use crate::cap::cspace::CSpace;
use crate::cap::kind;
use crate::cap::{Cap, CapError, RawCap, ResolveError};
use crate::ipc::message_of;
use crate::mm::addr::VirtAddr;
use crate::objects::ObjectsView;
use crate::sched::{Kernel, KernelView, Next};
use crate::thread::{Tcb, TcbView, ThreadState};
use crate::trap::{A0, A1, A2, A3, A4, A5};
use vstd::prelude::*;

verus! {

impl KernelView {
    /// The kernel with other objects.
    pub open spec fn with_objects(self, v: ObjectsView) -> KernelView {
        KernelView { objects: v, ..self }
    }

    /// The capability at an address of a space.
    pub open spec fn read(self, cspace: RawCap, cptr: u64) -> Result<RawCap, CapError> {
        match self.find(cspace, cptr) {
            Ok(a) => Ok(self.objects.slots.caps[a]),
            Err(e) => Err(CapError::Resolve(e)),
        }
    }

    /// The slot at an address of a space.
    pub open spec fn find(self, cspace: RawCap, cptr: u64) -> Result<u64, ResolveError> {
        crate::cap::cspace::located(
            self.objects.slots.caps,
            cspace,
            cptr,
            crate::sched::message::own_depth(cspace),
        )
    }
}

/// The number userspace sees in `a0` for a capability-layer error.
pub open spec fn error_code(e: CapError) -> u64 {
    match e {
        CapError::SelfInvocation | CapError::NotInactive => ERR_STATE,
        CapError::NotAssigned | CapError::AlreadyAssigned | CapError::Asid(_) => ERR_ASID,
        CapError::AlreadyMapped | CapError::Mapping(_) => ERR_MAP,
        _ => ERR_BAD_CAP,
    }
}

/// The number userspace sees in `a0` for an outcome.
pub open spec fn outcome_code(r: Result<(), CapError>) -> u64 {
    match r {
        Ok(_) => OK,
        Err(e) => error_code(e),
    }
}

/// `ok`, or the code that stands for any failure.
pub open spec fn code_or(r: Result<(), CapError>, failure: u64) -> u64 {
    match r {
        Ok(_) => OK,
        Err(_) => failure,
    }
}

/// The kind of object a retype request names, if it names one that can be asked
/// for.
pub open spec fn kind_named(n: u64) -> Option<ObjectType> {
    if n > 255 {
        None
    } else {
        match ObjectType::of_wire(n as u8) {
            None => None,
            Some(k) => if k is Null || k is Reply {
                None
            } else {
                Some(k)
            },
        }
    }
}

/// What invoking untyped memory does.
pub open spec fn untyped_invoked(k: KernelView, tcb: u64, info: MessageInfo) -> (KernelView, Next) {
    let t = k.thread(tcb);
    let depth = crate::sched::message::own_depth(t.cspace);
    let count = t.frame.x[A5 as int];
    match kind_named(t.frame.x[A2 as int]) {
        Some(target) => if info.label_spec() != RETYPE || count == 0 || count > 32 {
            k.finished(tcb, ERR_BAD_LABEL)
        } else {
            let done = crate::cap::cspace::retyped(
                k.objects,
                t.cspace,
                (t.frame.x[A0 as int], depth),
                target,
                (t.frame.x[A3 as int] % 256) as u8,
                (t.frame.x[A4 as int], depth),
                count as nat,
            );
            k.with_objects(done.0).finished(tcb, code_or(done.1, ERR_BAD_CAP))
        },
        None => k.finished(tcb, ERR_BAD_LABEL),
    }
}

/// What destroying everything derived from a slot does, and emptying the slot
/// itself too if asked to.
pub open spec fn destroyed(v: ObjectsView, a: u64, itself: bool) -> ObjectsView {
    if itself {
        crate::cap::cspace::deleted(v, a)
    } else {
        crate::cap::cspace::revoked(v, a)
    }
}

/// Whether `(after, next)` is what invoking a CNode comes to. Minting goes into
/// the invoked CNode, which takes the right to write to it; what is revoked or
/// deleted is named in the caller's own space.
pub open spec fn is_cnode_invocation(
    k: KernelView,
    tcb: u64,
    node: RawCap,
    info: MessageInfo,
    after: KernelView,
    next: Next,
) -> bool {
    let t = k.thread(tcb);
    let depth = crate::sched::message::own_depth(t.cspace);
    let src = t.frame.x[A2 as int];
    let label = info.label_spec();
    if label == MINT {
        if node.rights & WRITE == 0 {
            (after, next) == k.finished(tcb, ERR_BAD_CAP)
        } else {
            let done = crate::cap::cspace::minted(
                k.objects.slots,
                t.cspace,
                (src, depth),
                node,
                (t.frame.x[A3 as int], crate::sched::message::own_depth(node)),
                (t.frame.x[A4 as int] % 256) as u8,
                t.frame.x[A5 as int],
            );
            (after, next) == k.with_slots(done.0).finished(tcb, code_or(done.1, ERR_BAD_CAP))
        }
    } else if label == REVOKE || label == DELETE {
        match k.find(t.cspace, src) {
            Err(_) => (after, next) == k.finished(tcb, ERR_BAD_CAP),
            Ok(a) => (after, next) == k.with_objects(
                destroyed(k.objects, a, label == DELETE),
            ).finished(tcb, OK),
        }
    } else {
        (after, next) == k.finished(tcb, ERR_BAD_LABEL)
    }
}

/// The objects after one slot's capability and the memory were changed by a
/// mapping request.
pub open spec fn remapped(
    v: ObjectsView,
    slot: u64,
    done: crate::cap::vspace::Remapped,
    flushes: Seq<crate::mm::tlb::Flush>,
) -> ObjectsView {
    ObjectsView { slots: v.slots.with_cap(slot, done.cap), mem: done.mem, flushes, ..v }
}

/// What a request to map does.
pub open spec fn map_invoked(k: KernelView, tcb: u64, slot: u64) -> (KernelView, Next) {
    let t = k.thread(tcb);
    let v = k.objects;
    let cap = v.slots.caps[slot];
    let va = t.frame.x[A3 as int];
    let level = t.frame.x[A5 as int];
    match k.read(t.cspace, t.frame.x[A2 as int]) {
        Err(_) => k.finished(tcb, ERR_BAD_CAP),
        Ok(vspace) => if cap.kind is PageTable {
            let done = crate::cap::vspace::table_mapped(cap, vspace, v.mem, va, level as int);
            k.with_objects(remapped(v, slot, done, v.flushes)).finished(
                tcb,
                code_or(done.result, ERR_MAP),
            )
        } else {
            let done = crate::cap::vspace::frame_mapped(
                cap,
                vspace,
                v.mem,
                va,
                (t.frame.x[A4 as int] % 256) as u8,
                level != 0 && cap.rights & GRANT != 0,
            );
            k.with_objects(
                remapped(
                    v,
                    slot,
                    done,
                    crate::cap::vspace::flushed(v.flushes, va, done.result is Ok),
                ),
            ).finished(tcb, code_or(done.result, ERR_MAP))
        },
    }
}

/// What invoking a frame or a page table does.
pub open spec fn mapping_invoked(k: KernelView, tcb: u64, info: MessageInfo) -> (KernelView, Next) {
    let t = k.thread(tcb);
    let v = k.objects;
    match k.find(t.cspace, t.frame.x[A0 as int]) {
        Err(_) => k.finished(tcb, ERR_BAD_CAP),
        Ok(slot) => {
            let cap = v.slots.caps[slot];
            let label = info.label_spec();
            if label == MAP {
                map_invoked(k, tcb, slot)
            } else if label == UNMAP {
                let done = crate::cap::vspace::cap_unmapped(cap, v.mem);
                k.with_objects(
                    remapped(
                        v,
                        slot,
                        done,
                        crate::cap::vspace::unmap_flushes(cap, v.mem, v.flushes),
                    ),
                ).finished(tcb, code_or(done.result, ERR_MAP))
            } else if label == GET_ADDRESS {
                match crate::cap::typed(cap, ObjectType::Frame, WRITE) {
                    Ok(_) => k.finished(tcb, cap.paddr.0),
                    Err(e) => k.finished(tcb, error_code(e)),
                }
            } else if label == ASSIGN {
                let done = crate::cap::vspace::table_assigned(cap, v.mem, v.asids, v.kernel_root);
                k.with_objects(
                    ObjectsView {
                        slots: v.slots.with_cap(slot, done.table),
                        mem: done.mem,
                        asids: done.asids,
                        ..v
                    },
                ).finished(tcb, outcome_code(done.result))
            } else {
                k.finished(tcb, ERR_BAD_LABEL)
            }
        },
    }
}

/// Putting a configured thread on the run queue.
pub open spec fn resumed(k: KernelView, a: u64) -> (KernelView, Result<(), CapError>) {
    let t = k.thread(a);
    if t.satp == 0 {
        (k, Err(CapError::NotAssigned))
    } else if !(t.state is Inactive) {
        (k, Err(CapError::NotInactive))
    } else {
        (crate::sched::enlisted(k.with_state(a, ThreadState::Ready), a), Ok(()))
    }
}

/// Taking a runnable thread off the run queue.
pub open spec fn suspended(k: KernelView, a: u64) -> (KernelView, Result<(), CapError>) {
    match k.thread(a).state {
        ThreadState::Inactive => (k, Ok(())),
        ThreadState::Ready => (
            KernelView {
                queue: crate::queue::without_first(k.queue, a),
                ..k.with_state(a, ThreadState::Inactive)
            },
            Ok(()),
        ),
        _ => (k, Err(CapError::NotInactive)),
    }
}

/// A change to one thread, in the kernel.
pub open spec fn adjusted(k: KernelView, a: u64, done: (TcbView, Result<(), CapError>)) -> (
    KernelView,
    Result<(), CapError>,
) {
    (k.with_thread(a, done.0), done.1)
}

/// What an operation on a thread does; nothing, if the label names none.
pub open spec fn thread_adjusted(k: KernelView, t: TcbView, a: u64, label: u64) -> Option<
    (KernelView, Result<(), CapError>),
> {
    let x = t.frame.x;
    if label == CONFIGURE {
        match (
            k.read(t.cspace, x[A2 as int]),
            k.read(t.cspace, x[A3 as int]),
            k.read(t.cspace, x[A4 as int]),
        ) {
            (Ok(c), Ok(v), Ok(f)) => Some(
                adjusted(k, a, crate::cap::tcb::configured(k.thread(a), c, v, f)),
            ),
            _ => Some((k, Err(CapError::Null))),
        }
    } else if label == SET_FAULT_EP {
        match k.read(t.cspace, x[A2 as int]) {
            Ok(ep) => Some(adjusted(k, a, crate::cap::tcb::fault_ep_set(k.thread(a), ep))),
            Err(e) => Some((k, Err(e))),
        }
    } else if label == WRITE_REGISTERS {
        Some(
            adjusted(
                k,
                a,
                crate::cap::tcb::registers_written(k.thread(a), x[A2 as int], x[A3 as int]),
            ),
        )
    } else if label == RESUME {
        Some(resumed(k, a))
    } else if label == SUSPEND {
        Some(suspended(k, a))
    } else {
        None
    }
}

/// What invoking a thread does.
pub open spec fn tcb_invoked(k: KernelView, tcb: u64, cap: RawCap, info: MessageInfo) -> (
    KernelView,
    Next,
) {
    let t = k.thread(tcb);
    match crate::cap::tcb::checked(cap, t) {
        Err(e) => k.finished(tcb, error_code(e)),
        Ok(_) => match thread_adjusted(k, t, cap.paddr.0, info.label_spec()) {
            None => k.finished(tcb, ERR_BAD_LABEL),
            Some((after, r)) => after.finished(tcb, outcome_code(r)),
        },
    }
}

/// Whether `(after, next)` is what invoking the capability that `a0` names comes
/// to.
pub open spec fn is_invocation(
    k: KernelView,
    tcb: u64,
    is_call: bool,
    after: KernelView,
    next: Next,
) -> bool {
    let t = k.thread(tcb);
    let info = MessageInfo(t.frame.x[A1 as int]);
    if !(t.cspace.kind is CNode) {
        (after, next) == k.finished(tcb, ERR_NO_CSPACE)
    } else {
        match k.read(t.cspace, t.frame.x[A0 as int]) {
            Err(_) => (after, next) == k.finished(tcb, ERR_BAD_CAP),
            Ok(cap) => match cap.kind {
                ObjectType::Endpoint => if cap.rights & WRITE == 0 {
                    (after, next) == k.finished(tcb, ERR_BAD_CAP)
                } else {
                    (after, next) == crate::sched::message::sent(k, tcb, cap, info, is_call)
                },
                ObjectType::Untyped | ObjectType::DeviceUntyped => (after, next)
                    == untyped_invoked(k, tcb, info),
                ObjectType::CNode => is_cnode_invocation(k, tcb, cap, info, after, next),
                ObjectType::Frame | ObjectType::PageTable => (after, next) == mapping_invoked(
                    k,
                    tcb,
                    info,
                ),
                ObjectType::Tcb => (after, next) == tcb_invoked(k, tcb, cap, info),
                _ => (after, next) == k.finished(tcb, ERR_BAD_CAP),
            },
        }
    }
}

// --- Doing it ---

/// Turn a capability-layer error into the number userspace sees in `a0`.
fn cap_result(e: CapError) -> (r: u64)
    ensures
        r == error_code(e),
{
    match e {
        CapError::SelfInvocation | CapError::NotInactive => ERR_STATE,
        CapError::NotAssigned | CapError::AlreadyAssigned | CapError::Asid(_) => ERR_ASID,
        CapError::AlreadyMapped | CapError::Mapping(_) => ERR_MAP,
        _ => ERR_BAD_CAP,
    }
}

fn outcome_result(r: Result<(), CapError>) -> (code: u64)
    ensures
        code == outcome_code(r),
{
    match r {
        Ok(_) => OK,
        Err(e) => cap_result(e),
    }
}

fn result_or(r: Result<(), CapError>, failure: u64) -> (code: u64)
    ensures
        code == code_or(r, failure),
{
    match r {
        Ok(_) => OK,
        Err(_) => failure,
    }
}

/// What userspace may name as a retype target.
///
/// `Null` is not an object and `Reply` is minted by the kernel on `call`. The
/// finer rule -- device untyped becomes only frames and smaller device
/// untypeds -- belongs to the retype itself.
fn object_type_from(n: u64) -> (r: Option<ObjectType>)
    ensures
        r == kind_named(n),
{
    if n > 255 {
        return None;
    }
    match ObjectType::from_u8(n as u8) {
        None => None,
        Some(ObjectType::Null) | Some(ObjectType::Reply) => None,
        Some(other) => Some(other),
    }
}

/// Laying out fresh objects leaves every thread usable.
proof fn lemma_installed_threads(
    v: ObjectsView,
    root: RawCap,
    source: u64,
    made: Seq<RawCap>,
    dst: (u64, u8),
    n: nat,
)
    requires
        forall|a: u64| (#[trigger] v.threads[a]).cspace.is_sound(),
        forall|a: u64| (#[trigger] v.threads[a]).frame.x.len() == 32,
    ensures
        forall|a: u64|
            (#[trigger] crate::cap::cspace::installed(
                v,
                root,
                source,
                made,
                dst,
                n,
            ).0.threads[a]).cspace.is_sound(),
        forall|a: u64|
            (#[trigger] crate::cap::cspace::installed(
                v,
                root,
                source,
                made,
                dst,
                n,
            ).0.threads[a]).frame.x.len() == 32,
    decreases n,
{
    if n > 0 {
        lemma_installed_threads(v, root, source, made, dst, (n - 1) as nat);
    }
}

impl Kernel {
    /// The capability space of a thread.
    fn cspace_of(t: &Tcb) -> (r: Option<CSpace>)
        ensures
            r == if t.cspace.kind is CNode {
                Some(CSpace { root: t.cspace })
            } else {
                None
            },
    {
        match CSpace::new(t.cspace) {
            Ok(cs) => Some(cs),
            Err(_) => None,
        }
    }

    fn read_own(&self, cs: &CSpace, cptr: u64) -> (r: Result<RawCap, CapError>)
        requires
            self.wf(),
            cs.wf(),
        ensures
            r == self@.read(cs.root, cptr),
            r matches Ok(c) ==> c.is_sound(),
    {
        cs.read(&self.objects.slots, cptr, cs.root_depth())
    }

    fn invoke_untyped(&mut self, tcb: u64, cs: CSpace, info: MessageInfo) -> (r: Next)
        requires
            old(self).wf(),
            cs.wf(),
            cs.root == old(self)@.thread(tcb).cspace,
        ensures
            final(self).wf(),
            (final(self)@, r) == untyped_invoked(old(self)@, tcb, info),
    {
        let t: Tcb = self.thread(tcb);
        if info.label() != RETYPE {
            return self.finish(tcb, ERR_BAD_LABEL);
        }
        let depth: u8 = cs.root_depth();
        let size_bits: u8 = (t.frame.x[A3] % 256) as u8;
        let dst: u64 = t.frame.x[A4];
        let count: u64 = t.frame.x[A5];
        let target: ObjectType = match object_type_from(t.frame.x[A2]) {
            Some(k) => k,
            None => {
                return self.finish(tcb, ERR_BAD_LABEL);
            },
        };
        if count == 0 || count > 32 {
            return self.finish(tcb, ERR_BAD_LABEL);
        }
        let done: Result<(), CapError> = cs.retype(
            &mut self.objects,
            (t.frame.x[A0], depth),
            target,
            size_bits,
            (dst, depth),
            count as usize,
        );
        proof {
            lemma_retyped_threads(
                old(self)@.objects,
                cs.root,
                (t.frame.x[A0 as int], depth),
                target,
                size_bits,
                (dst, depth),
                count as nat,
            );
        }
        self.finish(tcb, result_or(done, ERR_BAD_CAP))
    }

    fn invoke_cnode(&mut self, tcb: u64, cs: CSpace, node: RawCap, info: MessageInfo) -> (r: Next)
        requires
            old(self).wf(),
            cs.wf(),
            cs.root == old(self)@.thread(tcb).cspace,
            node.kind is CNode,
            node.is_sound(),
        ensures
            final(self).wf(),
            is_cnode_invocation(old(self)@, tcb, node, info, final(self)@, r),
    {
        let t: Tcb = self.thread(tcb);
        let depth: u8 = cs.root_depth();
        let src: u64 = t.frame.x[A2];
        let label: u64 = info.label();
        if label == MINT {
            proof {
                lemma_write_bit(node.rights);
            }
            if node.rights & WRITE == 0 {
                return self.finish(tcb, ERR_BAD_CAP);
            }
            let to: CSpace = CSpace { root: node };
            let done: Result<(), CapError> = cs.mint_into(
                &mut self.objects.slots,
                (src, depth),
                &to,
                (t.frame.x[A3], to.root_depth()),
                (t.frame.x[A4] % 256) as u8,
                t.frame.x[A5],
            );
            self.finish(tcb, result_or(done, ERR_BAD_CAP))
        } else if label == REVOKE {
            let done: Result<usize, CapError> = cs.revoke(&mut self.objects, src, depth);
            let ghost v = self.objects@;
            match done {
                Ok(_) => {
                    let ghost a = old(self)@.find(cs.root, src)->Ok_0;
                    assert(v == destroyed(old(self)@.objects, a, false));
                    assert(self@ == old(self)@.with_objects(v));
                    self.finish(tcb, OK)
                },
                Err(_) => self.finish(tcb, ERR_BAD_CAP),
            }
        } else if label == DELETE {
            let done: Result<usize, CapError> = cs.delete(&mut self.objects, src, depth);
            let ghost v = self.objects@;
            match done {
                Ok(_) => {
                    let ghost a = old(self)@.find(cs.root, src)->Ok_0;
                    assert(v == destroyed(old(self)@.objects, a, true));
                    assert(self@ == old(self)@.with_objects(v));
                    self.finish(tcb, OK)
                },
                Err(_) => self.finish(tcb, ERR_BAD_CAP),
            }
        } else {
            self.finish(tcb, ERR_BAD_LABEL)
        }
    }

    fn invoke_map(&mut self, tcb: u64, cs: &CSpace, slot: u64) -> (r: Next)
        requires
            old(self).wf(),
            cs.wf(),
            cs.root == old(self)@.thread(tcb).cspace,
            !(old(self)@.objects.slots.caps[slot].kind is Null),
        ensures
            final(self).wf(),
            (final(self)@, r) == map_invoked(old(self)@, tcb, slot),
    {
        let t: Tcb = self.thread(tcb);
        let vaddr: VirtAddr = VirtAddr::new(t.frame.x[A3]);
        let rights_mask: u8 = (t.frame.x[A4] % 256) as u8;
        let level: u64 = t.frame.x[A5];
        let vspace: RawCap = match self.read_own(cs, t.frame.x[A2]) {
            Ok(v) => v,
            Err(_) => {
                return self.finish(tcb, ERR_BAD_CAP);
            },
        };
        let mut cap: RawCap = self.objects.slots.cap(slot);
        let done: Result<(), CapError> = if cap.kind == ObjectType::PageTable {
            // Levels past the deepest are all refused alike.
            let at: usize = if level > 2 {
                3
            } else {
                level as usize
            };
            crate::cap::vspace::map_table(&mut cap, &vspace, vaddr, at, &mut self.objects.mem)
        } else {
            // Executable only when the caller asks for it *and* the capability
            // carries GRANT -- mapping someone else's memory executable is not
            // something a plain WRITE right should allow.
            let executable: bool = level != 0 && cap.rights & GRANT != 0;
            crate::cap::vspace::map_frame(
                &mut cap,
                &vspace,
                vaddr,
                rights_mask,
                executable,
                &mut self.objects.mem,
                &mut self.objects.tlb,
            )
        };
        self.objects.slots.set_cap(slot, cap);
        self.finish(tcb, result_or(done, ERR_MAP))
    }

    /// `Map`, `Unmap`, `GetAddress` and `Assign`, invoked on the frame or page
    /// table concerned.
    fn invoke_mapping(&mut self, tcb: u64, cs: CSpace, info: MessageInfo) -> (r: Next)
        requires
            old(self).wf(),
            cs.wf(),
            cs.root == old(self)@.thread(tcb).cspace,
            old(self)@.read(cs.root, old(self)@.thread(tcb).frame.x[A0 as int]) matches Ok(c)
                ==> !(c.kind is Null),
        ensures
            final(self).wf(),
            (final(self)@, r) == mapping_invoked(old(self)@, tcb, info),
    {
        let t: Tcb = self.thread(tcb);
        let slot: u64 = match cs.resolve(&self.objects.slots, t.frame.x[A0], cs.root_depth()) {
            Ok(a) => a,
            Err(_) => {
                return self.finish(tcb, ERR_BAD_CAP);
            },
        };
        let mut cap: RawCap = self.objects.slots.cap(slot);
        let label: u64 = info.label();
        if label == MAP {
            self.invoke_map(tcb, &cs, slot)
        } else if label == UNMAP {
            let done: Result<(), CapError> = crate::cap::vspace::unmap(
                &mut cap,
                &mut self.objects.mem,
                &mut self.objects.tlb,
            );
            self.objects.slots.set_cap(slot, cap);
            self.finish(tcb, result_or(done, ERR_MAP))
        } else if label == GET_ADDRESS {
            // `WRITE`, not `READ`: a physical address is the one piece of
            // information that lets a holder aim a bus master at memory it has
            // no capability for. A read-only frame handed to a client stays
            // unlocatable.
            match Cap::<kind::Frame, WRITE>::from_raw(cap) {
                // The address is the return value. No physical address can
                // collide with an error code, which lives at the top of the
                // range.
                Ok(frame) => self.finish(tcb, frame.paddr().as_usize()),
                Err(e) => self.finish(tcb, cap_result(e)),
            }
        } else if label == ASSIGN {
            let done: Result<(), CapError> = crate::cap::vspace::assign(
                &mut cap,
                &mut self.objects.mem,
                &mut self.objects.asids,
                &self.objects.kernel_root,
            );
            self.objects.slots.set_cap(slot, cap);
            self.finish(tcb, outcome_result(done))
        } else {
            self.finish(tcb, ERR_BAD_LABEL)
        }
    }

    /// Put a configured thread on the run queue.
    fn resume(&mut self, a: u64) -> (r: Result<(), CapError>)
        requires
            old(self).wf(),
        ensures
            final(self).wf(),
            (final(self)@, r) == resumed(old(self)@, a),
    {
        let t: Tcb = self.thread(a);
        if !t.is_configured() {
            return Err(CapError::NotAssigned);
        }
        if t.state != ThreadState::Inactive {
            return Err(CapError::NotInactive);
        }
        self.set_state(a, ThreadState::Ready);
        self.enlist(a);
        Ok(())
    }

    /// Take a runnable thread off the run queue.
    ///
    /// `Running` cannot appear here: with one hart the only running thread is
    /// the caller, and a thread invoking its own capability was already refused.
    /// A thread blocked on an endpoint is refused outright: half-suspending it
    /// would leave a dangling entry on that endpoint's queue.
    fn suspend(&mut self, a: u64) -> (r: Result<(), CapError>)
        requires
            old(self).wf(),
        ensures
            final(self).wf(),
            (final(self)@, r) == suspended(old(self)@, a),
    {
        match self.thread(a).state {
            ThreadState::Inactive => Ok(()),
            ThreadState::Ready => {
                self.queue.remove(a);
                self.set_state(a, ThreadState::Inactive);
                Ok(())
            },
            _ => Err(CapError::NotInactive),
        }
    }

    /// The thread invocations that change a thread: `Configure`, `SetFaultEP`,
    /// `WriteRegisters`, `Resume` and `Suspend`.
    fn adjust_thread(&mut self, t: &Tcb, cs: &CSpace, a: u64, label: u64) -> (r: Option<
        Result<(), CapError>,
    >)
        requires
            old(self).wf(),
            cs.wf(),
            cs.root == t.cspace,
        ensures
            final(self).wf(),
            match thread_adjusted(old(self)@, t@, a, label) {
                None => r is None && final(self)@ == old(self)@,
                Some((after, done)) => r == Some(done) && final(self)@ == after,
            },
    {
        let mut target: Tcb = self.thread(a);
        if label == CONFIGURE {
            let cspace: Result<RawCap, CapError> = self.read_own(cs, t.frame.x[A2]);
            let vspace: Result<RawCap, CapError> = self.read_own(cs, t.frame.x[A3]);
            let fault_ep: Result<RawCap, CapError> = self.read_own(cs, t.frame.x[A4]);
            match (cspace, vspace, fault_ep) {
                (Ok(c), Ok(v), Ok(f)) => {
                    let done: Result<(), CapError> = crate::cap::tcb::configure(
                        &mut target,
                        c,
                        v,
                        f,
                    );
                    self.set_thread(a, target);
                    Some(done)
                },
                _ => Some(Err(CapError::Null)),
            }
        } else if label == SET_FAULT_EP {
            match self.read_own(cs, t.frame.x[A2]) {
                Ok(ep) => {
                    let done: Result<(), CapError> = crate::cap::tcb::set_fault_ep(
                        &mut target,
                        ep,
                    );
                    self.set_thread(a, target);
                    Some(done)
                },
                Err(e) => Some(Err(e)),
            }
        } else if label == WRITE_REGISTERS {
            let done: Result<(), CapError> = crate::cap::tcb::write_registers(
                &mut target,
                VirtAddr::new(t.frame.x[A2]),
                VirtAddr::new(t.frame.x[A3]),
            );
            self.set_thread(a, target);
            Some(done)
        } else if label == RESUME {
            Some(self.resume(a))
        } else if label == SUSPEND {
            Some(self.suspend(a))
        } else {
            None
        }
    }

    /// The thread invocations.
    ///
    /// The kernel does not decide who may create a thread; holding untyped memory
    /// and a free slot is the whole qualification.
    fn invoke_tcb(&mut self, tcb: u64, cs: CSpace, cap: RawCap, info: MessageInfo) -> (r: Next)
        requires
            old(self).wf(),
            cs.wf(),
            cs.root == old(self)@.thread(tcb).cspace,
        ensures
            final(self).wf(),
            (final(self)@, r) == tcb_invoked(old(self)@, tcb, cap, info),
    {
        let t: Tcb = self.thread(tcb);
        let a: u64 = match crate::cap::tcb::check(cap, &t) {
            Ok(typed) => typed.paddr().as_usize(),
            Err(e) => {
                return self.finish(tcb, cap_result(e));
            },
        };
        match self.adjust_thread(&t, &cs, a, info.label()) {
            Some(done) => self.finish(tcb, outcome_result(done)),
            None => self.finish(tcb, ERR_BAD_LABEL),
        }
    }

    /// `call` or `send` on whatever `a0` names.
    pub(crate) fn invoke(&mut self, tcb: u64, is_call: bool) -> (r: Next)
        requires
            old(self).wf(),
        ensures
            final(self).wf(),
            is_invocation(old(self)@, tcb, is_call, final(self)@, r),
    {
        let t: Tcb = self.thread(tcb);
        let info: MessageInfo = message_of(&t);
        let cs: CSpace = match Kernel::cspace_of(&t) {
            Some(cs) => cs,
            None => {
                return self.finish(tcb, ERR_NO_CSPACE);
            },
        };
        let cap: RawCap = match self.read_own(&cs, t.frame.x[A0]) {
            Ok(c) => c,
            Err(_) => {
                return self.finish(tcb, ERR_BAD_CAP);
            },
        };
        proof {
            lemma_write_bit(cap.rights);
        }
        match cap.kind {
            ObjectType::Endpoint => match Cap::<kind::Endpoint, WRITE>::from_raw(cap) {
                Ok(_) => self.ipc_send(tcb, cap, info, is_call),
                Err(_) => self.finish(tcb, ERR_BAD_CAP),
            },
            ObjectType::Untyped | ObjectType::DeviceUntyped => self.invoke_untyped(tcb, cs, info),
            ObjectType::CNode => self.invoke_cnode(tcb, cs, cap, info),
            ObjectType::Frame | ObjectType::PageTable => self.invoke_mapping(tcb, cs, info),
            ObjectType::Tcb => self.invoke_tcb(tcb, cs, cap, info),
            _ => self.finish(tcb, ERR_BAD_CAP),
        }
    }
}

proof fn lemma_write_bit(rights: u8)
    by (bit_vector)
    ensures
        rights & WRITE == 0 <==> rights & WRITE != WRITE,
{
}

/// A retype leaves every thread usable.
pub proof fn lemma_retyped_threads(
    v: ObjectsView,
    root: RawCap,
    src: (u64, u8),
    target: ObjectType,
    size_bits: u8,
    dst: (u64, u8),
    n: nat,
)
    requires
        forall|a: u64| (#[trigger] v.threads[a]).cspace.is_sound(),
        forall|a: u64| (#[trigger] v.threads[a]).frame.x.len() == 32,
    ensures
        ({
            let after = crate::cap::cspace::retyped(v, root, src, target, size_bits, dst, n).0;
            &&& forall|a: u64| (#[trigger] after.threads[a]).cspace.is_sound()
            &&& forall|a: u64| (#[trigger] after.threads[a]).frame.x.len() == 32
        }),
{
    if let Ok(source) = crate::cap::cspace::located(v.slots.caps, root, src.0, src.1) {
        let region = v.slots.caps[source];
        if let Ok(plan) = crate::cap::untyped::retype_plan(region, target, size_bits, n) {
            let clean = ObjectsView {
                mem: crate::cap::untyped::retyped_memory(v.mem, region.kind, plan.0),
                ..v
            };
            lemma_installed_threads(clean, root, source, plan.0, dst, n);
        }
    }
}

} // verus!
