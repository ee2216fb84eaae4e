//! Thread invocations: what makes a thread an object rather than a kernel
//! privilege.

use crate::abi::object::ObjectType;
use crate::abi::rights::WRITE;
use crate::cap::kind;
use crate::cap::{Cap, CapError, RawCap};
use crate::mm::addr::VirtAddr;
use crate::mm::address_space::{satp_for, Asid};
use crate::store::Store;
use crate::thread::{Tcb, TcbView, ThreadState};
use crate::trap::{FrameView, SP};
use vstd::prelude::*;

verus! {

/// Mutating a thread is a write to it, so every invocation here needs `WRITE`.
type TcbCap = Cap<kind::Tcb, WRITE>;

/// The thread a TCB capability names.
pub fn tcb_at<'a>(threads: &'a Store<Tcb>, cap: &RawCap) -> (r: &'a Tcb)
    ensures
        r@ == threads@[cap.paddr.0],
{
    threads.get(cap.paddr.as_usize())
}

/// What checking a TCB capability comes to.
pub open spec fn checked(cap: RawCap, caller: TcbView) -> Result<(), CapError> {
    match crate::cap::typed(cap, ObjectType::Tcb, WRITE) {
        Err(e) => Err(e),
        Ok(_) => if cap.paddr == caller.self_paddr {
            Err(CapError::SelfInvocation)
        } else {
            Ok(())
        },
    }
}

/// The one runtime check every invocation shares: right kind, right rights, and
/// not the caller's own thread.
pub fn check(cap: RawCap, caller: &Tcb) -> (r: Result<Cap<kind::Tcb, WRITE>, CapError>)
    ensures
        match checked(cap, caller@) {
            Ok(_) => r is Ok && r->Ok_0.raw == cap,
            Err(e) => r is Err && r->Err_0 == e,
        },
{
    let typed: TcbCap = match Cap::from_raw(cap) {
        Ok(t) => t,
        Err(e) => {
            return Err(e);
        },
    };
    if cap.paddr == caller.self_paddr {
        return Err(CapError::SelfInvocation);
    }
    Ok(typed)
}

/// Whether a capability can serve as a fault endpoint.
pub open spec fn fault_ep_checked(fault_ep: RawCap) -> Result<(), CapError> {
    if fault_ep.kind is Null {
        Ok(())
    } else {
        crate::cap::typed(fault_ep, ObjectType::Endpoint, WRITE)
    }
}

/// A fault endpoint the kernel will send on, so the thread must hold it with
/// `WRITE`. Null is allowed: a thread without a pager is killed.
fn check_fault_ep(fault_ep: RawCap) -> (r: Result<(), CapError>)
    ensures
        match fault_ep_checked(fault_ep) {
            Ok(_) => r is Ok,
            Err(e) => r is Err && r->Err_0 == e,
        },
{
    if fault_ep.is_null() {
        return Ok(());
    }
    match Cap::<kind::Endpoint, WRITE>::from_raw(fault_ep) {
        Ok(_) => Ok(()),
        Err(e) => Err(e),
    }
}

/// Why a thread cannot be configured this way, if it cannot; checked in order.
pub open spec fn configure_refused(
    target: TcbView,
    cspace: RawCap,
    vspace: RawCap,
    fault_ep: RawCap,
) -> Option<CapError> {
    if !(target.state is Inactive) {
        Some(CapError::NotInactive)
    } else if !(cspace.kind is CNode) {
        Some(CapError::WrongType { wanted: ObjectType::CNode, found: cspace.kind })
    } else if !(vspace.kind is PageTable) {
        Some(CapError::WrongType { wanted: ObjectType::PageTable, found: vspace.kind })
    } else if vspace.asid == 0 {
        Some(CapError::NotAssigned)
    } else {
        match fault_ep_checked(fault_ep) {
            Ok(_) => None,
            Err(e) => Some(e),
        }
    }
}

/// What configuring a thread does.
pub open spec fn configured(
    target: TcbView,
    cspace: RawCap,
    vspace: RawCap,
    fault_ep: RawCap,
) -> (TcbView, Result<(), CapError>) {
    match configure_refused(target, cspace, vspace, fault_ep) {
        Some(e) => (target, Err(e)),
        None => (
            TcbView {
                cspace,
                fault_ep,
                satp: crate::mm::address_space::satp_of(vspace.paddr.0, Asid(vspace.asid)),
                ..target
            },
            Ok(()),
        ),
    }
}

/// Give a thread an address space, a capability space, and a pager.
pub fn configure(target: &mut Tcb, cspace: RawCap, vspace: RawCap, fault_ep: RawCap) -> (r: Result<
    (),
    CapError,
>)
    ensures
        (final(target)@, r) == configured(old(target)@, cspace, vspace, fault_ep),
{
    if target.state != ThreadState::Inactive {
        return Err(CapError::NotInactive);
    }
    if cspace.kind != ObjectType::CNode {
        return Err(CapError::WrongType { wanted: ObjectType::CNode, found: cspace.kind });
    }
    if vspace.kind != ObjectType::PageTable {
        return Err(CapError::WrongType { wanted: ObjectType::PageTable, found: vspace.kind });
    }
    // An unassigned root has no ASID *and* no kernel half, so the thread's
    // first trap would take the handler through a table that does not map it.

    if !vspace.is_assigned() {
        return Err(CapError::NotAssigned);
    }
    match check_fault_ep(fault_ep) {
        Ok(_) => {},
        Err(e) => {
            return Err(e);
        },
    }
    target.cspace = cspace;
    target.fault_ep = fault_ep;
    target.satp = satp_for(vspace.paddr, Asid::new(vspace.asid));
    Ok(())
}

/// What attaching a pager does.
pub open spec fn fault_ep_set(target: TcbView, fault_ep: RawCap) -> (TcbView, Result<(), CapError>) {
    match fault_ep_checked(fault_ep) {
        Err(e) => (target, Err(e)),
        Ok(_) => (TcbView { fault_ep, ..target }, Ok(())),
    }
}

/// Attach a pager on its own, leaving everything else alone.
pub fn set_fault_ep(target: &mut Tcb, fault_ep: RawCap) -> (r: Result<(), CapError>)
    ensures
        (final(target)@, r) == fault_ep_set(old(target)@, fault_ep),
{
    match check_fault_ep(fault_ep) {
        Ok(_) => {},
        Err(e) => {
            return Err(e);
        },
    }
    target.fault_ep = fault_ep;
    Ok(())
}

/// What setting a thread's registers does.
pub open spec fn registers_written(target: TcbView, entry: u64, stack_top: u64) -> (
    TcbView,
    Result<(), CapError>,
) {
    if target.state.blocked() {
        (target, Err(CapError::NotInactive))
    } else {
        (
            TcbView {
                frame: FrameView {
                    x: target.frame.x.update(SP as int, stack_top),
                    sepc: entry,
                    ..target.frame
                },
                ..target
            },
            Ok(()),
        )
    }
}

/// Set where the thread starts and what stack it starts on.
pub fn write_registers(target: &mut Tcb, entry: VirtAddr, stack_top: VirtAddr) -> (r: Result<
    (),
    CapError,
>)
    ensures
        (final(target)@, r) == registers_written(old(target)@, entry.0, stack_top.0),
{
    if target.state.is_blocked() {
        return Err(CapError::NotInactive);
    }
    target.set_registers(entry, stack_top);
    Ok(())
}

} // verus!
