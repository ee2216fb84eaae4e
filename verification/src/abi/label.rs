//! Labels selecting an operation on a kernel object.

use vstd::prelude::*;

verus! {

/// Untyped: carve objects out of a region.
pub const RETYPE: u64 = 1;

/// CNode: copy a capability with reduced rights.
pub const MINT: u64 = 2;

/// CNode: destroy everything derived from a capability.
pub const REVOKE: u64 = 3;

/// CNode: destroy a capability and its derivatives.
pub const DELETE: u64 = 4;

/// Frame or PageTable: install into an address space.
pub const MAP: u64 = 5;

/// Frame or PageTable: remove whatever mapping it records.
pub const UNMAP: u64 = 6;

/// TCB: attach a fault endpoint.
pub const SET_FAULT_EP: u64 = 7;

/// TCB: give a thread its address space, CSpace and pager.
pub const CONFIGURE: u64 = 8;

/// TCB: set the entry point and stack pointer.
pub const WRITE_REGISTERS: u64 = 9;

/// TCB: make a configured thread runnable.
pub const RESUME: u64 = 10;

/// TCB: take a runnable thread off the run queue.
pub const SUSPEND: u64 = 11;

/// PageTable: install the kernel half and bind an ASID.
pub const ASSIGN: u64 = 12;

/// Frame: where it physically is, for a device that does not walk page tables.
/// Needs `WRITE`: a physical address aims a bus master.
pub const GET_ADDRESS: u64 = 13;

/// IrqControl: mint an `IrqHandler` for one source.
///
/// The kernel does not serve the three interrupt labels: they are kept for the
/// operations they name, and invoking an `IrqControl` or an `IrqHandler` is
/// answered with `ERR_BAD_CAP`, whatever the label.
pub const IRQ_GET: u64 = 14;

/// IrqHandler: deliver this source to a notification from now on. Not served,
/// like [`IRQ_GET`].
pub const IRQ_SET_NOTIFICATION: u64 = 15;

/// IrqHandler: the device is quiet again; unmask the source. Not served, like
/// [`IRQ_GET`].
pub const IRQ_ACK: u64 = 16;

/// What the kernel sends a pager when a thread faults.
pub const FAULT_VM: u64 = 0x100;

/// The first label the kernel does not interpret.
pub const APP_BASE: u64 = 0x1000;

} // verus!
