//! The capability slots the kernel fills in before the root task runs.

use vstd::prelude::*;

verus! {

/// Always empty: a null cptr must not resolve to anything.
pub const NULL: u64 = 0;

/// The root CNode, as a capability inside itself.
pub const CNODE: u64 = 1;

/// The root task's address space: an assigned root page table.
pub const VSPACE: u64 = 2;

/// The root task's own TCB. Invoking it is refused.
pub const TCB: u64 = 3;

/// The read-only frame the boot info lives in.
pub const BOOTINFO: u64 = 4;

/// The right to claim interrupt sources. One exists.
pub const IRQ_CONTROL: u64 = 5;

/// A spawned task's endpoint back to whoever spawned it. Empty in the root
/// task: the kernel is not on the other end of anything.
pub const ENDPOINT: u64 = 6;

/// The first slot holding an untyped region.
pub const FIRST_UNTYPED: u64 = 8;

} // verus!
