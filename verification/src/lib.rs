//! Tessera: the decision-making core of a capability microkernel for RV64.
//!
//! Every rule the kernel follows lives here: which physical memory is free, how
//! page tables are built and walked, what a capability authorises, how derived
//! capabilities are destroyed again, and which thread runs next. What touches
//! the hart itself (control registers, device registers, the trap vector) stays
//! outside; this crate tells that code what to do.

pub mod abi;
pub mod bits;
pub mod boot;
pub mod cap;
pub mod demo;
pub mod display;
pub mod elf;
pub mod fdt;
pub mod ipc;
pub mod irq;
pub mod layout;
pub mod mm;
pub mod notify;
pub mod objects;
pub mod plic;
pub mod qemu;
pub mod quarters;
pub mod queue;
pub mod root;
pub mod sbi;
pub mod sched;
pub mod store;
pub mod text;
pub mod thread;
pub mod time;
pub mod trap;
pub mod uart;
pub mod uprog;
