//! The interface between the kernel and userspace.

pub mod bootinfo;
pub mod label;
pub mod msg;
pub mod object;
pub mod result;
pub mod rights;
pub mod slot;
pub mod syscall;
