//! What a system call returns in `a0`.

use vstd::prelude::*;

verus! {

pub const OK: u64 = 0;

pub const ERR_BAD_CAP: u64 = 0xffff_ffff_ffff_ffff;

pub const ERR_BAD_LABEL: u64 = 0xffff_ffff_ffff_fffe;

pub const ERR_NO_REPLY: u64 = 0xffff_ffff_ffff_fffd;

pub const ERR_NO_CSPACE: u64 = 0xffff_ffff_ffff_fffc;

pub const ERR_MAP: u64 = 0xffff_ffff_ffff_fffb;

/// The thread is not in a state that allows the invocation, or a thread
/// invoked its own TCB.
pub const ERR_STATE: u64 = 0xffff_ffff_ffff_fffa;

/// The address space has no ASID, or the pool had none left.
pub const ERR_ASID: u64 = 0xffff_ffff_ffff_fff9;

/// Whether a value is one of the error codes above.
pub open spec fn is_error_code(a0: u64) -> bool {
    ||| a0 == ERR_BAD_CAP
    ||| a0 == ERR_BAD_LABEL
    ||| a0 == ERR_NO_REPLY
    ||| a0 == ERR_NO_CSPACE
    ||| a0 == ERR_MAP
    ||| a0 == ERR_STATE
    ||| a0 == ERR_ASID
}

/// Whether `a0` came back as one of the error codes above.
pub fn is_err(a0: u64) -> (r: bool)
    ensures
        r == is_error_code(a0),
{
    a0 >= ERR_ASID
}

/// No physical address can be mistaken for an error code: a physical address
/// has at most 56 bits, and every error code has all of its upper bits set.
pub proof fn physical_addresses_are_not_error_codes(a0: u64)
    requires
        a0 < 0x100_0000_0000_0000,
    ensures
        !is_error_code(a0),
{
}

} // verus!
