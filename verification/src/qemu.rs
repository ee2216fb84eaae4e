//! Terminating QEMU from inside the guest, via the SiFive test device.

use vstd::prelude::*;

verus! {

/// Physical address of the device.
pub const SIFIVE_TEST_PHYS: u64 = 0x0010_0000;

pub const FINISH_FAIL: u32 = 0x3333;

pub const FINISH_PASS: u32 = 0x5555;

/// The word that makes QEMU exit with status 0.
pub fn exit_success() -> (r: u32)
    ensures
        r == FINISH_PASS,
{
    FINISH_PASS
}

/// The word that makes QEMU exit with status `code`, which must be non-zero to
/// be distinguishable.
pub fn exit_failure(code: u16) -> (r: u32)
    ensures
        r == FINISH_FAIL + 0x1_0000 * code,
{
    FINISH_FAIL + 0x1_0000 * (code as u32)
}

} // verus!
