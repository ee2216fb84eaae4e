//! Our side of the SBI: the calls the kernel makes into the firmware.

use vstd::prelude::*;

verus! {

/// The base extension.
pub const EID_BASE: u64 = 0x10;

/// The timer extension.
pub const EID_TIME: u64 = 0x5449_4D45;

/// What every SBI call returns: an error code and a value.
#[derive(Debug, Clone, Copy, PartialEq, Eq, Structural)]
pub struct SbiRet {
    pub error: i64,
    pub value: u64,
}

impl SbiRet {
    pub fn is_ok(self) -> (r: bool)
        ensures
            r == (self.error == 0),
    {
        self.error == 0
    }

    /// Whether this answer to [`probe_extension`] says that the extension is
    /// there.
    pub fn is_present(self) -> (r: bool)
        ensures
            r == (self.error == 0 && self.value != 0),
    {
        self.is_ok() && self.value != 0
    }
}

/// A call to make.
#[derive(Debug, Clone, Copy, PartialEq, Eq, Structural)]
pub struct Call {
    pub eid: u64,
    pub fid: u64,
    pub arg0: u64,
    pub arg1: u64,
}

/// The call that arms the timer for an absolute `time` value: the fallback when
/// the hart cannot be told itself.
pub fn set_timer(deadline: u64) -> (r: Call)
    ensures
        r == (Call { eid: EID_TIME, fid: 0, arg0: deadline, arg1: 0 }),
        r.eid == 0x5449_4d45,
{
    Call { eid: EID_TIME, fid: 0, arg0: deadline, arg1: 0 }
}

/// The call that asks whether the firmware implements an extension at all.
pub fn probe_extension(id: u64) -> (r: Call)
    ensures
        r == (Call { eid: EID_BASE, fid: 3, arg0: id, arg1: 0 }),
        r.eid == 0x10,
{
    Call { eid: EID_BASE, fid: 3, arg0: id, arg1: 0 }
}

} // verus!
