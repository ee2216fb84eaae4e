//! The system call numbers.

use vstd::prelude::*;

verus! {

pub const YIELD: u64 = 0;

pub const EXIT: u64 = 1;

pub const PUTC: u64 = 2;

pub const GET_ID: u64 = 3;

/// Send and block until taken; no reply expected.
pub const SEND: u64 = 4;

/// Block until a message arrives.
pub const RECV: u64 = 5;

/// Send and block until replied to. The fast path.
pub const CALL: u64 = 6;

/// Answer the caller whose reply capability we hold.
pub const REPLY: u64 = 7;

/// Reply, then wait for the next message. What a server loop runs.
pub const REPLY_RECV: u64 = 8;

} // verus!
