//! Access rights, as a mask carried by every capability.

use vstd::prelude::*;

verus! {

/// Read the object, or receive from an endpoint.
pub const READ: u8 = 1;

/// Write the object, retype untyped memory, or send to an endpoint.
pub const WRITE: u8 = 2;

/// Delegate this capability, and carry capabilities in a message.
pub const GRANT: u8 = 4;

/// Every right. What the initial task holds over its own untyped memory.
pub const ALL: u8 = 7;

/// The number of distinct masks, and the bound the kernel's tables enumerate.
pub const MASKS: usize = 8;

/// Whether every right in `need` is also in `held`.
pub open spec fn includes(held: u8, need: u8) -> bool {
    held & need == need
}

/// The name of a mask: its rights, in order, joined by bars.
pub open spec fn mask_name(mask: u8) -> Seq<char> {
    let m = mask & ALL;
    if m == 0 {
        "none"@
    } else if m == READ {
        "READ"@
    } else if m == WRITE {
        "WRITE"@
    } else if m == READ | WRITE {
        "READ|WRITE"@
    } else if m == GRANT {
        "GRANT"@
    } else if m == READ | GRANT {
        "READ|GRANT"@
    } else if m == WRITE | GRANT {
        "WRITE|GRANT"@
    } else {
        "READ|WRITE|GRANT"@
    }
}

/// Human-readable mask, for dumps.
pub fn name(mask: u8) -> (r: &'static str)
    ensures
        r@ == mask_name(mask),
{
    proof {
        lemma_mask_values(mask);
    }
    let m: u8 = mask & ALL;
    if m == 0 {
        "none"
    } else if m == 1 {
        "READ"
    } else if m == 2 {
        "WRITE"
    } else if m == 3 {
        "READ|WRITE"
    } else if m == 4 {
        "GRANT"
    } else if m == 5 {
        "READ|GRANT"
    } else if m == 6 {
        "WRITE|GRANT"
    } else {
        "READ|WRITE|GRANT"
    }
}

proof fn lemma_mask_values(mask: u8)
    by (bit_vector)
    ensures
        1u8 | 2u8 == 3u8,
        1u8 | 4u8 == 5u8,
        2u8 | 4u8 == 6u8,
        mask & 7u8 <= 7u8,
{
}

/// Intersecting two masks never adds a right: whatever the intersection
/// includes, both masks included.
pub proof fn intersection_never_widens(held: u8, mask: u8, need: u8)
    by (bit_vector)
    requires
        (held & mask) & need == need,
    ensures
        held & need == need,
        mask & need == need,
{
}

} // verus!
