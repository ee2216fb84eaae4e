//! The message header.

use vstd::prelude::*;

verus! {

/// Message words carried in registers: what the fast path can move without
/// touching memory.
pub const MSG_REGS: u64 = 4;

const LENGTH_BITS: u64 = 0x7;

const CAP_BIT: u64 = 0x8;

const LABEL_SHIFT: u64 = 12;

/// The header of a message: what it means, how long it is, and whether a
/// capability rides along.
///
/// Packed into one register so the fast path never has to read memory to find
/// out how much to copy. The label is everything above bit 12, bit 3 says
/// whether a capability is carried, and the low three bits are the length.
#[derive(Debug, Clone, Copy, PartialEq, Eq, Structural)]
pub struct MessageInfo(pub u64);

/// The length a header records for a message of `length` words.
pub open spec fn clamped(length: u64) -> u64 {
    if length > MSG_REGS {
        MSG_REGS
    } else {
        length
    }
}

impl MessageInfo {
    /// What the message means.
    pub open spec fn label_spec(self) -> u64 {
        self.0 / 4096
    }

    /// How many message words the header claims.
    pub open spec fn length_spec(self) -> u64 {
        self.0 % 8
    }

    /// Whether bit 3 is set.
    pub open spec fn carries_cap_spec(self) -> bool {
        (self.0 / 8) % 2 == 1
    }

    /// The header `new` builds.
    pub open spec fn packed(label: u64, length: u64, carries_cap: bool) -> MessageInfo {
        MessageInfo(
            (((label % 0x10_0000_0000_0000) * 4096) + (if carries_cap {
                8int
            } else {
                0int
            }) + clamped(length)) as u64,
        )
    }

    /// Pack a header. The label loses its top twelve bits, and a length beyond
    /// the message registers is clamped to them.
    pub fn new(label: u64, length: u64, carries_cap: bool) -> (r: Self)
        ensures
            r == Self::packed(label, length, carries_cap),
            r.label_spec() == label % 0x10_0000_0000_0000,
            r.length_spec() == clamped(length),
            r.carries_cap_spec() == carries_cap,
    {
        let len: u64 = if length > MSG_REGS {
            MSG_REGS
        } else {
            length
        };
        let cap: u64 = if carries_cap {
            CAP_BIT
        } else {
            0
        };
        proof {
            lemma_pack(label, cap, len);
        }
        MessageInfo((label << LABEL_SHIFT) | len | cap)
    }

    pub fn from_bits(bits: u64) -> (r: Self)
        ensures
            r.0 == bits,
    {
        MessageInfo(bits)
    }

    pub fn bits(self) -> (r: u64)
        ensures
            r == self.0,
    {
        self.0
    }

    /// What the message means. The kernel reads this for its own objects; for
    /// an endpoint it is untouched application data.
    pub fn label(self) -> (r: u64)
        ensures
            r == self.label_spec(),
            r < 0x10_0000_0000_0000,
    {
        proof {
            lemma_unpack(self.0);
        }
        self.0 >> LABEL_SHIFT
    }

    pub fn length(self) -> (r: u64)
        ensures
            r == self.length_spec(),
    {
        proof {
            lemma_unpack(self.0);
        }
        self.0 & LENGTH_BITS
    }

    pub fn carries_cap(self) -> (r: bool)
        ensures
            r == self.carries_cap_spec(),
    {
        proof {
            lemma_unpack(self.0);
        }
        self.0 & CAP_BIT != 0
    }
}

proof fn lemma_pack(label: u64, cap: u64, len: u64)
    by (bit_vector)
    requires
        cap == 0 || cap == 8,
        len <= 4,
    ensures
        (label << 12) | len | cap == (label % 0x10_0000_0000_0000) * 4096 + cap + len,
        ((label << 12) | len | cap) / 4096 == label % 0x10_0000_0000_0000,
        ((label << 12) | len | cap) % 8 == len,
        (((label << 12) | len | cap) / 8) % 2 == cap / 8,
{
}

proof fn lemma_unpack(bits: u64)
    by (bit_vector)
    ensures
        bits >> 12 == bits / 4096,
        bits >> 12 < 0x10_0000_0000_0000,
        bits & 7 == bits % 8,
        (bits & 8 != 0) == ((bits / 8) % 2 == 1),
{
}

/// A header gives back what it was packed from, for every label of at most 52
/// bits and every length that fits in the message registers.
pub proof fn headers_round_trip(label: u64, length: u64, carries_cap: bool)
    requires
        label < 0x10_0000_0000_0000,
        length <= MSG_REGS,
    ensures
        MessageInfo::packed(label, length, carries_cap).label_spec() == label,
        MessageInfo::packed(label, length, carries_cap).length_spec() == length,
        MessageInfo::packed(label, length, carries_cap).carries_cap_spec() == carries_cap,
{
    let cap: u64 = if carries_cap {
        8
    } else {
        0
    };
    lemma_pack(label, cap, length);
}

} // verus!
