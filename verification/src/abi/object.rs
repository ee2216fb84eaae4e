//! Every kind of object the kernel knows how to make.

use vstd::prelude::*;

verus! {

/// A capability slot is 128 bytes, so a CNode of 2^n slots is 2^(n+7) bytes.
pub const SLOT_BITS: u8 = 7;

/// Log2 of the size of a page.
pub const PAGE_BITS: u8 = 12;

/// Every kind of object the kernel knows how to make.
#[derive(Debug, Clone, Copy, PartialEq, Eq, Structural)]
pub enum ObjectType {
    /// An empty slot. Not an object.
    Null,
    /// Physical memory with no type yet. The only thing that can become anything.
    Untyped,
    /// Untyped memory over a region that is not RAM: device registers.
    DeviceUntyped,
    /// A table of capability slots. Also a level of a CSpace.
    CNode,
    /// A page of memory userspace can map.
    Frame,
    /// One level of an Sv39 page table.
    PageTable,
    /// A thread.
    Tcb,
    /// An IPC rendezvous point.
    Endpoint,
    /// An asynchronous wake-up: a word of badges, and whoever is waiting for
    /// it.
    Notification,
    /// A one-shot right to reply to a caller.
    Reply,
    /// The right to claim interrupt sources.
    IrqControl,
    /// The right to receive, and to acknowledge, one interrupt source.
    IrqHandler,
}

impl ObjectType {
    /// The number that stands for a kind in a message.
    pub open spec fn wire(self) -> u8 {
        match self {
            ObjectType::Null => 0,
            ObjectType::Untyped => 1,
            ObjectType::DeviceUntyped => 2,
            ObjectType::CNode => 3,
            ObjectType::Frame => 4,
            ObjectType::PageTable => 5,
            ObjectType::Tcb => 6,
            ObjectType::Endpoint => 7,
            ObjectType::Notification => 8,
            ObjectType::Reply => 9,
            ObjectType::IrqControl => 10,
            ObjectType::IrqHandler => 11,
        }
    }

    /// Memory waiting to be given a type.
    pub open spec fn untyped(self) -> bool {
        self is Untyped || self is DeviceUntyped
    }

    /// The kinds whose size is chosen when they are made.
    pub open spec fn variable_size(self) -> bool {
        self.untyped() || self is CNode
    }

    /// The kinds with a server on the other end to read a badge.
    pub open spec fn badgeable(self) -> bool {
        self is Endpoint || self is Notification
    }

    /// The kinds that can be installed in an address space.
    pub open spec fn mappable(self) -> bool {
        self is Frame || self is PageTable
    }

    /// Log2 of the size an object of this kind has, if it can be made at all.
    pub open spec fn size_bits_spec(self, requested: u8) -> Option<u8> {
        if self.variable_size() {
            Some(requested)
        } else if self is Frame || self is PageTable || self is Tcb {
            Some(PAGE_BITS)
        } else if self.badgeable() {
            Some(SLOT_BITS)
        } else {
            None
        }
    }

    /// Whether the object's size is fixed, or chosen when it is made.
    pub fn is_variable_size(self) -> (r: bool)
        ensures
            r == self.variable_size(),
    {
        matches!(self, ObjectType::Untyped | ObjectType::DeviceUntyped | ObjectType::CNode)
    }

    /// Whether this is memory waiting to be given a type.
    pub fn is_untyped(self) -> (r: bool)
        ensures
            r == self.untyped(),
    {
        matches!(self, ObjectType::Untyped | ObjectType::DeviceUntyped)
    }

    /// Whether retyping it must skip zeroing, because the bytes are registers.
    pub fn is_device(self) -> (r: bool)
        ensures
            r == (self is DeviceUntyped),
    {
        matches!(self, ObjectType::DeviceUntyped)
    }

    /// Whether a capability to it can carry a badge.
    pub fn is_badgeable(self) -> (r: bool)
        ensures
            r == self.badgeable(),
    {
        matches!(self, ObjectType::Endpoint | ObjectType::Notification)
    }

    /// Whether a capability to it can record a mapping.
    pub fn is_mappable(self) -> (r: bool)
        ensures
            r == self.mappable(),
    {
        matches!(self, ObjectType::Frame | ObjectType::PageTable)
    }

    /// Log2 of the object's size in bytes.
    pub fn size_bits(self, requested: u8) -> (r: Option<u8>)
        ensures
            r == self.size_bits_spec(requested),
    {
        match self {
            ObjectType::Null => None,
            ObjectType::Untyped | ObjectType::DeviceUntyped | ObjectType::CNode => Some(requested),
            ObjectType::Frame | ObjectType::PageTable | ObjectType::Tcb => Some(PAGE_BITS),
            ObjectType::Endpoint | ObjectType::Notification => Some(SLOT_BITS),
            // Never retyped into.
            ObjectType::Reply | ObjectType::IrqControl | ObjectType::IrqHandler => None,
        }
    }

    /// Slots in a CNode of this size, if it is one.
    pub fn slots(self, size_bits: u8) -> (r: Option<u64>)
        requires
            size_bits < 64 + SLOT_BITS,
        ensures
            r is Some <==> self is CNode && size_bits >= SLOT_BITS,
            r matches Some(n) ==> n == vstd::arithmetic::power2::pow2(
                (size_bits - SLOT_BITS) as nat,
            ),
    {
        match self {
            ObjectType::CNode => {
                if size_bits >= SLOT_BITS {
                    proof {
                        crate::bits::lemma_shl_one((size_bits - SLOT_BITS) as u64);
                    }
                    Some(1u64 << ((size_bits - SLOT_BITS) as u64))
                } else {
                    None
                }
            },
            _ => None,
        }
    }

    /// The kind a wire value stands for.
    pub open spec fn of_wire(v: u8) -> Option<ObjectType> {
        if v == 0 {
            Some(ObjectType::Null)
        } else if v == 1 {
            Some(ObjectType::Untyped)
        } else if v == 2 {
            Some(ObjectType::DeviceUntyped)
        } else if v == 3 {
            Some(ObjectType::CNode)
        } else if v == 4 {
            Some(ObjectType::Frame)
        } else if v == 5 {
            Some(ObjectType::PageTable)
        } else if v == 6 {
            Some(ObjectType::Tcb)
        } else if v == 7 {
            Some(ObjectType::Endpoint)
        } else if v == 8 {
            Some(ObjectType::Notification)
        } else if v == 9 {
            Some(ObjectType::Reply)
        } else if v == 10 {
            Some(ObjectType::IrqControl)
        } else if v == 11 {
            Some(ObjectType::IrqHandler)
        } else {
            None
        }
    }

    /// Decode the wire value userspace puts in a `Retype` message.
    pub fn from_u8(v: u8) -> (r: Option<Self>)
        ensures
            r == ObjectType::of_wire(v),
            r is Some <==> v <= 11,
            r matches Some(kind) ==> kind.wire() == v,
    {
        Some(
            match v {
                0 => ObjectType::Null,
                1 => ObjectType::Untyped,
                2 => ObjectType::DeviceUntyped,
                3 => ObjectType::CNode,
                4 => ObjectType::Frame,
                5 => ObjectType::PageTable,
                6 => ObjectType::Tcb,
                7 => ObjectType::Endpoint,
                8 => ObjectType::Notification,
                9 => ObjectType::Reply,
                10 => ObjectType::IrqControl,
                11 => ObjectType::IrqHandler,
                _ => return None,
            },
        )
    }

    /// The kind's name, for dumps.
    pub open spec fn name_spec(self) -> Seq<char> {
        match self {
            ObjectType::Null => "null"@,
            ObjectType::Untyped => "untyped"@,
            ObjectType::DeviceUntyped => "device-untyped"@,
            ObjectType::CNode => "cnode"@,
            ObjectType::Frame => "frame"@,
            ObjectType::PageTable => "page-table"@,
            ObjectType::Tcb => "tcb"@,
            ObjectType::Endpoint => "endpoint"@,
            ObjectType::Notification => "notification"@,
            ObjectType::Reply => "reply"@,
            ObjectType::IrqControl => "irq-control"@,
            ObjectType::IrqHandler => "irq-handler"@,
        }
    }

    pub fn name(self) -> (r: &'static str)
        ensures
            r@ == self.name_spec(),
    {
        match self {
            ObjectType::Null => "null",
            ObjectType::Untyped => "untyped",
            ObjectType::DeviceUntyped => "device-untyped",
            ObjectType::CNode => "cnode",
            ObjectType::Frame => "frame",
            ObjectType::PageTable => "page-table",
            ObjectType::Tcb => "tcb",
            ObjectType::Endpoint => "endpoint",
            ObjectType::Notification => "notification",
            ObjectType::Reply => "reply",
            ObjectType::IrqControl => "irq-control",
            ObjectType::IrqHandler => "irq-handler",
        }
    }
}

/// No two kinds share a wire value, so a kind survives being sent as a number.
pub proof fn wire_values_are_distinct(a: ObjectType, b: ObjectType)
    requires
        a.wire() == b.wire(),
    ensures
        a == b,
{
}

} // verus!
