//! Capabilities: unforgeable authority, with rights checked by the compiler.

pub mod asid;
pub mod cspace;
pub mod kind;
pub mod object;
pub mod ownership;
pub mod revocation;
pub mod rights;
pub mod slot;
pub mod slot_table;
pub mod tcb;
pub mod teardown;
pub mod untyped;
pub mod vspace;

use crate::abi::object::ObjectType;
use crate::abi::rights::WRITE;
use crate::cap::object::ObjectKind;
use crate::cap::rights::{HasGrant, Mask, Subset};
use crate::mm::addr::PhysAddr;
use crate::mm::page_table::MapError;
use core::marker::PhantomData;
use vstd::prelude::*;

verus! {

/// Where a capability address stopped resolving, and why.
#[derive(Debug, Clone, Copy, PartialEq, Eq, Structural)]
pub enum ResolveError {
    /// The root, or a slot the walk descended into, is not a CNode.
    NotACNode,
    /// The remaining depth is smaller than the next CNode's radix. The address
    /// does not name a slot in this tree, it stops partway into one.
    DepthMismatch,
    /// More than 64 bits of address were asked for.
    TooDeep,
    /// The walk reached an empty slot with bits still to consume.
    EmptySlot,
}

#[derive(Debug, Clone, Copy, PartialEq, Eq, Structural)]
pub enum AsidError {
    /// Every ASID in the pool is assigned.
    Exhausted,
    /// The hart implements no ASID bits, so tagging is not available.
    NotSupported,
}

#[allow(inconsistent_fields)]
#[derive(Debug, Clone, Copy, PartialEq, Eq, Structural)]
pub enum CapError {
    /// The slot is empty.
    Null,
    /// The slot holds a different kind of object than the caller asked for.
    WrongType { wanted: ObjectType, found: ObjectType },
    /// The stored capability does not carry every right the caller needs.
    MissingRights { wanted: u8, held: u8 },
    /// The untyped region has no room left for another object of that size.
    NotEnoughSpace,
    /// A CNode of fewer than two slots: it would consume no address bits.
    BadSize,
    /// The region cannot become an object of that kind.
    BadObjectType,
    /// The capability address did not name a slot.
    Resolve(ResolveError),
    /// The destination slot already holds a capability.
    SlotOccupied,
    /// A badge was asked for on something that has no server on the other end.
    CannotBadge,
    /// Untyped memory cannot be copied, only moved: a copy that can be retyped
    /// would carry a second watermark over the same region.
    CannotCopy,
    /// The capability already records a mapping; unmap it first.
    AlreadyMapped,
    /// The page table refused the mapping.
    Mapping(MapError),
    /// The page table already has an ASID; assigning twice would strand one.
    AlreadyAssigned,
    /// The ASID pool refused.
    Asid(AsidError),
    /// The kernel's own root table is not published yet, so there is no kernel
    /// half to copy.
    NoKernelSpace,
    /// A thread invoked its own TCB capability.
    SelfInvocation,
    /// The thread is not in a state where this invocation is allowed.
    NotInactive,
    /// The root page table has no ASID, so it is not an address space yet.
    NotAssigned,
    /// An untyped region not aligned to its own size.
    Misaligned,
}

/// A capability as it is stored: rights and identity known only at runtime.
#[derive(Debug, Clone, Copy, PartialEq, Eq, Structural)]
pub struct RawCap {
    pub kind: ObjectType,
    pub rights: u8,
    /// Log2 of the object's size in bytes.
    pub size_bits: u8,
    /// Root page tables only: the ASID `Assign` bound to this address space, or
    /// zero.
    pub asid: u16,
    /// `IrqHandler` only: the interrupt source this capability speaks for.
    pub irq: u16,
    /// The object itself. Physical, because a capability outlives any mapping.
    pub paddr: PhysAddr,
    /// Two payload words whose meaning `kind` decides. No object needs more
    /// than two, and none needs two different meanings at once, so they are
    /// shared rather than laid out side by side:
    ///
    /// | kind | `w0` | `w1` |
    /// |---|---|---|
    /// | untyped, device untyped | watermark | unused |
    /// | frame, page table | mapped root | mapped vaddr |
    /// | endpoint, notification | unused | badge |
    /// | everything else | unused | unused |
    ///
    /// The accessors below are the only way the kernel reads and writes them.
    pub w0: u64,
    pub w1: u64,
}

impl RawCap {
    /// The capability an empty slot holds.
    pub open spec fn null_spec() -> RawCap {
        RawCap {
            kind: ObjectType::Null,
            rights: 0,
            size_bits: 0,
            asid: 0,
            irq: 0,
            paddr: PhysAddr(0),
            w0: 0,
            w1: 0,
        }
    }

    /// A capability over an object, with no payload.
    pub open spec fn plain(kind: ObjectType, rights: u8, size_bits: u8, paddr: PhysAddr) -> RawCap {
        RawCap { kind, rights, size_bits, asid: 0, irq: 0, paddr, w0: 0, w1: 0 }
    }

    /// How much of an untyped region has already been handed out.
    pub open spec fn watermark_spec(self) -> u64 {
        if self.kind.untyped() {
            self.w0
        } else {
            0
        }
    }

    /// The badge a holder was minted with.
    pub open spec fn badge_spec(self) -> u64 {
        if self.kind.badgeable() {
            self.w1
        } else {
            0
        }
    }

    /// Where the capability is mapped, if anywhere.
    pub open spec fn mapping_spec(self) -> Option<(PhysAddr, u64)> {
        if self.kind.mappable() && self.w0 != 0 {
            Some((PhysAddr(self.w0), self.w1))
        } else {
            None
        }
    }

    /// The capability with whatever mapping it records forgotten.
    pub open spec fn unmapped_spec(self) -> RawCap {
        if self.kind.mappable() {
            RawCap { w0: 0, w1: 0, ..self }
        } else {
            self
        }
    }

    /// Whether this may stand beside another capability to the same object. A
    /// second capability that untyped memory can be retyped through would carry
    /// a second watermark over the same region.
    pub open spec fn copyable(self) -> bool {
        !self.kind.untyped() || self.rights & WRITE == 0
    }

    /// A copy carrying nothing that belonged to the previous holder.
    pub open spec fn fresh_spec(self) -> RawCap {
        RawCap {
            w0: if self.kind.mappable() {
                0
            } else {
                self.w0
            },
            w1: 0,
            ..self
        }
    }

    /// The same capability with fewer rights.
    pub open spec fn narrowed(self, rights: u8) -> RawCap {
        RawCap { rights: self.rights & rights, ..self }
    }

    /// Bytes the object occupies.
    pub open spec fn size_spec(self) -> nat {
        vstd::arithmetic::power2::pow2(self.size_bits as nat)
    }

    /// Whether the object lies in physical memory, and, for untyped memory,
    /// no more has been handed out than there is. A CNode must hold at least
    /// two slots, so that every step of a walk consumes an address bit.
    pub open spec fn is_sound(self) -> bool {
        &&& self.kind.variable_size() ==> self.size_bits < 64 && self.paddr.0 + self.size_spec()
            <= crate::mm::addr::PHYS_LIMIT
        &&& self.kind is CNode ==> self.size_bits > crate::abi::object::SLOT_BITS
        &&& self.kind.untyped() ==> self.w0 <= self.size_spec()
    }

    pub fn null() -> (r: RawCap)
        ensures
            r == RawCap::null_spec(),
    {
        RawCap {
            kind: ObjectType::Null,
            rights: 0,
            size_bits: 0,
            asid: 0,
            irq: 0,
            paddr: PhysAddr::new(0),
            w0: 0,
            w1: 0,
        }
    }

    pub fn is_null(&self) -> (r: bool)
        ensures
            r == (self.kind is Null),
    {
        matches!(self.kind, ObjectType::Null)
    }

    /// A capability over an object, with no payload set. Callers outside this
    /// module build capabilities through this rather than by struct update.
    pub fn new(kind: ObjectType, rights: u8, size_bits: u8, paddr: PhysAddr) -> (r: RawCap)
        ensures
            r == RawCap::plain(kind, rights, size_bits, paddr),
    {
        RawCap { kind, rights, size_bits, asid: 0, irq: 0, paddr, w0: 0, w1: 0 }
    }

    /// The same capability held with fewer rights. Rights are only ever
    /// narrowed, never widened, which `mint` and `reduce` both rely on.
    pub fn with_rights(self, rights: u8) -> (r: RawCap)
        ensures
            r == self.narrowed(rights),
    {
        RawCap { rights: self.rights & rights, ..self }
    }

    /// An untyped capability over a region. The one shape callers build by hand.
    pub fn untyped(paddr: PhysAddr, size_bits: u8, rights: u8) -> (r: RawCap)
        ensures
            r == RawCap::plain(ObjectType::Untyped, rights, size_bits, paddr),
    {
        RawCap::new(ObjectType::Untyped, rights, size_bits, paddr)
    }

    /// Untyped memory over device registers rather than RAM.
    pub fn device_untyped(paddr: PhysAddr, size_bits: u8, rights: u8) -> (r: RawCap)
        ensures
            r == RawCap::plain(ObjectType::DeviceUntyped, rights, size_bits, paddr),
    {
        RawCap::new(ObjectType::DeviceUntyped, rights, size_bits, paddr)
    }

    /// How much of an untyped region has already been handed out. Zero for
    /// anything that is not untyped, which has no watermark to speak of.
    pub fn watermark(&self) -> (r: u64)
        ensures
            r == self.watermark_spec(),
    {
        if self.kind.is_untyped() {
            self.w0
        } else {
            0
        }
    }

    pub fn set_watermark(&mut self, to: u64)
        requires
            old(self).kind.untyped(),
        ensures
            *final(self) == (RawCap { w0: to, ..*old(self) }),
            final(self).watermark_spec() == to,
    {
        self.w0 = to;
    }

    /// The badge a holder was minted with, to identify it to a server. Zero on
    /// anything a badge cannot mean something on, so a frame's mapped address
    /// can never be read back as one.
    pub fn badge(&self) -> (r: u64)
        ensures
            r == self.badge_spec(),
    {
        if self.kind.is_badgeable() {
            self.w1
        } else {
            0
        }
    }

    pub fn set_badge(&mut self, to: u64)
        requires
            old(self).kind.badgeable(),
        ensures
            *final(self) == (RawCap { w1: to, ..*old(self) }),
            final(self).badge_spec() == to,
    {
        self.w1 = to;
    }

    /// Where this capability is mapped, if anywhere.
    pub fn mapping(&self) -> (r: Option<(PhysAddr, u64)>)
        ensures
            r == self.mapping_spec(),
    {
        if !self.kind.is_mappable() || self.w0 == 0 {
            return None;
        }
        Some((PhysAddr::new(self.w0), self.w1))
    }

    pub fn set_mapping(&mut self, root: PhysAddr, vaddr: u64)
        requires
            old(self).kind.mappable(),
        ensures
            *final(self) == (RawCap { w0: root.0, w1: vaddr, ..*old(self) }),
            root.0 != 0 ==> final(self).mapping_spec() == Some((root, vaddr)),
    {
        self.w0 = root.as_usize();
        self.w1 = vaddr;
    }

    /// A copy of this capability carrying nothing that belonged to the previous
    /// holder: no badge, and no mapping of its own.
    pub fn fresh_copy(&self) -> (r: RawCap)
        ensures
            r == self.fresh_spec(),
            r.badge_spec() == 0,
            r.mapping_spec() is None,
    {
        let mut copy: RawCap = *self;
        copy.w1 = 0;
        if copy.kind.is_mappable() {
            copy.w0 = 0;
        }
        copy
    }

    /// Whether this may stand beside another capability to the same object.
    pub fn is_copyable(&self) -> (r: bool)
        ensures
            r == self.copyable(),
    {
        !self.kind.is_untyped() || self.rights & WRITE == 0
    }

    /// Whether an ASID has been bound, which is what makes a root page table
    /// usable as an address space.
    pub fn is_assigned(&self) -> (r: bool)
        ensures
            r == (self.asid != 0),
    {
        self.asid != 0
    }

    pub fn clear_mapping(&mut self)
        ensures
            *final(self) == old(self).unmapped_spec(),
            final(self).mapping_spec() is None,
    {
        if self.kind.is_mappable() {
            self.w0 = 0;
            self.w1 = 0;
        }
    }

    /// Size of the object in bytes.
    pub fn size(&self) -> (r: u64)
        requires
            self.size_bits < 64,
        ensures
            r == self.size_spec(),
    {
        proof {
            crate::bits::lemma_shl_one(self.size_bits as u64);
        }
        1u64 << (self.size_bits as u64)
    }

    /// One past the last byte of the object.
    pub fn end(&self) -> (r: u64)
        requires
            self.size_bits < 64,
            self.paddr.0 + self.size_spec() <= u64::MAX,
        ensures
            r == self.paddr.0 + self.size_spec(),
    {
        self.paddr.as_usize() + self.size()
    }

    /// Whether `other` names memory inside this region.
    pub fn covers(&self, other: &RawCap) -> (r: bool)
        requires
            self.size_bits < 64,
            self.paddr.0 + self.size_spec() <= u64::MAX,
            other.size_bits < 64,
            other.paddr.0 + other.size_spec() <= u64::MAX,
        ensures
            r == (self.paddr.0 <= other.paddr.0 && other.paddr.0 + other.size_spec()
                <= self.paddr.0 + self.size_spec()),
    {
        other.paddr.as_usize() >= self.paddr.as_usize() && other.end() <= self.end()
    }
}

/// A capability's two payload words never mean two things at once: what is
/// recorded of a mapping is never read back as a badge or a watermark, nor the
/// other way round.
pub proof fn payloads_never_mix(cap: RawCap, root: u64, vaddr: u64, badge: u64, watermark: u64)
    ensures
        cap.kind.mappable() ==> ({
            let mapped = RawCap { w0: root, w1: vaddr, ..cap };
            mapped.badge_spec() == 0 && mapped.watermark_spec() == 0
        }),
        cap.kind.badgeable() ==> ({
            let badged = RawCap { w1: badge, ..cap };
            badged.mapping_spec() is None && badged.watermark_spec() == 0
        }),
        cap.kind.untyped() ==> ({
            let marked = RawCap { w0: watermark, ..cap };
            marked.mapping_spec() is None && marked.badge_spec() == 0
        }),
{
}

/// A fresh copy names the same object with the same rights, and carries nothing
/// that belonged to the previous holder: no badge and no mapping.
pub proof fn a_fresh_copy_carries_nothing(cap: RawCap)
    ensures
        cap.fresh_spec().badge_spec() == 0,
        cap.fresh_spec().mapping_spec() is None,
        cap.fresh_spec().kind == cap.kind,
        cap.fresh_spec().rights == cap.rights,
        cap.fresh_spec().size_bits == cap.size_bits,
        cap.fresh_spec().paddr == cap.paddr,
        cap.fresh_spec().watermark_spec() == cap.watermark_spec(),
{
}

/// A capability whose object kind and rights are both known to the compiler.
pub struct Cap<T, const R: u8> {
    pub raw: RawCap,
    pub _kind: PhantomData<T>,
}

/// What wrapping a capability as a `kind` carrying `rights` comes to.
pub open spec fn typed(raw: RawCap, kind: ObjectType, rights: u8) -> Result<(), CapError> {
    if raw.kind is Null {
        Err(CapError::Null)
    } else if raw.kind != kind {
        Err(CapError::WrongType { wanted: kind, found: raw.kind })
    } else if raw.rights & rights != rights {
        Err(CapError::MissingRights { wanted: rights, held: raw.rights })
    } else {
        Ok(())
    }
}

impl<T: ObjectKind, const R: u8> Cap<T, R> {
    /// Wrap a raw capability, checking the kind and the rights once.
    pub fn from_raw(raw: RawCap) -> (r: Result<Self, CapError>)
        ensures
            match typed(raw, T::kind(), R) {
                Ok(_) => r is Ok && r->Ok_0.raw == raw,
                Err(e) => r is Err && r->Err_0 == e,
            },
    {
        if raw.is_null() {
            return Err(CapError::Null);
        }
        let wanted: ObjectType = T::object_type();
        if raw.kind != wanted {
            return Err(CapError::WrongType { wanted, found: raw.kind });
        }
        if raw.rights & R != R {
            return Err(CapError::MissingRights { wanted: R, held: raw.rights });
        }
        Ok(Cap { raw, _kind: PhantomData })
    }

    pub fn raw(&self) -> (r: &RawCap)
        ensures
            *r == self.raw,
    {
        &self.raw
    }

    pub fn paddr(&self) -> (r: PhysAddr)
        ensures
            r == self.raw.paddr,
    {
        self.raw.paddr
    }

    pub fn size(&self) -> (r: u64)
        requires
            self.raw.size_bits < 64,
        ensures
            r == self.raw.size_spec(),
    {
        self.raw.size()
    }

    pub fn badge(&self) -> (r: u64)
        ensures
            r == self.raw.badge_spec(),
    {
        self.raw.badge()
    }

    /// Weaken this capability to a smaller set of rights.
    pub fn reduce<const M: u8>(self) -> (r: Cap<T, M>) where Mask<R>: Subset<R, M>
        ensures
            r.raw == self.raw.narrowed(M),
    {
        Cap { raw: self.raw.with_rights(M), _kind: PhantomData }
    }
}

/// Operations that need [`crate::abi::rights::GRANT`].
impl<T: ObjectKind, const R: u8> Cap<T, R> where Mask<R>: HasGrant {
    /// A copy to hand to someone else, carrying `badge` so a server can tell
    /// holders apart.
    pub fn delegate(&self, badge: u64) -> (r: RawCap)
        ensures
            r == if badge != 0 && self.raw.kind.badgeable() {
                RawCap { w1: badge, ..self.raw.fresh_spec() }
            } else {
                self.raw.fresh_spec()
            },
    {
        let mut copy: RawCap = self.raw.fresh_copy();
        if badge != 0 && copy.kind.is_badgeable() {
            copy.set_badge(badge);
        }
        copy
    }
}

/// A capability that was wrapped once can be weakened to any subset of the
/// rights it was checked for, and still carries all of them.
pub proof fn reducing_keeps_what_it_names<const R: u8, const M: u8>(raw: RawCap) where
    Mask<R>: Subset<R, M>,

    requires
        raw.rights & R == R,
    ensures
        raw.narrowed(M).rights & M == M,
        raw.narrowed(M).rights & !M == 0,
{
    <Mask<R> as Subset<R, M>>::narrows();
    lemma_narrowing(raw.rights, R, M);
}

proof fn lemma_narrowing(held: u8, r: u8, m: u8)
    by (bit_vector)
    requires
        held & r == r,
        r & m == m,
    ensures
        (held & m) & m == m,
        (held & m) & !m == 0,
{
}

} // verus!
