//! CSpace: a radix tree of CNodes, resolved by consuming address bits.

use crate::abi::object::{ObjectType, SLOT_BITS};
use crate::abi::rights::{GRANT, WRITE};
use crate::cap::kind::{DeviceUntyped, Untyped};
use crate::cap::object::ObjectKind;
use crate::cap::slot::{Derivation, Mappings};
use crate::cap::slot_table::SlotTable;
use crate::cap::untyped::{clear_region, plan_region, retype_region};
use crate::cap::{Cap, CapError, RawCap, ResolveError};
use crate::ipc::{init_endpoint, EndpointView};
use crate::mm::addr::PhysAddr;
use crate::notify::NotificationView;
use crate::objects::{Objects, ObjectsView};
use crate::thread::{Tcb, TcbView, ThreadId};
use vstd::prelude::*;

verus! {

/// Address bits a CNode consumes.
pub open spec fn radix(node: RawCap) -> int {
    node.size_bits - SLOT_BITS
}

/// Slots in a CNode of `2^size_bits` bytes.
pub open spec fn slots_in(size_bits: u8) -> nat {
    vstd::arithmetic::power2::pow2((size_bits - SLOT_BITS) as nat)
}

/// The slot of `node` that an address picks when `remaining` of its bits are
/// still to come below it.
pub open spec fn picked(node: RawCap, cptr: u64, remaining: nat) -> u64 {
    let index = (cptr as nat / vstd::arithmetic::power2::pow2(remaining)) % slots_in(
        node.size_bits,
    );
    crate::cap::slot::slot_address(node.paddr.0, index as int)
}

/// Where the low `remaining` bits of an address lead, from a CNode.
pub open spec fn resolved(
    caps: Map<u64, RawCap>,
    node: RawCap,
    cptr: u64,
    remaining: nat,
) -> Result<u64, ResolveError>
    decreases remaining,
{
    if !(node.kind is CNode) {
        Err(ResolveError::NotACNode)
    } else if radix(node) <= 0 || radix(node) > remaining {
        Err(ResolveError::DepthMismatch)
    } else {
        let rest = (remaining - radix(node)) as nat;
        let a = picked(node, cptr, rest);
        if rest == 0 {
            Ok(a)
        } else if caps[a].kind is Null {
            Err(ResolveError::EmptySlot)
        } else {
            resolved(caps, caps[a], cptr, rest)
        }
    }
}

/// The slot an address names, in the space that `root` is the root of.
pub open spec fn located(caps: Map<u64, RawCap>, root: RawCap, cptr: u64, depth: u8) -> Result<
    u64,
    ResolveError,
> {
    if depth > 64 {
        Err(ResolveError::TooDeep)
    } else {
        resolved(caps, root, cptr, depth as nat)
    }
}

/// The slots with `cap` in slot `a`, derived from `parent` if that is another
/// slot that holds something.
pub open spec fn filled(d: Derivation, a: u64, cap: RawCap, parent: Option<u64>) -> Derivation {
    let with = d.with_cap(a, cap);
    match parent {
        Some(p) => if p != a && !(d.caps[p].kind is Null) && !(cap.kind is Null) {
            with.linked(p, a)
        } else {
            with
        },
        None => with,
    }
}

/// What putting a capability at an address does.
pub open spec fn inserted(
    d: Derivation,
    root: RawCap,
    cptr: u64,
    depth: u8,
    cap: RawCap,
    parent: Option<u64>,
) -> (Derivation, Result<(), CapError>) {
    match located(d.caps, root, cptr, depth) {
        Err(e) => (d, Err(CapError::Resolve(e))),
        Ok(a) => if !(d.caps[a].kind is Null) {
            (d, Err(CapError::SlotOccupied))
        } else {
            (filled(d, a, cap, parent), Ok(()))
        },
    }
}

/// The copy of a capability that minting makes, or why there is none.
pub open spec fn minted_cap(original: RawCap, rights: u8, badge: u64) -> Result<RawCap, CapError> {
    let copy = original.fresh_spec().narrowed(rights);
    if original.kind is Null {
        Err(CapError::Null)
    } else if original.rights & GRANT == 0 {
        Err(CapError::MissingRights { wanted: GRANT, held: original.rights })
    } else if !copy.copyable() {
        Err(CapError::CannotCopy)
    } else if badge == 0 {
        Ok(copy)
    } else if !original.kind.badgeable() {
        Err(CapError::CannotBadge)
    } else {
        Ok(RawCap { w1: badge, ..copy })
    }
}

/// What minting a copy from one space into another does.
pub open spec fn minted(
    d: Derivation,
    from: RawCap,
    src: (u64, u8),
    to: RawCap,
    dst: (u64, u8),
    rights: u8,
    badge: u64,
) -> (Derivation, Result<(), CapError>) {
    match located(d.caps, from, src.0, src.1) {
        Err(e) => (d, Err(CapError::Resolve(e))),
        Ok(source) => match minted_cap(d.caps[source], rights, badge) {
            Err(e) => (d, Err(e)),
            Ok(copy) => inserted(d, to, dst.0, dst.1, copy, Some(source)),
        },
    }
}

// --- Retyping ---

/// The `i`th of a run of addresses.
pub open spec fn cptr_after(first: u64, i: int) -> u64 {
    ((first + i) % 0x1_0000_0000_0000_0000) as u64
}

/// Whether the first `n` destination slots exist and are free, or what is wrong
/// with the first that is not.
pub open spec fn all_free(caps: Map<u64, RawCap>, root: RawCap, dst: (u64, u8), n: nat) -> Result<
    (),
    CapError,
>
    decreases n,
{
    if n == 0 {
        Ok(())
    } else {
        match all_free(caps, root, dst, (n - 1) as nat) {
            Err(e) => Err(e),
            Ok(_) => match located(caps, root, cptr_after(dst.0, n - 1), dst.1) {
                Err(e) => Err(CapError::Resolve(e)),
                Ok(a) => if caps[a].kind is Null {
                    Ok(())
                } else {
                    Err(CapError::SlotOccupied)
                },
            },
        }
    }
}

/// The objects, once a fresh one has been laid out.
pub open spec fn laid_out(v: ObjectsView, made: RawCap) -> ObjectsView {
    match made.kind {
        ObjectType::Endpoint => ObjectsView {
            endpoints: v.endpoints.insert(made.paddr.0, EndpointView::idle()),
            ..v
        },
        ObjectType::Notification => ObjectsView {
            notifications: v.notifications.insert(made.paddr.0, NotificationView::quiet()),
            ..v
        },
        ObjectType::Tcb => ObjectsView {
            threads: v.threads.insert(
                made.paddr.0,
                TcbView::inactive(made.paddr, v.ids.next),
            ),
            ids: crate::thread::Ids { next: crate::bits::one_more(v.ids.next) },
            ..v
        },
        ObjectType::CNode => ObjectsView {
            slots: v.slots.wiped_range(made.paddr.0, slots_in(made.size_bits)),
            ..v
        },
        _ => v,
    }
}

/// What laying out and installing the first `n` objects does, up to the first
/// that cannot be installed.
pub open spec fn installed(
    v: ObjectsView,
    root: RawCap,
    source: u64,
    made: Seq<RawCap>,
    dst: (u64, u8),
    n: nat,
) -> (ObjectsView, Result<(), CapError>)
    decreases n,
{
    if n == 0 {
        (v, Ok(()))
    } else {
        match installed(v, root, source, made, dst, (n - 1) as nat) {
            (w, Err(e)) => (w, Err(e)),
            (w, Ok(_)) => {
                let ready = laid_out(w, made[n - 1]);
                let put = inserted(
                    ready.slots,
                    root,
                    cptr_after(dst.0, n - 1),
                    dst.1,
                    made[n - 1],
                    Some(source),
                );
                (ObjectsView { slots: put.0, ..ready }, put.1)
            },
        }
    }
}

/// Whether a capability may be retyped at all.
pub open spec fn retypable(cap: RawCap) -> Result<(), CapError> {
    if cap.kind is DeviceUntyped {
        crate::cap::typed(cap, ObjectType::DeviceUntyped, WRITE)
    } else {
        crate::cap::typed(cap, ObjectType::Untyped, WRITE)
    }
}

/// The source's new watermark is written back, if the slot still holds the
/// region.
pub open spec fn consumed(v: ObjectsView, source: u64, region: RawCap, watermark: u64) -> ObjectsView {
    if v.slots.caps[source] == region {
        ObjectsView {
            slots: v.slots.with_cap(source, RawCap { w0: watermark, ..region }),
            ..v
        }
    } else {
        v
    }
}

/// Whether the first `n` destinations are as many different slots.
pub open spec fn all_apart(caps: Map<u64, RawCap>, root: RawCap, dst: (u64, u8), n: nat) -> bool {
    forall|i: int, j: int|
        #![trigger cptr_after(dst.0, i), cptr_after(dst.0, j)]
        0 <= i < j < n ==> located(caps, root, cptr_after(dst.0, i), dst.1) != located(
            caps,
            root,
            cptr_after(dst.0, j),
            dst.1,
        )
}

/// What a retype does.
pub open spec fn retyped(
    v: ObjectsView,
    root: RawCap,
    src: (u64, u8),
    target: ObjectType,
    size_bits: u8,
    dst: (u64, u8),
    n: nat,
) -> (ObjectsView, Result<(), CapError>) {
    match located(v.slots.caps, root, src.0, src.1) {
        Err(e) => (v, Err(CapError::Resolve(e))),
        Ok(source) => {
            let region = v.slots.caps[source];
            match retypable(region) {
                Err(e) => (v, Err(e)),
                Ok(_) => match all_free(v.slots.caps, root, dst, n) {
                    Err(e) => (v, Err(e)),
                    Ok(_) => match crate::cap::untyped::retype_plan(region, target, size_bits, n) {
                        Err(e) => (v, Err(e)),
                        Ok(plan) => if !all_apart(v.slots.caps, root, dst, n) {
                            (v, Err(CapError::SlotOccupied))
                        } else {
                            let clean = ObjectsView {
                                mem: crate::cap::untyped::retyped_memory(
                                    v.mem,
                                    region.kind,
                                    plan.0,
                                ),
                                ..v
                            };
                            match installed(clean, root, source, plan.0, dst, n) {
                                (w, Err(e)) => (w, Err(e)),
                                (w, Ok(_)) => (consumed(w, source, region, plan.1), Ok(())),
                            }
                        },
                    },
                },
            }
        },
    }
}

// --- The space itself ---

/// A capability space: the root CNode, and everything reachable from it.
///
/// A CNode is itself a capability, so a subtree of a CSpace can be handed to
/// another process in one operation -- that recursion is the whole reason this
/// is a tree rather than a table.
#[derive(Clone, Copy, PartialEq, Eq, Structural, Debug)]
pub struct CSpace {
    pub root: RawCap,
}

/// A slot of a CNode lies inside it.
proof fn lemma_slot_inside(node: RawCap, index: nat)
    requires
        node.kind is CNode,
        node.is_sound(),
        index < slots_in(node.size_bits),
    ensures
        node.paddr.0 + index * 128 + 128 <= node.paddr.0 + node.size_spec(),
        node.paddr.0 + index * 128 + 128 <= crate::mm::addr::PHYS_LIMIT,
        slots_in(node.size_bits) * 128 == node.size_spec(),
{
    vstd::arithmetic::power2::lemma_pow2_adds((node.size_bits - SLOT_BITS) as nat, 7);
    crate::bits::lemma_known_powers();
    assert(((node.size_bits - SLOT_BITS) as nat + 7) as nat == node.size_bits as nat);
}

impl CSpace {
    /// Whether the root is a CNode that lies in physical memory.
    pub open spec fn wf(self) -> bool {
        self.root.kind is CNode && self.root.is_sound()
    }

    /// The depth at which a single step names every slot of the root.
    pub open spec fn depth(self) -> u8 {
        radix(self.root) as u8
    }

    /// Wrap a CNode as the root of a capability space.
    pub fn new(root: RawCap) -> (r: Result<Self, CapError>)
        ensures
            root.kind is CNode ==> r == Ok::<CSpace, CapError>(CSpace { root }),
            !(root.kind is CNode) ==> r == Err::<CSpace, CapError>(
                CapError::Resolve(ResolveError::NotACNode),
            ),
    {
        if root.kind != ObjectType::CNode {
            return Err(CapError::Resolve(ResolveError::NotACNode));
        }
        Ok(CSpace { root })
    }

    pub fn root(&self) -> (r: &RawCap)
        ensures
            *r == self.root,
    {
        &self.root
    }

    /// Bits of a capability address the root CNode consumes: its radix.
    pub fn root_depth(&self) -> (r: u8)
        requires
            SLOT_BITS <= self.root.size_bits,
        ensures
            r == radix(self.root),
            r == self.depth(),
    {
        self.root.size_bits - SLOT_BITS
    }

    /// Slots in the root CNode.
    pub fn root_slots(&self) -> (r: u64)
        requires
            self.wf(),
        ensures
            r == slots_in(self.root.size_bits),
    {
        let bits: u64 = (self.root.size_bits - SLOT_BITS) as u64;
        proof {
            crate::bits::lemma_shl_one(bits);
        }
        1u64 << bits
    }

    /// Walk `cptr` to the slot it names.
    ///
    /// The low `depth` bits of `cptr` are the address. Each level consumes its
    /// own CNode's radix, most significant bits first, so a two-level space of
    /// 64-slot CNodes addresses `(outer << 6) | inner` at depth 12.
    pub fn resolve(&self, slots: &SlotTable, cptr: u64, depth: u8) -> (r: Result<u64, ResolveError>)
        requires
            self.root.is_sound(),
            slots.wf(),
        ensures
            r == located(slots@.caps, self.root, cptr, depth),
    {
        if depth > 64 {
            return Err(ResolveError::TooDeep);
        }
        let mut node: RawCap = self.root;
        let mut remaining: u8 = depth;
        loop
            invariant
                slots.wf(),
                node.is_sound(),
                remaining <= 64,
                depth <= 64,
                located(slots@.caps, self.root, cptr, depth) == resolved(
                    slots@.caps,
                    node,
                    cptr,
                    remaining as nat,
                ),
            decreases remaining,
        {
            if node.kind != ObjectType::CNode {
                return Err(ResolveError::NotACNode);
            }
            // `retype` refuses a CNode with radix 0, so `remaining` always
            // shrinks and this loop always terminates.

            let radix: u8 = node.size_bits - SLOT_BITS;
            if radix > remaining {
                return Err(ResolveError::DepthMismatch);
            }
            remaining = remaining - radix;
            proof {
                crate::bits::lemma_shl_one(radix as u64);
                crate::bits::lemma_pow2_bounds(radix as nat);
                vstd::bits::lemma_u64_shr_is_div(cptr, remaining as u64);
                crate::bits::lemma_mask(cptr >> (remaining as u64), 1u64 << (radix as u64));
            }
            let index: u64 = (cptr >> (remaining as u64)) & ((1u64 << (radix as u64)) - 1);
            proof {
                lemma_slot_inside(node, index as nat);
                assert(index == (cptr as nat / vstd::arithmetic::power2::pow2(remaining as nat))
                    % slots_in(node.size_bits));
            }
            let entry: u64 = node.paddr.as_usize() + index * 128;
            if remaining == 0 {
                return Ok(entry);
            }
            let cap: RawCap = slots.cap(entry);
            if cap.is_null() {
                return Err(ResolveError::EmptySlot);
            }
            node = cap;
        }
    }

    /// The capability stored at `cptr`, without checking kind or rights.
    pub fn read(&self, slots: &SlotTable, cptr: u64, depth: u8) -> (r: Result<RawCap, CapError>)
        requires
            self.root.is_sound(),
            slots.wf(),
        ensures
            match located(slots@.caps, self.root, cptr, depth) {
                Ok(a) => r == Ok::<RawCap, CapError>(slots@.caps[a]) && slots@.caps[a].is_sound(),
                Err(e) => r == Err::<RawCap, CapError>(CapError::Resolve(e)),
            },
    {
        match self.resolve(slots, cptr, depth) {
            Ok(a) => Ok(slots.cap(a)),
            Err(e) => Err(CapError::Resolve(e)),
        }
    }

    /// Resolve `cptr` and prove, once, that it names a `T` carrying `R`.
    ///
    /// This is the seam between runtime and compile time: everything upstream
    /// is a `u64` from userspace, everything downstream is a value whose type
    /// carries the rights it was checked for.
    pub fn lookup<T: ObjectKind, const R: u8>(
        &self,
        slots: &SlotTable,
        cptr: u64,
        depth: u8,
    ) -> (r: Result<Cap<T, R>, CapError>)
        requires
            self.root.is_sound(),
            slots.wf(),
        ensures
            match located(slots@.caps, self.root, cptr, depth) {
                Ok(a) => match crate::cap::typed(slots@.caps[a], T::kind(), R) {
                    Ok(_) => r is Ok && r->Ok_0.raw == slots@.caps[a],
                    Err(e) => r is Err && r->Err_0 == e,
                },
                Err(e) => r is Err && r->Err_0 == CapError::Resolve(e),
            },
    {
        match self.read(slots, cptr, depth) {
            Ok(raw) => Cap::from_raw(raw),
            Err(e) => Err(e),
        }
    }

    /// Put `cap` in an empty slot, derived from `parent` if one is given.
    pub fn insert(
        &self,
        slots: &mut SlotTable,
        cptr: u64,
        depth: u8,
        cap: RawCap,
        parent: Option<u64>,
    ) -> (r: Result<(), CapError>)
        requires
            self.root.is_sound(),
            old(slots).wf(),
            cap.is_sound(),
        ensures
            final(slots).wf(),
            (final(slots)@, r) == inserted(old(slots)@, self.root, cptr, depth, cap, parent),
    {
        let target: u64 = match self.resolve(slots, cptr, depth) {
            Ok(a) => a,
            Err(e) => {
                return Err(CapError::Resolve(e));
            },
        };
        if !slots.cap(target).is_null() {
            return Err(CapError::SlotOccupied);
        }
        proof {
            slots.is_consistent();
        }
        match parent {
            Some(p) => {
                let derived: bool = p != target && !slots.cap(p).is_null() && !cap.is_null();
                slots.set_cap(target, cap);
                if derived {
                    slots.link(p, target);
                }
            },
            None => {
                slots.set_cap(target, cap);
            },
        }
        Ok(())
    }

    /// Copy the capability at `src` into the empty slot at `dst`, weakened to
    /// `rights` and carrying `badge`. The copy becomes a child of the original.
    ///
    /// Rights are intersected, never widened: this is the runtime half of the
    /// guarantee `Cap::reduce` makes at compile time. Of untyped memory there is
    /// no copy that can be retyped.
    pub fn mint(
        &self,
        slots: &mut SlotTable,
        src: (u64, u8),
        dst: (u64, u8),
        rights: u8,
        badge: u64,
    ) -> (r: Result<(), CapError>)
        requires
            self.root.is_sound(),
            old(slots).wf(),
        ensures
            final(slots).wf(),
            (final(slots)@, r) == minted(
                old(slots)@,
                self.root,
                src,
                self.root,
                dst,
                rights,
                badge,
            ),
    {
        self.mint_into(slots, src, self, dst, rights, badge)
    }

    /// As [`CSpace::mint`], with the copy going into another space.
    pub fn mint_into(
        &self,
        slots: &mut SlotTable,
        src: (u64, u8),
        to: &CSpace,
        dst: (u64, u8),
        rights: u8,
        badge: u64,
    ) -> (r: Result<(), CapError>)
        requires
            self.root.is_sound(),
            to.root.is_sound(),
            old(slots).wf(),
        ensures
            final(slots).wf(),
            (final(slots)@, r) == minted(
                old(slots)@,
                self.root,
                src,
                to.root,
                dst,
                rights,
                badge,
            ),
    {
        let source: u64 = match self.resolve(slots, src.0, src.1) {
            Ok(a) => a,
            Err(e) => {
                return Err(CapError::Resolve(e));
            },
        };
        let original: RawCap = slots.cap(source);
        if original.is_null() {
            return Err(CapError::Null);
        }
        if original.rights & GRANT == 0 {
            return Err(CapError::MissingRights { wanted: GRANT, held: original.rights });
        }
        let mut copy: RawCap = original.fresh_copy().with_rights(rights);
        if !copy.is_copyable() {
            return Err(CapError::CannotCopy);
        }
        if badge != 0 {
            if !original.kind.is_badgeable() {
                return Err(CapError::CannotBadge);
            }
            copy.set_badge(badge);
        }
        to.insert(slots, dst.0, dst.1, copy, Some(source))
    }

    /// Carve `count` objects out of the untyped at `src` and install them in
    /// consecutive slots starting at `dst`, as children of the untyped.
    ///
    /// The whole batch is planned before anything is written, and the slots are
    /// checked empty first, each of them for one object, so a failure leaves the
    /// region untouched.
    pub fn retype(
        &self,
        objects: &mut Objects,
        src: (u64, u8),
        target: ObjectType,
        size_bits: u8,
        dst: (u64, u8),
        count: usize,
    ) -> (r: Result<(), CapError>)
        requires
            self.root.is_sound(),
            old(objects).wf(),
        ensures
            final(objects).wf(),
            (final(objects)@, r) == retyped(
                old(objects)@,
                self.root,
                src,
                target,
                size_bits,
                dst,
                count as nat,
            ),
    {
        let source: u64 = match self.resolve(&objects.slots, src.0, src.1) {
            Ok(a) => a,
            Err(e) => {
                return Err(CapError::Resolve(e));
            },
        };
        let region: RawCap = objects.slots.cap(source);
        if region.kind.is_device() {
            match Cap::<DeviceUntyped, WRITE>::from_raw(region) {
                Ok(_) => {},
                Err(e) => {
                    return Err(e);
                },
            }
        } else {
            match Cap::<Untyped, WRITE>::from_raw(region) {
                Ok(_) => {},
                Err(e) => {
                    return Err(e);
                },
            }
        }
        // Every destination slot must be free before the region is touched.
        match self.check_free(&objects.slots, dst, count) {
            Ok(_) => {},
            Err(e) => {
                return Err(e);
            },
        }
        let (made, watermark) = match plan_region(&region, target, size_bits, count) {
            Ok(plan) => plan,
            Err(e) => {
                return Err(e);
            },
        };
        // A run of addresses can come back to a slot it has been to.
        if !self.are_apart(&objects.slots, dst, count) {
            return Err(CapError::SlotOccupied);
        }
        proof {
            let bits = crate::cap::untyped::retype_bits(region.kind, target, size_bits)->Ok_0;
            crate::cap::untyped::retyped_objects_are_disjoint(region, target, bits, count as nat);
            lemma_made_sound(region, target, size_bits, count as nat);
        }
        clear_region(&region, target, size_bits, &made, &mut objects.mem);
        match self.install(objects, source, &made, dst) {
            Ok(_) => {},
            Err(e) => {
                return Err(e);
            },
        }
        if objects.slots.cap(source) == region {
            let mut used: RawCap = region;
            used.set_watermark(watermark);
            objects.slots.set_cap(source, used);
        }
        Ok(())
    }

    /// Whether `count` slots from `dst` on exist and are free.
    fn check_free(&self, slots: &SlotTable, dst: (u64, u8), count: usize) -> (r: Result<
        (),
        CapError,
    >)
        requires
            self.root.is_sound(),
            slots.wf(),
        ensures
            match all_free(slots@.caps, self.root, dst, count as nat) {
                Ok(_) => r is Ok,
                Err(e) => r is Err && r->Err_0 == e,
            },
    {
        let mut i: usize = 0;
        while i < count
            invariant
                i <= count,
                self.root.is_sound(),
                slots.wf(),
                all_free(slots@.caps, self.root, dst, i as nat) is Ok,
            decreases count - i,
        {
            let bad: Option<CapError> = match self.resolve(
                slots,
                nth_cptr(dst.0, i as u64),
                dst.1,
            ) {
                Ok(a) => if slots.cap(a).is_null() {
                    None
                } else {
                    Some(CapError::SlotOccupied)
                },
                Err(e) => Some(CapError::Resolve(e)),
            };
            match bad {
                None => {},
                Some(e) => {
                    proof {
                        lemma_all_free_fails(
                            slots@.caps,
                            self.root,
                            dst,
                            (i + 1) as nat,
                            count as nat,
                        );
                    }
                    return Err(e);
                },
            }
            i = i + 1;
        }
        Ok(())
    }

    /// Whether `count` free slots from `dst` on are all different.
    fn are_apart(&self, slots: &SlotTable, dst: (u64, u8), count: usize) -> (r: bool)
        requires
            self.root.is_sound(),
            slots.wf(),
            all_free(slots@.caps, self.root, dst, count as nat) is Ok,
        ensures
            r == all_apart(slots@.caps, self.root, dst, count as nat),
    {
        let mut seen: Vec<u64> = Vec::new();
        let mut i: usize = 0;
        while i < count
            invariant
                i <= count,
                self.root.is_sound(),
                slots.wf(),
                all_free(slots@.caps, self.root, dst, count as nat) is Ok,
                seen@.len() == i,
                forall|k: int|
                    0 <= k < i ==> located(
                        slots@.caps,
                        self.root,
                        #[trigger] cptr_after(dst.0, k),
                        dst.1,
                    ) == Ok::<u64, ResolveError>(seen@[k]),
                all_apart(slots@.caps, self.root, dst, i as nat),
            decreases count - i,
        {
            proof {
                lemma_free_one(slots@.caps, self.root, dst, count as nat, i as int);
            }
            let a: u64 = match self.resolve(slots, nth_cptr(dst.0, i as u64), dst.1) {
                Ok(a) => a,
                Err(_) => {
                    return false;
                },
            };
            let mut j: usize = 0;
            while j < i
                invariant
                    j <= i < count,
                    seen@.len() == i,
                    forall|k: int|
                        0 <= k < i ==> located(
                            slots@.caps,
                            self.root,
                            #[trigger] cptr_after(dst.0, k),
                            dst.1,
                        ) == Ok::<u64, ResolveError>(seen@[k]),
                    located(slots@.caps, self.root, cptr_after(dst.0, i as int), dst.1) == Ok::<
                        u64,
                        ResolveError,
                    >(a),
                    forall|k: int| 0 <= k < j ==> seen@[k] != a,
                decreases i - j,
            {
                if seen[j] == a {
                    assert(located(slots@.caps, self.root, cptr_after(dst.0, j as int), dst.1)
                        == located(slots@.caps, self.root, cptr_after(dst.0, i as int), dst.1));
                    return false;
                }
                j = j + 1;
            }
            seen.push(a);
            i = i + 1;
        }
        true
    }

    /// Lay out fresh objects, and put the capabilities in their slots.
    fn install(
        &self,
        objects: &mut Objects,
        source: u64,
        made: &Vec<RawCap>,
        dst: (u64, u8),
    ) -> (r: Result<(), CapError>)
        requires
            self.root.is_sound(),
            old(objects).wf(),
            forall|i: int| 0 <= i < made@.len() ==> (#[trigger] made@[i]).is_sound(),
        ensures
            final(objects).wf(),
            ({
                let done = installed(
                    old(objects)@,
                    self.root,
                    source,
                    made@,
                    dst,
                    made@.len(),
                );
                &&& final(objects)@ == done.0
                &&& match done.1 {
                    Ok(_) => r is Ok,
                    Err(e) => r is Err && r->Err_0 == e,
                }
            }),
    {
        let ghost v = objects@;
        let count: usize = made.len();
        let mut i: usize = 0;
        while i < count
            invariant
                i <= count,
                count == made@.len(),
                self.root.is_sound(),
                objects.wf(),
                forall|i: int| 0 <= i < made@.len() ==> (#[trigger] made@[i]).is_sound(),
                v == old(objects)@,
                objects@ == installed(v, self.root, source, made@, dst, i as nat).0,
                installed(v, self.root, source, made@, dst, i as nat).1 is Ok,
            decreases count - i,
        {
            let cap: RawCap = made[i];
            lay_out(objects, cap);
            match self.insert(
                &mut objects.slots,
                nth_cptr(dst.0, i as u64),
                dst.1,
                cap,
                Some(source),
            ) {
                Ok(_) => {},
                Err(e) => {
                    proof {
                        lemma_install_fails(
                            v,
                            self.root,
                            source,
                            made@,
                            dst,
                            (i + 1) as nat,
                            count as nat,
                        );
                    }
                    return Err(e);
                },
            }
            i = i + 1;
        }
        Ok(())
    }

    /// Destroy everything derived from `cptr`, leaving the capability itself.
    ///
    /// Revoking an untyped resets its watermark, which is the only way memory
    /// is ever reused: there is no free list anywhere in the kernel.
    pub fn revoke(&self, objects: &mut Objects, cptr: u64, depth: u8) -> (r: Result<
        usize,
        CapError,
    >)
        requires
            self.root.is_sound(),
            old(objects).wf(),
        ensures
            final(objects).wf(),
            match located(old(objects)@.slots.caps, self.root, cptr, depth) {
                Err(e) => {
                    &&& r == Err::<usize, CapError>(CapError::Resolve(e))
                    &&& final(objects)@ == old(objects)@
                },
                Ok(a) => {
                    &&& r == Ok::<usize, CapError>(
                        old(objects)@.slots.descendants(a).len() as usize,
                    )
                    &&& old(objects)@.slots.descendants(a).len() <= usize::MAX
                    &&& final(objects)@ == revoked(old(objects)@, a)
                },
            },
    {
        match self.resolve(&objects.slots, cptr, depth) {
            Ok(a) => {
                let removed: usize = objects.slots.revoke(a, &mut objects.mem, &mut objects.tlb);
                assert(objects@ == revoked(old(objects)@, a));
                Ok(removed)
            },
            Err(e) => Err(CapError::Resolve(e)),
        }
    }

    /// Revoke everything under `cptr`, then empty the slot itself.
    pub fn delete(&self, objects: &mut Objects, cptr: u64, depth: u8) -> (r: Result<
        usize,
        CapError,
    >)
        requires
            self.root.is_sound(),
            old(objects).wf(),
        ensures
            final(objects).wf(),
            match located(old(objects)@.slots.caps, self.root, cptr, depth) {
                Err(e) => {
                    &&& r == Err::<usize, CapError>(CapError::Resolve(e))
                    &&& final(objects)@ == old(objects)@
                },
                Ok(a) => {
                    &&& r == Ok::<usize, CapError>(
                        (old(objects)@.slots.descendants(a).len() + 1) as usize,
                    )
                    &&& old(objects)@.slots.descendants(a).len() + 1 <= usize::MAX
                    &&& final(objects)@ == deleted(old(objects)@, a)
                },
            },
    {
        match self.resolve(&objects.slots, cptr, depth) {
            Ok(a) => {
                let removed: usize = objects.slots.delete(a, &mut objects.mem, &mut objects.tlb);
                assert(objects@ == deleted(old(objects)@, a));
                Ok(removed)
            },
            Err(e) => Err(CapError::Resolve(e)),
        }
    }

    /// How many capabilities descend from `cptr`.
    pub fn descendants(&self, slots: &SlotTable, cptr: u64, depth: u8) -> (r: Result<
        usize,
        CapError,
    >)
        requires
            self.root.is_sound(),
            slots.wf(),
        ensures
            match located(slots@.caps, self.root, cptr, depth) {
                Err(e) => r == Err::<usize, CapError>(CapError::Resolve(e)),
                Ok(a) => r is Ok && r->Ok_0 == slots@.descendants(a).len(),
            },
    {
        match self.resolve(slots, cptr, depth) {
            Ok(a) => Ok(slots.descendants(a)),
            Err(e) => Err(CapError::Resolve(e)),
        }
    }
}

/// What is left of the mappings once those of everything derived from `a` are
/// removed, each before those of the slot it derives from.
pub open spec fn mappings_revoked(v: ObjectsView, a: u64) -> Mappings {
    crate::cap::slot::without_mappings(
        v.slots.caps,
        v.slots.teardown(a),
        Mappings { mem: v.mem, flushes: v.flushes },
    )
}

/// What destroying everything derived from `a` does: the slots are emptied, and
/// the mappings they recorded are removed.
pub open spec fn revoked(v: ObjectsView, a: u64) -> ObjectsView {
    let left = mappings_revoked(v, a);
    ObjectsView { slots: v.slots.revoked(a), mem: left.mem, flushes: left.flushes, ..v }
}

/// What destroying `a` and everything derived from it does.
pub open spec fn deleted(v: ObjectsView, a: u64) -> ObjectsView {
    let left = crate::cap::slot::without_mapping(
        v.slots.revoked(a).caps[a],
        mappings_revoked(v, a),
    );
    ObjectsView { slots: v.slots.deleted(a), mem: left.mem, flushes: left.flushes, ..v }
}

/// The `i`th of a run of addresses.
fn nth_cptr(first: u64, i: u64) -> (r: u64)
    ensures
        r == cptr_after(first, i as int),
{
    if first > u64::MAX - i {
        first - (u64::MAX - i) - 1
    } else {
        first + i
    }
}

proof fn lemma_all_free_fails(
    caps: Map<u64, RawCap>,
    root: RawCap,
    dst: (u64, u8),
    i: nat,
    n: nat,
)
    requires
        i <= n,
        all_free(caps, root, dst, i) is Err,
    ensures
        all_free(caps, root, dst, n) == all_free(caps, root, dst, i),
    decreases n,
{
    if i < n {
        lemma_all_free_fails(caps, root, dst, i, (n - 1) as nat);
    }
}

proof fn lemma_install_fails(
    v: ObjectsView,
    root: RawCap,
    source: u64,
    made: Seq<RawCap>,
    dst: (u64, u8),
    i: nat,
    n: nat,
)
    requires
        i <= n,
        installed(v, root, source, made, dst, i).1 is Err,
    ensures
        installed(v, root, source, made, dst, n) == installed(v, root, source, made, dst, i),
    decreases n,
{
    if i < n {
        lemma_install_fails(v, root, source, made, dst, i, (n - 1) as nat);
    }
}

/// Everything a retype makes is sound.
proof fn lemma_made_sound(region: RawCap, target: ObjectType, size_bits: u8, n: nat)
    requires
        region.kind.untyped(),
        region.is_sound(),
        crate::cap::untyped::retype_plan(region, target, size_bits, n) is Ok,
    ensures
        ({
            let plan = crate::cap::untyped::retype_plan(region, target, size_bits, n)->Ok_0;
            &&& forall|i: int| 0 <= i < plan.0.len() ==> (#[trigger] plan.0[i]).is_sound()
            &&& plan.0.len() == n
            &&& plan.1 <= region.size_spec()
        }),
{
    let bits = crate::cap::untyped::retype_bits(region.kind, target, size_bits)->Ok_0;
    crate::cap::untyped::retyped_objects_are_disjoint(region, target, bits, n);
    let made = crate::cap::untyped::planned(region, target, bits, n)->Ok_0.0;
    assert forall|i: int| 0 <= i < made.len() implies (#[trigger] made[i]).is_sound() by {
        crate::cap::untyped::lemma_planned_bits(region, target, bits, n);
    }
}

/// Lay out a freshly retyped object. Nothing refers to it yet.
fn lay_out(objects: &mut Objects, made: RawCap)
    requires
        old(objects).wf(),
        made.is_sound(),
    ensures
        final(objects).wf(),
        final(objects)@ == laid_out(old(objects)@, made),
{
    match made.kind {
        ObjectType::Endpoint => {
            init_endpoint(&mut objects.endpoints, made.paddr);
        },
        ObjectType::Notification => {
            crate::notify::init(&mut objects.notifications, made.paddr);
        },
        // It comes out inactive: no address space, no CSpace, no entry point,
        // and `Resume` refuses it until it has them.
        ObjectType::Tcb => {
            let id: ThreadId = objects.ids.next_id();
            objects.threads.put(made.paddr.as_usize(), Tcb::init_inactive(made.paddr, id));
        },
        ObjectType::CNode => {
            init_cnode(&mut objects.slots, made.paddr, made.size_bits);
        },
        _ => {},
    }
}

/// Lay an empty CNode out over memory that was just retyped into one.
pub fn init_cnode(slots: &mut SlotTable, paddr: PhysAddr, size_bits: u8)
    requires
        old(slots).wf(),
        SLOT_BITS < size_bits < 64,
        paddr.0 + vstd::arithmetic::power2::pow2(size_bits as nat)
            <= crate::mm::addr::PHYS_LIMIT,
    ensures
        final(slots).wf(),
        final(slots)@ == old(slots)@.wiped_range(paddr.0, slots_in(size_bits)),
{
    let bits: u64 = (size_bits - SLOT_BITS) as u64;
    proof {
        crate::bits::lemma_shl_one(bits);
        vstd::arithmetic::power2::lemma_pow2_adds(bits as nat, 7);
        crate::bits::lemma_known_powers();
        assert((bits as nat + 7) as nat == size_bits as nat);
    }
    slots.wipe_range(paddr.as_usize(), 1u64 << bits);
}

// --- The first space ---

/// What building the first capability space does.
pub open spec fn bootstrapped(v: ObjectsView, region: RawCap, cnode_bits: u8) -> (
    ObjectsView,
    Result<CSpace, CapError>,
) {
    match crate::cap::typed(region, ObjectType::Untyped, WRITE) {
        Err(e) => (v, Err(e)),
        Ok(_) => match crate::cap::untyped::retype_plan(region, ObjectType::CNode, cnode_bits, 1) {
            Err(e) => (v, Err(e)),
            Ok(plan) => {
                let cnode = plan.0[0];
                let used = RawCap { w0: plan.1, ..region };
                let first = crate::cap::slot::slot_address(cnode.paddr.0, 0);
                let second = crate::cap::slot::slot_address(cnode.paddr.0, 1);
                let clean = v.slots.wiped_range(cnode.paddr.0, slots_in(cnode_bits));
                (
                    ObjectsView {
                        mem: crate::cap::untyped::cleared(v.mem, plan.0),
                        slots: clean.with_cap(first, used).with_cap(second, cnode).linked(
                            first,
                            second,
                        ),
                        ..v
                    },
                    Ok(CSpace { root: cnode }),
                )
            },
        },
    }
}

/// Build the first capability space out of a region of untyped memory.
///
/// This is the bootstrap: a CSpace is normally made by retyping *through* a
/// CSpace, so the first one has to come from somewhere else. The kernel makes
/// it once and hands it to the initial task, the way seL4's boot info does.
///
/// Slot 0 holds the untyped itself, slot 1 the CNode carved out of it. The
/// CNode is a child of the untyped, so revoking slot 0 destroys the very space
/// it is stored in -- which is correct, and a good reason not to hold the
/// original untyped in the space it roots once there is a real init task.
pub fn bootstrap(objects: &mut Objects, region: RawCap, cnode_bits: u8) -> (r: Result<
    CSpace,
    CapError,
>)
    requires
        old(objects).wf(),
        region.is_sound(),
    ensures
        final(objects).wf(),
        (final(objects)@, r) == bootstrapped(old(objects)@, region, cnode_bits),
        r matches Ok(space) ==> space.wf(),
{
    match Cap::<Untyped, WRITE>::from_raw(region) {
        Ok(_) => {},
        Err(e) => {
            return Err(e);
        },
    }
    let (made, watermark) = match retype_region(
        &region,
        ObjectType::CNode,
        cnode_bits,
        1,
        &mut objects.mem,
    ) {
        Ok(plan) => plan,
        Err(e) => {
            return Err(e);
        },
    };
    proof {
        lemma_made_sound(region, ObjectType::CNode, cnode_bits, 1);
        crate::cap::untyped::retyped_objects_are_disjoint(
            region,
            ObjectType::CNode,
            cnode_bits,
            1,
        );
    }
    let cnode: RawCap = made[0];
    let mut used: RawCap = region;
    used.set_watermark(watermark);
    init_cnode(&mut objects.slots, cnode.paddr, cnode.size_bits);
    let ghost clean = objects.slots@;
    let space: CSpace = match CSpace::new(cnode) {
        Ok(s) => s,
        Err(e) => {
            return Err(e);
        },
    };
    let depth: u8 = cnode_bits - SLOT_BITS;
    proof {
        lemma_first_slots(clean.caps, cnode, depth);
        lemma_wiped_range(old(objects)@.slots, cnode.paddr.0, slots_in(cnode_bits), 0);
        lemma_wiped_range(old(objects)@.slots, cnode.paddr.0, slots_in(cnode_bits), 1);
    }
    match space.insert(&mut objects.slots, 0, depth, used, None) {
        Ok(_) => {},
        Err(e) => {
            return Err(e);
        },
    }
    proof {
        lemma_first_slots(objects.slots@.caps, cnode, depth);
    }
    let root_slot: u64 = match space.resolve(&objects.slots, 0, depth) {
        Ok(a) => a,
        Err(e) => {
            return Err(CapError::Resolve(e));
        },
    };
    match space.insert(&mut objects.slots, 1, depth, cnode, Some(root_slot)) {
        Ok(_) => {},
        Err(e) => {
            return Err(e);
        },
    }
    Ok(space)
}

/// The addresses 0 and 1 name the first two slots of the root.
proof fn lemma_first_slots(caps: Map<u64, RawCap>, cnode: RawCap, depth: u8)
    requires
        cnode.kind is CNode,
        cnode.is_sound(),
        depth == radix(cnode),
    ensures
        located(caps, cnode, 0, depth) == Ok::<u64, ResolveError>(
            crate::cap::slot::slot_address(cnode.paddr.0, 0),
        ),
        located(caps, cnode, 1, depth) == Ok::<u64, ResolveError>(
            crate::cap::slot::slot_address(cnode.paddr.0, 1),
        ),
        crate::cap::slot::slot_address(cnode.paddr.0, 0)
            != crate::cap::slot::slot_address(cnode.paddr.0, 1),
        slots_in(cnode.size_bits) >= 2,
{
    crate::bits::lemma_known_powers();
    vstd::arithmetic::power2::lemma2_to64();
    if depth > 1 {
        vstd::arithmetic::power2::lemma_pow2_strictly_increases(1, depth as nat);
    }
    lemma_slot_inside(cnode, 1);
    vstd::arithmetic::div_mod::lemma_small_mod(1, slots_in(cnode.size_bits));
    vstd::arithmetic::div_mod::lemma_small_mod(0, slots_in(cnode.size_bits));
    assert(0nat / vstd::arithmetic::power2::pow2(0) == 0);
    assert(1nat / vstd::arithmetic::power2::pow2(0) == 1);
}

/// Slots that have been wiped are empty.
pub proof fn lemma_wiped_range(d: Derivation, base: u64, n: nat, i: int)
    requires
        0 <= i < n,
    ensures
        d.wiped_range(base, n).caps[crate::cap::slot::slot_address(base, i)]
            == RawCap::null_spec(),
        d.wiped_range(base, n).parent[crate::cap::slot::slot_address(base, i)] is None,
    decreases n,
{
    let before = d.wiped_range(base, (n - 1) as nat);
    if i < n - 1 {
        lemma_wiped_range(d, base, (n - 1) as nat, i);
    }
}

/// A minted copy never carries a right that the original or the request lacks,
/// names the same object, and is mapped nowhere.
pub proof fn minting_never_widens(original: RawCap, rights: u8, badge: u64)
    requires
        minted_cap(original, rights, badge) is Ok,
    ensures
        ({
            let copy = minted_cap(original, rights, badge)->Ok_0;
            &&& copy.rights & original.rights == copy.rights
            &&& copy.rights & rights == copy.rights
            &&& copy.kind == original.kind
            &&& copy.paddr == original.paddr
            &&& copy.size_bits == original.size_bits
            &&& copy.badge_spec() == badge
            &&& copy.mapping_spec() is None
        }),
{
    lemma_never_widens(original.rights, rights);
}

proof fn lemma_never_widens(a: u8, b: u8)
    by (bit_vector)
    ensures
        (a & b) & a == a & b,
        (a & b) & b == a & b,
{
}

/// What was minted is derived from the original, so revoking the original
/// destroys it.
pub proof fn a_minted_copy_is_derived_from_the_original(
    d: Derivation,
    from: RawCap,
    src: (u64, u8),
    to: RawCap,
    dst: (u64, u8),
    rights: u8,
    badge: u64,
)
    requires
        d.is_consistent(),
        minted(d, from, src, to, dst, rights, badge).1 is Ok,
    ensures
        ({
            let after = minted(d, from, src, to, dst, rights, badge).0;
            let source = located(d.caps, from, src.0, src.1)->Ok_0;
            let copy = located(d.caps, to, dst.0, dst.1)->Ok_0;
            &&& after.descends(copy, source)
            &&& after.revoked(source).caps[copy] == RawCap::null_spec()
        }),
{
    let after = minted(d, from, src, to, dst, rights, badge).0;
    let source = located(d.caps, from, src.0, src.1)->Ok_0;
    let copy = located(d.caps, to, dst.0, dst.1)->Ok_0;
    assert(after.parent[copy] == Some(source));
    crate::cap::slot::lemma_descends_step(after, copy, source);
}

/// Filling slots that were empty changes no address that leads somewhere.
pub(crate) proof fn lemma_resolved_still(
    caps: Map<u64, RawCap>,
    caps2: Map<u64, RawCap>,
    node: RawCap,
    cptr: u64,
    remaining: nat,
)
    requires
        forall|a: u64| !((#[trigger] caps[a]).kind is Null) ==> caps2[a] == caps[a],
        resolved(caps, node, cptr, remaining) is Ok,
    ensures
        resolved(caps2, node, cptr, remaining) == resolved(caps, node, cptr, remaining),
    decreases remaining,
{
    let rest = (remaining - radix(node)) as nat;
    let a = picked(node, cptr, rest);
    if rest > 0 {
        assert(caps2[a] == caps[a]);
        lemma_resolved_still(caps, caps2, caps[a], cptr, rest);
    }
}

/// Wiping a range leaves every other slot alone.
pub(crate) proof fn lemma_wiped_others(d: Derivation, base: u64, n: nat, a: u64)
    requires
        forall|i: int| 0 <= i < n ==> #[trigger] crate::cap::slot::slot_address(base, i) != a,
    ensures
        d.wiped_range(base, n).caps[a] == d.caps[a],
    decreases n,
{
    if n > 0 {
        lemma_wiped_others(d, base, (n - 1) as nat, a);
        assert(crate::cap::slot::slot_address(base, n - 1) != a);
    }
}

/// The slot that the `i`th object of a retype goes to.
pub open spec fn destination(v: ObjectsView, root: RawCap, dst: (u64, u8), i: int) -> Result<
    u64,
    ResolveError,
> {
    located(v.slots.caps, root, cptr_after(dst.0, i), dst.1)
}

/// Whether no slot that is in use, and none of the `n` that are to be filled,
/// lies in the memory of a new CNode.
pub open spec fn spares_slots(
    v: ObjectsView,
    root: RawCap,
    dst: (u64, u8),
    made: Seq<RawCap>,
    n: nat,
) -> bool {
    forall|k: int, x: int|
        #![trigger made[k], crate::cap::slot::slot_address(made[k].paddr.0, x)]
        0 <= k < made.len() && made[k].kind is CNode && 0 <= x < slots_in(made[k].size_bits) ==> {
            let a = crate::cap::slot::slot_address(made[k].paddr.0, x);
            &&& v.slots.caps[a].kind is Null
            &&& forall|i: int| 0 <= i < n ==> #[trigger] destination(v, root, dst, i) != Ok::<
                u64,
                ResolveError,
            >(a)
        }
}

/// Whether `n` objects go to as many different slots, and spare all others.
pub(crate) open spec fn is_orderly(
    v: ObjectsView,
    root: RawCap,
    dst: (u64, u8),
    made: Seq<RawCap>,
    n: nat,
) -> bool {
    &&& forall|i: int, j: int|
        #![trigger destination(v, root, dst, i), destination(v, root, dst, j)]
        0 <= i < j < n ==> destination(v, root, dst, i) != destination(v, root, dst, j)
    &&& spares_slots(v, root, dst, made, n)
}

/// A batch whose slots were found apart is orderly, if it spares the others.
pub(crate) proof fn lemma_orderly(
    v: ObjectsView,
    clean: ObjectsView,
    root: RawCap,
    dst: (u64, u8),
    made: Seq<RawCap>,
    n: nat,
)
    requires
        clean.slots == v.slots,
        all_apart(v.slots.caps, root, dst, n),
        spares_slots(v, root, dst, made, n),
    ensures
        is_orderly(clean, root, dst, made, n),
{
    assert forall|i: int| #[trigger] destination(clean, root, dst, i) == destination(
        v,
        root,
        dst,
        i,
    ) by {}
    assert forall|i: int, j: int|
        #![trigger destination(clean, root, dst, i), destination(clean, root, dst, j)]
        0 <= i < j < n implies destination(clean, root, dst, i) != destination(
        clean,
        root,
        dst,
        j,
    ) by {
        assert(cptr_after(dst.0, i) == cptr_after(dst.0, i));
        assert(cptr_after(dst.0, j) == cptr_after(dst.0, j));
    }
}

/// Laying out an object changes no slot that is in use or a destination.
pub(crate) proof fn lemma_laid_out_slots(
    v: ObjectsView,
    w: ObjectsView,
    root: RawCap,
    dst: (u64, u8),
    made: Seq<RawCap>,
    n: nat,
    k: int,
    a: u64,
)
    requires
        is_orderly(v, root, dst, made, n),
        0 <= k < made.len(),
        !(v.slots.caps[a].kind is Null) || exists|i: int|
            0 <= i < n && #[trigger] destination(v, root, dst, i) == Ok::<u64, ResolveError>(a),
    ensures
        laid_out(w, made[k]).slots.caps[a] == w.slots.caps[a],
{
    if made[k].kind is CNode {
        assert forall|x: int| 0 <= x < slots_in(made[k].size_bits) implies #[trigger]
            crate::cap::slot::slot_address(made[k].paddr.0, x) != a by {
            assert(made[k] == made[k]);
        }
        lemma_wiped_others(w.slots, made[k].paddr.0, slots_in(made[k].size_bits), a);
    }
}

/// Every object of an orderly retype finds its slot free.
proof fn lemma_all_installed(
    v: ObjectsView,
    root: RawCap,
    source: u64,
    made: Seq<RawCap>,
    dst: (u64, u8),
    n: nat,
    k: nat,
)
    requires
        is_orderly(v, root, dst, made, n),
        all_free(v.slots.caps, root, dst, n) is Ok,
        k <= n == made.len(),
    ensures
        ({
            let (w, r) = installed(v, root, source, made, dst, k);
            &&& r is Ok
            &&& forall|a: u64|
                !((#[trigger] v.slots.caps[a]).kind is Null) ==> w.slots.caps[a] == v.slots.caps[a]
            &&& forall|i: int|
                k <= i < n ==> w.slots.caps[#[trigger] destination(
                    v,
                    root,
                    dst,
                    i,
                )->Ok_0].kind is Null
        }),
    decreases k,
{
    assert forall|i: int| 0 <= i < n implies #[trigger] destination(v, root, dst, i) is Ok
        && v.slots.caps[destination(v, root, dst, i)->Ok_0].kind is Null by {
        lemma_free_one(v.slots.caps, root, dst, n, i);
    }
    if k > 0 {
        lemma_all_installed(v, root, source, made, dst, n, (k - 1) as nat);
        let before = installed(v, root, source, made, dst, (k - 1) as nat).0;
        let ready = laid_out(before, made[k - 1]);
        let a = destination(v, root, dst, k - 1)->Ok_0;
        assert forall|b: u64| !((#[trigger] v.slots.caps[b]).kind is Null) implies
            ready.slots.caps[b] == v.slots.caps[b] by {
            lemma_laid_out_slots(v, before, root, dst, made, n, k - 1, b);
        }
        assert(destination(v, root, dst, k - 1) == Ok::<u64, ResolveError>(a));
        lemma_laid_out_slots(v, before, root, dst, made, n, k - 1, a);
        lemma_resolved_still(
            v.slots.caps,
            ready.slots.caps,
            root,
            cptr_after(dst.0, k - 1),
            dst.1 as nat,
        );
        let w = installed(v, root, source, made, dst, k).0;
        assert(w.slots.caps == ready.slots.caps.insert(a, made[k - 1]));
        assert forall|i: int| k <= i < n implies w.slots.caps[#[trigger] destination(
            v,
            root,
            dst,
            i,
        )->Ok_0].kind is Null by {
            let b = destination(v, root, dst, i)->Ok_0;
            assert(destination(v, root, dst, i) == Ok::<u64, ResolveError>(b));
            lemma_laid_out_slots(v, before, root, dst, made, n, k - 1, b);
            assert(destination(v, root, dst, k - 1) != destination(v, root, dst, i));
        }
    }
}

/// Where every destination is free, each one is.
pub(crate) proof fn lemma_free_one(caps: Map<u64, RawCap>, root: RawCap, dst: (u64, u8), n: nat, i: int)
    requires
        all_free(caps, root, dst, n) is Ok,
        0 <= i < n,
    ensures
        located(caps, root, cptr_after(dst.0, i), dst.1) is Ok,
        caps[located(caps, root, cptr_after(dst.0, i), dst.1)->Ok_0].kind is Null,
    decreases n,
{
    if i < n - 1 {
        lemma_free_one(caps, root, dst, (n - 1) as nat, i);
    }
}

pub(crate) proof fn lemma_planned_count(region: RawCap, target: ObjectType, bits: u8, n: nat)
    requires
        crate::cap::untyped::planned(region, target, bits, n) is Ok,
    ensures
        crate::cap::untyped::planned(region, target, bits, n)->Ok_0.0.len() == n,
    decreases n,
{
    if n > 0 {
        lemma_planned_count(region, target, bits, (n - 1) as nat);
    }
}

/// A retype of a region that may be retyped, into slots that are free and apart,
/// is granted if its objects fit.
pub(crate) proof fn lemma_granted(
    v: ObjectsView,
    root: RawCap,
    src: (u64, u8),
    target: ObjectType,
    size_bits: u8,
    dst: (u64, u8),
    n: nat,
)
    requires
        ({
            let region = v.slots.caps[located(v.slots.caps, root, src.0, src.1)->Ok_0];
            let plan = crate::cap::untyped::retype_plan(region, target, size_bits, n);
            &&& located(v.slots.caps, root, src.0, src.1) is Ok
            &&& retypable(region) is Ok
            &&& all_free(v.slots.caps, root, dst, n) is Ok
            &&& plan is Ok
            &&& all_apart(v.slots.caps, root, dst, n)
            &&& spares_slots(v, root, dst, plan->Ok_0.0, n)
        }),
    ensures
        retyped(v, root, src, target, size_bits, dst, n).1 is Ok,
{
    let source = located(v.slots.caps, root, src.0, src.1)->Ok_0;
    let region = v.slots.caps[source];
    let plan = crate::cap::untyped::retype_plan(region, target, size_bits, n);
    let clean = ObjectsView {
        mem: crate::cap::untyped::retyped_memory(v.mem, region.kind, plan->Ok_0.0),
        ..v
    };
    let bits = crate::cap::untyped::retype_bits(region.kind, target, size_bits)->Ok_0;
    lemma_planned_count(region, target, bits, n);
    lemma_orderly(v, clean, root, dst, plan->Ok_0.0, n);
    lemma_all_installed(clean, root, source, plan->Ok_0.0, dst, n, n);
}

/// Destinations that are each free are all free.
pub(crate) proof fn lemma_free_all(
    caps: Map<u64, RawCap>,
    root: RawCap,
    dst: (u64, u8),
    n: nat,
)
    requires
        forall|i: int|
            0 <= i < n ==> located(caps, root, #[trigger] cptr_after(dst.0, i), dst.1) is Ok
                && caps[located(caps, root, cptr_after(dst.0, i), dst.1)->Ok_0].kind is Null,
    ensures
        all_free(caps, root, dst, n) is Ok,
    decreases n,
{
    if n > 0 {
        lemma_free_all(caps, root, dst, (n - 1) as nat);
        let last = cptr_after(dst.0, n - 1);
        assert(located(caps, root, last, dst.1) is Ok);
    }
}

/// A retype makes all of its objects or none: one that is refused changes
/// nothing at all. The memory of the objects must hold no slot that is in use.
pub proof fn a_refused_retype_changes_nothing(
    v: ObjectsView,
    root: RawCap,
    src: (u64, u8),
    target: ObjectType,
    size_bits: u8,
    dst: (u64, u8),
    n: nat,
)
    requires
        retyped(v, root, src, target, size_bits, dst, n).1 is Err,
        ({
            let region = v.slots.caps[located(v.slots.caps, root, src.0, src.1)->Ok_0];
            let plan = crate::cap::untyped::retype_plan(region, target, size_bits, n);
            plan is Ok ==> spares_slots(v, root, dst, plan->Ok_0.0, n)
        }),
    ensures
        retyped(v, root, src, target, size_bits, dst, n).0 == v,
{
    if let Ok(source) = located(v.slots.caps, root, src.0, src.1) {
        let region = v.slots.caps[source];
        let plan = crate::cap::untyped::retype_plan(region, target, size_bits, n);
        if retypable(region) is Ok && all_free(v.slots.caps, root, dst, n) is Ok && plan is Ok
            && all_apart(v.slots.caps, root, dst, n) {
            let clean = ObjectsView {
                mem: crate::cap::untyped::retyped_memory(v.mem, region.kind, plan->Ok_0.0),
                ..v
            };
            let bits = crate::cap::untyped::retype_bits(region.kind, target, size_bits)->Ok_0;
            lemma_planned_count(region, target, bits, n);
            lemma_orderly(v, clean, root, dst, plan->Ok_0.0, n);
            lemma_all_installed(clean, root, source, plan->Ok_0.0, dst, n, n);
        }
    }
}

} // verus!
