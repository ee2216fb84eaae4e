//! Capability spaces: resolving addresses, deriving copies, and revoking them.

use tessera::abi::object::{ObjectType, SLOT_BITS};
use tessera::abi::rights::{ALL, GRANT, READ, WRITE};
use tessera::cap::asid::{implemented_bits, AsidPool, Asids};
use tessera::cap::cspace::{bootstrap, CSpace};
use tessera::cap::{kind, AsidError, CapError, RawCap, ResolveError};
use tessera::mm::addr::{PhysAddr, PAGE_SIZE};
use tessera::mm::tlb::{Flush, Tlb};
use tessera::objects::Objects;

const FIRST: u64 = 0x8080_0000;

/// An untyped region, aligned to its own size.
fn region_at(base: u64, bits: u8) -> RawCap {
    RawCap::untyped(PhysAddr::new(base), bits, ALL)
}

/// A capability space rooted in a 64-slot CNode, so the root radix is 6.
const D: u8 = 6;

struct World {
    objects: Objects,
    cs: CSpace,
}

impl World {
    fn new() -> World {
        let mut objects = Objects::new(16);
        let cs = bootstrap(&mut objects, region_at(FIRST, 21), D + SLOT_BITS).expect("bootstrap failed");
        World { objects, cs }
    }

    fn read(&self, cptr: u64, depth: u8) -> Result<RawCap, CapError> {
        self.cs.read(&self.objects.slots, cptr, depth)
    }

    fn resolve(&self, cptr: u64, depth: u8) -> Result<u64, ResolveError> {
        self.cs.resolve(&self.objects.slots, cptr, depth)
    }

    fn retype(&mut self, src: (u64, u8), kind: ObjectType, bits: u8, dst: (u64, u8), n: usize) -> Result<(), CapError> {
        self.cs.retype(&mut self.objects, src, kind, bits, dst, n)
    }

    fn mint(&mut self, src: u64, dst: u64, rights: u8, badge: u64) -> Result<(), CapError> {
        self.cs.mint(&mut self.objects.slots, (src, D), (dst, D), rights, badge)
    }

    fn descendants(&self, cptr: u64) -> usize {
        self.cs.descendants(&self.objects.slots, cptr, D).unwrap()
    }

    fn revoke(&mut self, cptr: u64) -> Result<usize, CapError> {
        self.cs.revoke(&mut self.objects, cptr, D)
    }

    fn delete(&mut self, cptr: u64) -> Result<usize, CapError> {
        self.cs.delete(&mut self.objects, cptr, D)
    }

    /// A space with an endpoint in slot 8.
    fn with_endpoint() -> World {
        let mut w = World::new();
        w.retype((0, D), ObjectType::Endpoint, 0, (8, D), 1).expect("retype");
        w
    }
}

// --- Bootstrap and resolution ---

#[test]
fn a_bootstrapped_space_holds_its_own_untyped_and_cnode() {
    let w = World::new();
    assert_eq!(w.cs.root_slots(), 64);
    assert_eq!(w.cs.root_depth(), D);

    let untyped = w.read(0, D).unwrap();
    assert_eq!(untyped.kind, ObjectType::Untyped);
    assert_eq!(untyped.rights, ALL);

    let cnode = w.read(1, D).unwrap();
    assert_eq!(cnode.kind, ObjectType::CNode);
    assert_eq!(cnode.paddr, w.cs.root().paddr, "slot 1 is not the root CNode itself");
}

#[test]
fn bootstrapping_refuses_what_is_not_writable_untyped_memory() {
    let mut objects = Objects::new(16);
    assert_eq!(
        bootstrap(&mut objects, region_at(FIRST, 21).with_rights(READ), D + SLOT_BITS),
        Err(CapError::MissingRights { wanted: WRITE, held: READ })
    );
    let frame = RawCap::new(ObjectType::Frame, ALL, 12, PhysAddr::new(FIRST));
    assert_eq!(
        bootstrap(&mut objects, frame, D + SLOT_BITS),
        Err(CapError::WrongType { wanted: ObjectType::Untyped, found: ObjectType::Frame })
    );
    assert_eq!(bootstrap(&mut objects, region_at(FIRST, 12), D + SLOT_BITS), Err(CapError::NotEnoughSpace));
    assert_eq!(bootstrap(&mut objects, RawCap::null(), D + SLOT_BITS), Err(CapError::Null));
}

#[test]
fn only_a_cnode_can_root_a_space() {
    assert_eq!(
        CSpace::new(region_at(FIRST, 21)),
        Err(CapError::Resolve(ResolveError::NotACNode))
    );
    let root = *World::new().cs.root();
    assert_eq!(CSpace::new(root).unwrap().root().paddr, root.paddr);
}

#[test]
fn empty_slots_resolve_but_hold_nothing() {
    let w = World::new();
    for i in 2..64u64 {
        assert!(w.read(i, D).unwrap().is_null(), "slot {i} was not empty");
    }
}

#[test]
fn the_wrong_depth_does_not_resolve() {
    let w = World::new();
    // The root consumes 6 bits; asking for 5 stops partway into it.
    assert_eq!(w.resolve(0, 5), Err(ResolveError::DepthMismatch));
    // And 7 bits would need a second level that slot 0 is not.
    assert_eq!(w.resolve(0, 7), Err(ResolveError::NotACNode));
    assert_eq!(w.resolve(0, 65), Err(ResolveError::TooDeep));
    // A wrong depth is refused by every operation that names a slot.
    assert_eq!(w.read(0, 5), Err(CapError::Resolve(ResolveError::DepthMismatch)));
}

#[test]
fn a_cnode_in_a_slot_becomes_a_second_level() {
    let mut w = World::new();
    // A 64-slot CNode in slot 2, so (2 << 6) | n at depth 12 addresses it.
    w.retype((0, D), ObjectType::CNode, D + SLOT_BITS, (2, D), 1).expect("retype");

    let inner = w.read(2, D).unwrap();
    assert_eq!(inner.kind, ObjectType::CNode);

    // Every slot of the inner CNode is reachable, and empty.
    for i in 0..64u64 {
        let cap = w.read((2 << 6) | i, 12).expect("inner slot unreachable");
        assert!(cap.is_null());
    }
    // A capability put in the inner CNode is found through the two-level path.
    w.retype((0, D), ObjectType::Frame, 0, ((2 << 6) | 5, 12), 1).expect("retype");
    assert_eq!(w.read((2 << 6) | 5, 12).unwrap().kind, ObjectType::Frame);
}

// --- Retyping through a space ---

#[test]
fn retyping_installs_objects_as_children_of_the_untyped() {
    let mut w = World::new();
    w.retype((0, D), ObjectType::Frame, 0, (8, D), 4).expect("retype");

    for i in 0..4u64 {
        assert_eq!(w.read(8 + i, D).unwrap().kind, ObjectType::Frame);
    }
    // The CNode from bootstrap, plus the four frames.
    assert_eq!(w.descendants(0), 5);
}

#[test]
fn retyping_moves_the_watermark() {
    let mut w = World::new();
    let before = w.read(0, D).unwrap().watermark();
    w.retype((0, D), ObjectType::Frame, 0, (8, D), 2).expect("retype");

    let after = w.read(0, D).unwrap().watermark();
    assert!(after > before, "the watermark did not move");
    assert_eq!(after - before, 2 * PAGE_SIZE);
}

#[test]
fn retyping_into_an_occupied_slot_is_refused_and_changes_nothing() {
    let mut w = World::new();
    let watermark = w.read(0, D).unwrap().watermark();

    // Slot 1 already holds the root CNode.
    assert_eq!(w.retype((0, D), ObjectType::Frame, 0, (1, D), 1), Err(CapError::SlotOccupied));
    assert_eq!(w.read(0, D).unwrap().watermark(), watermark, "the region was touched anyway");
}

#[test]
fn retyping_needs_write_on_the_untyped() {
    let mut w = World::new();
    // Hand a read-only copy of the untyped to slot 3, then try to retype it.
    w.mint(0, 3, READ, 0).expect("mint");

    assert_eq!(
        w.retype((3, D), ObjectType::Frame, 0, (8, D), 1),
        Err(CapError::MissingRights { wanted: WRITE, held: READ })
    );
}

#[test]
fn untyped_memory_that_can_be_retyped_cannot_be_copied() {
    let mut w = World::new();
    // Either copy would carry a second watermark over the same region.
    assert_eq!(w.mint(0, 3, ALL, 0), Err(CapError::CannotCopy));
    assert_eq!(w.mint(0, 3, WRITE, 0), Err(CapError::CannotCopy));
    assert!(w.read(3, D).unwrap().is_null());
    w.cs
        .insert(&mut w.objects.slots, 4, D, RawCap::device_untyped(PhysAddr::new(0x1000_0000), 16, ALL), None)
        .expect("insert");
    assert_eq!(w.mint(4, 5, READ | WRITE, 0), Err(CapError::CannotCopy));
    // A copy that cannot be retyped hands nothing out.
    w.mint(0, 3, READ | GRANT, 0).expect("mint");
    w.mint(3, 6, ALL, 0).expect("mint");
    assert_eq!(w.read(6, D).unwrap().rights, READ | GRANT);
}

#[test]
fn what_a_region_has_yet_to_hand_out_is_nobody_elses() {
    let mut w = World::new();
    w.retype((0, D), ObjectType::Untyped, 14, (8, D), 3).expect("smaller regions");
    w.retype((8, D), ObjectType::Frame, 0, (16, D), 2).expect("frames");
    w.retype((0, D), ObjectType::Frame, 0, (20, D), 2).expect("frames");
    w.retype((9, D), ObjectType::Tcb, 0, (24, D), 1).expect("a thread");
    // Starting over in one region does not reach into the others.
    w.revoke(8).expect("revoke");
    assert!(w.read(16, D).unwrap().is_null());
    w.retype((8, D), ObjectType::Frame, 0, (28, D), 4).expect("frames again");
    let held = [20, 21, 24, 28, 29, 30, 31];
    for (i, a) in held.iter().enumerate() {
        let a = w.read(*a, D).unwrap();
        for b in &held[..i] {
            let b = w.read(*b, D).unwrap();
            assert!(a.end() <= b.paddr.as_usize() || b.end() <= a.paddr.as_usize(), "two objects share memory");
        }
    }
}

#[test]
fn retyped_frames_lie_side_by_side_and_are_clear() {
    let mut w = World::new();
    let next = FIRST + w.read(0, D).unwrap().watermark();
    w.objects.mem.write(next, 3, 0xdead);
    w.retype((0, D), ObjectType::Frame, 0, (8, D), 2).expect("retype");
    let a = w.read(8, D).unwrap().paddr.as_usize();
    let b = w.read(9, D).unwrap().paddr.as_usize();
    assert_eq!(a, next);
    assert_eq!(b, a + PAGE_SIZE);
    assert_eq!(w.objects.mem.read(next, 3), 0, "a frame came with what was there before");
}

// --- Derivation ---

#[test]
fn a_minted_copy_is_a_child_with_no_more_rights_than_the_original() {
    let mut w = World::with_endpoint();
    w.mint(8, 9, READ, 0x1234).expect("mint");
    let copy = w.read(9, D).unwrap();

    assert_eq!(copy.kind, ObjectType::Endpoint);
    assert_eq!(copy.paddr, w.read(8, D).unwrap().paddr, "the copy names a different object");
    assert_eq!(copy.rights, READ);
    assert_eq!(copy.badge(), 0x1234);
    assert_eq!(w.descendants(8), 1);
}

#[test]
fn minting_cannot_widen_rights() {
    let mut w = World::with_endpoint();
    // Weaken to READ|GRANT, then try to mint ALL back out of it.
    w.mint(8, 9, READ | GRANT, 0).expect("mint");
    w.mint(9, 10, ALL, 0).expect("mint");

    assert_eq!(w.read(10, D).unwrap().rights, READ | GRANT, "rights were widened");
}

#[test]
fn minting_needs_grant_on_the_original() {
    let mut w = World::with_endpoint();
    // A copy without GRANT cannot be copied again.
    w.mint(8, 9, READ | WRITE, 0).expect("mint");
    assert_eq!(
        w.mint(9, 10, READ, 0),
        Err(CapError::MissingRights { wanted: GRANT, held: READ | WRITE })
    );
}

#[test]
fn a_badge_is_for_endpoints_and_notifications_only() {
    let mut w = World::new();
    w.retype((0, D), ObjectType::Frame, 0, (8, D), 1).expect("retype");
    assert_eq!(w.mint(8, 9, ALL, 7), Err(CapError::CannotBadge));
    assert!(w.read(9, D).unwrap().is_null());
    assert_eq!(w.mint(8, 9, ALL, 0), Ok(()));
}

#[test]
fn an_empty_slot_cannot_be_minted_from_nor_an_occupied_one_into() {
    let mut w = World::with_endpoint();
    assert_eq!(w.mint(20, 21, ALL, 0), Err(CapError::Null));
    assert_eq!(w.mint(8, 1, ALL, 0), Err(CapError::SlotOccupied));
}

#[test]
fn derivation_nests() {
    let mut w = World::with_endpoint();
    w.mint(8, 9, ALL, 1).expect("mint");
    w.mint(9, 10, ALL, 2).expect("mint");
    w.mint(10, 11, ALL, 3).expect("mint");

    // A chain three deep, all descended from slot 8.
    assert_eq!(w.descendants(8), 3);
    assert_eq!(w.descendants(9), 2);
    assert_eq!(w.descendants(11), 0);
}

#[test]
fn a_copy_minted_into_another_space_is_revoked_with_the_original() {
    let mut w = World::with_endpoint();
    let other = bootstrap(&mut w.objects, region_at(FIRST + 0x20_0000, 21), D + SLOT_BITS).unwrap();
    w.cs.mint_into(&mut w.objects.slots, (8, D), &other, (30, D), READ, 5).expect("mint");
    assert_eq!(other.read(&w.objects.slots, 30, D).unwrap().badge(), 5);

    assert_eq!(w.revoke(8), Ok(1));
    assert!(other.read(&w.objects.slots, 30, D).unwrap().is_null());
    assert_eq!(other.read(&w.objects.slots, 1, D).unwrap().kind, ObjectType::CNode);
}

// --- Revocation ---

#[test]
fn revoking_removes_descendants_and_leaves_the_original() {
    let mut w = World::with_endpoint();
    w.mint(8, 9, ALL, 1).expect("mint");
    w.mint(9, 10, ALL, 2).expect("mint");

    assert_eq!(w.revoke(8).unwrap(), 2);

    assert_eq!(w.read(8, D).unwrap().kind, ObjectType::Endpoint, "the original went too");
    assert!(w.read(9, D).unwrap().is_null(), "a child survived");
    assert!(w.read(10, D).unwrap().is_null(), "a grandchild survived");
    assert_eq!(w.descendants(8), 0);
}

#[test]
fn revoking_walks_a_wide_tree_as_well_as_a_deep_one() {
    let mut w = World::with_endpoint();

    // Four children of slot 8, each with two children of its own.
    for (i, child) in (16..20u64).enumerate() {
        w.mint(8, child, ALL, i as u64).expect("mint");
        w.mint(child, 24 + (i as u64 * 2), ALL, 0).expect("mint");
        w.mint(child, 25 + (i as u64 * 2), ALL, 0).expect("mint");
    }
    assert_eq!(w.descendants(8), 12);

    assert_eq!(w.revoke(8).unwrap(), 12);
    for i in 16..32u64 {
        assert!(w.read(i, D).unwrap().is_null(), "slot {i} survived revocation");
    }
    assert_eq!(w.read(8, D).unwrap().kind, ObjectType::Endpoint);
}

#[test]
fn deleting_takes_the_capability_itself_too() {
    let mut w = World::with_endpoint();
    w.mint(8, 9, ALL, 0).expect("mint");

    assert_eq!(w.delete(8).unwrap(), 2);
    assert!(w.read(8, D).unwrap().is_null());
    assert!(w.read(9, D).unwrap().is_null());
}

#[test]
fn revoking_a_sibling_leaves_the_others() {
    let mut w = World::with_endpoint();
    w.mint(8, 16, ALL, 1).expect("mint");
    w.mint(8, 17, ALL, 2).expect("mint");
    w.mint(8, 18, ALL, 3).expect("mint");
    w.mint(17, 20, ALL, 4).expect("mint");

    assert_eq!(w.delete(17).unwrap(), 2);
    assert_eq!(w.read(16, D).unwrap().badge(), 1);
    assert_eq!(w.read(18, D).unwrap().badge(), 3);
    assert!(w.read(20, D).unwrap().is_null());
    assert_eq!(w.descendants(8), 2);
}

#[test]
fn revoking_an_untyped_lets_its_memory_be_used_again() {
    let mut w = World::new();

    // A second, independent region, put in slot 4 with no parent. Revoking the
    // region the space itself was carved from would destroy the CNode it
    // stands on.
    w.cs.insert(&mut w.objects.slots, 4, D, region_at(0x9000_0000, 20), None).expect("insert spare region");

    w.retype((4, D), ObjectType::Frame, 0, (8, D), 4).expect("retype");
    let first_time: Vec<PhysAddr> = (8..12u64).map(|i| w.read(i, D).unwrap().paddr).collect();
    assert!(w.read(4, D).unwrap().watermark() > 0);

    assert_eq!(w.revoke(4).unwrap(), 4, "the four frames should have gone");
    assert_eq!(w.read(4, D).unwrap().watermark(), 0, "the watermark was not reset");
    for i in 8..12u64 {
        assert!(w.read(i, D).unwrap().is_null(), "slot {i} survived");
    }

    // The same addresses come back: revocation is the only way memory is ever
    // reused, because there is no free list.
    w.retype((4, D), ObjectType::Frame, 0, (8, D), 4).expect("retype");
    for i in 0..4usize {
        assert_eq!(w.read(8 + i as u64, D).unwrap().paddr, first_time[i], "memory was not reused");
    }
}

#[test]
fn revoking_something_with_no_children_is_not_an_error() {
    let mut w = World::with_endpoint();
    assert_eq!(w.revoke(8).unwrap(), 0);
    assert_eq!(w.read(8, D).unwrap().kind, ObjectType::Endpoint);
}

#[test]
fn revoking_at_a_wrong_depth_is_an_error() {
    let mut w = World::with_endpoint();
    assert_eq!(
        w.cs.revoke(&mut w.objects, 8, 5),
        Err(CapError::Resolve(ResolveError::DepthMismatch))
    );
    assert_eq!(w.cs.delete(&mut w.objects, 8, 65), Err(CapError::Resolve(ResolveError::TooDeep)));
}

// --- Typed lookup through a space ---

const RW: u8 = 3;

#[test]
fn lookup_proves_kind_and_rights_in_one_step() {
    let mut w = World::new();
    w.retype((0, D), ObjectType::Frame, 0, (8, D), 1).expect("retype");

    // The right kind with rights it holds.
    assert!(w.cs.lookup::<kind::Frame, RW>(&w.objects.slots, 8, D).is_ok());
    // The wrong kind.
    assert!(w.cs.lookup::<kind::Tcb, READ>(&w.objects.slots, 8, D).is_err());

    // Rights it does not hold, after weakening.
    w.mint(8, 9, READ, 0).expect("mint");
    assert_eq!(
        w.cs.lookup::<kind::Frame, WRITE>(&w.objects.slots, 9, D).err(),
        Some(CapError::MissingRights { wanted: WRITE, held: READ })
    );
}

// --- ASIDs ---

#[test]
fn the_hart_implements_asid_bits() {
    // All sixteen bits of the field stick, or only the low nine do.
    assert_eq!(implemented_bits(0x0fff_f000_0000_0000), 16);
    assert_eq!(implemented_bits(0x001f_f000_0000_0000), 9);
    assert_eq!(implemented_bits(0x8000_0000_0008_0201), 0);
    let mut asids = Asids::new(9);
    assert_eq!(asids.init(), 9);
    assert_eq!(asids.bits(), 9);
}

#[test]
fn a_pool_hands_out_distinct_nonzero_asids() {
    let mut pool = AsidPool::new(16);
    let a = pool.allocate().expect("allocate");
    let b = pool.allocate().expect("allocate");

    assert_ne!(a, b);
    assert_ne!(a.as_u16(), 0, "ASID 0 is reserved for unassigned spaces");
    assert_ne!(b.as_u16(), 0);
    assert_eq!(pool.in_use(), 2);
}

#[test]
fn a_released_asid_comes_back() {
    let mut pool = AsidPool::new(16);
    let mut tlb = Tlb::new();
    let a = pool.allocate().unwrap();
    pool.release(a, &mut tlb);
    assert_eq!(pool.in_use(), 0);
    assert_eq!(pool.allocate().unwrap(), a, "the freed ASID was not reused");
    // Its translations are gone before anyone else can have it.
    let flushed = tlb.drain();
    assert_eq!(flushed.len(), 1);
    assert!(matches!(flushed[0], Flush::Tagged(x) if x == a));
}

#[test]
fn a_pool_runs_out_rather_than_repeating_itself() {
    let mut pool = AsidPool::new(2);
    // 2 bits is 4 values, minus the reserved zero.
    assert_eq!(pool.capacity(), 3);
    let mut seen = [0u16; 3];
    for s in seen.iter_mut() {
        *s = pool.allocate().unwrap().as_u16();
    }
    assert_eq!(pool.allocate(), Err(AsidError::Exhausted));

    seen.sort_unstable();
    assert_eq!(seen, [1, 2, 3], "the pool repeated or skipped an ASID");
}

#[test]
fn a_hart_with_no_asid_bits_refuses_rather_than_handing_out_zero() {
    let mut pool = AsidPool::new(0);
    assert_eq!(pool.allocate(), Err(AsidError::NotSupported));
}

// --- Small facts ---

#[test]
fn some_objects_have_a_size_of_their_own() {
    for kind in [ObjectType::Untyped, ObjectType::DeviceUntyped, ObjectType::CNode] {
        assert!(kind.is_variable_size());
        assert_eq!(kind.size_bits(20), Some(20));
    }
    for kind in [ObjectType::Frame, ObjectType::PageTable, ObjectType::Tcb, ObjectType::Endpoint] {
        assert!(!kind.is_variable_size());
    }
    assert_eq!(ObjectType::Frame.size_bits(20), Some(12));
}

#[test]
fn slots_know_their_relations() {
    let mut w = World::new();
    w.retype((0, D), ObjectType::Endpoint, 0, (12, D), 1).unwrap();
    w.mint(12, 13, READ | GRANT, 1).unwrap();
    w.mint(12, 14, READ, 2).unwrap();
    let (a, b, c) = (w.resolve(12, D).unwrap(), w.resolve(13, D).unwrap(), w.resolve(14, D).unwrap());
    let parent = w.objects.slots.get(a);
    assert!(parent.has_children());
    let first = parent.first_child().unwrap();
    let second = w.objects.slots.get(first).next_sibling().unwrap();
    let mut both = [first, second];
    both.sort();
    assert_eq!(both, [b.min(c), b.max(c)]);
    assert_eq!(w.objects.slots.get(second).next_sibling(), None);
    assert_eq!(w.objects.slots.get(b).parent(), Some(a));
    assert!(!w.objects.slots.get(c).has_children());
}

#[test]
fn released_identifiers_are_flushed_and_handed_out_again() {
    let mut asids = Asids::new(16);
    let mut tlb = Tlb::new();
    let first = asids.assign_global().unwrap();
    let second = asids.assign_global().unwrap();
    assert_eq!((first.as_u16(), second.as_u16()), (1, 2));
    assert_eq!(asids.global_in_use(), 2);
    asids.release_global(first, &mut tlb);
    assert_eq!(asids.global_in_use(), 1);
    assert_eq!(tlb.drain(), vec![Flush::Tagged(first)]);
    assert_eq!(asids.assign_global().unwrap(), first);
    tlb.flush_tlb_all();
    assert_eq!(tlb.drain(), vec![Flush::All]);
    assert_eq!(tlb.drain(), vec![]);
}

#[test]
fn a_refused_retype_leaves_memory_as_it_was() {
    let mut w = World::new();
    w.retype((0, D), ObjectType::Endpoint, 0, (20, D), 1).unwrap();
    let before = w.read(0, D).unwrap();
    // The third destination is taken.
    assert!(w.retype((0, D), ObjectType::Frame, 0, (18, D), 4).is_err());
    assert_eq!(w.read(0, D).unwrap(), before);
    for slot in [18, 19, 21] {
        assert!(w.read(slot, D).unwrap().is_null());
    }
    assert_eq!(w.read(20, D).unwrap().kind, ObjectType::Endpoint);
    // More than is left.
    assert!(w.retype((0, D), ObjectType::Untyped, 21, (30, D), 1).is_err());
    assert_eq!(w.read(0, D).unwrap(), before);
}

#[test]
fn a_retype_that_comes_back_to_a_slot_changes_nothing() {
    let mut w = World::new();
    // Two capabilities to one CNode of two slots, side by side: four addresses
    // in a row name each of its slots twice.
    w.retype((0, D), ObjectType::CNode, 1 + SLOT_BITS, (10, D), 1).unwrap();
    w.mint(10, 11, ALL, 0).unwrap();
    let before = w.read(0, D).unwrap();
    w.objects.mem.write(before.paddr.as_usize() + 0x3000, 0, 0x1234);
    assert_eq!(w.resolve(20, D + 1), w.resolve(22, D + 1));

    for n in 3..5 {
        assert_eq!(w.retype((0, D), ObjectType::Frame, 0, (20, D + 1), n), Err(CapError::SlotOccupied));
        assert_eq!(w.read(0, D).unwrap(), before, "the region was touched");
        assert!(w.read(20, D + 1).unwrap().is_null());
        assert!(w.read(21, D + 1).unwrap().is_null());
        assert_eq!(w.objects.mem.read(before.paddr.as_usize() + 0x3000, 0), 0x1234);
    }
    // What does not fit is still said not to fit.
    assert_eq!(
        w.retype((0, D), ObjectType::Untyped, 21, (20, D + 1), 3),
        Err(CapError::NotEnoughSpace)
    );
    w.retype((0, D), ObjectType::Frame, 0, (20, D + 1), 2).unwrap();
    assert_eq!(w.objects.mem.read(before.paddr.as_usize() + 0x3000, 0), 0);
    assert_eq!(w.read(23, D + 1).unwrap().kind, ObjectType::Frame);
}
