use tessera::abi::object::{ObjectType, SLOT_BITS};
use tessera::abi::rights::{ALL, GRANT, READ, WRITE};
use tessera::cap::untyped::carve;
use tessera::cap::{kind, Cap, CapError, RawCap};
use tessera::mm::addr::{PhysAddr, PAGE_SIZE};
use tessera::mm::memory::Memory;

const AT: u64 = 0x8010_0000;

/// An untyped capability over `1 << bits` bytes.
fn untyped(bits: u8) -> RawCap {
    RawCap::untyped(PhysAddr::new(AT), bits, ALL)
}

const RW: u8 = 3;

const GW: u8 = 6;

#[test]
fn a_lookup_that_needs_a_right_the_slot_lacks_fails() {
    let raw = untyped(12).with_rights(READ);
    // Asking for exactly what is held succeeds.
    assert!(Cap::<kind::Untyped, READ>::from_raw(raw).is_ok());
    // Asking for more does not.
    let err = Cap::<kind::Untyped, RW>::from_raw(raw).err().unwrap();
    assert_eq!(err, CapError::MissingRights { wanted: READ | WRITE, held: READ });
}

#[test]
fn a_lookup_of_the_wrong_kind_fails() {
    let mut raw = untyped(12);
    raw.kind = ObjectType::Frame;
    let err = Cap::<kind::Untyped, ALL>::from_raw(raw).err().unwrap();
    assert_eq!(err, CapError::WrongType { wanted: ObjectType::Untyped, found: ObjectType::Frame });
}

#[test]
fn a_null_slot_is_not_a_capability() {
    assert_eq!(Cap::<kind::Frame, 0>::from_raw(RawCap::null()).err(), Some(CapError::Null));
}

#[test]
fn reducing_rights_narrows_what_is_stored() {
    let cap = Cap::<kind::Untyped, ALL>::from_raw(untyped(12)).ok().unwrap();
    assert_eq!(cap.raw().rights, ALL);
    let weaker = cap.reduce::<READ>();
    assert_eq!(weaker.raw().rights, READ, "reduce did not narrow the stored rights");
    let weaker_still = weaker.reduce::<0>();
    assert_eq!(weaker_still.raw().rights, 0);
}

#[test]
fn grant_is_what_makes_a_capability_delegatable() {
    let ep = RawCap::new(ObjectType::Endpoint, GRANT | WRITE, SLOT_BITS, PhysAddr::new(AT));
    let cap = Cap::<kind::Endpoint, GW>::from_raw(ep).ok().unwrap();
    let handed_over = cap.delegate(0xbad_9e);
    assert_eq!(handed_over.badge(), 0xbad_9e, "the badge did not survive delegation");
    assert_eq!(handed_over.paddr, cap.paddr(), "delegation moved the object");
    assert_eq!(handed_over.rights, cap.raw().rights);
}

#[test]
fn only_an_endpoint_or_a_notification_carries_a_badge() {
    let mut frame = untyped(12);
    frame.kind = ObjectType::Frame;
    frame.set_mapping(PhysAddr::new(0x8000_0000), 0x1234_0000);
    assert_eq!(frame.badge(), 0, "a frame reported a badge");
    assert_eq!(
        frame.mapping(),
        Some((PhysAddr::new(0x8000_0000), 0x1234_0000)),
        "the mapping did not survive being read as a badge"
    );
    assert_eq!(untyped(12).badge(), 0, "untyped memory reported a badge");
}

#[test]
fn an_unaligned_region_is_refused() {
    assert_eq!(carve(PhysAddr::new(0x8000_1000), 16, 0, 12).err(), Some(CapError::Misaligned));
    assert!(carve(PhysAddr::new(0x8001_0000), 16, 0, 12).is_ok());
}

#[test]
fn objects_are_aligned_to_their_own_size() {
    let base = PhysAddr::new(0x8000_0000);
    // A 4 KiB object after 1 byte has been used must start at 4096, not at 1.
    let c = carve(base, 20, 1, 12).ok().unwrap();
    assert_eq!(c.paddr.as_usize(), 0x8000_1000);
    assert_eq!(c.watermark, 0x2000);
}

#[test]
fn carving_past_the_end_of_a_region_fails() {
    let base = PhysAddr::new(0x8000_0000);
    // A 4 KiB region holds exactly one 4 KiB object.
    assert!(carve(base, 12, 0, 12).is_ok());
    assert_eq!(carve(base, 12, 4096, 12).err(), Some(CapError::NotEnoughSpace));
    // And nothing larger than the region itself fits at all.
    assert_eq!(carve(base, 12, 0, 13).err(), Some(CapError::NotEnoughSpace));
}

#[test]
fn a_region_may_end_at_the_top_of_the_address_space() {
    // Aligned, and its last byte is the last there is.
    let top = PhysAddr::new(0xffff_ffff_ffff_0000);
    let c = carve(top, 16, 0xf000, 12).ok().unwrap();
    assert_eq!(c.paddr.as_usize(), 0xffff_ffff_ffff_f000);
    assert_eq!(c.watermark, 0x1_0000);
    assert_eq!(carve(top, 16, 0xf001, 12).err(), Some(CapError::NotEnoughSpace));
    // Misaligned comes before anything else, though the region would wrap.
    assert_eq!(carve(PhysAddr::new(0xffff_ffff_ffff_f000), 16, 0, 12).err(), Some(CapError::Misaligned));
    assert_eq!(carve(PhysAddr::new(0xffff_ffff_ffff_f000), 16, 0, 20).err(), Some(CapError::Misaligned));
    // A watermark past the end leaves no room.
    assert_eq!(carve(top, 16, u64::MAX, 12).err(), Some(CapError::NotEnoughSpace));
}

#[test]
fn retyping_produces_objects_inside_the_region() {
    let mut mem = Memory::new();
    let raw = untyped(15);
    let cap = Cap::<kind::Untyped, ALL>::from_raw(raw).ok().unwrap();
    let (out, watermark) = cap.retype(ObjectType::Frame, 0, 4, &mut mem).expect("retype failed");
    assert_eq!(watermark, 4 * PAGE_SIZE);
    assert_eq!(out.len(), 4);
    for (i, obj) in out.iter().enumerate() {
        assert_eq!(obj.kind, ObjectType::Frame);
        assert_eq!(obj.size_bits, 12);
        assert_eq!(obj.paddr.as_usize(), AT + i as u64 * PAGE_SIZE);
        assert!(raw.covers(obj), "object {} escaped the region it was carved from", i);
    }
    assert_eq!(cap.free_bytes(), 1 << 15);
}

#[test]
fn a_fresh_object_arrives_with_every_right() {
    let cap = Cap::<kind::Untyped, ALL>::from_raw(untyped(14)).ok().unwrap();
    let (out, _) = cap.retype(ObjectType::Tcb, 0, 1, &mut Memory::new()).unwrap();
    assert_eq!(out[0].rights, ALL);
}

#[test]
fn retyped_memory_is_zeroed() {
    let mut mem = Memory::new();
    for i in 0..(1u64 << 11) {
        mem.write(AT, i, 0xa5a5_a5a5_a5a5_a5a5);
    }
    let cap = Cap::<kind::Untyped, ALL>::from_raw(untyped(14)).ok().unwrap();
    let (out, _) = cap.retype(ObjectType::Frame, 0, 1, &mut mem).unwrap();
    for i in 0..512 {
        assert_eq!(mem.read(out[0].paddr.as_usize(), i), 0, "word {} was not zeroed", i);
    }
    // And only the object: the rest is still the region's.
    assert_eq!(mem.read(AT + PAGE_SIZE, 0), 0xa5a5_a5a5_a5a5_a5a5);
}

#[test]
fn a_failed_retype_changes_nothing() {
    let cap = Cap::<kind::Untyped, ALL>::from_raw(untyped(12)).ok().unwrap();
    // Two frames do not fit in a 4 KiB region.
    let r = cap.retype(ObjectType::Frame, 0, 2, &mut Memory::new());
    assert_eq!(r.err(), Some(CapError::NotEnoughSpace));
    assert_eq!(cap.raw().watermark(), 0, "a failed retype consumed part of the region");
}

#[test]
fn a_cnode_must_be_big_enough_to_hold_a_slot() {
    let mut mem = Memory::new();
    let cap = Cap::<kind::Untyped, ALL>::from_raw(untyped(14)).ok().unwrap();
    // Smaller than one slot, and exactly one slot, are both refused: a CNode
    // must consume at least one address bit or resolution would not terminate.
    assert_eq!(cap.retype(ObjectType::CNode, 4, 1, &mut mem).err(), Some(CapError::BadSize));
    assert_eq!(cap.retype(ObjectType::CNode, SLOT_BITS, 1, &mut mem).err(), Some(CapError::BadSize));
    let (out, _) = cap.retype(ObjectType::CNode, 12, 1, &mut mem).unwrap();
    assert_eq!(
        out[0].kind.slots(out[0].size_bits),
        Some(1 << (12 - SLOT_BITS)),
        "a 4 KiB CNode holds one slot per 2^SLOT_BITS bytes"
    );
}

#[test]
fn null_is_not_something_you_can_retype_into() {
    let cap = Cap::<kind::Untyped, ALL>::from_raw(untyped(13)).ok().unwrap();
    let r = cap.retype(ObjectType::Null, 0, 1, &mut Memory::new());
    assert_eq!(r.err(), Some(CapError::BadObjectType));
}

#[test]
fn a_fixed_size_object_ignores_the_size_it_is_asked_for() {
    let cap = Cap::<kind::Untyped, ALL>::from_raw(untyped(15)).ok().unwrap();
    // 20 would be a megabyte; a Frame is a page whatever the caller says.
    let (out, _) = cap.retype(ObjectType::Frame, 20, 1, &mut Memory::new()).unwrap();
    assert_eq!(out[0].size_bits, 12);
}

// --- What a device untyped may become ---

fn device() -> Cap<kind::DeviceUntyped, WRITE> {
    Cap::from_raw(RawCap::device_untyped(PhysAddr::new(AT), 12, ALL)).ok().expect("device untyped")
}

fn ram() -> Cap<kind::Untyped, WRITE> {
    Cap::from_raw(RawCap::untyped(PhysAddr::new(AT), 12, ALL)).ok().expect("untyped")
}

#[test]
fn a_device_untyped_becomes_a_frame() {
    let (out, _) = device().retype(ObjectType::Frame, 0, 1, &mut Memory::new()).expect("frame");
    assert_eq!(out[0].kind, ObjectType::Frame);
}

#[test]
fn a_device_untyped_becomes_a_smaller_device_untyped() {
    // Subdividing is how one holder hands a single transport to a driver.
    let (out, _) =
        device().retype(ObjectType::DeviceUntyped, 12, 1, &mut Memory::new()).expect("split");
    assert_eq!(out[0].kind, ObjectType::DeviceUntyped);
}

#[test]
fn a_device_untyped_becomes_nothing_the_kernel_writes() {
    for kind in [
        ObjectType::CNode,
        ObjectType::Tcb,
        ObjectType::Endpoint,
        ObjectType::PageTable,
        ObjectType::Untyped,
    ] {
        assert!(
            device().retype(kind, 12, 1, &mut Memory::new()).is_err(),
            "a device untyped became a {}",
            kind.name()
        );
    }
}

#[test]
fn ordinary_memory_cannot_relabel_itself_as_a_device() {
    assert!(ram().retype(ObjectType::DeviceUntyped, 12, 1, &mut Memory::new()).is_err());
}

#[test]
fn retyping_a_device_untyped_does_not_touch_its_bytes() {
    let mut mem = Memory::new();
    mem.write(AT, 0, 0xa5);
    device().retype(ObjectType::Frame, 0, 1, &mut mem).expect("frame");
    assert_eq!(mem.read(AT, 0), 0xa5, "the kernel wrote to device registers");
}

#[test]
fn retyping_ordinary_memory_still_zeroes_it() {
    let mut mem = Memory::new();
    mem.write(AT, 0, 0xa5);
    ram().retype(ObjectType::Frame, 0, 1, &mut mem).expect("frame");
    assert_eq!(mem.read(AT, 0), 0, "a retyped RAM frame was not zeroed");
}

#[test]
fn get_address_needs_write_on_the_frame() {
    let writable = RawCap::new(ObjectType::Frame, ALL, 12, PhysAddr::new(AT));
    let mut read_only = writable;
    read_only.rights = READ;
    assert!(Cap::<kind::Frame, WRITE>::from_raw(writable).is_ok());
    assert!(
        Cap::<kind::Frame, WRITE>::from_raw(read_only).is_err(),
        "a read-only frame would have given up its physical address"
    );
}

#[test]
fn every_object_type_survives_the_wire() {
    for (n, expected) in [
        (0u8, ObjectType::Null),
        (1, ObjectType::Untyped),
        (2, ObjectType::DeviceUntyped),
        (3, ObjectType::CNode),
        (4, ObjectType::Frame),
        (5, ObjectType::PageTable),
        (6, ObjectType::Tcb),
        (7, ObjectType::Endpoint),
        (8, ObjectType::Notification),
        (9, ObjectType::Reply),
        (10, ObjectType::IrqControl),
        (11, ObjectType::IrqHandler),
    ] {
        assert_eq!(ObjectType::from_u8(n), Some(expected));
        assert_eq!(expected as u8, n, "{} does not encode as {}", expected.name(), n);
    }
    assert_eq!(ObjectType::from_u8(12), None);
}

#[test]
fn a_copy_carries_nothing_of_its_predecessor() {
    let mut frame = RawCap::new(ObjectType::Frame, ALL, 12, PhysAddr::new(0x8000_1000));
    frame.set_mapping(PhysAddr::new(0x8000_5000), 0x4000);
    let copy = frame.fresh_copy();
    assert_eq!(copy.mapping(), None);
    assert_eq!((copy.kind, copy.rights, copy.paddr), (frame.kind, frame.rights, frame.paddr));
    let mut ep = RawCap::new(ObjectType::Endpoint, ALL, 4, PhysAddr::new(0x8000_2000));
    ep.set_badge(7);
    assert_eq!(ep.fresh_copy().badge(), 0);
    // Untyped memory keeps its watermark: a copy must not hand out what is taken.
    let mut region = untyped(16);
    region.set_watermark(0x2000);
    assert_eq!(region.fresh_copy().watermark(), 0x2000);
}
