use tessera::mm::addr::PhysAddr;
use tessera::mm::region::{CapacityExceeded, Region, RegionList};

fn r(start: u64, end: u64) -> Region {
    Region::new(PhysAddr::new(start), PhysAddr::new(end))
}

fn list<const N: usize>(items: &[Region]) -> RegionList<N> {
    let mut l = RegionList::<N>::new();
    for i in items {
        l.push(*i).unwrap();
    }
    l
}

#[test]
fn normalize_sorts_and_merges_overlaps() {
    let mut l = list::<8>(&[r(300, 400), r(100, 200), r(150, 250)]);
    l.normalize();
    assert_eq!(l.as_slice(), &[r(100, 250), r(300, 400)]);
}

#[test]
fn normalize_merges_touching_regions() {
    // end == start, no overlap. Firmware reservations are frequently exactly
    // adjacent, and leaving these separate makes subtract emit empty gaps.
    let mut l = list::<8>(&[r(100, 200), r(200, 300)]);
    l.normalize();
    assert_eq!(l.as_slice(), &[r(100, 300)]);
}

#[test]
fn normalize_keeps_disjoint_regions_apart() {
    let mut l = list::<8>(&[r(100, 200), r(201, 300)]);
    l.normalize();
    assert_eq!(l.len(), 2);
}

#[test]
fn subtract_cut_in_the_middle_splits() {
    let ram = list::<8>(&[r(0, 1000)]);
    let cuts = list::<8>(&[r(400, 600)]);
    assert_eq!(ram.subtract(&cuts).unwrap().as_slice(), &[r(0, 400), r(600, 1000)]);
}

#[test]
fn subtract_trims_both_ends() {
    let ram = list::<8>(&[r(100, 900)]);
    let cuts = list::<8>(&[r(0, 200), r(800, 1000)]);
    assert_eq!(ram.subtract(&cuts).unwrap().as_slice(), &[r(200, 800)]);
}

#[test]
fn subtract_covering_cut_removes_everything() {
    let ram = list::<8>(&[r(100, 200)]);
    let cuts = list::<8>(&[r(0, 1000)]);
    assert!(ram.subtract(&cuts).unwrap().is_empty());
}

#[test]
fn subtract_ignores_non_overlapping_cuts() {
    let ram = list::<8>(&[r(100, 200)]);
    let cuts = list::<8>(&[r(0, 50), r(500, 600)]);
    assert_eq!(ram.subtract(&cuts).unwrap().as_slice(), &[r(100, 200)]);
}

#[test]
fn subtract_handles_unsorted_overlapping_cuts() {
    // The exact shape firmware hands us: out of order, overlapping.
    let ram = list::<8>(&[r(0, 1000)]);
    let cuts = list::<8>(&[r(700, 800), r(100, 300), r(200, 400)]);
    assert_eq!(
        ram.subtract(&cuts).unwrap().as_slice(),
        &[r(0, 100), r(400, 700), r(800, 1000)]
    );
}

#[test]
fn subtract_across_several_regions() {
    let ram = list::<8>(&[r(0, 100), r(200, 300), r(400, 500)]);
    let cuts = list::<8>(&[r(50, 250)]);
    assert_eq!(ram.subtract(&cuts).unwrap().as_slice(), &[r(0, 50), r(250, 300), r(400, 500)]);
}

#[test]
fn page_aligned_shrinks_inward() {
    // Rounding outward would hand out memory belonging to a neighbour.
    let region = r(0x1001, 0x2fff).page_aligned();
    assert_eq!(region, r(0x2000, 0x2000));
    assert!(region.is_empty());
}

#[test]
fn page_aligned_out_grows_outward() {
    assert_eq!(r(0x1001, 0x2fff).page_aligned_out(), r(0x1000, 0x3000));
}

#[test]
fn push_rejects_overflow_rather_than_truncating() {
    let mut l = RegionList::<2>::new();
    assert!(l.push(r(0, 1)).is_ok());
    assert!(l.push(r(2, 3)).is_ok());
    assert_eq!(l.push(r(4, 5)), Err(CapacityExceeded));
}

#[test]
fn push_silently_drops_empty_regions() {
    let mut l = RegionList::<2>::new();
    l.push(r(5, 5)).unwrap();
    assert!(l.is_empty());
}

#[test]
fn regions_measure_and_compare_themselves() {
    let a = r(0x1000, 0x3800);
    assert_eq!(a.len(), 0x2800);
    assert_eq!(a.frame_count(), 2);
    assert!(a.contains(PhysAddr::new(0x1000)));
    assert!(!a.contains(PhysAddr::new(0x3800)));
    assert!(a.overlaps(&r(0x3000, 0x4000)));
    assert!(!a.overlaps(&r(0x3800, 0x4000)));
    assert_eq!(list::<4>(&[r(0, 10), r(20, 25)]).total_bytes(), 15);
}

#[test]
fn regions_can_be_changed_in_place() {
    let mut l = list::<8>(&[r(100, 200), r(300, 400)]);
    for region in l.as_mut_slice() {
        region.end = PhysAddr::new(region.end.as_usize() + 50);
    }
    assert_eq!(l.as_slice(), &[r(100, 250), r(300, 450)]);
    l.as_mut_slice()[1] = r(7, 8);
    assert_eq!(l.as_slice(), &[r(100, 250), r(7, 8)]);
}
