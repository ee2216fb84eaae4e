//! The physical frame allocator: a bump pointer over the free regions.

use crate::mm::addr::{PhysAddr, PAGE_SIZE};
use crate::mm::memory::Memory;
use crate::mm::region::{Region, RegionList};
use crate::mm::{Regions, MAX_REGIONS};
use vstd::prelude::*;

verus! {

/// The whole frames of `[start, end)`, lowest first.
pub open spec fn frames_in(start: u64, end: u64) -> Seq<u64> {
    if end < start {
        Seq::empty()
    } else {
        Seq::new(((end - start) / 4096) as nat, |i: int| (start + 4096 * i) as u64)
    }
}

/// Every whole frame left when the allocator is at `cursor` in region
/// `current`, in the order they will be handed out.
pub open spec fn frames_from(regions: Seq<Region>, current: int, cursor: u64) -> Seq<u64>
    decreases regions.len() - current,
{
    if current < 0 || current >= regions.len() {
        Seq::empty()
    } else if current + 1 < regions.len() {
        frames_in(cursor, regions[current].end.0) + frames_from(
            regions,
            current + 1,
            regions[current + 1].start.0,
        )
    } else {
        frames_in(cursor, regions[current].end.0)
    }
}

/// What is left of the regions themselves, empty ones included.
pub open spec fn regions_from(regions: Seq<Region>, current: int, cursor: u64) -> Seq<Region> {
    if current < 0 || current >= regions.len() {
        Seq::empty()
    } else {
        regions.skip(current).update(
            0,
            Region { start: PhysAddr(cursor), end: regions[current].end },
        )
    }
}

proof fn lemma_frames_from_len(regions: Seq<Region>, current: int, cursor: u64)
    requires
        0 <= current,
    ensures
        current <= regions.len() ==> frames_from(regions, current, cursor).len() <= (regions.len()
            - current) * 0x10_0000_0000_0000,
        current > regions.len() ==> frames_from(regions, current, cursor).len() == 0,
    decreases regions.len() - current,
{
    if current + 1 < regions.len() {
        lemma_frames_from_len(regions, current + 1, regions[current + 1].start.0);
    }
}

/// What is left of some regions, none of them empty, once a frame has been taken
/// from them: the first region that holds a page loses its first page. Regions
/// before it that hold none are passed over for good.
pub open spec fn taken(left: Seq<Region>) -> Seq<Region>
    decreases left.len(),
{
    if left.len() == 0 {
        left
    } else if left[0].size() < PAGE_SIZE {
        taken(left.drop_first())
    } else {
        crate::mm::region::without_empty(
            left.update(
                0,
                Region { start: PhysAddr((left[0].start.0 + PAGE_SIZE) as u64), end: left[0].end },
            ),
        )
    }
}

/// What is left of some regions once `n` frames have been taken from them.
pub open spec fn left_after(regions: Seq<Region>, n: nat) -> Seq<Region>
    decreases regions.len(),
{
    if n == 0 || regions.len() == 0 {
        crate::mm::region::without_empty(regions)
    } else {
        let first = regions[0];
        let here = frames_in(first.start.0, first.end.0).len();
        if n <= here {
            crate::mm::region::without_empty(
                regions.update(
                    0,
                    Region {
                        start: PhysAddr((first.start.0 + PAGE_SIZE * n) as u64),
                        end: first.end,
                    },
                ),
            )
        } else {
            left_after(regions.drop_first(), (n - here) as nat)
        }
    }
}

/// Whether every region is made of whole pages.
pub open spec fn whole_pages(regions: Seq<Region>) -> bool {
    forall|i: int| 0 <= i < regions.len() ==> (#[trigger] regions[i]).size() % 4096 == 0
}

/// Whether an allocator that is at `cursor` in region `current` has handed out
/// `allocated` frames.
spec fn is_at(regions: Seq<Region>, current: int, cursor: u64, allocated: nat) -> bool {
    if current == regions.len() {
        allocated == frames_of(regions).len()
    } else {
        let r = regions[current];
        &&& 0 <= current < regions.len()
        &&& r.start.0 <= cursor
        &&& (cursor - r.start.0) % 4096 == 0
        &&& cursor == r.start.0 || cursor <= r.end.0
        &&& allocated == frames_of(regions.take(current)).len() + (cursor - r.start.0) / 4096
    }
}

pub struct BumpAllocator {
    regions: Regions,
    /// Index into `regions` of the region we are currently handing out of.
    current: usize,
    /// Next address to hand out.
    cursor: PhysAddr,
    allocated: u64,
}

impl BumpAllocator {
    #[verifier::type_invariant]
    spec fn is_placed(self) -> bool {
        &&& frames_of(self.regions@).len() <= u64::MAX
        &&& is_at(self.regions@, self.current as int, self.cursor.0, self.allocated as nat)
        &&& 0 < self.current < self.regions@.len() ==> self.cursor.0
            > self.regions@[self.current as int].start.0
    }

    /// Whether the frames handed out, those still to come and what is left of
    /// the memory add up to the memory it was given. Once it has come to the end
    /// of that, what is too small for a frame is not kept either.
    pub open spec fn is_accounted(&self) -> bool {
        let all = frames_of(self.home());
        &&& self.handed_out() + self.pending().len() == all.len()
        &&& self.pending() == all.skip(self.handed_out() as int)
        &&& self.left() == left_after(self.home(), self.handed_out()) || (self.pending().len() == 0
            && self.left().len() == 0)
    }

    proof fn lemma_accounted(&self)
        requires
            self.is_placed(),
        ensures
            self.is_accounted(),
    {
        let regions = self.regions@;
        let current = self.current as int;
        lemma_place(regions, current, self.cursor.0, self.allocated as nat);
        if current < regions.len() {
            lemma_left_after(regions, current, self.cursor.0, self.allocated as nat);
        }
    }

    /// The frames still to be handed out, in order.
    pub closed spec fn pending(&self) -> Seq<u64> {
        frames_from(self.regions@, self.current as int, self.cursor.0)
    }

    /// The memory it was given to hand out.
    pub closed spec fn home(&self) -> Seq<Region> {
        self.regions@
    }

    /// How many frames have been handed out.
    pub closed spec fn handed_out(&self) -> nat {
        self.allocated as nat
    }

    /// The memory still to be handed out.
    pub closed spec fn left(&self) -> Seq<Region> {
        crate::mm::region::without_empty(
            regions_from(self.regions@, self.current as int, self.cursor.0),
        )
    }

    pub fn new() -> (r: Self)
        ensures
            r.pending() == Seq::<u64>::empty(),
            r.handed_out() == 0,
            r.left() == Seq::<Region>::empty(),
            r.home() == Seq::<Region>::empty(),
            r.is_accounted(),
    {
        let r = BumpAllocator {
            regions: RegionList::new(),
            current: 0,
            cursor: PhysAddr(0),
            allocated: 0,
        };
        proof {
            r.lemma_accounted();
        }
        r
    }

    /// Take ownership of the free regions.
    pub fn init(&mut self, free: &Regions)
        ensures
            final(self).pending() == frames_from(
                free@,
                0,
                if free@.len() > 0 {
                    free@[0].start.0
                } else {
                    0
                },
            ),
            final(self).handed_out() == 0,
            final(self).left() == crate::mm::region::without_empty(free@),
            final(self).home() == free@,
            final(self).is_accounted(),
    {
        let count: usize = free.len();
        let cursor: PhysAddr = if count > 0 {
            free.get(0).start
        } else {
            PhysAddr(0)
        };
        proof {
            lemma_frames_from_len(free@, 0, cursor.0);
            assert(count <= MAX_REGIONS);
            assert(free@.len() * 0x10_0000_0000_0000 <= 32 * 0x10_0000_0000_0000) by (nonlinear_arith)
                requires
                    free@.len() <= 32,
            ;
            assert(regions_from(free@, 0, cursor.0) =~= free@);
            lemma_frames_from_of(free@, 0, cursor.0);
            assert(free@.take(0) =~= Seq::<Region>::empty());
        }
        *self = BumpAllocator { regions: *free, current: 0, cursor, allocated: 0 };
        proof {
            self.lemma_accounted();
        }
    }

    /// Hand out one zeroed 4 KiB frame.
    pub fn alloc_frame(&mut self, mem: &mut Memory) -> (r: Option<PhysAddr>)
        ensures
            final(self).home() == old(self).home(),
            final(self).left() == taken(old(self).left()),
            final(self).is_accounted(),
            old(self).pending().len() == 0 ==> {
                &&& r is None
                &&& final(self).pending() == old(self).pending()
                &&& final(self).handed_out() == old(self).handed_out()
                &&& final(mem)@ == old(mem)@
            },
            old(self).pending().len() > 0 ==> {
                &&& r == Some(PhysAddr(old(self).pending()[0]))
                &&& old(self).pending()[0] + PAGE_SIZE <= u64::MAX
                &&& final(self).pending() == old(self).pending().drop_first()
                &&& final(self).handed_out() == old(self).handed_out() + 1
                &&& final(mem)@ == crate::mm::memory::with_zero_frame(
                    old(mem)@,
                    old(self).pending()[0],
                )
            },
    {
        proof {
            use_type_invariant(&*self);
            lemma_place(
                self.regions@,
                self.current as int,
                self.cursor.0,
                self.allocated as nat,
            );
        }
        let ghost all = self.pending();
        let ghost regions = self.regions@;
        let count: usize = self.regions.len();
        let mut current: usize = self.current;
        let mut cursor: u64 = self.cursor.0;
        while current < count
            invariant
                *self == *old(self),
                count == self.regions@.len(),
                regions == self.regions@,
                all == old(self).pending(),
                all == frames_from(regions, current as int, cursor),
                frames_of(regions).len() <= u64::MAX,
                self.allocated + all.len() <= u64::MAX,
                is_at(regions, current as int, cursor, self.allocated as nat),
                taken(crate::mm::region::without_empty(regions_from(regions, current as int, cursor)))
                    == taken(old(self).left()),
                mem@ == old(mem)@,
            decreases count - current,
        {
            let region: Region = self.regions.get(current);
            let ghost here = frames_in(cursor, region.end.0);
            let ghost rest = regions_from(regions, current as int, cursor);
            proof {
                lemma_without_empty_first(rest);
                assert(rest[0] == Region { start: PhysAddr(cursor), end: region.end });
            }
            if region.end.0 >= cursor && region.end.0 - cursor >= PAGE_SIZE {
                proof {
                    let after = frames_in((cursor + 4096) as u64, region.end.0);
                    assert(here.drop_first() =~= after);
                    assert(all[0] == here[0]);
                    assert(here[0] == cursor);
                    assert(frames_from(regions, current as int, (cursor + 4096) as u64)
                        =~= all.drop_first());
                    lemma_first_taken(rest, PhysAddr((cursor + 4096) as u64));
                    assert(rest.update(
                        0,
                        Region { start: PhysAddr((cursor + 4096) as u64), end: region.end },
                    ) =~= regions_from(regions, current as int, (cursor + 4096) as u64));
                }
                *self = BumpAllocator {
                    regions: self.regions,
                    current,
                    cursor: PhysAddr(cursor + PAGE_SIZE),
                    allocated: self.allocated + 1,
                };
                mem.zero(cursor, 512);
                proof {
                    self.lemma_accounted();
                }
                return Some(PhysAddr(cursor));
            }
            // This region is exhausted; move to the next.

            assert(here =~= Seq::<u64>::empty());
            let next: usize = current + 1;
            let start: u64 = if next < count {
                self.regions.get(next).start.0
            } else {
                cursor
            };
            proof {
                lemma_next_region(regions, current as int, cursor, self.allocated as nat);
                if next < count {
                    assert(all =~= frames_from(regions, next as int, start));
                } else {
                    assert(all =~= Seq::<u64>::empty());
                }
                assert(rest.drop_first() =~= regions_from(regions, next as int, start));
                let tail = crate::mm::region::without_empty(rest.drop_first());
                if !rest[0].empty() {
                    assert((seq![rest[0]] + tail).drop_first() =~= tail);
                }
            }
            current = next;
            cursor = start;
        }
        proof {
            assert(regions_from(regions, current as int, cursor) =~= Seq::<Region>::empty());
        }
        *self = BumpAllocator {
            regions: self.regions,
            current,
            cursor: PhysAddr(cursor),
            allocated: self.allocated,
        };
        proof {
            self.lemma_accounted();
        }
        None
    }

    pub fn frames_allocated(&self) -> (r: u64)
        ensures
            r == self.handed_out(),
            self.is_accounted(),
    {
        proof {
            use_type_invariant(self);
            self.lemma_accounted();
        }
        self.allocated
    }

    pub fn bytes_allocated(&self) -> (r: u64)
        requires
            self.handed_out() * PAGE_SIZE <= u64::MAX,
        ensures
            r == self.handed_out() * PAGE_SIZE,
    {
        self.allocated * PAGE_SIZE
    }

    /// What is left: what becomes the first untyped capabilities.
    pub fn remaining(&self) -> (r: Regions)
        ensures
            r@ == self.left(),
            self.is_accounted(),
    {
        proof {
            use_type_invariant(self);
            self.lemma_accounted();
        }
        let mut out: Regions = RegionList::new();
        let count: usize = self.regions.len();
        let ghost whole = regions_from(self.regions@, self.current as int, self.cursor.0);
        if self.current >= count {
            return out;
        }
        let mut i: usize = self.current;
        while i < count
            invariant
                self.current <= i <= count,
                count == self.regions@.len(),
                count <= MAX_REGIONS,
                self.current < count,
                whole == regions_from(self.regions@, self.current as int, self.cursor.0),
                out@ == crate::mm::region::without_empty(whole.take(i - self.current)),
                out@.len() <= i - self.current,
            decreases count - i,
        {
            let region: Region = self.regions.get(i);
            let start: PhysAddr = if i == self.current {
                self.cursor
            } else {
                region.start
            };
            assert(whole.take(i - self.current + 1).drop_last() =~= whole.take(i - self.current));
            assert(whole[i - self.current] == Region { start, end: region.end });
            let _ = out.push(Region { start, end: region.end });
            i = i + 1;
        }
        assert(whole.take(count - self.current) =~= whole);
        out
    }

    pub fn bytes_remaining(&self) -> (r: u64)
        requires
            crate::mm::region::total_size(self.left()) <= u64::MAX,
        ensures
            r == crate::mm::region::total_size(self.left()),
            whole_pages(self.home()) ==> r + self.handed_out() * PAGE_SIZE
                == crate::mm::region::total_size(self.home()),
    {
        proof {
            use_type_invariant(self);
            self.lemma_accounted();
            if whole_pages(self.home()) {
                self.lemma_whole();
            }
        }
        self.remaining().total_bytes()
    }
}

/// The whole frames of some regions, region by region.
pub open spec fn frames_of(regions: Seq<Region>) -> Seq<u64>
    decreases regions.len(),
{
    if regions.len() == 0 {
        Seq::empty()
    } else {
        frames_of(regions.drop_last()) + frames_in(regions.last().start.0, regions.last().end.0)
    }
}

proof fn lemma_frames_of_first(regions: Seq<Region>)
    requires
        regions.len() > 0,
    ensures
        frames_of(regions) == frames_in(regions[0].start.0, regions[0].end.0) + frames_of(
            regions.drop_first(),
        ),
    decreases regions.len(),
{
    let rest = regions.drop_first();
    if rest.len() > 0 {
        lemma_frames_of_first(regions.drop_last());
        assert(regions.drop_last().drop_first() =~= rest.drop_last());
        assert(rest.last() == regions.last());
        assert(regions.drop_last()[0] == regions[0]);
        assert(frames_of(rest) == frames_of(rest.drop_last()) + frames_in(
            rest.last().start.0,
            rest.last().end.0,
        ));
    } else {
        assert(regions.drop_last() =~= Seq::<Region>::empty());
        assert(rest =~= Seq::<Region>::empty());
    }
    assert(frames_of(regions) =~= frames_in(regions[0].start.0, regions[0].end.0) + frames_of(rest));
}

proof fn lemma_frames_from_of(regions: Seq<Region>, current: int, cursor: u64)
    requires
        0 <= current,
    ensures
        frames_from(regions, current, cursor) == frames_of(regions_from(regions, current, cursor)),
    decreases regions.len() - current,
{
    let rest = regions_from(regions, current, cursor);
    if current < regions.len() {
        lemma_frames_of_first(rest);
        if current + 1 < regions.len() {
            let start = regions[current + 1].start.0;
            lemma_frames_from_of(regions, current + 1, start);
            assert(rest.drop_first() =~= regions_from(regions, current + 1, start));
        } else {
            assert(rest.drop_first() =~= Seq::<Region>::empty());
            assert(frames_in(cursor, regions[current].end.0) + Seq::<u64>::empty() =~= frames_in(
                cursor,
                regions[current].end.0,
            ));
        }
    }
}

/// Taking the frames of two runs of regions is taking those of the first, then
/// those of the second.
proof fn lemma_frames_of_parts(regions: Seq<Region>, k: int)
    requires
        0 <= k <= regions.len(),
    ensures
        frames_of(regions) == frames_of(regions.take(k)) + frames_of(regions.skip(k)),
    decreases regions.len(),
{
    if k == regions.len() {
        assert(regions.take(k) =~= regions);
        assert(regions.skip(k) =~= Seq::<Region>::empty());
        assert(frames_of(regions) + Seq::<u64>::empty() =~= frames_of(regions));
    } else {
        let before = regions.drop_last();
        lemma_frames_of_parts(before, k);
        assert(before.take(k) =~= regions.take(k));
        assert(before.skip(k) =~= regions.skip(k).drop_last());
        assert(regions.skip(k).last() == regions.last());
        assert(frames_of(regions) =~= frames_of(regions.take(k)) + frames_of(regions.skip(k)));
    }
}

/// The frames still to come are those that have not been handed out.
proof fn lemma_place(regions: Seq<Region>, current: int, cursor: u64, allocated: nat)
    requires
        is_at(regions, current, cursor, allocated),
    ensures
        allocated + frames_from(regions, current, cursor).len() == frames_of(regions).len(),
        frames_from(regions, current, cursor) == frames_of(regions).skip(allocated as int),
{
    if current == regions.len() {
        assert(frames_of(regions).skip(allocated as int) =~= Seq::<u64>::empty());
    } else {
        let r = regions[current];
        let rest = regions.skip(current);
        let from = regions_from(regions, current, cursor);
        let here = frames_in(r.start.0, r.end.0);
        let used = (cursor - r.start.0) / 4096;
        lemma_frames_of_parts(regions, current);
        lemma_frames_of_first(rest);
        lemma_frames_from_of(regions, current, cursor);
        lemma_frames_of_first(from);
        assert(from.drop_first() =~= rest.drop_first());
        assert(used <= here.len());
        assert(here.skip(used) =~= frames_in(cursor, r.end.0));
        assert(frames_from(regions, current, cursor) =~= frames_of(regions).skip(
            allocated as int,
        ));
    }
}

/// A region that has no frame left is as good as the next one, untouched.
proof fn lemma_next_region(regions: Seq<Region>, current: int, cursor: u64, allocated: nat)
    requires
        current < regions.len(),
        is_at(regions, current, cursor, allocated),
        regions[current].end.0 < cursor || regions[current].end.0 - cursor < 4096,
    ensures
        current + 1 < regions.len() ==> is_at(
            regions,
            current + 1,
            regions[current + 1].start.0,
            allocated,
        ),
        current + 1 == regions.len() ==> is_at(regions, current + 1, cursor, allocated),
{
    let r = regions[current];
    let upto = regions.take(current + 1);
    assert(upto.drop_last() =~= regions.take(current));
    assert(upto.last() == r);
    assert(frames_in(r.start.0, r.end.0).len() == (cursor - r.start.0) / 4096);
    assert(current + 1 == regions.len() ==> upto =~= regions);
}

/// What is left is what the number of frames handed out leaves.
proof fn lemma_left_after(regions: Seq<Region>, current: int, cursor: u64, allocated: nat)
    requires
        current < regions.len(),
        is_at(regions, current, cursor, allocated),
        current > 0 ==> cursor > regions[current].start.0,
    ensures
        crate::mm::region::without_empty(regions_from(regions, current, cursor)) == left_after(
            regions,
            allocated,
        ),
    decreases current,
{
    let from = regions_from(regions, current, cursor);
    if current == 0 {
        assert(regions.take(0) =~= Seq::<Region>::empty());
        if allocated == 0 {
            assert(from =~= regions);
        } else {
            assert(from =~= regions.update(
                0,
                Region {
                    start: PhysAddr((regions[0].start.0 + PAGE_SIZE * allocated) as u64),
                    end: regions[0].end,
                },
            ));
        }
    } else {
        let later = regions.drop_first();
        let here = frames_in(regions[0].start.0, regions[0].end.0).len();
        lemma_frames_of_first(regions.take(current));
        assert(regions.take(current).drop_first() =~= later.take(current - 1));
        assert(later[current - 1] == regions[current]);
        assert(allocated > here);
        lemma_left_after(later, current - 1, cursor, (allocated - here) as nat);
        assert(regions_from(later, current - 1, cursor) =~= from);
    }
}

proof fn lemma_without_empty_first(s: Seq<Region>)
    requires
        s.len() > 0,
    ensures
        crate::mm::region::without_empty(s) == if s[0].empty() {
            crate::mm::region::without_empty(s.drop_first())
        } else {
            seq![s[0]] + crate::mm::region::without_empty(s.drop_first())
        },
    decreases s.len(),
{
    let rest = s.drop_first();
    if rest.len() > 0 {
        let before = s.drop_last();
        lemma_without_empty_first(before);
        assert(before.drop_first() =~= rest.drop_last());
        assert(rest.last() == s.last());
        assert(before[0] == s[0]);
        assert(crate::mm::region::without_empty(s) =~= if s[0].empty() {
            crate::mm::region::without_empty(rest)
        } else {
            seq![s[0]] + crate::mm::region::without_empty(rest)
        });
    } else {
        assert(s.drop_last() =~= Seq::<Region>::empty());
        assert(rest =~= Seq::<Region>::empty());
        assert(crate::mm::region::without_empty(s) =~= if s[0].empty() {
            crate::mm::region::without_empty(rest)
        } else {
            seq![s[0]] + crate::mm::region::without_empty(rest)
        });
    }
}

proof fn lemma_without_empty_twice(s: Seq<Region>)
    ensures
        crate::mm::region::none_empty(crate::mm::region::without_empty(s)),
        crate::mm::region::without_empty(crate::mm::region::without_empty(s))
            == crate::mm::region::without_empty(s),
        crate::mm::region::none_empty(s) ==> crate::mm::region::without_empty(s) == s,
    decreases s.len(),
{
    if s.len() > 0 {
        let before = s.drop_last();
        let kept = crate::mm::region::without_empty(before);
        lemma_without_empty_twice(before);
        assert(kept.push(s.last()).drop_last() =~= kept);
        assert(crate::mm::region::none_empty(s) ==> !s[s.len() - 1].empty());
        assert(crate::mm::region::none_empty(s) ==> crate::mm::region::none_empty(before)) by {
            assert forall|i: int|
                crate::mm::region::none_empty(s) && 0 <= i < before.len() implies !(
            #[trigger] before[i]).empty() by {
                assert(before[i] == s[i]);
            }
        }
        assert(before.push(s.last()) =~= s);
    } else {
        assert(s =~= Seq::<Region>::empty());
    }
}

/// Taking the first page of the first region, which is not empty.
proof fn lemma_first_taken(s: Seq<Region>, start: PhysAddr)
    requires
        s.len() > 0,
        s[0].size() >= PAGE_SIZE,
        start.0 == s[0].start.0 + PAGE_SIZE,
    ensures
        taken(crate::mm::region::without_empty(s)) == crate::mm::region::without_empty(
            s.update(0, Region { start, end: s[0].end }),
        ),
{
    let less = Region { start, end: s[0].end };
    let tail = crate::mm::region::without_empty(s.drop_first());
    let left = crate::mm::region::without_empty(s);
    lemma_without_empty_first(s);
    lemma_without_empty_first(s.update(0, less));
    assert(s.update(0, less).drop_first() =~= s.drop_first());
    assert(left.update(0, less) =~= seq![less] + tail);
    lemma_without_empty_first(seq![less] + tail);
    assert((seq![less] + tail).drop_first() =~= tail);
    lemma_without_empty_twice(s.drop_first());
}

proof fn lemma_total_first(s: Seq<Region>)
    requires
        s.len() > 0,
    ensures
        crate::mm::region::total_size(s) == s[0].size() + crate::mm::region::total_size(
            s.drop_first(),
        ),
    decreases s.len(),
{
    let rest = s.drop_first();
    if rest.len() > 0 {
        lemma_total_first(s.drop_last());
        assert(s.drop_last().drop_first() =~= rest.drop_last());
        assert(s.drop_last()[0] == s[0]);
        assert(rest.last() == s.last());
    } else {
        assert(s.drop_last() =~= Seq::<Region>::empty());
        assert(rest =~= Seq::<Region>::empty());
        assert(s.last() == s[0]);
    }
}

proof fn lemma_total_without_empty(s: Seq<Region>)
    ensures
        crate::mm::region::total_size(crate::mm::region::without_empty(s))
            == crate::mm::region::total_size(s),
    decreases s.len(),
{
    if s.len() > 0 {
        let kept = crate::mm::region::without_empty(s.drop_last());
        lemma_total_without_empty(s.drop_last());
        assert(kept.push(s.last()).drop_last() =~= kept);
    }
}

/// Whole pages hold as many bytes as their frames do.
proof fn lemma_whole_pages(s: Seq<Region>)
    requires
        whole_pages(s),
    ensures
        crate::mm::region::total_size(s) == PAGE_SIZE * frames_of(s).len(),
    decreases s.len(),
{
    if s.len() > 0 {
        let before = s.drop_last();
        assert forall|i: int| 0 <= i < before.len() implies (#[trigger] before[i]).size() % 4096
            == 0 by {
            assert(before[i] == s[i]);
        }
        lemma_whole_pages(before);
        let last = s[s.len() - 1];
        assert(last.size() % 4096 == 0);
        assert(last.size() == 4096 * frames_in(last.start.0, last.end.0).len());
    }
}

proof fn lemma_frames_of_without_empty(regions: Seq<Region>)
    ensures
        frames_of(crate::mm::region::without_empty(regions)) == frames_of(regions),
        forall|i: int|
            0 <= i < crate::mm::region::without_empty(regions).len() ==> regions.contains(
                #[trigger] crate::mm::region::without_empty(regions)[i],
            ),
    decreases regions.len(),
{
    if regions.len() > 0 {
        let rest = regions.drop_last();
        let kept = crate::mm::region::without_empty(rest);
        lemma_frames_of_without_empty(rest);
        let last = regions.last();
        assert(kept.push(last).drop_last() =~= kept);
        assert(frames_of(rest) + Seq::<u64>::empty() =~= frames_of(rest));
        assert(last.size() == 0 ==> frames_in(last.start.0, last.end.0) =~= Seq::<u64>::empty());
        assert forall|i: int|
            0 <= i < crate::mm::region::without_empty(regions).len() implies regions.contains(
            #[trigger] crate::mm::region::without_empty(regions)[i],
        ) by {
            if i < kept.len() {
                assert(rest.contains(kept[i]));
                let j = choose|j: int| 0 <= j < rest.len() && rest[j] == kept[i];
                assert(regions[j] == kept[i]);
            } else {
                assert(regions[regions.len() - 1] == last);
            }
        }
    }
}

proof fn lemma_frames_end(regions: Seq<Region>, limit: int, k: int)
    requires
        forall|i: int| 0 <= i < regions.len() ==> (#[trigger] regions[i]).end.0 <= limit,
        0 <= k < frames_of(regions).len(),
    ensures
        frames_of(regions)[k] + 4096 <= limit,
    decreases regions.len(),
{
    let before = frames_of(regions.drop_last());
    assert(regions[regions.len() - 1].end.0 <= limit);
    if k < before.len() {
        assert forall|i: int| 0 <= i < regions.drop_last().len() implies (
        #[trigger] regions.drop_last()[i]).end.0 <= limit by {
            assert(regions[i].end.0 <= limit);
        }
        lemma_frames_end(regions.drop_last(), limit, k);
    }
}

/// From whole pages, taking a frame takes a page: what is left loses exactly that
/// many bytes, and goes on being whole pages. From nothing, nothing is taken.
pub proof fn taking_a_frame_takes_a_page(left: Seq<Region>)
    requires
        whole_pages(left),
        crate::mm::region::none_empty(left),
    ensures
        whole_pages(taken(left)),
        crate::mm::region::none_empty(taken(left)),
        frames_of(left).len() == 0 ==> left.len() == 0 && taken(left) == left,
        frames_of(left).len() > 0 ==> crate::mm::region::total_size(taken(left))
            == crate::mm::region::total_size(left) - PAGE_SIZE,
{
    lemma_whole_pages(left);
    if left.len() > 0 {
        let less = Region {
            start: PhysAddr((left[0].start.0 + PAGE_SIZE) as u64),
            end: left[0].end,
        };
        let after = left.update(0, less);
        assert(!left[0].empty() && left[0].size() % 4096 == 0);
        assert(left[0].size() >= PAGE_SIZE);
        lemma_total_first(left);
        lemma_total_first(after);
        assert(after.drop_first() =~= left.drop_first());
        lemma_total_without_empty(after);
        lemma_without_empty_twice(after);
        lemma_frames_of_without_empty(after);
        assert forall|i: int| 0 <= i < taken(left).len() implies (#[trigger] taken(left)[i]).size()
            % 4096 == 0 by {
            let j = choose|j: int| 0 <= j < after.len() && after[j] == taken(left)[i];
            assert(j > 0 ==> after[j] == left[j]);
            assert(left[j].size() % 4096 == 0);
        }
    } else {
        assert(left =~= Seq::<Region>::empty());
    }
}

/// The frame that is taken meets nothing that is left, where regions do not
/// overlap; and neither does what was taken before, because what is left lies in
/// what was left before.
pub proof fn a_frame_taken_is_not_left(left: Seq<Region>, i: int)
    requires
        crate::mm::region::never_overlapping(left),
        crate::mm::region::none_empty(left),
        0 <= i < taken(left).len(),
    ensures
        frames_of(left).len() > 0,
        frames_of(left)[0] + PAGE_SIZE <= taken(left)[i].start.0 || taken(left)[i].end.0
            <= frames_of(left)[0],
        crate::mm::region::never_overlapping(taken(left)),
        crate::mm::region::none_empty(taken(left)),
        exists|j: int|
            0 <= j < left.len() && (#[trigger] left[j]).start.0 <= taken(left)[i].start.0
                && taken(left)[i].end == left[j].end,
    decreases left.len(),
{
    let rest = left.drop_first();
    lemma_frames_of_first(left);
    if left[0].size() < PAGE_SIZE {
        assert forall|k: int| 0 <= k < rest.len() implies !(#[trigger] rest[k]).empty() by {
            assert(rest[k] == left[k + 1]);
        }
        assert forall|k: int, l: int| 0 <= k < l < rest.len() implies !(#[trigger] rest[k]).meets(
            #[trigger] rest[l],
        ) by {
            assert(rest[k] == left[k + 1] && rest[l] == left[l + 1]);
        }
        a_frame_taken_is_not_left(rest, i);
        let j = choose|j: int|
            0 <= j < rest.len() && (#[trigger] rest[j]).start.0 <= taken(rest)[i].start.0
                && taken(rest)[i].end == rest[j].end;
        assert(left[j + 1] == rest[j]);
        assert(frames_in(left[0].start.0, left[0].end.0) =~= Seq::<u64>::empty());
        assert(frames_of(left) =~= frames_of(rest));
    } else {
        let less = Region {
            start: PhysAddr((left[0].start.0 + PAGE_SIZE) as u64),
            end: left[0].end,
        };
        let after = left.update(0, less);
        let here = frames_in(left[0].start.0, left[0].end.0);
        assert(frames_of(left)[0] == here[0]);
        lemma_without_empty_first(after);
        assert(after.drop_first() =~= rest);
        lemma_without_empty_twice(after);
        assert(crate::mm::region::none_empty(rest)) by {
            assert forall|k: int| 0 <= k < rest.len() implies !(#[trigger] rest[k]).empty() by {
                assert(rest[k] == left[k + 1]);
            }
        }
        lemma_without_empty_twice(rest);
        let down: int = if less.empty() {
            1
        } else {
            0
        };
        assert(taken(left).len() + down == left.len());
        assert forall|k: int| 0 <= k < taken(left).len() implies #[trigger] taken(left)[k]
            == after[k + down] by {}
        assert forall|k: int, l: int| 0 <= k < l < taken(left).len() implies (#[trigger] taken(
            left,
        )[k]).end.0 <= (#[trigger] taken(left)[l]).start.0 || taken(left)[l].end.0 <= taken(
            left,
        )[k].start.0 by {
            assert(!left[k + down].meets(left[l + down]));
            assert(after[k + down].end == left[k + down].end);
            assert(after[l + down] == left[l + down]);
        }
        let j = i + down;
        assert(left[j].end == taken(left)[i].end);
        if j > 0 {
            assert(!left[0].meets(left[j]));
        }
    }
}

/// Whatever is left lies in one of the regions it was taken from.
proof fn lemma_left_lies_in(regions: Seq<Region>, n: nat, i: int) -> (j: int)
    requires
        crate::mm::region::none_empty(regions),
        0 <= i < left_after(regions, n).len(),
    ensures
        0 <= j < regions.len(),
        regions[j].start.0 <= left_after(regions, n)[i].start.0,
        left_after(regions, n)[i].end == regions[j].end,
    decreases regions.len(),
{
    let left = left_after(regions, n);
    if n == 0 || regions.len() == 0 {
        lemma_without_empty_twice(regions);
        i
    } else {
        let first = regions[0];
        let here = frames_in(first.start.0, first.end.0).len();
        if n <= here {
            let after = regions.update(
                0,
                Region { start: PhysAddr((first.start.0 + PAGE_SIZE * n) as u64), end: first.end },
            );
            lemma_frames_of_without_empty(after);
            let j = choose|j: int| 0 <= j < after.len() && after[j] == left[i];
            assert(j > 0 ==> after[j] == regions[j]);
            j
        } else {
            let rest = regions.drop_first();
            assert forall|k: int| 0 <= k < rest.len() implies !(#[trigger] rest[k]).empty() by {
                assert(rest[k] == regions[k + 1]);
            }
            let j = lemma_left_lies_in(rest, (n - here) as nat, i);
            assert(rest[j] == regions[j + 1]);
            j + 1
        }
    }
}

/// No frame that has been handed out meets anything that is left, where the
/// regions do not overlap: with `n` frames handed out, the `k`th of them lies
/// below or above each region of what is left.
pub proof fn handed_out_frames_are_not_left(regions: Seq<Region>, n: nat, k: int, i: int)
    requires
        crate::mm::region::never_overlapping(regions),
        crate::mm::region::none_empty(regions),
        0 <= k < n <= frames_of(regions).len(),
        0 <= i < left_after(regions, n).len(),
    ensures
        frames_of(regions)[k] + PAGE_SIZE <= left_after(regions, n)[i].start.0 || left_after(
            regions,
            n,
        )[i].end.0 <= frames_of(regions)[k],
    decreases regions.len(),
{
    let first = regions[0];
    let here = frames_in(first.start.0, first.end.0);
    let rest = regions.drop_first();
    let left = left_after(regions, n);
    lemma_frames_of_first(regions);
    assert(!regions[0].empty());
    if n <= here.len() {
        let after = regions.update(
            0,
            Region { start: PhysAddr((first.start.0 + PAGE_SIZE * n) as u64), end: first.end },
        );
        lemma_frames_of_without_empty(after);
        let j = choose|j: int| 0 <= j < after.len() && after[j] == left[i];
        assert(frames_of(regions)[k] == here[k]);
        if j > 0 {
            assert(!regions[0].meets(regions[j]));
        }
    } else {
        assert forall|l: int| 0 <= l < rest.len() implies !(#[trigger] rest[l]).empty() by {
            assert(rest[l] == regions[l + 1]);
        }
        assert forall|l: int, o: int| 0 <= l < o < rest.len() implies !(#[trigger] rest[l]).meets(
            #[trigger] rest[o],
        ) by {
            assert(rest[l] == regions[l + 1] && rest[o] == regions[o + 1]);
        }
        let m = (n - here.len()) as nat;
        if k < here.len() {
            let j = lemma_left_lies_in(rest, m, i);
            assert(frames_of(regions)[k] == here[k]);
            assert(rest[j] == regions[j + 1]);
            assert(!regions[0].meets(regions[j + 1]));
        } else {
            assert(frames_of(regions)[k] == frames_of(rest)[k - here.len()]);
            handed_out_frames_are_not_left(rest, m, k - here.len(), i);
        }
    }
}

impl BumpAllocator {
    proof fn lemma_whole(&self)
        requires
            self.is_placed(),
            whole_pages(self.home()),
        ensures
            crate::mm::region::total_size(self.left()) + self.handed_out() * PAGE_SIZE
                == crate::mm::region::total_size(self.home()),
    {
        let regions = self.regions@;
        let current = self.current as int;
        let cursor = self.cursor.0;
        let from = regions_from(regions, current, cursor);
        lemma_place(regions, current, cursor, self.allocated as nat);
        lemma_frames_from_of(regions, current, cursor);
        lemma_total_without_empty(from);
        assert forall|i: int| 0 <= i < from.len() implies (#[trigger] from[i]).size() % 4096
            == 0 by {
            assert(regions[current + i].size() % 4096 == 0);
        }
        lemma_whole_pages(from);
        lemma_whole_pages(regions);
    }

    /// What is left of the memory holds exactly the frames still to be handed
    /// out, and none of it ends anywhere the memory it came from does not.
    pub proof fn what_is_left_is_what_is_pending(&self)
        ensures
            self.pending() == frames_of(self.left()),
            forall|i: int|
                0 <= i < self.left().len() ==> exists|j: int|
                    0 <= j < self.home().len() && (#[trigger] self.left()[i]).end == (
                    #[trigger] self.home()[j]).end,
    {
        let rest = regions_from(self.regions@, self.current as int, self.cursor.0);
        lemma_frames_from_of(self.regions@, self.current as int, self.cursor.0);
        lemma_frames_of_without_empty(rest);
        assert forall|i: int| 0 <= i < self.left().len() implies exists|j: int|
            0 <= j < self.home().len() && (#[trigger] self.left()[i]).end == (
            #[trigger] self.home()[j]).end by {
            assert(rest.contains(self.left()[i]));
            let k = choose|k: int| 0 <= k < rest.len() && rest[k] == self.left()[i];
            assert(self.home()[self.current + k].end == self.left()[i].end);
        }
    }

    /// No frame still to be handed out ends above all of the memory it came from.
    pub proof fn pending_frames_lie_in_memory(&self, limit: int, k: int)
        requires
            forall|i: int| 0 <= i < self.home().len() ==> (#[trigger] self.home()[i]).end.0 <= limit,
            0 <= k < self.pending().len(),
        ensures
            self.pending()[k] + 4096 <= limit,
    {
        self.what_is_left_is_what_is_pending();
        assert forall|i: int| 0 <= i < self.left().len() implies (#[trigger] self.left()[i]).end.0
            <= limit by {
            let j = choose|j: int|
                0 <= j < self.home().len() && self.left()[i].end == (#[trigger] self.home()[j]).end;
            assert(self.home()[j].end.0 <= limit);
        }
        lemma_frames_end(self.left(), limit, k);
    }
}

/// Every frame the allocator hands out lies whole inside one of its regions,
/// and starts on a page if the region does.
pub proof fn frames_lie_in_their_regions(regions: Seq<Region>, k: int)
    requires
        regions.len() > 0,
        0 <= k < frames_from(regions, 0, regions[0].start.0).len(),
    ensures
        exists|i: int|
            0 <= i < regions.len() && {
                &&& (#[trigger] regions[i]).start.0 <= frames_from(
                    regions,
                    0,
                    regions[0].start.0,
                )[k]
                &&& frames_from(regions, 0, regions[0].start.0)[k] + 4096 <= regions[i].end.0
                &&& regions[i].start.0 % 4096 == 0 ==> frames_from(
                    regions,
                    0,
                    regions[0].start.0,
                )[k] % 4096 == 0
            },
{
    lemma_frame_home(regions, 0, k);
}

proof fn lemma_frame_home(regions: Seq<Region>, current: int, k: int)
    requires
        0 <= current < regions.len(),
        0 <= k < frames_from(regions, current, regions[current].start.0).len(),
    ensures
        exists|i: int|
            current <= i < regions.len() && {
                &&& (#[trigger] regions[i]).start.0 <= frames_from(
                    regions,
                    current,
                    regions[current].start.0,
                )[k]
                &&& frames_from(regions, current, regions[current].start.0)[k] + 4096
                    <= regions[i].end.0
                &&& regions[i].start.0 % 4096 == 0 ==> frames_from(
                    regions,
                    current,
                    regions[current].start.0,
                )[k] % 4096 == 0
            },
    decreases regions.len() - current,
{
    let r = regions[current];
    let here = frames_in(r.start.0, r.end.0);
    let all = frames_from(regions, current, r.start.0);
    if k < here.len() {
        assert(all[k] == here[k]);
        assert(here[k] == r.start.0 + 4096 * k);
        assert(regions[current] == r);
    } else {
        let later = frames_from(regions, current + 1, regions[current + 1].start.0);
        assert(all[k] == later[k - here.len()]);
        lemma_frame_home(regions, current + 1, k - here.len());
    }
}

/// Over regions that do not overlap, in order, the allocator hands out strictly
/// increasing addresses a page or more apart: no frame is ever handed out twice.
pub proof fn frames_never_repeat(regions: Seq<Region>, k: int, l: int)
    requires
        regions.len() > 0,
        crate::mm::region::disjoint(regions),
        crate::mm::region::none_empty(regions),
        0 <= k < l < frames_from(regions, 0, regions[0].start.0).len(),
    ensures
        frames_from(regions, 0, regions[0].start.0)[k] + 4096 <= frames_from(
            regions,
            0,
            regions[0].start.0,
        )[l],
{
    lemma_frames_increase(regions, 0, k, l);
}

proof fn lemma_frames_increase(regions: Seq<Region>, current: int, k: int, l: int)
    requires
        0 <= current < regions.len(),
        crate::mm::region::disjoint(regions),
        crate::mm::region::none_empty(regions),
        0 <= k < l < frames_from(regions, current, regions[current].start.0).len(),
    ensures
        frames_from(regions, current, regions[current].start.0)[k] + 4096 <= frames_from(
            regions,
            current,
            regions[current].start.0,
        )[l],
    decreases regions.len() - current,
{
    let r = regions[current];
    let here = frames_in(r.start.0, r.end.0);
    let all = frames_from(regions, current, r.start.0);
    if l < here.len() {
        assert(all[k] == here[k] && all[l] == here[l]);
    } else {
        let later = frames_from(regions, current + 1, regions[current + 1].start.0);
        assert(all[l] == later[l - here.len()]);
        if k >= here.len() {
            assert(all[k] == later[k - here.len()]);
            lemma_frames_increase(regions, current + 1, k - here.len(), l - here.len());
        } else {
            assert(all[k] == here[k]);
            lemma_frame_home(regions, current + 1, l - here.len());
            let i = choose|i: int|
                current + 1 <= i < regions.len() && (#[trigger] regions[i]).start.0 <= later[l
                    - here.len()] && later[l - here.len()] + 4096 <= regions[i].end.0;
            assert(regions[current].end.0 <= regions[i].start.0);
        }
    }
}

} // verus!
