//! Half-open physical address ranges, and the set arithmetic over them that
//! turns "what RAM exists" plus "what is already spoken for" into "what is
//! free".
//!
//! Fixed-capacity arrays throughout: every one of these lists has a bound that
//! is visible in the type and an overflow that is an explicit error rather than
//! a silent truncation.

use crate::mm::addr::{PhysAddr, PAGE_SIZE};
use vstd::prelude::*;

verus! {

/// A half-open range `[start, end)`.
///
/// Half-open because it composes: adjacent regions share an endpoint, an empty
/// region is `start == end` rather than a special case, and length is
/// `end - start` with no off-by-one.
#[derive(Clone, Copy, PartialEq, Eq, Structural, Debug)]
pub struct Region {
    pub start: PhysAddr,
    pub end: PhysAddr,
}

impl Region {
    /// Whether the region holds the address `a`.
    pub open spec fn covers(self, a: int) -> bool {
        self.start.0 <= a < self.end.0
    }

    /// Whether the region holds no address at all.
    pub open spec fn empty(self) -> bool {
        self.start.0 >= self.end.0
    }

    /// How many bytes the region holds.
    pub open spec fn size(self) -> nat {
        if self.empty() {
            0
        } else {
            (self.end.0 - self.start.0) as nat
        }
    }

    /// The whole pages inside the region.
    pub open spec fn inner_pages(self) -> Region {
        Region {
            start: PhysAddr(crate::mm::addr::rounded_up(self.start.0, PAGE_SIZE) as u64),
            end: PhysAddr(
                crate::mm::addr::rounded_down(self.end.0 as int, PAGE_SIZE as int) as u64,
            ),
        }
    }

    /// The whole pages the region touches.
    pub open spec fn outer_pages(self) -> Region {
        Region {
            start: PhysAddr(
                crate::mm::addr::rounded_down(self.start.0 as int, PAGE_SIZE as int) as u64,
            ),
            end: PhysAddr(crate::mm::addr::rounded_up(self.end.0, PAGE_SIZE) as u64),
        }
    }

    /// Whether two regions' bounds interleave.
    pub open spec fn meets(self, other: Region) -> bool {
        self.start.0 < other.end.0 && other.start.0 < self.end.0
    }

    pub fn new(start: PhysAddr, end: PhysAddr) -> (r: Self)
        ensures
            r.start == start,
            r.end == end,
    {
        Region { start, end }
    }

    pub fn from_start_len(start: PhysAddr, len: u64) -> (r: Self)
        requires
            start.0 + len <= u64::MAX,
        ensures
            r.start == start,
            r.end.0 == start.0 + len,
    {
        Region { start, end: PhysAddr(start.0 + len) }
    }

    pub fn len(&self) -> (r: u64)
        ensures
            r == self.size(),
    {
        self.end.0.saturating_sub(self.start.0)
    }

    pub fn is_empty(&self) -> (r: bool)
        ensures
            r == self.empty(),
    {
        self.start.0 >= self.end.0
    }

    pub fn contains(&self, addr: PhysAddr) -> (r: bool)
        ensures
            r == self.covers(addr.0 as int),
    {
        self.start.0 <= addr.0 && addr.0 < self.end.0
    }

    /// Whether the bounds of the two regions interleave. For two regions that
    /// are not empty this is exactly that they share an address.
    pub fn overlaps(&self, other: &Region) -> (r: bool)
        ensures
            r == self.meets(*other),
            !self.empty() && !other.empty() ==> r == (exists|a: int|
                self.covers(a) && other.covers(a)),
    {
        let r: bool = self.start.0 < other.end.0 && other.start.0 < self.end.0;
        proof {
            if r && !self.empty() && !other.empty() {
                let a = if self.start.0 >= other.start.0 {
                    self.start.0 as int
                } else {
                    other.start.0 as int
                };
                assert(self.covers(a) && other.covers(a));
            }
        }
        r
    }

    /// Shrink to whole pages: start rounds up, end rounds down.
    ///
    /// Deliberately conservative in both directions. A partial page at either
    /// end is unusable as a frame, and rounding *outward* would hand out memory
    /// that belongs to whatever the region was carved out of.
    pub fn page_aligned(&self) -> (r: Self)
        ensures
            r == self.inner_pages(),
    {
        proof {
            crate::bits::lemma_known_powers();
        }
        Region { start: self.start.align_up(PAGE_SIZE), end: self.end.align_down(PAGE_SIZE) }
    }

    /// Grow to whole pages: start rounds down, end rounds up.
    pub fn page_aligned_out(&self) -> (r: Self)
        ensures
            r == self.outer_pages(),
    {
        proof {
            crate::bits::lemma_known_powers();
        }
        Region { start: self.start.align_down(PAGE_SIZE), end: self.end.align_up(PAGE_SIZE) }
    }

    pub fn frame_count(&self) -> (r: u64)
        ensures
            r == self.size() / PAGE_SIZE as nat,
    {
        self.len() / PAGE_SIZE
    }
}

/// Overflow of a fixed-capacity list. Always a bug in the caller's sizing, never
/// something to recover from at runtime.
#[derive(Debug, Clone, Copy, PartialEq, Eq, Structural)]
pub struct CapacityExceeded;

/// Whether some region of `s` holds the address `a`.
pub open spec fn covered(s: Seq<Region>, a: int) -> bool {
    exists|i: int| 0 <= i < s.len() && (#[trigger] s[i]).covers(a)
}

/// Whether no region of `s` is empty.
pub open spec fn none_empty(s: Seq<Region>) -> bool {
    forall|i: int| 0 <= i < s.len() ==> !(#[trigger] s[i]).empty()
}

/// Whether the regions come in order of their start addresses.
pub open spec fn ordered(s: Seq<Region>) -> bool {
    forall|i: int, j: int|
        0 <= i <= j < s.len() ==> (#[trigger] s[i]).start.0 <= (#[trigger] s[j]).start.0
}

/// Whether each region ends before the next one starts, with a gap between.
pub open spec fn separated(s: Seq<Region>) -> bool {
    forall|i: int, j: int|
        0 <= i < j < s.len() ==> (#[trigger] s[i]).end.0 < (#[trigger] s[j]).start.0
}

/// Whether each region ends no later than the next one starts.
pub open spec fn disjoint(s: Seq<Region>) -> bool {
    forall|i: int, j: int|
        0 <= i < j < s.len() ==> (#[trigger] s[i]).end.0 <= (#[trigger] s[j]).start.0
}

/// Whether no two of the regions overlap, in whatever order they come.
pub open spec fn never_overlapping(s: Seq<Region>) -> bool {
    forall|i: int, j: int|
        0 <= i < j < s.len() ==> !(#[trigger] s[i]).meets(#[trigger] s[j])
}

/// Bytes held by all the regions together, each counted in full.
pub open spec fn total_size(s: Seq<Region>) -> nat
    decreases s.len(),
{
    if s.len() == 0 {
        0
    } else {
        total_size(s.drop_last()) + s.last().size()
    }
}

/// What is left of `[cursor, end)` once the regions of `cuts`, in order, are
/// taken away.
pub open spec fn remainder(cursor: u64, end: u64, cuts: Seq<Region>) -> Seq<Region>
    decreases cuts.len(),
{
    if cursor >= end {
        Seq::empty()
    } else if cuts.len() == 0 || (cuts[0].end.0 > cursor && cuts[0].start.0 >= end) {
        seq![Region { start: PhysAddr(cursor), end: PhysAddr(end) }]
    } else if cuts[0].end.0 <= cursor {
        remainder(cursor, end, cuts.drop_first())
    } else if cuts[0].start.0 > cursor {
        seq![Region { start: PhysAddr(cursor), end: cuts[0].start }] + remainder(
            cuts[0].end.0,
            end,
            cuts.drop_first(),
        )
    } else {
        remainder(cuts[0].end.0, end, cuts.drop_first())
    }
}

/// What is left of every region of `s` once `cuts` are taken away.
pub open spec fn remainders(s: Seq<Region>, cuts: Seq<Region>) -> Seq<Region>
    decreases s.len(),
{
    if s.len() == 0 {
        Seq::empty()
    } else {
        remainders(s.drop_last(), cuts) + remainder(s.last().start.0, s.last().end.0, cuts)
    }
}

/// The regions of `s` that are not empty, in order.
pub open spec fn without_empty(s: Seq<Region>) -> Seq<Region>
    decreases s.len(),
{
    if s.len() == 0 {
        Seq::empty()
    } else if s.last().empty() {
        without_empty(s.drop_last())
    } else {
        without_empty(s.drop_last()).push(s.last())
    }
}

/// A bounded set of regions.
#[derive(Clone, Copy)]
pub struct RegionList<const N: usize> {
    regions: [Region; N],
    len: usize,
}

impl<const N: usize> View for RegionList<N> {
    type V = Seq<Region>;

    closed spec fn view(&self) -> Seq<Region> {
        self.regions@.subrange(0, self.len as int)
    }
}

impl<const N: usize> RegionList<N> {
    #[verifier::type_invariant]
    spec fn within_capacity(self) -> bool {
        self.len <= N
    }

    pub fn new() -> (r: Self)
        ensures
            r@ == Seq::<Region>::empty(),
    {
        let none: Region = Region { start: PhysAddr(0), end: PhysAddr(0) };
        let r = RegionList { regions: vstd::array::array_fill_for_copy_types(none), len: 0 };
        assert(r@ =~= Seq::<Region>::empty());
        r
    }

    pub fn len(&self) -> (r: usize)
        ensures
            r == self@.len(),
            r <= N,
    {
        proof {
            use_type_invariant(self);
        }
        self.len
    }

    pub fn is_empty(&self) -> (r: bool)
        ensures
            r == (self@.len() == 0),
    {
        proof {
            use_type_invariant(self);
        }
        self.len == 0
    }

    pub fn capacity(&self) -> (r: usize)
        ensures
            r == N,
    {
        N
    }

    /// The region at position `i`.
    pub fn get(&self, i: usize) -> (r: Region)
        requires
            i < self@.len(),
        ensures
            r == self@[i as int],
    {
        proof {
            use_type_invariant(self);
        }
        self.regions[i]
    }

    /// Replace the region at position `i`.
    pub fn set(&mut self, i: usize, region: Region)
        requires
            i < old(self)@.len(),
        ensures
            final(self)@ == old(self)@.update(i as int, region),
    {
        proof {
            use_type_invariant(&*self);
        }
        let ghost before = self@;
        self.regions[i] = region;
        assert(self@ =~= before.update(i as int, region));
    }

    pub fn as_slice(&self) -> (r: &[Region])
        ensures
            r@ == self@,
    {
        proof {
            use_type_invariant(self);
        }
        vstd::slice::slice_subrange(vstd::array::array_as_slice(&self.regions), 0, self.len)
    }

    /// The regions, to be changed in place.
    pub fn as_mut_slice(&mut self) -> (r: &mut [Region])
        ensures
            r@ == old(self)@,
            final(self)@ == final(r)@,
    {
        proof {
            use_type_invariant(&*self);
        }
        let n: usize = self.len;
        let all: &mut [Region] = &mut self.regions;
        let (used, _rest) = all.split_at_mut(n);
        used
    }

    /// The regions in order, one at a time.
    pub fn iter(&self) -> (r: core::slice::Iter<'_, Region>)
        ensures
            vstd::std_specs::slice::into_iter_elts(r) == self@,
    {
        broadcast use vstd::std_specs::slice::group_slice_axioms;
        self.as_slice().iter()
    }

    /// Remove any region that has become empty.
    ///
    /// Page-aligning a region smaller than a page collapses it to nothing, and
    /// a zero-length region left in the list would later be reported as usable
    /// memory containing no frames.
    pub fn drop_empty(&mut self)
        ensures
            final(self)@ == without_empty(old(self)@),
    {
        proof {
            use_type_invariant(&*self);
        }
        let ghost before = self@;
        let count: usize = self.len;
        let mut write: usize = 0;
        let mut read: usize = 0;
        while read < count
            invariant
                write <= read <= count,
                count == self.len,
                count <= N,
                before.len() == count,
                self.regions@.subrange(0, write as int) == without_empty(before.take(read as int)),
                forall|k: int| read <= k < count ==> self.regions@[k] == before[k],
            decreases count - read,
        {
            assert(before.take(read + 1).drop_last() =~= before.take(read as int));
            let ghost kept = self.regions@.subrange(0, write as int);
            if !self.regions[read].is_empty() {
                self.regions[write] = self.regions[read];
                write = write + 1;
                assert(self.regions@.subrange(0, write as int) =~= kept.push(before[read as int]));
            }
            read = read + 1;
        }
        assert(before.take(count as int) =~= before);
        self.len = write;
    }

    /// Append a region. Empty regions are dropped rather than stored, so callers
    /// never have to filter them out downstream.
    pub fn push(&mut self, region: Region) -> (r: Result<(), CapacityExceeded>)
        ensures
            region.empty() ==> r is Ok && final(self)@ == old(self)@,
            !region.empty() && old(self)@.len() < N ==> r is Ok && final(self)@ == old(self)@.push(
                region,
            ),
            !region.empty() && old(self)@.len() >= N ==> r is Err && final(self)@ == old(self)@,
    {
        proof {
            use_type_invariant(&*self);
        }
        if region.is_empty() {
            return Ok(());
        }
        if self.len == N {
            return Err(CapacityExceeded);
        }
        let ghost before = self@;
        let at: usize = self.len;
        self.regions[at] = region;
        self.len = at + 1;
        assert(self@ =~= before.push(region));
        Ok(())
    }

    pub fn total_bytes(&self) -> (r: u64)
        requires
            total_size(self@) <= u64::MAX,
        ensures
            r == total_size(self@),
    {
        proof {
            use_type_invariant(self);
        }
        let mut sum: u64 = 0;
        let mut i: usize = 0;
        while i < self.len
            invariant
                i <= self.len <= N,
                self@.len() == self.len,
                sum == total_size(self@.take(i as int)),
                total_size(self@) <= u64::MAX,
            decreases self.len - i,
        {
            proof {
                assert(self@.take(i + 1).drop_last() =~= self@.take(i as int));
                lemma_total_size_monotonic(self@, i + 1);
            }
            assert(self@[i as int] == self.regions@[i as int]);
            sum = sum + self.regions[i].len();
            i = i + 1;
        }
        assert(self@.take(i as int) =~= self@);
        sum
    }

    /// Put the regions in order of their start addresses.
    ///
    /// Insertion sort: a list is at most a couple of dozen long.
    pub fn sort(&mut self)
        ensures
            ordered(final(self)@),
            final(self)@.to_multiset() == old(self)@.to_multiset(),
    {
        proof {
            use_type_invariant(&*self);
        }
        let ghost before = self@;
        let count: usize = self.len;
        let mut i: usize = 1;
        while i < count
            invariant
                1 <= i,
                count == self.len,
                count <= N,
                self@.len() == count,
                ordered(self@.take(if i <= count {
                    i as int
                } else {
                    count as int
                })),
                self@.to_multiset() == before.to_multiset(),
            decreases count - i,
        {
            let mut j: usize = i;
            assert forall|a: int, b: int| 0 <= a <= b < i implies (#[trigger] self@[a]).start.0 <= (
            #[trigger] self@[b]).start.0 by {
                assert(self@.take(i as int)[a] == self@[a]);
                assert(self@.take(i as int)[b] == self@[b]);
            }
            while j > 0 && self.regions[j - 1].start.0 > self.regions[j].start.0
                invariant
                    0 <= j <= i < count,
                    count == self.len,
                    count <= N,
                    self@.len() == count,
                    forall|a: int, b: int|
                        0 <= a <= b <= i && b != j && a != j ==> (#[trigger] self@[a]).start.0 <= (
                        #[trigger] self@[b]).start.0,
                    forall|b: int|
                        j < b <= i ==> self@[j as int].start.0 <= (#[trigger] self@[b]).start.0,
                    self@.to_multiset() == before.to_multiset(),
                decreases j,
            {
                let ghost s0 = self@;
                let upper: Region = self.regions[j];
                let lower: Region = self.regions[j - 1];
                self.regions[j - 1] = upper;
                self.regions[j] = lower;
                proof {
                    assert(s0[j - 1] == lower && s0[j as int] == upper);
                    assert(self@ =~= s0.update(j - 1, upper).update(j as int, lower));
                    lemma_swap_keeps_multiset(s0, j - 1, j as int);
                }
                j = j - 1;
            }
            assert(ordered(self@.take(i + 1))) by {
                assert forall|a: int, b: int| 0 <= a <= b < i + 1 implies self@[a].start.0
                    <= self@[b].start.0 by {
                    if a < j && b == j {
                        assert(self@[a].start.0 <= self@[j - 1].start.0);
                        assert(self@[j - 1] == self.regions@[j - 1]);
                        assert(self@[j as int] == self.regions@[j as int]);
                    }
                }
            }
            i = i + 1;
        }
        assert(self@.take(count as int) =~= self@);
    }

    /// Sort by start address and merge every overlapping or touching pair.
    ///
    /// Merging *touching* regions (`end == start`) and not just overlapping ones
    /// matters: the reserved ranges that come from firmware are frequently
    /// exactly adjacent, and leaving them separate would make the subtraction
    /// below emit zero-length gaps between them.
    pub fn normalize(&mut self)
        ensures
            forall|a: int| #[trigger] covered(final(self)@, a) == covered(old(self)@, a),
            ordered(final(self)@),
            separated(final(self)@),
            none_empty(old(self)@) ==> none_empty(final(self)@),
            none_empty(old(self)@) ==> final(self)@ == normal_form(old(self)@),
            final(self)@.len() <= old(self)@.len(),
            old(self)@.len() > 0 ==> final(self)@.len() > 0,
    {
        let ghost original = self@;
        self.sort();
        proof {
            use_type_invariant(&*self);
        }
        let ghost sorted = self@;
        proof {
            assert forall|a: int| #[trigger] covered(sorted, a) == covered(original, a) by {
                lemma_covered_of_multiset(sorted, original, a);
                lemma_covered_of_multiset(original, sorted, a);
            }
            if none_empty(original) {
                lemma_none_empty_of_multiset(original, sorted);
            }
            original.to_multiset_ensures();
            sorted.to_multiset_ensures();
        }
        let count: usize = self.len;
        if count == 0 {
            proof {
                lemma_normal_form(original, self@);
            }
            return ;
        }
        let mut write: usize = 0;
        let mut read: usize = 1;
        assert(self.regions@.take(1) =~= sorted.take(1));
        while read < count
            invariant
                write < read <= count,
                count == self.len,
                count <= N,
                sorted.len() == count,
                ordered(sorted),
                forall|k: int| read <= k < count ==> self.regions@[k] == sorted[k],
                ordered(self.regions@.take(write + 1)),
                separated(self.regions@.take(write + 1)),
                none_empty(sorted) ==> none_empty(self.regions@.take(write + 1)),
                self.regions@[write as int].start.0 <= sorted[read - 1].start.0,
                forall|a: int|
                    #[trigger] covered(self.regions@.take(write + 1), a) == covered(
                        sorted.take(read as int),
                        a,
                    ),
            decreases count - read,
        {
            let ghost s0 = self.regions@.take(write + 1);
            let ghost next = sorted[read as int];
            assert(next == self.regions@[read as int]);
            assert(s0.last() == self.regions@[write as int]);
            if self.regions[read].start.0 <= self.regions[write].end.0 {
                if self.regions[read].end.0 > self.regions[write].end.0 {
                    let grown: Region = Region {
                        start: self.regions[write].start,
                        end: self.regions[read].end,
                    };
                    self.regions[write] = grown;
                    proof {
                        let s1 = self.regions@.take(write + 1);
                        assert(s1 =~= s0.update(write as int, grown));
                        assert forall|a: int| #[trigger] covered(s1, a) == (covered(s0, a)
                            || next.covers(a)) by {
                            if covered(s1, a) {
                                lemma_covered_update(s0, write as int, grown, a);
                            }
                            if covered(s0, a) && !covered(s1, a) {
                                let i = choose|i: int| 0 <= i < s0.len() && s0[i].covers(a);
                                assert(s1[i].covers(a));
                            }
                            if next.covers(a) {
                                assert(s1[write as int].covers(a) || s0[write as int].covers(a));
                            }
                        }
                    }
                } else {
                    proof {
                        let s1 = self.regions@.take(write + 1);
                        assert forall|a: int| #[trigger] covered(s1, a) == (covered(s0, a)
                            || next.covers(a)) by {
                            if next.covers(a) {
                                assert(s0[write as int].covers(a));
                            }
                        }
                    }
                }
            } else {
                write = write + 1;
                self.regions[write] = self.regions[read];
                proof {
                    let s1 = self.regions@.take(write + 1);
                    assert(s1 =~= s0.push(next));
                    assert forall|a: int| #[trigger] covered(s1, a) == (covered(s0, a)
                        || next.covers(a)) by {
                        lemma_covered_push(s0, next, a);
                    }
                    assert(separated(s1)) by {
                        assert forall|i: int, j: int| 0 <= i < j < s1.len() implies (
                        #[trigger] s1[i]).end.0 < (#[trigger] s1[j]).start.0 by {
                            if j == s1.len() - 1 && i < s0.len() - 1 {
                                assert(s0[i].end.0 < s0[s0.len() - 1].start.0);
                                assert(s0[s0.len() - 1].start.0 <= sorted[read - 1].start.0);
                                assert(sorted[read - 1].start.0 <= sorted[read as int].start.0);
                            }
                        }
                    }
                    assert(ordered(s1)) by {
                        assert forall|i: int, j: int| 0 <= i <= j < s1.len() implies (
                        #[trigger] s1[i]).start.0 <= (#[trigger] s1[j]).start.0 by {
                            if j == s1.len() - 1 && i < j {
                                assert(s0[i].start.0 <= s0[s0.len() - 1].start.0);
                                assert(sorted[read - 1].start.0 <= sorted[read as int].start.0);
                            }
                        }
                    }
                }
            }
            proof {
                assert(sorted.take(read + 1) =~= sorted.take(read as int).push(next));
                assert forall|a: int|
                    #[trigger] covered(self.regions@.take(write + 1), a) == covered(
                        sorted.take(read + 1),
                        a,
                    ) by {
                    lemma_covered_push(sorted.take(read as int), next, a);
                    assert(covered(s0, a) == covered(sorted.take(read as int), a));
                }
                assert(sorted[read - 1].start.0 <= sorted[read as int].start.0);
            }
            read = read + 1;
        }
        self.len = write + 1;
        proof {
            assert(sorted.take(count as int) =~= sorted);
            assert(self@ =~= self.regions@.take(write + 1));
            lemma_normal_form(original, self@);
        }
    }

    /// Everything in `self` that is not in `cuts`.
    ///
    /// `cuts` is normalized first, so the inner loop can assume sorted,
    /// non-overlapping cuts and walk each region once. `cursor` tracks how far
    /// into the current region we have accounted for; every gap between the
    /// cursor and the next cut is free memory.
    pub fn subtract<const M: usize>(&self, cuts: &RegionList<M>) -> (r: Result<
        RegionList<N>,
        CapacityExceeded,
    >)
        ensures
            exists|normal: Seq<Region>|
                {
                    &&& #[trigger] is_normal_form(cuts@, normal)
                    &&& r is Ok <==> remainders(self@, normal).len() <= N
                    &&& r matches Ok(out) ==> out@ == remainders(self@, normal)
                },
            none_empty(cuts@) ==> (r is Ok <==> remainders(self@, normal_form(cuts@)).len() <= N),
            none_empty(cuts@) ==> (r matches Ok(out) ==> {
                &&& out@ == remainders(self@, normal_form(cuts@))
                &&& forall|a: int|
                    #[trigger] covered(out@, a) == (covered(self@, a) && !covered(cuts@, a))
                &&& none_empty(out@)
                &&& disjoint(self@) && none_empty(self@) ==> disjoint(out@)
            }),
    {
        let mut normal: RegionList<M> = *cuts;
        normal.normalize();
        proof {
            use_type_invariant(self);
            assert(is_normal_form(cuts@, normal@));
            if none_empty(cuts@) {
                lemma_remainders(self@, normal@);
                lemma_normal_form(cuts@, normal@);
            }
        }
        let mut out: RegionList<N> = RegionList::new();
        let cut_count: usize = normal.len();
        let mut i: usize = 0;
        while i < self.len
            invariant
                i <= self.len <= N,
                self@.len() == self.len,
                cut_count == normal@.len(),
                is_normal_form(cuts@, normal@),
                none_empty(cuts@) ==> normal@ == normal_form(cuts@),
                out@ == remainders(self@.take(i as int), normal@),
                out@.len() <= N,
            decreases self.len - i,
        {
            let region: Region = self.regions[i];
            assert(region == self@[i as int]);
            proof {
                assert(self@.take(i + 1).drop_last() =~= self@.take(i as int));
                lemma_remainders_len(self@, normal@, i + 1);
                assert(remainders(self@.take(i + 1), normal@) =~= out@ + remainder(
                    region.start.0,
                    region.end.0,
                    normal@,
                ));
            }
            let ghost before = out@;
            let ghost whole = remainder(region.start.0, region.end.0, normal@);
            let mut cursor: u64 = region.start.0;
            let mut k: usize = 0;
            let mut done: bool = cursor >= region.end.0;
            assert(normal@.skip(0) =~= normal@);
            while k < cut_count && !done
                invariant
                    k <= cut_count == normal@.len(),
                    before.len() + whole.len() <= remainders(self@, normal@).len(),
                    before + whole == out@ + remainder(
                        cursor,
                        region.end.0,
                        normal@.skip(k as int),
                    ),
                    is_normal_form(cuts@, normal@),
                    none_empty(cuts@) ==> normal@ == normal_form(cuts@),
                    out@.len() <= N,
                    done ==> (cursor >= region.end.0 || k < cut_count && normal@[k as int].end.0
                        > cursor && normal@[k as int].start.0 >= region.end.0),
                    !done ==> cursor < region.end.0,
                decreases cut_count - k, (if done { 0int } else { 1int }),
            {
                let cut: Region = normal.get(k);
                let ghost rest = normal@.skip(k as int);
                assert(rest[0] == cut);
                assert(rest.drop_first() =~= normal@.skip(k + 1));
                if cut.end.0 <= cursor {
                    // Entirely behind us.
                    k = k + 1;
                } else if cut.start.0 >= region.end.0 {
                    // Sorted, so everything after is beyond us too.
                    done = true;
                } else {
                    if cut.start.0 > cursor {
                        let gap: Region = Region { start: PhysAddr(cursor), end: cut.start };
                        let ghost o0 = out@;
                        match out.push(gap) {
                            Ok(()) => {},
                            Err(e) => {
                                proof {
                                    let left = remainder(cursor, region.end.0, rest);
                                    assert(left.len() >= 1);
                                    assert((before + whole).len() == (out@ + left).len());
                                }
                                return Err(e);
                            },
                        }
                        proof {
                            assert(o0 + (seq![gap] + remainder(
                                cut.end.0,
                                region.end.0,
                                rest.drop_first(),
                            )) =~= out@ + remainder(
                                cut.end.0,
                                region.end.0,
                                rest.drop_first(),
                            ));
                        }
                    }
                    cursor = cut.end.0;
                    k = k + 1;
                    done = cursor >= region.end.0;
                }
            }
            let ghost o1 = out@;
            if cursor < region.end.0 {
                let tail: Region = Region { start: PhysAddr(cursor), end: region.end };
                proof {
                    let rest = normal@.skip(k as int);
                    assert(k < cut_count ==> rest[0] == normal@[k as int]);
                    assert(remainder(cursor, region.end.0, rest) =~= seq![tail]);
                }
                match out.push(tail) {
                    Ok(()) => {},
                    Err(e) => {
                        assert((before + whole).len() == (o1 + seq![tail]).len());
                        return Err(e);
                    },
                }
                assert(out@ =~= o1 + seq![tail]);
            } else {
                assert(o1 + Seq::<Region>::empty() =~= o1);
            }
            i = i + 1;
        }
        assert(self@.take(i as int) =~= self@);
        Ok(out)
    }
}

/// Whether `normal` is the sorted, merged form of `s`.
pub open spec fn is_normal_form(s: Seq<Region>, normal: Seq<Region>) -> bool {
    &&& forall|a: int| #[trigger] covered(normal, a) == covered(s, a)
    &&& ordered(normal)
    &&& separated(normal)
    &&& none_empty(s) ==> none_empty(normal)
}

/// The sorted, merged form of a list without empty regions is determined by the
/// addresses it holds: there is only one.
pub proof fn normal_forms_are_unique(s: Seq<Region>, m: Seq<Region>, n: Seq<Region>)
    requires
        none_empty(s),
        is_normal_form(s, m),
        is_normal_form(s, n),
    ensures
        m == n,
{
    assert forall|a: int| #[trigger] covered(m, a) == covered(n, a) by {
        assert(covered(m, a) == covered(s, a));
    }
    lemma_normal_forms_agree(m, n);
}

/// The sorted, merged form of a list of regions.
pub open spec fn normal_form(s: Seq<Region>) -> Seq<Region> {
    choose|n: Seq<Region>| is_normal_form(s, n)
}

/// A sorted, merged form of a list without empty regions is *the* sorted, merged
/// form.
pub proof fn lemma_normal_form(s: Seq<Region>, n: Seq<Region>)
    requires
        is_normal_form(s, n),
    ensures
        none_empty(s) ==> n == normal_form(s),
{
    if none_empty(s) {
        normal_forms_are_unique(s, n, normal_form(s));
    }
}

proof fn lemma_normal_forms_agree(m: Seq<Region>, n: Seq<Region>)
    requires
        none_empty(m),
        none_empty(n),
        separated(m),
        separated(n),
        ordered(m),
        ordered(n),
        forall|a: int| #[trigger] covered(m, a) == covered(n, a),
    ensures
        m == n,
    decreases m.len() + n.len(),
{
    if m.len() == 0 {
        if n.len() > 0 {
            assert(n[0].covers(n[0].start.0 as int));
            assert(covered(m, n[0].start.0 as int));
        }
        assert(m =~= n);
    } else {
        assert(m[0].covers(m[0].start.0 as int));
        assert(covered(m, m[0].start.0 as int));
        assert(covered(n, m[0].start.0 as int));
        assert(n.len() > 0);
        assert(n[0].covers(n[0].start.0 as int));
        assert(covered(m, n[0].start.0 as int));
        let i = choose|i: int| 0 <= i < n.len() && (#[trigger] n[i]).covers(m[0].start.0 as int);
        let j = choose|j: int| 0 <= j < m.len() && (#[trigger] m[j]).covers(n[0].start.0 as int);
        assert(n[0].start.0 <= n[i].start.0);
        assert(m[0].start.0 <= m[j].start.0);
        assert(m[0].start.0 == n[0].start.0);
        lemma_first_gap(m, n);
        lemma_first_gap(n, m);
        assert(m[0] == n[0]);
        let m1 = m.drop_first();
        let n1 = n.drop_first();
        lemma_drop_first_keeps(m);
        lemma_drop_first_keeps(n);
        assert forall|a: int| #[trigger] covered(m1, a) == covered(n1, a) by {
            assert(covered(m, a) == covered(n, a));
            lemma_covered_drop_first(m, a);
            lemma_covered_drop_first(n, a);
        }
        lemma_normal_forms_agree(m1, n1);
        assert(m =~= seq![m[0]] + m1);
        assert(n =~= seq![n[0]] + n1);
    }
}

proof fn lemma_first_gap(m: Seq<Region>, n: Seq<Region>)
    requires
        none_empty(m),
        none_empty(n),
        separated(m),
        separated(n),
        ordered(n),
        m.len() > 0,
        n.len() > 0,
        m[0].start == n[0].start,
        forall|a: int| #[trigger] covered(m, a) == covered(n, a),
    ensures
        m[0].end.0 <= n[0].end.0,
{
    let a = n[0].end.0 as int;
    if m[0].end.0 > a {
        assert(m[0].covers(a));
        assert(covered(m, a));
        assert(covered(n, a));
        let i = choose|i: int| 0 <= i < n.len() && (#[trigger] n[i]).covers(a);
        if i > 0 {
            assert(n[0].end.0 < n[i].start.0);
        }
    }
}

proof fn lemma_drop_first_keeps(m: Seq<Region>)
    requires
        m.len() > 0,
        none_empty(m),
        separated(m),
        ordered(m),
    ensures
        none_empty(m.drop_first()),
        separated(m.drop_first()),
        ordered(m.drop_first()),
{
    let r = m.drop_first();
    assert forall|i: int| 0 <= i < r.len() implies !(#[trigger] r[i]).empty() by {
        assert(r[i] == m[i + 1]);
    }
    assert forall|i: int, j: int| 0 <= i < j < r.len() implies (#[trigger] r[i]).end.0 < (
    #[trigger] r[j]).start.0 by {
        assert(r[i] == m[i + 1] && r[j] == m[j + 1]);
    }
    assert forall|i: int, j: int| 0 <= i <= j < r.len() implies (#[trigger] r[i]).start.0 <= (
    #[trigger] r[j]).start.0 by {
        assert(r[i] == m[i + 1] && r[j] == m[j + 1]);
    }
}

proof fn lemma_covered_drop_first(m: Seq<Region>, a: int)
    requires
        m.len() > 0,
        separated(m),
        none_empty(m),
    ensures
        covered(m.drop_first(), a) == (covered(m, a) && !m[0].covers(a)),
{
    let r = m.drop_first();
    if covered(r, a) {
        let i = choose|i: int| 0 <= i < r.len() && (#[trigger] r[i]).covers(a);
        assert(m[i + 1] == r[i]);
        assert(m[i + 1].covers(a));
        assert(m[0].end.0 < m[i + 1].start.0);
    }
    if covered(m, a) && !m[0].covers(a) {
        let i = choose|i: int| 0 <= i < m.len() && (#[trigger] m[i]).covers(a);
        assert(r[i - 1] == m[i]);
    }
}

proof fn lemma_swap_keeps_multiset(s: Seq<Region>, i: int, j: int)
    requires
        0 <= i < j < s.len(),
    ensures
        s.update(i, s[j]).update(j, s[i]).to_multiset() == s.to_multiset(),
{
    let t = s.update(i, s[j]).update(j, s[i]);
    s.to_multiset_ensures();
    t.to_multiset_ensures();
    let s1 = s.remove(j);
    let t1 = t.remove(j);
    s1.to_multiset_ensures();
    t1.to_multiset_ensures();
    assert(s1.remove(i) =~= t1.remove(i));
    assert(s1.to_multiset() == s.to_multiset().remove(s[j]));
    assert(t1.to_multiset() == t.to_multiset().remove(t[j]));
    assert(s1.remove(i).to_multiset() == s1.to_multiset().remove(s1[i]));
    assert(t1.remove(i).to_multiset() == t1.to_multiset().remove(t1[i]));
    assert(s.contains(s[i]) && s.contains(s[j]));
    assert(t.contains(t[i]) && t.contains(t[j]));
    assert(s1.contains(s1[i]));
    assert(t1.contains(t1[i]));
    assert forall|v: Region| #[trigger]
        s.to_multiset().count(v) == t.to_multiset().count(v) by {
        broadcast use vstd::multiset::group_multiset_axioms;

        assert(s1.remove(i).to_multiset().count(v) == t1.remove(i).to_multiset().count(v));
        assert(s1.to_multiset().count(v) == s1.remove(i).to_multiset().count(v) + (if v == s1[i] {
            1int
        } else {
            0int
        }));
        assert(t1.to_multiset().count(v) == t1.remove(i).to_multiset().count(v) + (if v == t1[i] {
            1int
        } else {
            0int
        }));
    }
    assert(s.to_multiset() =~= t.to_multiset());
}

proof fn lemma_covered_of_multiset(s: Seq<Region>, t: Seq<Region>, a: int)
    requires
        s.to_multiset() == t.to_multiset(),
    ensures
        covered(s, a) ==> covered(t, a),
{
    if covered(s, a) {
        let i = choose|i: int| 0 <= i < s.len() && (#[trigger] s[i]).covers(a);
        s.to_multiset_ensures();
        t.to_multiset_ensures();
        assert(s.contains(s[i]));
        assert(t.to_multiset().count(s[i]) > 0);
        let j = choose|j: int| 0 <= j < t.len() && t[j] == s[i];
        assert(t[j].covers(a));
    }
}

proof fn lemma_none_empty_of_multiset(s: Seq<Region>, t: Seq<Region>)
    requires
        s.to_multiset() == t.to_multiset(),
        none_empty(s),
    ensures
        none_empty(t),
{
    s.to_multiset_ensures();
    t.to_multiset_ensures();
    assert forall|i: int| 0 <= i < t.len() implies !(#[trigger] t[i]).empty() by {
        assert(t.contains(t[i]));
        assert(s.to_multiset().count(t[i]) > 0);
        assert(s.contains(t[i]));
    }
}

pub(crate) proof fn lemma_covered_push(s: Seq<Region>, r: Region, a: int)
    ensures
        covered(s.push(r), a) == (covered(s, a) || r.covers(a)),
{
    let t = s.push(r);
    if covered(s, a) {
        let i = choose|i: int| 0 <= i < s.len() && (#[trigger] s[i]).covers(a);
        assert(t[i].covers(a));
    }
    if r.covers(a) {
        assert(t[s.len() as int].covers(a));
    }
}

proof fn lemma_covered_update(s: Seq<Region>, k: int, r: Region, a: int)
    requires
        0 <= k < s.len(),
        covered(s.update(k, r), a),
    ensures
        covered(s, a) || r.covers(a),
{
    let t = s.update(k, r);
    let i = choose|i: int| 0 <= i < t.len() && (#[trigger] t[i]).covers(a);
    if i != k {
        assert(s[i].covers(a));
    }
}

pub(crate) proof fn lemma_covered_add(s: Seq<Region>, t: Seq<Region>, a: int)
    ensures
        covered(s + t, a) == (covered(s, a) || covered(t, a)),
{
    let u = s + t;
    if covered(s, a) {
        let i = choose|i: int| 0 <= i < s.len() && (#[trigger] s[i]).covers(a);
        assert(u[i].covers(a));
    }
    if covered(t, a) {
        let i = choose|i: int| 0 <= i < t.len() && (#[trigger] t[i]).covers(a);
        assert(u[s.len() + i].covers(a));
    }
    if covered(u, a) {
        let i = choose|i: int| 0 <= i < u.len() && (#[trigger] u[i]).covers(a);
        if i < s.len() {
            assert(s[i].covers(a));
        } else {
            assert(t[i - s.len()].covers(a));
        }
    }
}

proof fn lemma_total_size_monotonic(s: Seq<Region>, n: int)
    requires
        0 <= n <= s.len(),
    ensures
        total_size(s.take(n)) <= total_size(s),
    decreases s.len(),
{
    if n == s.len() {
        assert(s.take(n) =~= s);
    } else {
        assert(s.drop_last().take(n) =~= s.take(n));
        lemma_total_size_monotonic(s.drop_last(), n);
    }
}

proof fn lemma_remainders_len(s: Seq<Region>, cuts: Seq<Region>, n: int)
    requires
        0 <= n <= s.len(),
    ensures
        remainders(s.take(n), cuts).len() <= remainders(s, cuts).len(),
    decreases s.len(),
{
    if n == s.len() {
        assert(s.take(n) =~= s);
    } else {
        assert(s.drop_last().take(n) =~= s.take(n));
        lemma_remainders_len(s.drop_last(), cuts, n);
    }
}

/// What is left of one region, as a set of addresses and as a list.
proof fn lemma_remainder(cursor: u64, end: u64, cuts: Seq<Region>)
    requires
        separated(cuts),
        ordered(cuts),
        none_empty(cuts),
    ensures
        forall|a: int|
            #[trigger] covered(remainder(cursor, end, cuts), a) == (cursor <= a < end && !covered(
                cuts,
                a,
            )),
        none_empty(remainder(cursor, end, cuts)),
        disjoint(remainder(cursor, end, cuts)),
        forall|i: int|
            0 <= i < remainder(cursor, end, cuts).len() ==> cursor <= (#[trigger] remainder(
                cursor,
                end,
                cuts,
            )[i]).start.0 && remainder(cursor, end, cuts)[i].end.0 <= end,
    decreases cuts.len(),
{
    let out = remainder(cursor, end, cuts);
    if cursor >= end {
    } else if cuts.len() == 0 || (cuts[0].end.0 > cursor && cuts[0].start.0 >= end) {
        assert forall|a: int| #[trigger]
            covered(out, a) == (cursor <= a < end && !covered(cuts, a)) by {
            if cursor <= a < end {
                assert(out[0].covers(a));
                if covered(cuts, a) {
                    let i = choose|i: int| 0 <= i < cuts.len() && (#[trigger] cuts[i]).covers(a);
                    assert(cuts[0].start.0 <= cuts[i].start.0);
                }
            }
        }
    } else {
        let c = cuts[0];
        let rest = cuts.drop_first();
        assert forall|i: int, j: int| 0 <= i < j < rest.len() implies (#[trigger] rest[i]).end.0 < (
        #[trigger] rest[j]).start.0 by {
            assert(rest[i] == cuts[i + 1] && rest[j] == cuts[j + 1]);
        }
        assert forall|i: int, j: int| 0 <= i <= j < rest.len() implies (#[trigger] rest[i]).start.0
            <= (#[trigger] rest[j]).start.0 by {
            assert(rest[i] == cuts[i + 1] && rest[j] == cuts[j + 1]);
        }
        assert forall|i: int| 0 <= i < rest.len() implies !(#[trigger] rest[i]).empty() by {
            assert(rest[i] == cuts[i + 1]);
        }
        assert forall|a: int| #[trigger] covered(cuts, a) == (c.covers(a) || covered(rest, a)) by {
            assert(cuts =~= seq![c] + rest);
            lemma_covered_add(seq![c], rest, a);
            assert(covered(seq![c], a) == c.covers(a)) by {
                if c.covers(a) {
                    assert(seq![c][0].covers(a));
                }
            }
        }
        if c.end.0 <= cursor {
            lemma_remainder(cursor, end, rest);
            assert forall|a: int| #[trigger]
                covered(out, a) == (cursor <= a < end && !covered(cuts, a)) by {
                assert(covered(cuts, a) == (c.covers(a) || covered(rest, a)));
            }
        } else {
            lemma_remainder(c.end.0, end, rest);
            let tail = remainder(c.end.0, end, rest);
            if c.start.0 > cursor {
                let gap = Region { start: PhysAddr(cursor), end: c.start };
                assert forall|a: int| #[trigger]
                    covered(out, a) == (cursor <= a < end && !covered(cuts, a)) by {
                    lemma_covered_add(seq![gap], tail, a);
                    assert(covered(cuts, a) == (c.covers(a) || covered(rest, a)));
                    assert(covered(seq![gap], a) == gap.covers(a)) by {
                        if gap.covers(a) {
                            assert(seq![gap][0].covers(a));
                        }
                    }
                    if gap.covers(a) && covered(rest, a) {
                        let i = choose|i: int|
                            0 <= i < rest.len() && (#[trigger] rest[i]).covers(a);
                        assert(cuts[i + 1] == rest[i]);
                        assert(cuts[0].start.0 <= cuts[i + 1].start.0);
                    }
                }
                assert forall|i: int, j: int| 0 <= i < j < out.len() implies (
                #[trigger] out[i]).end.0 <= (#[trigger] out[j]).start.0 by {
                    assert(out[j] == tail[j - 1]);
                    if i > 0 {
                        assert(out[i] == tail[i - 1]);
                    }
                }
                assert forall|i: int| 0 <= i < out.len() implies !(#[trigger] out[i]).empty()
                    && cursor <= out[i].start.0 && out[i].end.0 <= end by {
                    if i > 0 {
                        assert(out[i] == tail[i - 1]);
                    }
                }
            } else {
                assert forall|a: int| #[trigger]
                    covered(out, a) == (cursor <= a < end && !covered(cuts, a)) by {
                    assert(covered(cuts, a) == (c.covers(a) || covered(rest, a)));
                }
            }
        }
    }
}

/// What is left after taking cuts away holds exactly the addresses that the cuts
/// do not.
pub proof fn lemma_remainders(s: Seq<Region>, cuts: Seq<Region>)
    requires
        separated(cuts),
        ordered(cuts),
        none_empty(cuts),
    ensures
        forall|a: int|
            #[trigger] covered(remainders(s, cuts), a) == (covered(s, a) && !covered(cuts, a)),
        none_empty(remainders(s, cuts)),
        disjoint(s) && none_empty(s) ==> disjoint(remainders(s, cuts)),
        disjoint(s) && none_empty(s) ==> forall|i: int|
            0 <= i < remainders(s, cuts).len() ==> (#[trigger] remainders(s, cuts)[i]).end.0
                <= s.last().end.0,
    decreases s.len(),
{
    if s.len() > 0 {
        let init = s.drop_last();
        let last = s.last();
        lemma_remainders(init, cuts);
        lemma_remainder(last.start.0, last.end.0, cuts);
        let a0 = remainders(init, cuts);
        let a1 = remainder(last.start.0, last.end.0, cuts);
        let out = remainders(s, cuts);
        assert(s =~= init.push(last));
        assert forall|a: int| #[trigger]
            covered(out, a) == (covered(s, a) && !covered(cuts, a)) by {
            lemma_covered_add(a0, a1, a);
            lemma_covered_push(init, last, a);
            assert(covered(a0, a) == (covered(init, a) && !covered(cuts, a)));
            assert(covered(a1, a) == (last.covers(a) && !covered(cuts, a)));
        }
        assert forall|i: int| 0 <= i < out.len() implies !(#[trigger] out[i]).empty() by {
            if i < a0.len() {
                assert(out[i] == a0[i]);
            } else {
                assert(out[i] == a1[i - a0.len()]);
            }
        }
        if disjoint(s) && none_empty(s) {
            assert(disjoint(init) && none_empty(init));
            assert forall|i: int| 0 <= i < out.len() implies (#[trigger] out[i]).end.0
                <= last.end.0 by {
                if i < a0.len() {
                    assert(out[i] == a0[i]);
                    if init.len() > 0 {
                        assert(s[s.len() - 2].end.0 <= s[s.len() - 1].start.0);
                        assert(!s[s.len() - 1].empty());
                    }
                } else {
                    assert(out[i] == a1[i - a0.len()]);
                }
            }
            assert forall|i: int, j: int| 0 <= i < j < out.len() implies (#[trigger] out[i]).end.0
                <= (#[trigger] out[j]).start.0 by {
                if j < a0.len() {
                    assert(out[i] == a0[i] && out[j] == a0[j]);
                } else if i >= a0.len() {
                    assert(out[i] == a1[i - a0.len()] && out[j] == a1[j - a0.len()]);
                } else {
                    assert(out[i] == a0[i] && out[j] == a1[j - a0.len()]);
                    if init.len() > 0 {
                        assert(s[s.len() - 2].end.0 <= s[s.len() - 1].start.0);
                    }
                }
            }
        }
    }
}

} // verus!
