//! What the root task is given: all the memory that is left, and none other.

use crate::abi::bootinfo::{UntypedDesc, MAX_UNTYPED};
use crate::mm::region::Region;
use crate::root::blocks::MAX_UNTYPED_BITS;
use vstd::prelude::*;

verus! {

/// Whether a block holds the address `a`.
pub open spec fn holds(b: UntypedDesc, a: int) -> bool {
    b.paddr <= a < b.paddr + b.size()
}

/// Whether a region is made of whole pages.
pub open spec fn is_whole(r: Region) -> bool {
    r.start.0 % 4096 == 0 && r.end.0 % 4096 == 0
}

/// Every address of a region of whole pages is in one of its blocks.
proof fn lemma_in_a_block(start: int, end: int, is_device: bool, a: int) -> (i: int)
    requires
        0 <= start <= a < end <= u64::MAX,
        start % 4096 == 0,
        end % 4096 == 0,
    ensures
        0 <= i < crate::root::blocks::blocks(start, end, is_device).len(),
        holds(crate::root::blocks::blocks(start, end, is_device)[i], a),
    decreases end - start,
{
    crate::root::blocks::lemma_largest(start, end, MAX_UNTYPED_BITS as nat);
    vstd::arithmetic::power2::lemma2_to64();
    assert(crate::root::blocks::block_fits(start, end, 12));
    let bits = crate::root::blocks::largest_block(start, end, MAX_UNTYPED_BITS as nat)->Some_0;
    let size = vstd::arithmetic::power2::pow2(bits);
    let all = crate::root::blocks::blocks(start, end, is_device);
    let rest = crate::root::blocks::blocks(start + size, end, is_device);
    assert(all == seq![crate::root::blocks::block(start, bits, is_device)] + rest);
    if a < start + size {
        assert(all[0].size() == size);
        0
    } else {
        let i = lemma_in_a_block(start + size, end, is_device, a);
        assert(all[i + 1] == rest[i]);
        i + 1
    }
}

/// The blocks of a region come one after another.
proof fn lemma_blocks_in_order(start: int, end: int, is_device: bool, i: int, j: int)
    requires
        0 <= start <= u64::MAX,
        end <= u64::MAX,
        0 <= i < j < crate::root::blocks::blocks(start, end, is_device).len(),
    ensures
        ({
            let all = crate::root::blocks::blocks(start, end, is_device);
            all[i].paddr + all[i].size() <= all[j].paddr
        }),
    decreases end - start,
{
    crate::root::blocks::lemma_largest(start, end, MAX_UNTYPED_BITS as nat);
    let bits = crate::root::blocks::largest_block(start, end, MAX_UNTYPED_BITS as nat)->Some_0;
    let size = vstd::arithmetic::power2::pow2(bits);
    let all = crate::root::blocks::blocks(start, end, is_device);
    let rest = crate::root::blocks::blocks(start + size, end, is_device);
    assert(all == seq![crate::root::blocks::block(start, bits, is_device)] + rest);
    assert(all[j] == rest[j - 1]);
    if i == 0 {
        assert(all[0].size() == size);
        crate::root::blocks::blocks_are_as_large_as_they_can_be(
            start + size,
            end,
            is_device,
            j - 1,
        );
    } else {
        assert(all[i] == rest[i - 1]);
        lemma_blocks_in_order(start + size, end, is_device, i - 1, j - 1);
    }
}

/// Where the blocks of region `r` start among those of all the regions.
spec fn before(regions: Seq<Region>, r: int, is_device: bool) -> int {
    crate::root::blocks_of(regions.take(r), is_device).len() as int
}

/// The blocks of the regions up to `r` come first, in the same order.
proof fn lemma_prefix(regions: Seq<Region>, r: int, is_device: bool)
    requires
        0 <= r <= regions.len(),
    ensures
        before(regions, r, is_device) <= crate::root::blocks_of(regions, is_device).len(),
        crate::root::blocks_of(regions, is_device).take(before(regions, r, is_device))
            == crate::root::blocks_of(regions.take(r), is_device),
    decreases regions.len(),
{
    let all = crate::root::blocks_of(regions, is_device);
    if r == regions.len() {
        assert(regions.take(r) =~= regions);
        assert(all.take(all.len() as int) =~= all);
    } else {
        lemma_prefix(regions.drop_last(), r, is_device);
        assert(regions.drop_last().take(r) =~= regions.take(r));
        let shorter = crate::root::blocks_of(regions.drop_last(), is_device);
        let n = before(regions, r, is_device);
        assert(all.take(n) =~= shorter.take(n));
    }
}

/// Block `i` of region `r`, among those of all the regions.
proof fn lemma_block_at(regions: Seq<Region>, r: int, is_device: bool, i: int)
    requires
        0 <= r < regions.len(),
        0 <= i < crate::root::blocks::blocks(
            regions[r].start.0 as int,
            regions[r].end.0 as int,
            is_device,
        ).len(),
    ensures
        0 <= before(regions, r, is_device) + i < crate::root::blocks_of(regions, is_device).len(),
        crate::root::blocks_of(regions, is_device)[before(regions, r, is_device) + i]
            == crate::root::blocks::blocks(
            regions[r].start.0 as int,
            regions[r].end.0 as int,
            is_device,
        )[i],
{
    lemma_prefix(regions, r + 1, is_device);
    let upto = regions.take(r + 1);
    assert(upto.drop_last() =~= regions.take(r));
    assert(upto.last() == regions[r]);
    let all = crate::root::blocks_of(regions, is_device);
    let n = before(regions, r + 1, is_device);
    let at = before(regions, r, is_device) + i;
    assert(crate::root::blocks_of(upto, is_device)[at] == all.take(n)[at]);
}

/// Which region a block is from, and which of its blocks it is.
proof fn lemma_block_from(regions: Seq<Region>, is_device: bool, n: int) -> (found: (int, int))
    requires
        0 <= n < crate::root::blocks_of(regions, is_device).len(),
    ensures
        ({
            let (r, i) = found;
            &&& 0 <= r < regions.len()
            &&& n == before(regions, r, is_device) + i
            &&& 0 <= i < crate::root::blocks::blocks(
                regions[r].start.0 as int,
                regions[r].end.0 as int,
                is_device,
            ).len()
            &&& crate::root::blocks_of(regions, is_device)[n] == crate::root::blocks::blocks(
                regions[r].start.0 as int,
                regions[r].end.0 as int,
                is_device,
            )[i]
        }),
    decreases regions.len(),
{
    let shorter = crate::root::blocks_of(regions.drop_last(), is_device);
    if n < shorter.len() {
        let (r, i) = lemma_block_from(regions.drop_last(), is_device, n);
        assert(regions.drop_last().take(r) =~= regions.take(r));
        (r, i)
    } else {
        let r = regions.len() - 1;
        assert(regions.take(r) =~= regions.drop_last());
        (r, n - shorter.len())
    }
}

/// Every byte of the memory that is left is in a block the root task is given,
/// as long as there is room to describe them all.
pub proof fn everything_left_is_handed_over(
    left: Seq<Region>,
    devices: Seq<Region>,
    r: int,
    a: int,
) -> (i: int)
    requires
        crate::root::blocks_of(left, false).len() <= MAX_UNTYPED,
        0 <= r < left.len(),
        is_whole(left[r]),
        left[r].covers(a),
    ensures
        0 <= i < crate::root::handed_over(left, devices).len(),
        crate::root::handed_over(left, devices)[i].is_device == 0,
        holds(crate::root::handed_over(left, devices)[i], a),
{
    let i = lemma_in_a_block(left[r].start.0 as int, left[r].end.0 as int, false, a);
    lemma_block_at(left, r, false, i);
    crate::root::blocks::blocks_are_as_large_as_they_can_be(
        left[r].start.0 as int,
        left[r].end.0 as int,
        false,
        i,
    );
    before(left, r, false) + i
}

/// The root task is given nothing but memory that is left, and devices: each
/// block lies in one region, of memory or of a device as the block says.
pub proof fn only_what_is_left_is_handed_over(
    left: Seq<Region>,
    devices: Seq<Region>,
    i: int,
) -> (r: int)
    requires
        0 <= i < crate::root::handed_over(left, devices).len(),
    ensures
        ({
            let b = crate::root::handed_over(left, devices)[i];
            let regions = if b.is_device == 0 {
                left
            } else {
                devices
            };
            &&& 0 <= r < regions.len()
            &&& regions[r].start.0 <= b.paddr
            &&& b.paddr + b.size() <= regions[r].end.0
        }),
{
    let ram = crate::root::blocks_of(left, false);
    let (regions, is_device, n) = if i < ram.len() {
        (left, false, i)
    } else {
        (devices, true, i - ram.len())
    };
    let (r, k) = lemma_block_from(regions, is_device, n);
    crate::root::blocks::blocks_are_as_large_as_they_can_be(
        regions[r].start.0 as int,
        regions[r].end.0 as int,
        is_device,
        k,
    );
    r
}

/// No byte of memory is in two of the blocks the root task is given, provided
/// that it is in no two of the regions they are cut from.
pub proof fn no_memory_is_handed_over_twice(
    left: Seq<Region>,
    devices: Seq<Region>,
    i: int,
    j: int,
    a: int,
)
    requires
        crate::mm::region::disjoint(left),
        0 <= i < j < crate::root::handed_over(left, devices).len(),
        crate::root::handed_over(left, devices)[i].is_device == 0,
        crate::root::handed_over(left, devices)[j].is_device == 0,
    ensures
        !(holds(crate::root::handed_over(left, devices)[i], a) && holds(
            crate::root::handed_over(left, devices)[j],
            a,
        )),
{
    let ram = crate::root::blocks_of(left, false);
    if j >= ram.len() {
        let (r, k) = lemma_block_from(devices, true, j - ram.len());
        crate::root::blocks::blocks_are_as_large_as_they_can_be(
            devices[r].start.0 as int,
            devices[r].end.0 as int,
            true,
            k,
        );
    } else {
        let (r, k) = lemma_block_from(left, false, i);
        let (s, l) = lemma_block_from(left, false, j);
        let (start, end) = (left[r].start.0 as int, left[r].end.0 as int);
        crate::root::blocks::blocks_are_as_large_as_they_can_be(start, end, false, k);
        crate::root::blocks::blocks_are_as_large_as_they_can_be(
            left[s].start.0 as int,
            left[s].end.0 as int,
            false,
            l,
        );
        if r == s {
            lemma_blocks_in_order(start, end, false, k, l);
        } else if r < s {
            assert(left[r].end.0 <= left[s].start.0);
        } else {
            assert(left[s].end.0 <= left[r].start.0);
        }
    }
}

/// Where a block of the root task's lies: in memory that is left, or in a
/// device, on pages of its own.
pub(crate) proof fn lemma_block_home(left: Seq<Region>, devices: Seq<Region>, i: int) -> (r: int)
    requires
        0 <= i < crate::root::handed_over(left, devices).len(),
    ensures
        ({
            let b = crate::root::handed_over(left, devices)[i];
            let regions = if b.is_device == 0 {
                left
            } else {
                devices
            };
            &&& 0 <= r < regions.len()
            &&& regions[r].start.0 <= b.paddr
            &&& b.paddr + b.size() <= regions[r].end.0
            &&& b.paddr % 4096 == 0
            &&& b.size() as int % 4096 == 0
            &&& b.size() > 0
        }),
{
    let ram = crate::root::blocks_of(left, false);
    let b = crate::root::handed_over(left, devices)[i];
    let is_device = i >= ram.len();
    let regions = if is_device {
        devices
    } else {
        left
    };
    let n = if is_device {
        i - ram.len()
    } else {
        i
    };
    assert(crate::root::blocks_of(regions, is_device)[n] == b);
    let (r, k) = lemma_block_from(regions, is_device, n);
    let (start, end) = (regions[r].start.0 as int, regions[r].end.0 as int);
    crate::root::blocks::blocks_are_as_large_as_they_can_be(start, end, is_device, k);
    lemma_whole_pages(b.paddr as int, b.size_bits as nat);
    r
}

/// A block that starts at a multiple of its size is made of whole pages.
proof fn lemma_whole_pages(at: int, bits: nat)
    requires
        bits >= 12,
        at % vstd::arithmetic::power2::pow2(bits) as int == 0,
    ensures
        at % 4096 == 0,
        vstd::arithmetic::power2::pow2(bits) as int % 4096 == 0,
        vstd::arithmetic::power2::pow2(bits) > 0,
{
    let size = vstd::arithmetic::power2::pow2(bits) as int;
    let rest = vstd::arithmetic::power2::pow2((bits - 12) as nat) as int;
    vstd::arithmetic::power2::lemma_pow2_adds(12, (bits - 12) as nat);
    vstd::arithmetic::power2::lemma2_to64();
    vstd::arithmetic::power2::lemma_pow2_pos(bits);
    vstd::arithmetic::power2::lemma_pow2_pos((bits - 12) as nat);
    assert(size == 4096 * rest);
    assert((4096 * rest) % 4096 == 0) by (nonlinear_arith);
    vstd::arithmetic::div_mod::lemma_fundamental_div_mod(at, size);
    let q = at / size;
    assert(at == size * q);
    assert(at % 4096 == 0) by (nonlinear_arith)
        requires
            at == size * q,
            size == 4096 * rest,
    {
        assert(at == 4096 * (rest * q));
    }
}

/// Two of the root task's blocks have no memory in common, provided that no two
/// of the regions they are cut from have.
pub(crate) proof fn lemma_blocks_apart(left: Seq<Region>, devices: Seq<Region>, i: int, j: int)
    requires
        crate::mm::region::disjoint(left),
        crate::mm::region::disjoint(devices),
        forall|r: int, s: int|
            0 <= r < left.len() && 0 <= s < devices.len() ==> !(#[trigger] left[r]).meets(
                #[trigger] devices[s],
            ),
        0 <= i < j < crate::root::handed_over(left, devices).len(),
    ensures
        ({
            let a = crate::root::handed_over(left, devices)[i];
            let b = crate::root::handed_over(left, devices)[j];
            a.paddr + a.size() <= b.paddr || b.paddr + b.size() <= a.paddr
        }),
{
    let all = crate::root::handed_over(left, devices);
    let ram = crate::root::blocks_of(left, false);
    if j >= ram.len() && i < ram.len() {
        let r = lemma_block_home(left, devices, i);
        let s = lemma_block_home(left, devices, j);
        assert(ram[i] == all[i]);
        let (p, k) = lemma_block_from(left, false, i);
        crate::root::blocks::blocks_are_as_large_as_they_can_be(
            left[p].start.0 as int,
            left[p].end.0 as int,
            false,
            k,
        );
        let (q, l) = lemma_block_from(devices, true, j - ram.len());
        crate::root::blocks::blocks_are_as_large_as_they_can_be(
            devices[q].start.0 as int,
            devices[q].end.0 as int,
            true,
            l,
        );
        assert(!left[r].meets(devices[s]));
    } else {
        let is_device = i >= ram.len();
        let (regions, m, n) = if is_device {
            (devices, i - ram.len(), j - ram.len())
        } else {
            (left, i, j)
        };
        assert(crate::root::blocks_of(regions, is_device)[m] == all[i]);
        assert(crate::root::blocks_of(regions, is_device)[n] == all[j]);
        let (r, k) = lemma_block_from(regions, is_device, m);
        let (s, l) = lemma_block_from(regions, is_device, n);
        let (start, end) = (regions[r].start.0 as int, regions[r].end.0 as int);
        crate::root::blocks::blocks_are_as_large_as_they_can_be(start, end, is_device, k);
        crate::root::blocks::blocks_are_as_large_as_they_can_be(
            regions[s].start.0 as int,
            regions[s].end.0 as int,
            is_device,
            l,
        );
        if r == s {
            lemma_blocks_in_order(start, end, is_device, k, l);
        } else if r < s {
            assert(regions[r].end.0 <= regions[s].start.0);
        } else {
            assert(regions[s].end.0 <= regions[r].start.0);
        }
    }
}

} // verus!
