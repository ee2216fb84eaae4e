//! Memory in power-of-two blocks: how free memory is cut up for the root task,
//! and how the kernel takes a block for itself.

use crate::abi::bootinfo::UntypedDesc;
use crate::mm::addr::{PhysAddr, PAGE_SHIFT, PAGE_SIZE};
use crate::mm::frame::BumpAllocator;
use crate::mm::memory::Memory;
use crate::mm::region::Region;
use vstd::prelude::*;

verus! {

/// The largest untyped the kernel will hand over, so one region cannot swallow
/// all of RAM into a single capability that is awkward to subdivide.
pub const MAX_UNTYPED_BITS: u8 = 30;

// --- Cutting memory up ---

/// Whether an aligned block of `2^bits` bytes fits at `start`, below `end`.
pub open spec fn block_fits(start: int, end: int, bits: nat) -> bool {
    &&& start % vstd::arithmetic::power2::pow2(bits) as int == 0
    &&& start + vstd::arithmetic::power2::pow2(bits) <= end
}

/// The largest block that fits, of at most `2^bits` bytes and at least a page.
pub open spec fn largest_block(start: int, end: int, bits: nat) -> Option<nat>
    decreases bits,
{
    if bits < PAGE_SHIFT {
        None
    } else if block_fits(start, end, bits) {
        Some(bits)
    } else {
        largest_block(start, end, (bits - 1) as nat)
    }
}

/// The blocks that `[start, end)` is cut into: the largest first that fits,
/// then what follows it, until nothing fits.
pub open spec fn blocks(start: int, end: int, is_device: bool) -> Seq<UntypedDesc>
    decreases end - start,
{
    match largest_block(start, end, MAX_UNTYPED_BITS as nat) {
        None => Seq::empty(),
        Some(bits) => {
            proof {
                lemma_largest(start, end, MAX_UNTYPED_BITS as nat);
            }
            seq![block(start, bits, is_device)] + blocks(
                start + vstd::arithmetic::power2::pow2(bits),
                end,
                is_device,
            )
        },
    }
}

/// Every block of a region says whether it is a device.
pub(crate) proof fn lemma_flag(start: int, end: int, is_device: bool, i: int)
    requires
        0 <= i < blocks(start, end, is_device).len(),
    ensures
        blocks(start, end, is_device)[i].is_device == if is_device {
            1u8
        } else {
            0u8
        },
    decreases end - start,
{
    lemma_largest(start, end, MAX_UNTYPED_BITS as nat);
    let bits = largest_block(start, end, MAX_UNTYPED_BITS as nat)->Some_0;
    if i > 0 {
        lemma_flag(start + vstd::arithmetic::power2::pow2(bits), end, is_device, i - 1);
    }
}

/// The description of one block.
pub open spec fn block(start: int, bits: nat, is_device: bool) -> UntypedDesc {
    UntypedDesc {
        paddr: start as u64,
        size_bits: bits as u8,
        is_device: if is_device {
            1
        } else {
            0
        },
    }
}

/// The block chosen fits, and no larger one does.
pub proof fn lemma_largest(start: int, end: int, bits: nat)
    requires
        bits <= MAX_UNTYPED_BITS,
    ensures
        match largest_block(start, end, bits) {
            None => forall|b: nat| PAGE_SHIFT <= b <= bits ==> !#[trigger] block_fits(start, end, b),
            Some(k) => {
                &&& PAGE_SHIFT <= k <= bits
                &&& block_fits(start, end, k)
                &&& forall|b: nat| k < b <= bits ==> !#[trigger] block_fits(start, end, b)
                &&& 4096 <= vstd::arithmetic::power2::pow2(k) <= 0x4000_0000
                &&& vstd::arithmetic::power2::pow2(k) % 4096 == 0
            },
        },
    decreases bits,
{
    if bits >= PAGE_SHIFT {
        if block_fits(start, end, bits) {
            lemma_page_multiple(bits);
        } else {
            lemma_largest(start, end, (bits - 1) as nat);
        }
    }
}

/// A block of at least a page is a whole number of pages.
proof fn lemma_page_multiple(bits: nat)
    requires
        PAGE_SHIFT <= bits <= MAX_UNTYPED_BITS,
    ensures
        4096 <= vstd::arithmetic::power2::pow2(bits) <= 0x4000_0000,
        vstd::arithmetic::power2::pow2(bits) % 4096 == 0,
{
    let rest = (bits - 12) as nat;
    vstd::arithmetic::power2::lemma2_to64();
    vstd::arithmetic::power2::lemma_pow2_adds(12, rest);
    vstd::arithmetic::power2::lemma_pow2_pos(rest);
    vstd::arithmetic::power2::lemma_pow2_adds(bits, (30 - bits) as nat);
    vstd::arithmetic::power2::lemma_pow2_pos((30 - bits) as nat);
    let p = vstd::arithmetic::power2::pow2(bits) as int;
    let q = vstd::arithmetic::power2::pow2(rest) as int;
    let s = vstd::arithmetic::power2::pow2((30 - bits) as nat) as int;
    assert(p == 4096 * q);
    assert(p * s == 0x4000_0000);
    assert(p <= p * s) by (nonlinear_arith)
        requires
            p >= 0,
            s >= 1,
    ;
    assert((4096 * q) % 4096 == 0) by (nonlinear_arith);
}

/// The largest block that fits at `start`, as the power of two it is.
fn block_bits(start: u64, end: u64) -> (r: Option<u8>)
    requires
        start <= end,
    ensures
        match largest_block(start as int, end as int, MAX_UNTYPED_BITS as nat) {
            None => r is None,
            Some(k) => r is Some && r->Some_0 == k,
        },
{
    let mut bits: u8 = MAX_UNTYPED_BITS;
    while bits >= 12
        invariant
            11 <= bits <= MAX_UNTYPED_BITS,
            start <= end,
            largest_block(start as int, end as int, MAX_UNTYPED_BITS as nat) == largest_block(
                start as int,
                end as int,
                bits as nat,
            ),
        decreases bits,
    {
        proof {
            crate::bits::lemma_shl_one(bits as u64);
            lemma_page_multiple(bits as nat);
        }
        let size: u64 = 1u64 << (bits as u64);
        if start % size == 0 && end - start >= size {
            return Some(bits);
        }
        bits = bits - 1;
    }
    None
}

/// Cut a free region into the largest aligned power-of-two blocks that fit.
pub fn split(region: Region, is_device: bool) -> (r: Vec<UntypedDesc>)
    ensures
        r@ == blocks(region.start.0 as int, region.end.0 as int, is_device),
{
    let mut out: Vec<UntypedDesc> = Vec::new();
    let end: u64 = region.end.as_usize();
    let mut start: u64 = region.start.as_usize();
    let ghost all = blocks(start as int, end as int, is_device);
    assert(all =~= out@ + all);
    loop
        invariant
            end == region.end.0,
            all == blocks(region.start.0 as int, region.end.0 as int, is_device),
            all == out@ + blocks(start as int, end as int, is_device),
        ensures
            blocks(start as int, end as int, is_device) == Seq::<UntypedDesc>::empty(),
        decreases end - start,
    {
        proof {
            lemma_largest(start as int, end as int, MAX_UNTYPED_BITS as nat);
        }
        if start >= end {
            proof {
                if let Some(k) = largest_block(start as int, end as int, MAX_UNTYPED_BITS as nat) {
                    assert(block_fits(start as int, end as int, k));
                }
            }
            break ;
        }
        match block_bits(start, end) {
            None => {
                break ;
            },
            Some(bits) => {
                let desc: UntypedDesc = UntypedDesc::new(start, bits, is_device);
                proof {
                    crate::bits::lemma_shl_one(bits as u64);
                    let rest = blocks(
                        start + vstd::arithmetic::power2::pow2(bits as nat),
                        end as int,
                        is_device,
                    );
                    assert(desc == block(start as int, bits as nat, is_device));
                    assert(out@ + (seq![desc] + rest) =~= out@.push(desc) + rest);
                }
                out.push(desc);
                start = start + (1u64 << (bits as u64));
            },
        }
    }
    assert(out@ + Seq::<UntypedDesc>::empty() =~= out@);
    out
}

/// The blocks of a page-aligned region tile it exactly: the first starts where
/// it starts, each starts where the one before it ends, and the last ends where
/// it ends. Every block is aligned to its own size.
pub proof fn a_split_tiles_its_region(start: int, end: int, is_device: bool)
    requires
        0 <= start < end <= u64::MAX,
        start % 4096 == 0,
        end % 4096 == 0,
    ensures
        ({
            let all = blocks(start, end, is_device);
            &&& all.len() > 0
            &&& all[0].paddr == start
            &&& forall|i: int|
                1 <= i < all.len() ==> (#[trigger] all[i]).paddr == all[i - 1].paddr + all[i
                    - 1].size()
            &&& all.last().paddr + all.last().size() == end
            &&& forall|i: int|
                0 <= i < all.len() ==> (#[trigger] all[i]).paddr as int % all[i].size() as int == 0
        }),
    decreases end - start,
{
    lemma_largest(start, end, MAX_UNTYPED_BITS as nat);
    vstd::arithmetic::power2::lemma2_to64();
    assert(block_fits(start, end, 12));
    let bits = largest_block(start, end, MAX_UNTYPED_BITS as nat)->Some_0;
    let size = vstd::arithmetic::power2::pow2(bits);
    let first = block(start, bits, is_device);
    let rest = blocks(start + size, end, is_device);
    let all = blocks(start, end, is_device);
    assert(all == seq![first] + rest);
    assert(first.size() == size);
    if start + size < end {
        a_split_tiles_its_region(start + size, end, is_device);
        assert forall|i: int| 1 <= i < all.len() implies (#[trigger] all[i]).paddr == all[i
            - 1].paddr + all[i - 1].size() by {
            assert(all[i] == rest[i - 1]);
            if i > 1 {
                assert(all[i - 1] == rest[i - 2]);
            }
        }
        assert forall|i: int| 0 <= i < all.len() implies (#[trigger] all[i]).paddr as int
            % all[i].size() as int == 0 by {
            if i > 0 {
                assert(all[i] == rest[i - 1]);
            }
        }
    } else {
        lemma_largest(start + size, end, MAX_UNTYPED_BITS as nat);
        if let Some(k) = largest_block(start + size, end, MAX_UNTYPED_BITS as nat) {
            assert(block_fits(start + size, end, k));
        }
        assert(rest =~= Seq::<UntypedDesc>::empty());
    }
}

/// Every block lies inside its region, is at least a page, and is as large as
/// its address, the room left and the largest size allow.
pub proof fn blocks_are_as_large_as_they_can_be(start: int, end: int, is_device: bool, i: int)
    requires
        0 <= start <= u64::MAX,
        end <= u64::MAX,
        0 <= i < blocks(start, end, is_device).len(),
    ensures
        ({
            let b = blocks(start, end, is_device)[i];
            &&& start <= b.paddr
            &&& b.paddr + b.size() <= end
            &&& PAGE_SHIFT <= b.size_bits <= MAX_UNTYPED_BITS
            &&& (b.is_device != 0) == is_device
            &&& block_fits(b.paddr as int, end, b.size_bits as nat)
            &&& forall|larger: nat|
                b.size_bits < larger <= MAX_UNTYPED_BITS ==> !#[trigger] block_fits(
                    b.paddr as int,
                    end,
                    larger,
                )
        }),
    decreases end - start,
{
    lemma_largest(start, end, MAX_UNTYPED_BITS as nat);
    let bits = largest_block(start, end, MAX_UNTYPED_BITS as nat)->Some_0;
    let size = vstd::arithmetic::power2::pow2(bits);
    if i > 0 {
        blocks_are_as_large_as_they_can_be(start + size, end, is_device, i - 1);
        assert(blocks(start, end, is_device)[i] == blocks(start + size, end, is_device)[i - 1]);
    }
}

// --- Taking a block ---

/// How many of the first `n` frames, counted back from the last, follow one
/// another without a gap from one that is aligned to `size`.
pub open spec fn run(frames: Seq<u64>, n: int, size: int) -> nat
    decreases n,
{
    if n <= 0 {
        0
    } else {
        let before = run(frames, n - 1, size);
        if before > 0 && frames[n - 1] == frames[n - 2] + 4096 {
            before + 1
        } else if frames[n - 1] as int % size == 0 {
            1
        } else {
            0
        }
    }
}

/// How many frames have to be taken until the last `need` of them are such a
/// run, starting with `n`.
pub open spec fn frames_until(frames: Seq<u64>, n: int, size: int, need: nat) -> Option<int>
    decreases frames.len() - n,
{
    if run(frames, n, size) == need {
        Some(n)
    } else if n >= frames.len() {
        None
    } else {
        frames_until(frames, n + 1, size, need)
    }
}

/// Memory with the first `n` of some frames zeroed.
pub open spec fn frames_zeroed(m: Map<int, u64>, frames: Seq<u64>, n: int) -> Map<int, u64>
    decreases n,
{
    if n <= 0 {
        m
    } else {
        crate::mm::memory::with_zero_frame(frames_zeroed(m, frames, n - 1), frames[n - 1])
    }
}

/// Frames in a block of `2^bits` bytes, at least one.
pub open spec fn frames_in_block(bits: u8) -> nat {
    if bits <= PAGE_SHIFT {
        1
    } else {
        vstd::arithmetic::power2::pow2((bits - PAGE_SHIFT) as nat)
    }
}

/// How many frames are taken to get a block of `2^bits` bytes, if there is one.
pub open spec fn frames_for(frames: Seq<u64>, bits: u8) -> Option<int> {
    frames_until(
        frames,
        0,
        vstd::arithmetic::power2::pow2(bits as nat) as int,
        frames_in_block(bits),
    )
}

/// Take `2^bits` bytes of aligned, contiguous physical memory.
///
/// Frames that do not line up are passed over; the allocator has no way back.
pub fn alloc_aligned(bits: u8, frames: &mut BumpAllocator, mem: &mut Memory) -> (r: Option<
    PhysAddr,
>)
    requires
        bits < 64,
    ensures
        final(frames).home() == old(frames).home(),
        match frames_for(old(frames).pending(), bits) {
            Some(n) => {
                &&& 0 < frames_in_block(bits) <= n <= old(frames).pending().len()
                &&& r == Some(PhysAddr(old(frames).pending()[n - frames_in_block(bits)]))
                &&& final(frames).pending() == old(frames).pending().skip(n)
                &&& final(mem)@ == frames_zeroed(old(mem)@, old(frames).pending(), n)
            },
            None => {
                &&& r is None
                &&& final(frames).pending().len() == 0
                &&& final(mem)@ == frames_zeroed(
                    old(mem)@,
                    old(frames).pending(),
                    old(frames).pending().len() as int,
                )
            },
        },
{
    proof {
        crate::bits::lemma_shl_one(bits as u64);
        vstd::arithmetic::power2::lemma_pow2_pos(bits as nat);
        if bits > 12 {
            crate::bits::lemma_shl_one((bits - 12) as u64);
            vstd::arithmetic::power2::lemma_pow2_pos((bits - 12) as nat);
        }
    }
    let size: u64 = 1u64 << (bits as u64);
    let need: u64 = if bits <= 12 {
        1
    } else {
        1u64 << ((bits - 12) as u64)
    };
    let ghost all = frames.pending();
    let ghost m = mem@;
    let ghost mut n: int = 0;
    let mut have: u64 = 0;
    let mut first: u64 = 0;
    let mut last: u64 = 0;
    assert(all.skip(0) =~= all);
    while have != need
        invariant
            frames.home() == old(frames).home(),
            0 < size,
            size == vstd::arithmetic::power2::pow2(bits as nat),
            0 < need == frames_in_block(bits),
            all == old(frames).pending(),
            m == old(mem)@,
            0 <= n <= all.len(),
            frames.pending() == all.skip(n),
            mem@ == frames_zeroed(m, all, n),
            have == run(all, n, size as int),
            have <= need,
            have <= n,
            n > 0 ==> last == all[n - 1],
            have > 0 ==> n > 0 && first == all[n - have],
            frames_for(all, bits) == frames_until(all, n, size as int, need as nat),
        decreases all.len() - n,
    {
        match frames.alloc_frame(mem) {
            None => {
                return None;
            },
            Some(f) => {
                let frame: u64 = f.as_usize();
                let follows: bool = have > 0 && frame >= PAGE_SIZE && frame - PAGE_SIZE == last;
                proof {
                    assert(all.skip(n).drop_first() =~= all.skip(n + 1));
                    assert(all.skip(n)[0] == all[n]);
                    n = n + 1;
                }
                if follows {
                    have = have + 1;
                } else if frame % size == 0 {
                    first = frame;
                    have = 1;
                } else {
                    have = 0;
                }
                last = frame;
            },
        }
    }
    Some(PhysAddr::new(first))
}

/// The block that is taken starts on a multiple of its size, and its frames
/// follow one another without a gap.
pub proof fn a_taken_block_is_whole(frames: Seq<u64>, bits: u8, k: int)
    requires
        frames_for(frames, bits) is Some,
        0 <= k < frames_in_block(bits),
    ensures
        ({
            let n = frames_for(frames, bits)->Some_0;
            let first = frames[n - frames_in_block(bits)];
            &&& frames_in_block(bits) <= n <= frames.len()
            &&& first as int % vstd::arithmetic::power2::pow2(bits as nat) as int == 0
            &&& frames[n - frames_in_block(bits) + k] == first + 4096 * k
        }),
{
    let size = vstd::arithmetic::power2::pow2(bits as nat) as int;
    vstd::arithmetic::power2::lemma_pow2_pos(bits as nat);
    lemma_until(frames, 0, size, frames_in_block(bits));
    let n = frames_for(frames, bits)->Some_0;
    lemma_run(frames, n, size, k);
}

proof fn lemma_until(frames: Seq<u64>, n: int, size: int, need: nat)
    requires
        0 <= n <= frames.len(),
        frames_until(frames, n, size, need) is Some,
    ensures
        n <= frames_until(frames, n, size, need)->Some_0 <= frames.len(),
        run(frames, frames_until(frames, n, size, need)->Some_0, size) == need,
    decreases frames.len() - n,
{
    if run(frames, n, size) != need {
        lemma_until(frames, n + 1, size, need);
    }
}

proof fn lemma_run(frames: Seq<u64>, n: int, size: int, k: int)
    requires
        0 <= n <= frames.len(),
        0 <= k < run(frames, n, size),
    ensures
        run(frames, n, size) <= n,
        frames[n - run(frames, n, size)] as int % size == 0,
        frames[n - run(frames, n, size) + k] == frames[n - run(frames, n, size)] + 4096 * k,
    decreases n,
{
    let h = run(frames, n, size);
    if h > 1 {
        assert(run(frames, n - 1, size) == h - 1);
        if k == h - 1 {
            lemma_run(frames, n - 1, size, h - 2);
        } else {
            lemma_run(frames, n - 1, size, k);
        }
    }
}

} // verus!
