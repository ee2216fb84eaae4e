//! Untyped memory and retyping: where every kernel object comes from.

use crate::abi::object::{ObjectType, SLOT_BITS};
use crate::abi::rights::ALL;
use crate::cap::kind::{DeviceUntyped, Untyped};
use crate::cap::rights::{HasWrite, Mask};
use crate::cap::{Cap, CapError, RawCap};
use crate::mm::addr::PhysAddr;
use crate::mm::memory::Memory;
use vstd::prelude::*;

verus! {

/// Where one object landed, and what is left of the region afterwards.
#[derive(Debug, Clone, Copy, PartialEq, Eq, Structural)]
pub struct Carved {
    pub paddr: PhysAddr,
    /// Bytes of the region consumed once this object is accounted for.
    pub watermark: u64,
}

/// Bytes in a block of `2^bits`.
pub open spec fn block(bits: u8) -> nat {
    vstd::arithmetic::power2::pow2(bits as nat)
}

/// The lowest multiple of `size` that is not below `offset`.
pub open spec fn next_multiple(offset: int, size: int) -> int {
    (offset + size - 1) - (offset + size - 1) % size
}

/// Where an object of `size_bits` goes in a region, if it fits.
pub open spec fn carved(base: u64, region_bits: u8, watermark: u64, size_bits: u8) -> Result<
    Carved,
    CapError,
> {
    let start = next_multiple(watermark as int, block(size_bits) as int);
    if base as nat % block(region_bits) != 0 {
        Err(CapError::Misaligned)
    } else if size_bits > region_bits || start + block(size_bits) > block(region_bits) {
        Err(CapError::NotEnoughSpace)
    } else {
        Ok(
            Carved {
                paddr: PhysAddr((base + start) as u64),
                watermark: (start + block(size_bits)) as u64,
            },
        )
    }
}

/// Place one object of `size_bits` inside a region starting at `base`.
///
/// Objects are aligned to their own size, so the watermark is rounded up first;
/// the skipped bytes are lost, which is why a caller retyping many objects
/// should ask for them in one call rather than one at a time.
///
/// The alignment is applied to the *offset*, which only yields aligned objects
/// because a region is required to be aligned to its own size. That requirement
/// is checked here rather than assumed: an unaligned region would quietly
/// produce page tables the hardware will not accept. An aligned region may end
/// at the very top of the address space.
pub fn carve(base: PhysAddr, region_bits: u8, watermark: u64, size_bits: u8) -> (r: Result<
    Carved,
    CapError,
>)
    requires
        region_bits < 64,
    ensures
        r == carved(base.0, region_bits, watermark, size_bits),
{
    proof {
        crate::bits::lemma_shl_one(region_bits as u64);
        crate::bits::lemma_pow2_bounds(region_bits as nat);
    }
    let region: u64 = 1u64 << (region_bits as u64);
    proof {
        crate::bits::lemma_mask(base.0, region);
    }
    if base.as_usize() & (region - 1) != 0 {
        return Err(CapError::Misaligned);
    }
    if size_bits > region_bits {
        return Err(CapError::NotEnoughSpace);
    }
    proof {
        crate::bits::lemma_shl_one(size_bits as u64);
        crate::bits::lemma_pow2_bounds(size_bits as nat);
        lemma_blocks(size_bits, region_bits);
    }
    let size: u64 = 1u64 << (size_bits as u64);
    proof {
        lemma_region_ends(base.0, region_bits);
        lemma_next_multiple(watermark as int, size as int);
    }
    if watermark > region - size {
        return Err(CapError::NotEnoughSpace);
    }
    let reach: u64 = watermark + (size - 1);
    proof {
        crate::bits::lemma_mask(reach, size);
    }
    let aligned: u64 = reach & !(size - 1);
    if aligned > region - size {
        return Err(CapError::NotEnoughSpace);
    }
    Ok(Carved { paddr: PhysAddr::new(base.as_usize() + aligned), watermark: aligned + size })
}

/// A block is no larger than one of at least as many bits, and divides it.
proof fn lemma_blocks(small: u8, large: u8)
    requires
        small <= large < 64,
    ensures
        0 < block(small) <= block(large) <= 0x8000_0000_0000_0000,
        block(large) % block(small) == 0,
{
    let d = (large - small) as nat;
    vstd::arithmetic::power2::lemma_pow2_pos(small as nat);
    vstd::arithmetic::power2::lemma_pow2_pos(d);
    vstd::arithmetic::power2::lemma_pow2_adds(small as nat, d);
    vstd::arithmetic::div_mod::lemma_mod_multiples_basic(block(d as u8) as int, block(small) as int);
    vstd::arithmetic::mul::lemma_mul_is_commutative(block(small) as int, block(d as u8) as int);
    vstd::arithmetic::mul::lemma_mul_increases(block(d as u8) as int, block(small) as int);
    vstd::arithmetic::power2::lemma2_to64_rest();
    if large < 63 {
        vstd::arithmetic::power2::lemma_pow2_strictly_increases(large as nat, 63);
    }
}

/// A region that is aligned to its size ends within the address space.
proof fn lemma_region_ends(base: u64, region_bits: u8)
    requires
        region_bits < 64,
        base as nat % block(region_bits) == 0,
    ensures
        base + block(region_bits) <= 0x1_0000_0000_0000_0000,
{
    let region = block(region_bits) as int;
    let p = vstd::arithmetic::power2::pow2((64 - region_bits) as nat) as int;
    let q = base as int / region;
    vstd::arithmetic::power2::lemma_pow2_pos(region_bits as nat);
    vstd::arithmetic::power2::lemma_pow2_adds(region_bits as nat, (64 - region_bits) as nat);
    vstd::arithmetic::power2::lemma2_to64();
    vstd::arithmetic::power2::lemma2_to64_rest();
    vstd::arithmetic::div_mod::lemma_fundamental_div_mod(base as int, region);
    assert(region * q + region <= region * p) by (nonlinear_arith)
        requires
            region > 0,
            region * q < region * p,
    ;
}

/// Rounding up to a multiple does not go down.
proof fn lemma_next_multiple(offset: int, size: int)
    requires
        size > 0,
    ensures
        offset <= next_multiple(offset, size),
{
    vstd::arithmetic::div_mod::lemma_mod_bound(offset + size - 1, size);
}

/// An object that was carved out of a region is aligned to its own size, lies
/// inside the region, and starts no lower than what was handed out before.
pub proof fn carved_objects_fit(base: u64, region_bits: u8, watermark: u64, size_bits: u8)
    requires
        region_bits < 64,
        carved(base, region_bits, watermark, size_bits) is Ok,
    ensures
        ({
            let c = carved(base, region_bits, watermark, size_bits)->Ok_0;
            &&& c.paddr.0 as nat % block(size_bits) == 0
            &&& base + watermark <= c.paddr.0
            &&& c.paddr.0 + block(size_bits) == base + c.watermark
            &&& watermark <= c.watermark <= block(region_bits)
        }),
{
    lemma_blocks(size_bits, region_bits);
    lemma_region_ends(base, region_bits);
    let size = block(size_bits) as int;
    let start = next_multiple(watermark as int, size);
    let reach = watermark + size - 1;
    vstd::arithmetic::div_mod::lemma_fundamental_div_mod(reach, size);
    vstd::arithmetic::div_mod::lemma_mod_bound(reach, size);
    assert(start == size * (reach / size));
    vstd::arithmetic::div_mod::lemma_mod_multiples_basic(reach / size, size);
    vstd::arithmetic::mul::lemma_mul_is_commutative(size, reach / size);
    assert(start % size == 0);
    // The region's base is a multiple of the region's size, so of the object's.
    let region = block(region_bits) as int;
    vstd::arithmetic::div_mod::lemma_fundamental_div_mod(base as int, region);
    vstd::arithmetic::div_mod::lemma_fundamental_div_mod(region, size);
    let q = base as int / region;
    let p = region / size;
    assert(base == size * (p * q)) by (nonlinear_arith)
        requires
            base == region * q,
            region == size * p,
    ;
    vstd::arithmetic::div_mod::lemma_mod_multiples_basic(p * q, size);
    vstd::arithmetic::mul::lemma_mul_is_commutative(size, p * q);
    vstd::arithmetic::div_mod::lemma_add_mod_noop(base as int, start, size);
    vstd::arithmetic::div_mod::lemma_small_mod(0, size as nat);
}

// --- Retyping ---

/// Log2 of the size the new objects have, or why there can be none.
///
/// Device memory becomes only frames and smaller device regions: everything
/// else is memory the kernel itself reads and writes. Ordinary memory never
/// becomes a device region, which would keep it from being cleared.
pub open spec fn retype_bits(from: ObjectType, target: ObjectType, size_bits: u8) -> Result<
    u8,
    CapError,
> {
    if target.size_bits_spec(size_bits) is None {
        Err(CapError::BadObjectType)
    } else if from is DeviceUntyped && !(target is Frame || target is DeviceUntyped) {
        Err(CapError::BadObjectType)
    } else if !(from is DeviceUntyped) && target is DeviceUntyped {
        Err(CapError::BadObjectType)
    } else if target is CNode && size_bits <= SLOT_BITS {
        Err(CapError::BadSize)
    } else {
        Ok(target.size_bits_spec(size_bits)->0)
    }
}

/// The first `n` objects of a batch, and the watermark after them.
pub open spec fn planned(raw: RawCap, target: ObjectType, bits: u8, n: nat) -> Result<
    (Seq<RawCap>, u64),
    CapError,
>
    decreases n,
{
    if n == 0 {
        Ok((Seq::empty(), raw.watermark_spec()))
    } else {
        match planned(raw, target, bits, (n - 1) as nat) {
            Err(e) => Err(e),
            Ok((made, watermark)) => match carved(raw.paddr.0, raw.size_bits, watermark, bits) {
                Err(e) => Err(e),
                Ok(c) => Ok(
                    (made.push(RawCap::plain(target, ALL, bits, c.paddr)), c.watermark),
                ),
            },
        }
    }
}

/// The objects a retype makes, and the watermark after them.
pub open spec fn retype_plan(raw: RawCap, target: ObjectType, size_bits: u8, n: nat) -> Result<
    (Seq<RawCap>, u64),
    CapError,
> {
    match retype_bits(raw.kind, target, size_bits) {
        Err(e) => Err(e),
        Ok(bits) => planned(raw, target, bits, n),
    }
}

/// A batch is planned if it fits from some multiple of its objects' size on, at
/// or beyond the watermark.
pub proof fn a_batch_that_fits_is_planned(
    raw: RawCap,
    target: ObjectType,
    bits: u8,
    n: nat,
    start: int,
)
    requires
        bits <= raw.size_bits < 64,
        raw.paddr.0 as nat % block(raw.size_bits) == 0,
        start % (block(bits) as int) == 0,
        raw.watermark_spec() <= start,
        start + n * block(bits) <= block(raw.size_bits),
    ensures
        planned(raw, target, bits, n) is Ok,
        planned(raw, target, bits, n)->Ok_0.1 <= start + n * block(bits),
    decreases n,
{
    if n > 0 {
        let size = block(bits) as int;
        lemma_blocks(bits, raw.size_bits);
        let past = start + (n - 1) * size;
        assert(n * size == (n - 1) * size + size) by (nonlinear_arith);
        a_batch_that_fits_is_planned(raw, target, bits, (n - 1) as nat, start);
        let w = planned(raw, target, bits, (n - 1) as nat)->Ok_0.1;
        let q = start / size + (n - 1);
        vstd::arithmetic::div_mod::lemma_fundamental_div_mod(start, size);
        assert(past == size * q) by (nonlinear_arith)
            requires
                start == size * (start / size),
                past == start + (n - 1) * size,
                q == start / size + (n - 1),
        ;
        let reach = w + size - 1;
        vstd::arithmetic::div_mod::lemma_div_is_ordered(reach, past + (size - 1), size);
        vstd::arithmetic::div_mod::lemma_div_multiples_vanish_fancy(q, size - 1, size);
        vstd::arithmetic::div_mod::lemma_fundamental_div_mod(reach, size);
        assert(next_multiple(w as int, size) == size * (reach / size));
        assert(size * (reach / size) <= size * q) by (nonlinear_arith)
            requires
                reach / size <= q,
                size > 0,
        ;
    }
}

/// Memory with every object of a list cleared.
pub open spec fn cleared(m: Map<int, u64>, made: Seq<RawCap>) -> Map<int, u64>
    decreases made.len(),
{
    if made.len() == 0 {
        m
    } else {
        crate::mm::memory::with_zero_bytes(
            cleared(m, made.drop_last()),
            made.last().paddr.0 as int,
            block(made.last().size_bits) as int,
        )
    }
}

/// Memory after a retype: ordinary memory is cleared, device registers are not
/// touched.
pub open spec fn retyped_memory(m: Map<int, u64>, from: ObjectType, made: Seq<RawCap>) -> Map<
    int,
    u64,
> {
    if from is DeviceUntyped {
        m
    } else {
        cleared(m, made)
    }
}

proof fn lemma_planned_fails(raw: RawCap, target: ObjectType, bits: u8, i: nat, n: nat)
    requires
        i <= n,
        planned(raw, target, bits, i) is Err,
    ensures
        planned(raw, target, bits, n) == planned(raw, target, bits, i),
    decreases n,
{
    if i < n {
        lemma_planned_fails(raw, target, bits, i, (n - 1) as nat);
    }
}

/// Everything known of a batch that fits: the objects lie in the region, above
/// what was handed out before, one after the other.
pub open spec fn is_laid_out(raw: RawCap, made: Seq<RawCap>, bits: u8, watermark: u64) -> bool {
    &&& raw.watermark_spec() <= watermark <= raw.size_spec()
    &&& forall|i: int|
        0 <= i < made.len() ==> {
            &&& (#[trigger] made[i]).paddr.0 as nat % block(bits) == 0
            &&& raw.paddr.0 + raw.watermark_spec() <= made[i].paddr.0
            &&& made[i].paddr.0 + block(bits) <= raw.paddr.0 + watermark
            &&& made[i].size_bits == bits
        }
    &&& forall|i: int, j: int|
        0 <= i < j < made.len() ==> (#[trigger] made[i]).paddr.0 + block(bits) <= (
        #[trigger] made[j]).paddr.0
}

/// The objects of a batch are aligned, do not overlap, and lie inside the
/// region beyond everything handed out before.
pub proof fn retyped_objects_are_disjoint(raw: RawCap, target: ObjectType, bits: u8, n: nat)
    requires
        raw.kind.untyped(),
        raw.is_sound(),
        planned(raw, target, bits, n) is Ok,
    ensures
        ({
            let plan = planned(raw, target, bits, n)->Ok_0;
            &&& plan.0.len() == n
            &&& is_laid_out(raw, plan.0, bits, plan.1)
            &&& forall|i: int|
                0 <= i < n ==> #[trigger] plan.0[i] == RawCap::plain(
                    target,
                    ALL,
                    bits,
                    plan.0[i].paddr,
                )
        }),
    decreases n,
{
    if n > 0 {
        retyped_objects_are_disjoint(raw, target, bits, (n - 1) as nat);
        let (made, watermark) = planned(raw, target, bits, (n - 1) as nat)->Ok_0;
        carved_objects_fit(raw.paddr.0, raw.size_bits, watermark, bits);
    }
}

/// Work out where a batch of objects goes, without touching anything.
fn plan(raw: &RawCap, target: ObjectType, bits: u8, count: usize) -> (r: Result<
    (Vec<RawCap>, u64),
    CapError,
>)
    requires
        raw.kind.untyped(),
        raw.is_sound(),
    ensures
        match planned(*raw, target, bits, count as nat) {
            Ok(plan) => r is Ok && r->Ok_0.0@ == plan.0 && r->Ok_0.1 == plan.1,
            Err(e) => r is Err && r->Err_0 == e,
        },
{
    let mut made: Vec<RawCap> = Vec::new();
    let mut watermark: u64 = raw.watermark();
    let mut i: usize = 0;
    while i < count
        invariant
            i <= count,
            raw.kind.untyped(),
            raw.is_sound(),
            watermark <= raw.size_spec(),
            planned(*raw, target, bits, i as nat) == Ok::<(Seq<RawCap>, u64), CapError>(
                (made@, watermark),
            ),
        decreases count - i,
    {
        match carve(raw.paddr, raw.size_bits, watermark, bits) {
            Ok(c) => {
                proof {
                    carved_objects_fit(raw.paddr.0, raw.size_bits, watermark, bits);
                }
                watermark = c.watermark;
                // A fresh object is held with every right; reduction is the
                // holder's business from here on.
                made.push(RawCap::new(target, ALL, bits, c.paddr));
            },
            Err(e) => {
                proof {
                    lemma_planned_fails(*raw, target, bits, (i + 1) as nat, count as nat);
                }
                return Err(e);
            },
        }
        i = i + 1;
    }
    Ok((made, watermark))
}

/// Zero freshly carved objects.
///
/// Retyping hands userspace a view of memory that may have held anything,
/// including another process's secrets, so this is not tidiness.
fn zero(made: &Vec<RawCap>, mem: &mut Memory)
    requires
        forall|i: int|
            0 <= i < made@.len() ==> (#[trigger] made@[i]).size_bits < 64 && made@[i].paddr.0
                + made@[i].size_spec() <= u64::MAX,
    ensures
        final(mem)@ == cleared(old(mem)@, made@),
{
    let ghost m = mem@;
    let count: usize = made.len();
    let mut i: usize = 0;
    while i < count
        invariant
            i <= count,
            count == made@.len(),
            forall|i: int|
                0 <= i < made@.len() ==> (#[trigger] made@[i]).size_bits < 64 && made@[i].paddr.0
                    + made@[i].size_spec() <= u64::MAX,
            mem@ == cleared(m, made@.take(i as int)),
        decreases count - i,
    {
        assert(made@.take(i + 1).drop_last() =~= made@.take(i as int));
        let size: u64 = made[i].size();
        mem.zero_bytes(made[i].paddr.as_usize(), size);
        i = i + 1;
    }
    assert(made@.take(count as int) =~= made@);
}

/// Work out what a region becomes, without touching anything: the objects and
/// the new watermark.
pub(crate) fn plan_region(raw: &RawCap, target: ObjectType, size_bits: u8, count: usize) -> (r:
    Result<(Vec<RawCap>, u64), CapError>)
    requires
        raw.kind.untyped(),
        raw.is_sound(),
    ensures
        match retype_plan(*raw, target, size_bits, count as nat) {
            Ok(plan) => r is Ok && r->Ok_0.0@ == plan.0 && r->Ok_0.1 == plan.1,
            Err(e) => r is Err && r->Err_0 == e,
        },
{
    let bits: u8 = match target.size_bits(size_bits) {
        Some(b) => b,
        None => {
            return Err(CapError::BadObjectType);
        },
    };
    if raw.kind.is_device() {
        match target {
            ObjectType::Frame | ObjectType::DeviceUntyped => {},
            _ => {
                return Err(CapError::BadObjectType);
            },
        }
    } else if target.is_device() {
        return Err(CapError::BadObjectType);
    }
    // A CNode must consume at least one address bit, so it needs at least two
    // slots. A one-slot CNode would have radix 0, and a walk through it would
    // never shorten the remaining depth -- resolution would not terminate.

    if matches!(target, ObjectType::CNode) && bits <= SLOT_BITS {
        return Err(CapError::BadSize);
    }
    plan(raw, target, bits, count)
}

/// Clear the memory of planned objects. What a device holds is left alone.
pub(crate) fn clear_region(
    raw: &RawCap,
    target: ObjectType,
    size_bits: u8,
    made: &Vec<RawCap>,
    mem: &mut Memory,
)
    requires
        raw.kind.untyped(),
        raw.is_sound(),
        retype_plan(*raw, target, size_bits, made@.len()) matches Ok(plan) && plan.0 == made@,
    ensures
        final(mem)@ == retyped_memory(old(mem)@, raw.kind, made@),
{
    proof {
        let bits = retype_bits(raw.kind, target, size_bits)->Ok_0;
        retyped_objects_are_disjoint(*raw, target, bits, made@.len());
        if made@.len() > 0 {
            lemma_planned_bits(*raw, target, bits, made@.len());
        }
    }
    if !raw.kind.is_device() {
        zero(made, mem);
    }
}

/// Carve `count` objects out of the region a capability names.
///
/// Returns the objects and the new watermark. The caller owns writing it back
/// to the slot, and owns installing the resulting capabilities; nothing is
/// committed to the region unless every object fits, so a failure changes
/// nothing.
pub fn retype_region(
    raw: &RawCap,
    target: ObjectType,
    size_bits: u8,
    count: usize,
    mem: &mut Memory,
) -> (r: Result<(Vec<RawCap>, u64), CapError>)
    requires
        raw.kind.untyped(),
        raw.is_sound(),
    ensures
        match retype_plan(*raw, target, size_bits, count as nat) {
            Ok(plan) => {
                &&& r is Ok && r->Ok_0.0@ == plan.0 && r->Ok_0.1 == plan.1
                &&& final(mem)@ == retyped_memory(old(mem)@, raw.kind, plan.0)
            },
            Err(e) => r is Err && r->Err_0 == e && final(mem)@ == old(mem)@,
        },
{
    // Plan the whole batch before touching anything.
    match plan_region(raw, target, size_bits, count) {
        Ok((made, watermark)) => {
            proof {
                let bits = retype_bits(raw.kind, target, size_bits)->Ok_0;
                retyped_objects_are_disjoint(*raw, target, bits, count as nat);
            }
            clear_region(raw, target, size_bits, &made, mem);
            Ok((made, watermark))
        },
        Err(e) => Err(e),
    }
}

/// Objects that fit a region are no larger than the region.
pub proof fn lemma_planned_bits(raw: RawCap, target: ObjectType, bits: u8, n: nat)
    requires
        n > 0,
        planned(raw, target, bits, n) is Ok,
    ensures
        bits <= raw.size_bits,
{
}

/// Retyping needs [`crate::abi::rights::WRITE`] on the untyped capability.
impl<const R: u8> Cap<Untyped, R> where Mask<R>: HasWrite {
    /// Carve `count` objects of `target` out of this region.
    pub fn retype(&self, target: ObjectType, size_bits: u8, count: usize, mem: &mut Memory) -> (r:
        Result<(Vec<RawCap>, u64), CapError>)
        requires
            self.raw.kind is Untyped,
            self.raw.is_sound(),
        ensures
            match retype_plan(self.raw, target, size_bits, count as nat) {
                Ok(plan) => {
                    &&& r is Ok && r->Ok_0.0@ == plan.0 && r->Ok_0.1 == plan.1
                    &&& final(mem)@ == cleared(old(mem)@, plan.0)
                },
                Err(e) => r is Err && r->Err_0 == e && final(mem)@ == old(mem)@,
            },
    {
        retype_region(&self.raw, target, size_bits, count, mem)
    }

    /// Bytes of this region not yet handed out.
    pub fn free_bytes(&self) -> (r: u64)
        requires
            self.raw.kind is Untyped,
            self.raw.is_sound(),
        ensures
            r == self.raw.size_spec() - self.raw.watermark_spec(),
    {
        self.raw.size() - self.raw.watermark()
    }
}

/// Device memory is carved up the same way, and never cleared.
impl<const R: u8> Cap<DeviceUntyped, R> where Mask<R>: HasWrite {
    /// Carve `count` objects of `target` out of this region.
    pub fn retype(&self, target: ObjectType, size_bits: u8, count: usize, mem: &mut Memory) -> (r:
        Result<(Vec<RawCap>, u64), CapError>)
        requires
            self.raw.kind is DeviceUntyped,
            self.raw.is_sound(),
        ensures
            final(mem)@ == old(mem)@,
            match retype_plan(self.raw, target, size_bits, count as nat) {
                Ok(plan) => r is Ok && r->Ok_0.0@ == plan.0 && r->Ok_0.1 == plan.1,
                Err(e) => r is Err && r->Err_0 == e,
            },
    {
        retype_region(&self.raw, target, size_bits, count, mem)
    }
}

/// Every byte of every object made from ordinary memory is zero, and no byte
/// outside them has changed.
pub proof fn retyping_clears_exactly_the_objects(m: Map<int, u64>, made: Seq<RawCap>, a: int)
    ensures
        crate::mm::memory::byte_at(cleared(m, made), a) == if exists|i: int|
            0 <= i < made.len() && (#[trigger] made[i]).paddr.0 <= a < made[i].paddr.0 + block(
                made[i].size_bits,
            ) {
            0
        } else {
            crate::mm::memory::byte_at(m, a)
        },
    decreases made.len(),
{
    if made.len() > 0 {
        let rest = made.drop_last();
        retyping_clears_exactly_the_objects(m, rest, a);
        crate::mm::memory::clearing_zeroes_exactly_its_bytes(
            cleared(m, rest),
            made.last().paddr.0 as int,
            block(made.last().size_bits) as int,
            a,
        );
        let holds = |c: RawCap| c.paddr.0 <= a < c.paddr.0 + block(c.size_bits);
        if exists|i: int| 0 <= i < rest.len() && holds(#[trigger] rest[i]) {
            let i = choose|i: int| 0 <= i < rest.len() && holds(#[trigger] rest[i]);
            assert(holds(made[i]));
        }
        if holds(made.last()) {
            assert(holds(made[made.len() - 1]));
        } else if exists|i: int| 0 <= i < made.len() && holds(#[trigger] made[i]) {
            let i = choose|i: int| 0 <= i < made.len() && holds(#[trigger] made[i]);
            assert(holds(rest[i]));
        }
    }
}

} // verus!
