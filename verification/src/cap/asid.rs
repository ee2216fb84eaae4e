//! The ASID pool.

use crate::cap::AsidError;
use crate::mm::address_space::{AddressSpace, Asid};
use crate::mm::tlb::Tlb;
use vstd::prelude::*;

verus! {

/// ASIDs the pool hands out.
pub const MAX_ASIDS: usize = 64;

/// ASID 0 is what every address space uses before it is assigned one, so the
/// pool never hands it out: two spaces sharing it would be indistinguishable to
/// the TLB, which is the exact bug ASIDs exist to prevent.
pub const FIRST_ASID: u16 = 1;

/// Where the identifier sits in `satp`.
pub const ASID_MASK: u64 = 0x0fff_f000_0000_0000;

/// A pool of address space identifiers.
#[derive(Clone, Copy, PartialEq, Eq, Structural, Debug)]
pub struct AsidPool {
    /// One bit per ASID; bit `n` set means `FIRST_ASID + n` is in use.
    pub used: u64,
    pub bits: u8,
}

/// Bit `i` of a bitmap.
pub open spec fn bit(used: u64, i: int) -> bool {
    used & (1u64 << (i as u64)) != 0
}

/// How many of the lowest `n` bits of a word are set.
pub open spec fn ones(used: u64, n: nat) -> nat
    decreases n,
{
    if n == 0 {
        0
    } else {
        ones(used, (n - 1) as nat) + if bit(used, n - 1) {
            1nat
        } else {
            0
        }
    }
}

/// How many of the lowest `n` bits of a word are set.
fn count_ones(word: u64, n: u32) -> (r: u32)
    requires
        n <= 64,
    ensures
        r == ones(word, n as nat),
        r <= n,
{
    let mut count: u32 = 0;
    let mut i: u32 = 0;
    while i < n
        invariant
            i <= n <= 64,
            count == ones(word, i as nat),
            count <= i,
        decreases n - i,
    {
        if word & (1u64 << (i as u64)) != 0 {
            count = count + 1;
        }
        i = i + 1;
    }
    count
}

/// How many ASID bits a hart implements, from what it reads back in `satp`
/// after every bit of the field has been written.
pub fn implemented_bits(readback: u64) -> (r: u8)
    ensures
        r == ones((readback & ASID_MASK) >> 44, 16),
        r <= 16,
{
    count_ones((readback & ASID_MASK) >> 44, 16) as u8
}

impl AsidPool {
    /// Identifiers the pool may hand out: all but the reserved one, as far as
    /// the bitmap reaches.
    pub open spec fn room(self) -> nat {
        let usable = vstd::arithmetic::power2::pow2(self.bits as nat) - 1;
        if usable > MAX_ASIDS {
            MAX_ASIDS as nat
        } else {
            usable as nat
        }
    }

    /// Whether identifier number `i` is in use.
    pub open spec fn taken(self, i: int) -> bool {
        bit(self.used, i)
    }

    /// The pool with identifier number `i` in use.
    pub open spec fn with(self, i: int) -> AsidPool {
        AsidPool { used: self.used | (1u64 << (i as u64)), ..self }
    }

    /// The pool with identifier number `i` free.
    pub open spec fn without(self, i: int) -> AsidPool {
        AsidPool { used: self.used & !(1u64 << (i as u64)), ..self }
    }

    /// The first identifier from number `i` on that is free, if there is one.
    pub open spec fn first_free(self, i: nat) -> Option<nat>
        decreases self.room() + 1 - i,
    {
        if i >= self.room() {
            None
        } else if !self.taken(i as int) {
            Some(i)
        } else {
            self.first_free(i + 1)
        }
    }

    /// What taking an identifier does.
    pub open spec fn allocated(self) -> (AsidPool, Result<Asid, AsidError>) {
        if self.bits == 0 {
            (self, Err(AsidError::NotSupported))
        } else {
            match self.first_free(0) {
                Some(i) => (self.with(i as int), Ok(Asid((FIRST_ASID + i) as u16))),
                None => (self, Err(AsidError::Exhausted)),
            }
        }
    }

    pub fn new(bits: u8) -> (r: Self)
        ensures
            r == (AsidPool { used: 0, bits }),
    {
        AsidPool { used: 0, bits }
    }

    /// Re-open the pool at the hart's real ASID width, forgetting every
    /// assignment.
    pub fn reset(&mut self, bits: u8)
        ensures
            *final(self) == (AsidPool { used: 0, bits }),
    {
        self.used = 0;
        self.bits = bits;
    }

    pub fn capacity(&self) -> (r: usize)
        requires
            self.bits < 64,
        ensures
            r == self.room(),
            r <= MAX_ASIDS,
    {
        proof {
            crate::bits::lemma_shl_one(self.bits as u64);
            crate::bits::lemma_pow2_bounds(self.bits as nat);
        }
        // Minus one for the reserved ASID 0, capped by the bitmap's width.
        let usable: u64 = (1u64 << (self.bits as u64)) - 1;
        if usable > MAX_ASIDS as u64 {
            MAX_ASIDS
        } else {
            usable as usize
        }
    }

    pub fn in_use(&self) -> (r: u32)
        ensures
            r == ones(self.used, 64),
    {
        count_ones(self.used, 64)
    }

    /// Take an unused ASID.
    pub fn allocate(&mut self) -> (r: Result<Asid, AsidError>)
        requires
            old(self).bits < 64,
        ensures
            (*final(self), r) == old(self).allocated(),
    {
        if self.bits == 0 {
            return Err(AsidError::NotSupported);
        }
        let capacity: usize = self.capacity();
        let mut i: usize = 0;
        while i < capacity
            invariant
                i <= capacity <= MAX_ASIDS,
                capacity == self.room(),
                *self == *old(self),
                self.bits != 0,
                self.first_free(0) == self.first_free(i as nat),
            decreases capacity - i,
        {
            if self.used & (1u64 << (i as u64)) == 0 {
                self.used = self.used | (1u64 << (i as u64));
                return Ok(Asid::new(FIRST_ASID + i as u16));
            }
            i = i + 1;
        }
        Err(AsidError::Exhausted)
    }

    /// Give an ASID back.
    /// Stale TLB entries go first: the next holder must not see them.
    pub fn release(&mut self, asid: Asid, tlb: &mut Tlb)
        requires
            old(self).bits < 64,
        ensures
            FIRST_ASID <= asid.0 && asid.0 - FIRST_ASID < old(self).room() ==> {
                &&& *final(self) == old(self).without(asid.0 - FIRST_ASID)
                &&& final(tlb)@ == old(tlb)@.push(crate::mm::tlb::Flush::Tagged(asid))
            },
            !(FIRST_ASID <= asid.0 && asid.0 - FIRST_ASID < old(self).room()) ==> {
                &&& *final(self) == *old(self)
                &&& final(tlb)@ == old(tlb)@
            },
    {
        if asid.as_u16() < FIRST_ASID {
            return;
        }
        let index: u16 = asid.as_u16() - FIRST_ASID;
        if (index as usize) < self.capacity() {
            tlb.flush_asid(asid);
            self.used = self.used & !(1u64 << (index as u64));
        }
    }

    /// Bind an ASID to an address space, so switching to it stops needing a
    /// full TLB flush.
    pub fn assign(&mut self, space: &mut AddressSpace, tlb: &mut Tlb) -> (r: Result<
        Asid,
        AsidError,
    >)
        requires
            old(self).bits < 64,
        ensures
            (*final(self), r) == old(self).allocated(),
            match r {
                Ok(asid) => {
                    &&& *final(space) == (AddressSpace { asid, ..*old(space) })
                    &&& final(tlb)@ == old(tlb)@.push(crate::mm::tlb::Flush::Tagged(asid))
                },
                Err(_) => *final(space) == *old(space) && final(tlb)@ == old(tlb)@,
            },
    {
        match self.allocate() {
            Ok(asid) => {
                tlb.flush_asid(asid);
                space.set_asid(asid);
                Ok(asid)
            },
            Err(e) => Err(e),
        }
    }
}

/// The kernel-global pool userspace draws from, and the hart it is sized for.
#[derive(Clone, Copy, PartialEq, Eq, Structural, Debug)]
pub struct Asids {
    /// Number of ASID bits the hart implements.
    pub hart_bits: u8,
    /// Whether the width has been asked for yet.
    pub probed: bool,
    /// Whether the pool has been opened.
    pub ready: bool,
    pub pool: AsidPool,
}

impl Asids {
    /// Whether the width is one a hart can have, and the pool was opened at it
    /// or not at all.
    pub open spec fn is_sound(self) -> bool {
        self.hart_bits <= 16 && self.pool.bits <= 16
    }

    /// The state after the pool has been opened.
    pub open spec fn opened(self) -> Asids {
        Asids {
            probed: true,
            ready: true,
            pool: if self.ready {
                self.pool
            } else {
                AsidPool { used: 0, bits: self.hart_bits }
            },
            ..self
        }
    }

    /// What taking an identifier from the global pool does.
    pub open spec fn assigned(self) -> (Asids, Result<Asid, AsidError>) {
        let open = self.opened();
        (Asids { pool: open.pool.allocated().0, ..open }, open.pool.allocated().1)
    }

    /// A pool for a hart with this many ASID bits, not opened yet.
    pub fn new(hart_bits: u8) -> (r: Self)
        ensures
            r == (Asids {
                hart_bits,
                probed: false,
                ready: false,
                pool: AsidPool { used: 0, bits: 0 },
            }),
    {
        Asids { hart_bits, probed: false, ready: false, pool: AsidPool::new(0) }
    }

    /// Ask for the ASID width, and remember it. Safe to call more than once.
    pub fn init(&mut self) -> (r: u8)
        ensures
            *final(self) == (Asids { probed: true, ..*old(self) }),
            r == old(self).hart_bits,
    {
        self.probed = true;
        self.hart_bits
    }

    /// The ASID width, or zero before anyone asked the hart.
    pub fn bits(&self) -> (r: u8)
        ensures
            r == if self.probed {
                self.hart_bits
            } else {
                0
            },
    {
        if self.probed {
            self.hart_bits
        } else {
            0
        }
    }

    /// Learn the hart's ASID width and open the global pool.
    pub fn init_pool(&mut self) -> (r: u8)
        ensures
            *final(self) == old(self).opened(),
            r == old(self).hart_bits,
    {
        let bits: u8 = self.init();
        if !self.ready {
            self.ready = true;
            self.pool.reset(bits);
        }
        bits
    }

    /// Take an ASID from the global pool.
    pub fn assign_global(&mut self) -> (r: Result<Asid, AsidError>)
        requires
            old(self).is_sound(),
        ensures
            (*final(self), r) == old(self).assigned(),
            final(self).is_sound(),
    {
        self.init_pool();
        self.pool.allocate()
    }

    /// Give one back.
    pub fn release_global(&mut self, asid: Asid, tlb: &mut Tlb)
        requires
            old(self).is_sound(),
        ensures
            final(self).is_sound(),
            ({
                let index = asid.0 - FIRST_ASID;
                if 0 <= index < old(self).pool.room() {
                    &&& *final(self) == (Asids { pool: old(self).pool.without(index), ..*old(self) })
                    &&& final(tlb)@ == old(tlb)@.push(crate::mm::tlb::Flush::Tagged(asid))
                } else {
                    *final(self) == *old(self) && final(tlb)@ == old(tlb)@
                }
            }),
    {
        self.pool.release(asid, tlb);
    }

    /// How many ASIDs the global pool has handed out.
    pub fn global_in_use(&self) -> (r: u32)
        ensures
            r == ones(self.pool.used, 64),
    {
        self.pool.in_use()
    }
}

proof fn lemma_first_free(pool: AsidPool, i: nat)
    ensures
        match pool.first_free(i) {
            Some(k) => i <= k < pool.room() && !pool.taken(k as int) && forall|j: int|
                i <= j < k ==> #[trigger] pool.taken(j),
            None => forall|j: int| i <= j < pool.room() ==> #[trigger] pool.taken(j),
        },
    decreases pool.room() + 1 - i,
{
    if i < pool.room() && pool.taken(i as int) {
        lemma_first_free(pool, i + 1);
    }
}

/// The pool never hands out identifier zero, nor one that is in use, and it
/// refuses only when every identifier it has is in use.
pub proof fn an_allocated_asid_was_free(pool: AsidPool)
    requires
        0 < pool.bits,
    ensures
        match pool.allocated() {
            (after, Ok(asid)) => {
                &&& asid.0 != 0
                &&& asid.0 - FIRST_ASID < pool.room()
                &&& !pool.taken(asid.0 - FIRST_ASID)
                &&& after.taken(asid.0 - FIRST_ASID)
                &&& forall|j: int|
                    0 <= j < 64 && j != asid.0 - FIRST_ASID ==> #[trigger] after.taken(j)
                        == pool.taken(j)
            },
            (after, Err(e)) => {
                &&& e == AsidError::Exhausted
                &&& after == pool
                &&& forall|j: int| 0 <= j < pool.room() ==> #[trigger] pool.taken(j)
            },
        },
{
    vstd::arithmetic::power2::lemma_pow2_pos(pool.bits as nat);
    lemma_first_free(pool, 0);
    if let Some(i) = pool.first_free(0) {
        lemma_set_bit(pool.used, i as u64, i as u64);
        assert forall|j: int| 0 <= j < 64 && j != i implies #[trigger] pool.with(i as int).taken(j)
            == pool.taken(j) by {
            lemma_set_bit(pool.used, i as u64, j as u64);
        }
    }
}

/// Giving an identifier back makes exactly that one free again.
pub proof fn a_released_asid_is_free_again(pool: AsidPool, i: int, j: int)
    requires
        0 <= i < 64,
        0 <= j < 64,
    ensures
        pool.without(i).taken(j) == (pool.taken(j) && j != i),
{
    lemma_set_bit(pool.used, i as u64, j as u64);
}

proof fn lemma_set_bit(w: u64, i: u64, j: u64)
    by (bit_vector)
    requires
        i < 64,
        j < 64,
    ensures
        (w | (1u64 << i)) & (1u64 << i) != 0,
        (w & !(1u64 << i)) & (1u64 << i) == 0,
        i != j ==> (w | (1u64 << i)) & (1u64 << j) == w & (1u64 << j),
        i != j ==> (w & !(1u64 << i)) & (1u64 << j) == w & (1u64 << j),
{
}

} // verus!
