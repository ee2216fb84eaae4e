//! Powers of two, and the masks that stand for them.

use vstd::prelude::*;

verus! {

/// Whether `n` is a power of two that fits in a machine word.
pub open spec fn is_power_of_two(n: u64) -> bool {
    exists|k: nat| k < 64 && n as nat == #[trigger] vstd::arithmetic::power2::pow2(k)
}

/// A power of two is never zero.
pub proof fn lemma_power_of_two_positive(n: u64)
    requires
        is_power_of_two(n),
    ensures
        n > 0,
{
    let k = choose|k: nat| k < 64 && n as nat == #[trigger] vstd::arithmetic::power2::pow2(k);
    vstd::arithmetic::power2::lemma_pow2_pos(k);
}

/// Masking with a power of two minus one is the remainder; masking with its
/// complement removes the remainder.
pub proof fn lemma_mask(x: u64, align: u64)
    requires
        is_power_of_two(align),
    ensures
        align > 0,
        x & ((align - 1) as u64) == x % align,
        x & !((align - 1) as u64) == x - x % align,
{
    let k = choose|k: nat| k < 64 && align as nat == #[trigger] vstd::arithmetic::power2::pow2(k);
    vstd::arithmetic::power2::lemma_pow2_pos(k);
    vstd::bits::lemma_u64_low_bits_mask_is_mod(x, k);
    let m = (align - 1) as u64;
    assert(vstd::bits::low_bits_mask(k) == m);
    lemma_and_not(x, m);
}

/// Clearing the bits of `m` takes away exactly what `m` selects.
pub proof fn lemma_and_not(x: u64, m: u64)
    by (bit_vector)
    ensures
        x & !m == x - (x & m),
        x & m <= x,
{
}

/// The powers of two the kernel names by value.
pub proof fn lemma_known_powers()
    ensures
        vstd::arithmetic::power2::pow2(0) == 1,
        vstd::arithmetic::power2::pow2(7) == 128,
        vstd::arithmetic::power2::pow2(9) == 512,
        vstd::arithmetic::power2::pow2(12) == 4096,
        vstd::arithmetic::power2::pow2(21) == 0x20_0000,
        vstd::arithmetic::power2::pow2(30) == 0x4000_0000,
        is_power_of_two(1),
        is_power_of_two(128),
        is_power_of_two(4096),
        is_power_of_two(0x20_0000),
        is_power_of_two(0x4000_0000),
{
    vstd::arithmetic::power2::lemma2_to64();
    assert(1u64 as nat == vstd::arithmetic::power2::pow2(0));
    assert(128u64 as nat == vstd::arithmetic::power2::pow2(7));
    assert(4096u64 as nat == vstd::arithmetic::power2::pow2(12));
    assert(0x20_0000u64 as nat == vstd::arithmetic::power2::pow2(21));
    assert(0x4000_0000u64 as nat == vstd::arithmetic::power2::pow2(30));
}

/// Shifting one left by `k` is two to the `k`.
pub proof fn lemma_shl_one(k: u64)
    requires
        k < 64,
    ensures
        1u64 << k == vstd::arithmetic::power2::pow2(k as nat),
        is_power_of_two(1u64 << k),
{
    vstd::bits::lemma_u64_pow2_no_overflow(k as nat);
    vstd::bits::lemma_u64_shl_is_mul(1, k);
    assert((1u64 << k) as nat == vstd::arithmetic::power2::pow2(k as nat));
}

/// Two to the `k` grows with `k`, and stays a machine word below 64.
pub proof fn lemma_pow2_bounds(k: nat)
    requires
        k < 64,
    ensures
        0 < vstd::arithmetic::power2::pow2(k) <= u64::MAX,
{
    vstd::arithmetic::power2::lemma_pow2_pos(k);
    vstd::bits::lemma_u64_pow2_no_overflow(k);
}

/// One more, starting over at zero past the largest word.
pub open spec fn one_more(n: u64) -> u64 {
    if n == u64::MAX {
        0
    } else {
        (n + 1) as u64
    }
}

/// One less, starting over at the largest word below zero.
pub open spec fn one_less(n: u64) -> u64 {
    if n == 0 {
        u64::MAX
    } else {
        (n - 1) as u64
    }
}

/// One more, starting over at zero past the largest word.
pub fn increment(n: u64) -> (r: u64)
    ensures
        r == one_more(n),
{
    if n == u64::MAX {
        0
    } else {
        n + 1
    }
}

/// One less, starting over at the largest word below zero.
pub fn decrement(n: u64) -> (r: u64)
    ensures
        r == one_less(n),
{
    if n == 0 {
        u64::MAX
    } else {
        n - 1
    }
}

} // verus!
