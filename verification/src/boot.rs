//! The first page table, and what is printed before there is a console.

use crate::mm::addr::{PhysAddr, VirtAddr, KERNEL_VMA};
use crate::mm::memory::Memory;
use crate::mm::page_table::{Pte, PteFlags, A, D, G, MAX_LEVEL, R, V, W, X};
use vstd::prelude::*;

verus! {

/// The `satp` mode field for Sv39.
pub const SATP_SV39: u64 = 0x8000_0000_0000_0000;

/// Everything the bootstrap table allows: it is replaced before anything else
/// runs.
pub const EARLY_FLAGS: u64 = V | R | W | X | G | A | D;

/// Where the devices are.
pub const DEVICES: u64 = 0x0000_0000;

/// Where memory starts.
pub const DRAM: u64 = 0x8000_0000;

/// The `satp` value for a root table, under address space identifier zero.
pub open spec fn satp_of(root_pa: u64) -> u64 {
    SATP_SV39 | (root_pa >> 12)
}

/// Compose a `satp` value, under address space identifier zero.
pub fn satp_value(root_pa: u64) -> (r: u64)
    ensures
        r == satp_of(root_pa),
{
    SATP_SV39 | (root_pa >> 12)
}

// --- The bootstrap table ---

/// Memory with the gigabyte at `va` mapped to `pa` in the root table.
pub open spec fn with_gigapage(m: Map<int, u64>, root: u64, va: u64, pa: u64) -> Map<int, u64> {
    m.insert(
        crate::mm::memory::word_number(root, crate::mm::addr::vpn_of(va, MAX_LEVEL as nat)),
        Pte::leaf_of(pa, EARLY_FLAGS).0,
    )
}

/// Memory with the bootstrap table: devices and memory, each where it is and
/// where the kernel is linked to find it.
pub open spec fn with_early_table(m: Map<int, u64>, root: u64) -> Map<int, u64> {
    with_gigapage(
        with_gigapage(
            with_gigapage(
                with_gigapage(m, root, DEVICES, DEVICES),
                root,
                (KERNEL_VMA + DEVICES) as u64,
                DEVICES,
            ),
            root,
            DRAM,
            DRAM,
        ),
        root,
        (KERNEL_VMA + DRAM) as u64,
        DRAM,
    )
}

/// Install one 1 GiB leaf mapping `va` to `pa`, which must be 1 GiB aligned.
pub fn map_gigapage(root: PhysAddr, va: u64, pa: u64, mem: &mut Memory)
    requires
        pa % 0x4000_0000 == 0,
    ensures
        final(mem)@ == with_gigapage(old(mem)@, root.0, va, pa),
{
    let index: usize = VirtAddr::new(va).vpn(MAX_LEVEL);
    let leaf: Pte = Pte::leaf(PhysAddr::new(pa), PteFlags(EARLY_FLAGS));
    mem.write(root.as_usize(), index as u64, leaf.bits());
}

/// Build the bootstrap table and return the `satp` value that activates it.
pub fn build_early_table(root: PhysAddr, mem: &mut Memory) -> (r: u64)
    ensures
        final(mem)@ == with_early_table(old(mem)@, root.0),
        r == satp_of(root.0),
{
    map_gigapage(root, DEVICES, DEVICES, mem);
    map_gigapage(root, KERNEL_VMA + DEVICES, DEVICES, mem);
    map_gigapage(root, DRAM, DRAM, mem);
    map_gigapage(root, KERNEL_VMA + DRAM, DRAM, mem);
    satp_value(root.as_usize())
}

/// While the bootstrap table is in force, every address of the first gigabyte of
/// devices and of memory is found where it is and at the kernel's offset, so
/// the jump from one to the other lands on the same code.
pub proof fn the_jump_lands_where_it_started(m: Map<int, u64>, root: u64, a: u64)
    requires
        a < 0x4000_0000 || DRAM <= a < DRAM + 0x4000_0000,
    ensures
        crate::mm::page_table::translated(with_early_table(m, root), root, a) == Some(
            (PhysAddr(a), PteFlags(EARLY_FLAGS), MAX_LEVEL),
        ),
        crate::mm::page_table::translated(
            with_early_table(m, root),
            root,
            (a + KERNEL_VMA) as u64,
        ) == Some((PhysAddr(a), PteFlags(EARLY_FLAGS), MAX_LEVEL)),
{
    let pa = if a < 0x4000_0000 {
        DEVICES
    } else {
        DRAM
    };
    crate::mm::addr::lemma_spans();
    lemma_gigapage(with_early_table(m, root), root, pa, pa, a);
    lemma_gigapage(
        with_early_table(m, root),
        root,
        (KERNEL_VMA + pa) as u64,
        pa,
        (a + KERNEL_VMA) as u64,
    );
}

proof fn lemma_gigapage(m: Map<int, u64>, root: u64, va: u64, pa: u64, a: u64)
    requires
        va % 0x4000_0000 == 0,
        pa % 0x4000_0000 == 0,
        pa < crate::mm::addr::PHYS_LIMIT,
        va <= a < va + 0x4000_0000,
        crate::mm::addr::canonical(va),
        m[crate::mm::memory::word_number(root, crate::mm::addr::vpn_of(va, MAX_LEVEL as nat))]
            == Pte::leaf_of(pa, EARLY_FLAGS).0,
    ensures
        crate::mm::page_table::translated(m, root, a) == Some(
            (PhysAddr((pa + (a - va)) as u64), PteFlags(EARLY_FLAGS), MAX_LEVEL),
        ),
{
    let level = MAX_LEVEL as nat;
    crate::mm::addr::lemma_spans();
    lemma_early_flags();
    crate::mm::translation::lemma_page_is_canonical(va, a, level);
    crate::mm::translation::lemma_same_page(va, a, level, level);
    crate::mm::translation::lemma_leaf_translation(va, pa, level, PteFlags(EARLY_FLAGS), a);
}

proof fn lemma_early_flags()
    by (bit_vector)
    ensures
        EARLY_FLAGS <= 0xff,
        EARLY_FLAGS & 0x0e != 0,
        EARLY_FLAGS | V == EARLY_FLAGS,
{
}

// --- Before there is a console ---

/// What to send to print some text during the early phase.
pub fn early_print(s: &str) -> (r: Vec<u8>)
    ensures
        r@ == crate::text::with_returns(crate::text::bytes_of(s@)),
{
    crate::text::terminal_bytes(s.as_bytes())
}

/// A hexadecimal digit.
pub open spec fn hex_digit(nibble: int) -> u8 {
    if nibble < 10 {
        (0x30 + nibble) as u8
    } else {
        (0x61 + nibble - 10) as u8
    }
}

/// The sixteen hexadecimal digits of a number, most significant first.
pub open spec fn hex_digits(value: u64) -> Seq<u8> {
    Seq::new(
        16,
        |i: int|
            hex_digit(
                (value as int / vstd::arithmetic::power::pow(16, (15 - i) as nat)) % 16,
            ),
    )
}

/// What to send to print a 64-bit value in hex, without a formatter.
pub fn early_hex(value: u64) -> (r: Vec<u8>)
    ensures
        r@ == seq![0x30u8, 0x78u8] + hex_digits(value),
{
    let mut out: Vec<u8> = Vec::new();
    out.push(0x30);
    out.push(0x78);
    let mut place: u64 = 0x1000_0000_0000_0000;
    let mut i: usize = 0;
    proof {
        lemma_places();
        assert(out@ =~= seq![0x30u8, 0x78u8] + hex_digits(value).take(0));
    }
    while i < 16
        invariant
            i <= 16,
            i < 16 ==> place == vstd::arithmetic::power::pow(16, (15 - i) as nat),
            out@ == seq![0x30u8, 0x78u8] + hex_digits(value).take(i as int),
        decreases 16 - i,
    {
        proof {
            lemma_places();
            assert(hex_digits(value).take(i + 1) =~= hex_digits(value).take(i as int).push(
                hex_digits(value)[i as int],
            ));
        }
        let nibble: u8 = ((value / place) % 16) as u8;
        let digit: u8 = if nibble < 10 {
            0x30 + nibble
        } else {
            0x61 + (nibble - 10)
        };
        let ghost before = out@;
        out.push(digit);
        assert(out@ =~= seq![0x30u8, 0x78u8] + hex_digits(value).take(i + 1));
        if i < 15 {
            proof {
                vstd::arithmetic::power::lemma_pow1(16);
                vstd::arithmetic::power::lemma_pow_adds(16, 1, (14 - i) as nat);
                let rest = vstd::arithmetic::power::pow(16, (14 - i) as nat);
                assert(place == 16 * rest);
            }
            place = place / 16;
        }
        i = i + 1;
    }
    assert(hex_digits(value).take(16) =~= hex_digits(value));
    out
}

/// The largest place of a 64-bit number, and that every place is positive.
proof fn lemma_places()
    ensures
        vstd::arithmetic::power::pow(16, 15) == 0x1000_0000_0000_0000,
        forall|i: nat| #[trigger] vstd::arithmetic::power::pow(16, i) > 0,
{
    assert(vstd::arithmetic::power::pow(16, 15) == 0x1000_0000_0000_0000) by {
        reveal_with_fuel(vstd::arithmetic::power::pow, 16);
    }
    assert forall|i: nat| #[trigger] vstd::arithmetic::power::pow(16, i) > 0 by {
        vstd::arithmetic::power::lemma_pow_positive(16, i);
    }
}

} // verus!
