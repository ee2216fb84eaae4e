//! How the kernel writes addresses, regions and page table entries for a reader.

use crate::fdt::Fdt;
use crate::mm::addr::{PhysAddr, VirtAddr};
use crate::mm::page_table::{Pte, PteFlags};
use crate::mm::region::{Region, RegionList};
use crate::thread::{ThreadId, SPIE};
use crate::trap::{reg_name, Cause, TrapFrame};
use vstd::prelude::*;
use vstd::string::*;

verus! {

/// The digit that stands for `d`.
pub open spec fn digit(d: int) -> char {
    "0123456789abcdef"@[d]
}

pub proof fn lemma_fewer(v: nat, base: nat)
    by (nonlinear_arith)
    requires
        2 <= base,
    ensures
        v > 0 ==> v / base < v,
        v == 0 ==> v / base == 0,
        v == (v / base) * base + v % base,
        v % base < base,
{
}

/// The digits of `v` in `base`, at least `least` of them.
pub open spec fn digits(v: nat, base: nat, least: nat) -> Seq<char>
    decreases v, least,
{
    if base < 2 || v < base && least <= 1 {
        seq![digit(v as int)]
    } else {
        proof {
            lemma_fewer(v, base);
        }
        digits(
            v / base,
            base,
            if least == 0 {
                0
            } else {
                (least - 1) as nat
            },
        ).push(digit((v % base) as int))
    }
}

/// Write `v` in `base`, with at least `least` digits.
fn write_digits(out: &mut String, v: u64, base: u64, least: usize)
    requires
        2 <= base <= 16,
    ensures
        final(out)@ == old(out)@ + digits(v as nat, base as nat, least as nat),
    decreases v, least,
{
    proof {
        reveal_strlit("0123456789abcdef");
    }
    let d: usize = (v % base) as usize;
    if v >= base || least > 1 {
        let fewer: usize = if least == 0 {
            0
        } else {
            least - 1
        };
        proof {
            lemma_fewer(v as nat, base as nat);
        }
        write_digits(out, v / base, base, fewer);
    }
    out.append("0123456789abcdef".substring_char(d, d + 1));
}

impl PhysAddr {
    /// How the address reads: hexadecimal, ten digits or more.
    pub open spec fn text_spec(self) -> Seq<char> {
        "0x"@ + digits(self.0 as nat, 16, 10)
    }

    pub fn text(self) -> (r: String)
        ensures
            r@ == self.text_spec(),
    {
        let mut out: String = String::from_str("0x");
        write_digits(&mut out, self.0, 16, 10);
        out
    }

    /// The address with the name of its kind around it.
    pub fn debug_text(self) -> (r: String)
        ensures
            r@ == "PhysAddr(0x"@ + digits(self.0 as nat, 16, 1) + ")"@,
    {
        let mut out: String = String::from_str("PhysAddr(0x");
        write_digits(&mut out, self.0, 16, 1);
        out.append(")");
        out
    }
}

impl VirtAddr {
    /// How the address reads: hexadecimal, all sixteen digits.
    pub open spec fn text_spec(self) -> Seq<char> {
        "0x"@ + digits(self.0 as nat, 16, 16)
    }

    pub fn text(self) -> (r: String)
        ensures
            r@ == self.text_spec(),
    {
        let mut out: String = String::from_str("0x");
        write_digits(&mut out, self.0, 16, 16);
        out
    }

    /// The address with the name of its kind around it.
    pub fn debug_text(self) -> (r: String)
        ensures
            r@ == "VirtAddr(0x"@ + digits(self.0 as nat, 16, 1) + ")"@,
    {
        let mut out: String = String::from_str("VirtAddr(0x");
        write_digits(&mut out, self.0, 16, 1);
        out.append(")");
        out
    }
}

impl Region {
    /// How the region reads: its bounds, and its size in KiB.
    pub open spec fn text_spec(self) -> Seq<char> {
        self.start.text_spec() + ".."@ + self.end.text_spec() + " ("@ + digits(
            self.size() / 1024,
            10,
            1,
        ) + " KiB)"@
    }

    pub fn text(&self) -> (r: String)
        ensures
            r@ == self.text_spec(),
    {
        let mut out: String = self.start.text();
        out.append("..");
        out.append(self.end.text().as_str());
        out.append(" (");
        write_digits(&mut out, self.len() / 1024, 10, 1);
        out.append(" KiB)");
        out
    }
}

/// How the regions of a list read, one after another.
pub open spec fn listed(regions: Seq<Region>) -> Seq<char>
    decreases regions.len(),
{
    if regions.len() == 0 {
        Seq::empty()
    } else if regions.len() == 1 {
        regions[0].text_spec()
    } else {
        listed(regions.drop_last()) + ", "@ + regions.last().text_spec()
    }
}

impl<const N: usize> RegionList<N> {
    pub fn text(&self) -> (r: String)
        ensures
            r@ == "["@ + listed(self@) + "]"@,
    {
        let mut out: String = String::from_str("[");
        let total: usize = self.len();
        let mut i: usize = 0;
        while i < total
            invariant
                i <= total,
                total == self@.len(),
                out@ == "["@ + listed(self@.take(i as int)),
            decreases total - i,
        {
            let region = self.get(i);
            assert(self@.take(i + 1).drop_last() =~= self@.take(i as int));
            if i > 0 {
                out.append(", ");
            }
            out.append(region.text().as_str());
            i = i + 1;
        }
        assert(self@.take(total as int) =~= self@);
        out.append("]");
        out
    }
}

/// The letter of the flag in bit `i`.
pub open spec fn letter(i: int) -> char {
    "VRWXUGAD"@[i]
}

impl PteFlags {
    /// How the flags read: one letter per bit, a dash where it is clear.
    pub open spec fn text_spec(self) -> Seq<char> {
        Seq::new(
            8,
            |i: int|
                if self.has(1u64 << (i as u64)) {
                    letter(i)
                } else {
                    '-'
                },
        )
    }

    pub fn text(self) -> (r: String)
        ensures
            r@ == self.text_spec(),
    {
        proof {
            reveal_strlit("VRWXUGAD");
            reveal_strlit("-");
        }
        let mut out: String = String::new();
        let mut i: usize = 0;
        while i < 8
            invariant
                i <= 8,
                out@ == self.text_spec().take(i as int),
                "VRWXUGAD"@.len() == 8,
                "-"@ == seq!['-'],
            decreases 8 - i,
        {
            if self.contains(PteFlags(1u64 << (i as u64))) {
                out.append("VRWXUGAD".substring_char(i, i + 1));
            } else {
                out.append("-");
            }
            assert(self.text_spec().take(i + 1) =~= self.text_spec().take(i as int).push(
                self.text_spec()[i as int],
            ));
            i = i + 1;
        }
        assert(self.text_spec().take(8) =~= self.text_spec());
        out
    }
}

impl Pte {
    /// How the entry reads: where it points, its flags, and what it is.
    pub open spec fn text_spec(self) -> Seq<char> {
        if !self.valid() {
            "Pte(invalid)"@
        } else {
            "Pte("@ + PhysAddr(self.target()).text_spec() + " "@ + self.flags_spec().text_spec()
                + " "@ + if self.leaf_entry() {
                "leaf"@
            } else {
                "branch"@
            } + ")"@
        }
    }

    pub fn text(self) -> (r: String)
        ensures
            r@ == self.text_spec(),
    {
        if !self.is_valid() {
            return String::from_str("Pte(invalid)");
        }
        let mut out: String = String::from_str("Pte(");
        out.append(self.phys_addr().text().as_str());
        out.append(" ");
        out.append(self.flags().text().as_str());
        out.append(" ");
        if self.is_leaf() {
            out.append("leaf");
        } else {
            out.append("branch");
        }
        out.append(")");
        out
    }
}

impl<'a> Fdt<'a> {
    pub fn text(&self) -> (r: String)
        ensures
            r@ == "Fdt("@ + digits(self.bytes().len(), 10, 1) + " bytes)"@,
    {
        let mut out: String = String::from_str("Fdt(");
        write_digits(&mut out, self.total_size() as u64, 10, 1);
        out.append(" bytes)");
        out
    }
}

// --- Traps ---

/// A hexadecimal word, all sixteen digits of it.
pub open spec fn word_text(v: u64) -> Seq<char> {
    "0x"@ + digits(v as nat, 16, 16)
}

fn write_word(out: &mut String, v: u64)
    ensures
        final(out)@ == old(out)@ + word_text(v),
{
    out.append("0x");
    write_digits(out, v, 16, 16);
    assert(out@ =~= old(out)@ + word_text(v));
}

/// `text` moved to the right edge of a column.
pub open spec fn at_right(text: Seq<char>, width: int) -> Seq<char> {
    Seq::new(
        if text.len() < width {
            (width - text.len()) as nat
        } else {
            0
        },
        |i: int| ' ',
    ) + text
}

fn write_at_right(out: &mut String, text: &str, width: usize)
    ensures
        final(out)@ == old(out)@ + at_right(text@, width as int),
{
    proof {
        reveal_strlit(" ");
    }
    let ghost blank = at_right(text@, width as int).take(
        at_right(text@, width as int).len() - text@.len(),
    );
    let mut n: usize = text.unicode_len();
    let ghost used = n;
    assert(out@ =~= old(out)@ + blank.take(0));
    while n < width
        invariant
            used <= n,
            n <= width || n == used,
            used == text@.len(),
            blank == Seq::new(
                if used < width {
                    (width - used) as nat
                } else {
                    0
                },
                |i: int| ' ',
            ),
            " "@ == seq![' '],
            out@ == old(out)@ + blank.take(n - used),
        decreases width - n,
    {
        out.append(" ");
        assert(blank.take(n + 1 - used) =~= blank.take(n - used) + " "@);
        assert(out@ =~= old(out)@ + blank.take(n + 1 - used));
        n = n + 1;
    }
    assert(blank.take(n - used) =~= blank);
    out.append(text);
    assert(out@ =~= old(out)@ + at_right(text@, width as int));
}

impl Cause {
    /// How the cause reads: which space its code is from, and the code.
    pub open spec fn text_spec(self) -> Seq<char> {
        match self {
            Cause::Interrupt(code) => "Interrupt("@ + digits(code as nat, 10, 1) + ")"@,
            Cause::Exception(code) => "Exception("@ + digits(code as nat, 10, 1) + ")"@,
        }
    }

    pub fn text(self) -> (r: String)
        ensures
            r@ == self.text_spec(),
    {
        let (mut out, code): (String, u64) = match self {
            Cause::Interrupt(code) => (String::from_str("Interrupt("), code),
            Cause::Exception(code) => (String::from_str("Exception("), code),
        };
        write_digits(&mut out, code, 10, 1);
        out.append(")");
        out
    }
}

/// How the first `n` registers read, four to a line.
pub open spec fn registers_text(x: Seq<u64>, n: nat) -> Seq<char>
    decreases n,
{
    if n == 0 {
        Seq::empty()
    } else {
        let i = n - 1;
        registers_text(x, i as nat) + "  "@ + at_right(crate::trap::register_name(i), 4) + "="@
            + word_text(x[i]) + if i % 4 == 3 {
            "\n"@
        } else {
            Seq::empty()
        }
    }
}

fn write_registers(out: &mut String, frame: &TrapFrame)
    ensures
        final(out)@ == old(out)@ + registers_text(frame@.x, 32),
{
    let mut i: usize = 0;
    assert(out@ =~= old(out)@ + registers_text(frame@.x, 0));
    while i < 32
        invariant
            i <= 32,
            out@ == old(out)@ + registers_text(frame@.x, i as nat),
        decreases 32 - i,
    {
        let ghost before = out@;
        out.append("  ");
        write_at_right(out, reg_name(i), 4);
        out.append("=");
        write_word(out, frame.x[i]);
        // Four per line keeps the dump on one screen at 80 columns.
        if i % 4 == 3 {
            out.append("\n");
        }
        assert(out@ =~= old(out)@ + registers_text(frame@.x, (i + 1) as nat));
        i = i + 1;
    }
}

/// A status bit, as a digit.
pub open spec fn bit_text(status: u64, bit: u64) -> Seq<char> {
    if status & bit != 0 {
        "1"@
    } else {
        "0"@
    }
}

fn write_bit(out: &mut String, status: u64, bit: u64)
    ensures
        final(out)@ == old(out)@ + bit_text(status, bit),
{
    if status & bit != 0 {
        out.append("1");
    } else {
        out.append("0");
    }
}

/// Interrupts are enabled.
pub const SIE: u64 = 0x2;

/// The trap came from supervisor mode.
pub const SPP: u64 = 0x100;

/// What is said about a trap nobody handles.
pub open spec fn unhandled_text(
    cause: Cause,
    sepc: u64,
    stval: u64,
    status: u64,
    x: Seq<u64>,
) -> Seq<char> {
    "\n=== UNHANDLED TRAP ===\ncause   : "@ + cause.name_spec() + " ("@ + cause.text_spec()
        + ")\nsepc    : "@ + word_text(sepc) + "\nstval   : "@ + word_text(stval)
        + "\nsstatus : "@ + word_text(status) + "  (SPP="@ + bit_text(status, SPP) + ", SPIE="@
        + bit_text(status, SPIE) + ", SIE="@ + bit_text(status, SIE) + ")\nregisters:\n"@
        + registers_text(x, 32)
}

/// Everything there is to say about a trap nobody handles.
pub fn fatal(cause: Cause, sepc: u64, stval: u64, status: u64, frame: &TrapFrame) -> (r: String)
    ensures
        r@ == unhandled_text(cause, sepc, stval, status, frame@.x),
{
    let mut out: String = String::from_str("\n=== UNHANDLED TRAP ===\ncause   : ");
    out.append(cause.name());
    out.append(" (");
    out.append(cause.text().as_str());
    out.append(")\nsepc    : ");
    write_word(&mut out, sepc);
    out.append("\nstval   : ");
    write_word(&mut out, stval);
    out.append("\nsstatus : ");
    write_word(&mut out, status);
    out.append("  (SPP=");
    write_bit(&mut out, status, SPP);
    out.append(", SPIE=");
    write_bit(&mut out, status, SPIE);
    out.append(", SIE=");
    write_bit(&mut out, status, SIE);
    out.append(")\nregisters:\n");
    write_registers(&mut out, frame);
    out
}

/// What is said about a thread the kernel destroys.
pub open spec fn killed_text(id: ThreadId, cause: Cause, at: u64, no_pager: bool) -> Seq<char> {
    "thread "@ + digits(id as nat, 10, 1) + " killed: "@ + cause.name_spec() + " at 0x"@ + digits(
        at as nat,
        16,
        1,
    ) + if no_pager {
        " (no fault endpoint)"@
    } else {
        Seq::empty()
    }
}

/// Which thread was killed, why, and where it was.
pub fn killed(id: ThreadId, cause: Cause, at: u64, no_pager: bool) -> (r: String)
    ensures
        r@ == killed_text(id, cause, at, no_pager),
{
    let mut out: String = String::from_str("thread ");
    write_digits(&mut out, id, 10, 1);
    out.append(" killed: ");
    out.append(cause.name());
    out.append(" at 0x");
    write_digits(&mut out, at, 16, 1);
    if no_pager {
        out.append(" (no fault endpoint)");
    }
    assert(out@ =~= killed_text(id, cause, at, no_pager));
    out
}

/// The number that some digits stand for.
pub open spec fn number(text: Seq<char>, base: nat) -> nat
    decreases text.len(),
{
    if text.len() == 0 {
        0
    } else {
        let d = choose|d: int| 0 <= d < 16 && #[trigger] digit(d) == text.last();
        (number(text.drop_last(), base) * base + d) as nat
    }
}

proof fn lemma_digit(d: int)
    requires
        0 <= d < 16,
    ensures
        (choose|e: int| 0 <= e < 16 && #[trigger] digit(e) == digit(d)) == d,
{
    reveal_strlit("0123456789abcdef");
    let e = choose|e: int| 0 <= e < 16 && #[trigger] digit(e) == digit(d);
    assert(0 <= e < 16 && digit(e) == digit(d));
}

/// A number that was written out reads back as itself, however many zeroes were
/// put before it.
pub proof fn numbers_read_back(v: nat, base: nat, least: nat)
    requires
        2 <= base <= 16,
    ensures
        number(digits(v, base, least), base) == v,
    decreases v, least,
{
    let text = digits(v, base, least);
    if v < base && least <= 1 {
        lemma_digit(v as int);
        assert(text.drop_last() =~= Seq::<char>::empty());
        assert(number(text.drop_last(), base) == 0);
        assert(0 * base == 0) by (nonlinear_arith);
    } else {
        let fewer = if least == 0 {
            0
        } else {
            (least - 1) as nat
        };
        lemma_fewer(v, base);
        numbers_read_back(v / base, base, fewer);
        lemma_digit((v % base) as int);
        assert(text.drop_last() =~= digits(v / base, base, fewer));
    }
}

} // verus!
