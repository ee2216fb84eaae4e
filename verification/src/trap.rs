//! Traps: what they preserve, and what they mean.

use vstd::prelude::*;

verus! {

/// Register indices the trap code and the thread code both need.
pub const SP: usize = 2;

pub const A0: usize = 10;

pub const A1: usize = 11;

pub const A2: usize = 12;

pub const A3: usize = 13;

pub const A4: usize = 14;

pub const A5: usize = 15;

pub const A6: usize = 16;

pub const A7: usize = 17;

/// Bytes the entry reserves for a frame: 272 rounded up to keep `sp` 16-aligned.
pub const FRAME_SIZE: u64 = 288;

/// Registers in a frame.
pub const REGS: usize = 32;

/// Everything a trap must preserve.
#[derive(Debug, Clone, Copy)]
pub struct TrapFrame {
    /// x0..x31 by architectural number; `x[0]` is written as zero for dumps.
    pub x: [u64; REGS],
    pub sepc: u64,
    pub sstatus: u64,
}

/// A trap frame, with its registers as a sequence.
#[verifier::ext_equal]
pub struct FrameView {
    pub x: Seq<u64>,
    pub sepc: u64,
    pub sstatus: u64,
}

impl View for TrapFrame {
    type V = FrameView;

    open spec fn view(&self) -> FrameView {
        FrameView { x: self.x@, sepc: self.sepc, sstatus: self.sstatus }
    }
}

impl FrameView {
    /// A frame of zeroes.
    pub open spec fn zero() -> FrameView {
        FrameView { x: Seq::new(32, |i: int| 0u64), sepc: 0, sstatus: 0 }
    }

    /// The frame with one register changed.
    pub open spec fn with_reg(self, i: int, value: u64) -> FrameView {
        FrameView { x: self.x.update(i, value), ..self }
    }
}

/// A register file of zeroes.
pub fn zero_registers() -> (r: [u64; REGS])
    ensures
        r@ == Seq::new(32, |i: int| 0u64),
{
    let mut r: [u64; REGS] = [0u64;REGS];
    let mut i: usize = 0;
    while i < REGS
        invariant
            i <= REGS,
            r@.len() == 32,
            forall|j: int| 0 <= j < i ==> #[trigger] r@[j] == 0u64,
        decreases REGS - i,
    {
        r[i] = 0;
        i += 1;
    }
    r
}

impl TrapFrame {
    /// A frame of zeroes.
    pub fn zero() -> (r: Self)
        ensures
            r@ == FrameView::zero(),
    {
        let x: [u64; REGS] = zero_registers();
        TrapFrame { x, sepc: 0, sstatus: 0 }
    }

    /// Change one register.
    pub fn set(&mut self, i: usize, value: u64)
        requires
            i < 32,
        ensures
            final(self)@ == old(self)@.with_reg(i as int, value),
    {
        self.x[i] = value;
        assert(self@.x =~= old(self)@.x.update(i as int, value));
    }
}

impl Default for TrapFrame {
    fn default() -> (r: Self)
        ensures
            r@ == FrameView::zero(),
    {
        TrapFrame::zero()
    }
}

/// The ABI name of a register, by architectural number.
pub open spec fn register_name(i: int) -> Seq<char> {
    if i == 0 {
        "zero"@
    } else if i == 1 {
        "ra"@
    } else if i == 2 {
        "sp"@
    } else if i == 3 {
        "gp"@
    } else if i == 4 {
        "tp"@
    } else if i == 5 {
        "t0"@
    } else if i == 6 {
        "t1"@
    } else if i == 7 {
        "t2"@
    } else if i == 8 {
        "s0"@
    } else if i == 9 {
        "s1"@
    } else if i == 10 {
        "a0"@
    } else if i == 11 {
        "a1"@
    } else if i == 12 {
        "a2"@
    } else if i == 13 {
        "a3"@
    } else if i == 14 {
        "a4"@
    } else if i == 15 {
        "a5"@
    } else if i == 16 {
        "a6"@
    } else if i == 17 {
        "a7"@
    } else if i == 18 {
        "s2"@
    } else if i == 19 {
        "s3"@
    } else if i == 20 {
        "s4"@
    } else if i == 21 {
        "s5"@
    } else if i == 22 {
        "s6"@
    } else if i == 23 {
        "s7"@
    } else if i == 24 {
        "s8"@
    } else if i == 25 {
        "s9"@
    } else if i == 26 {
        "s10"@
    } else if i == 27 {
        "s11"@
    } else if i == 28 {
        "t3"@
    } else if i == 29 {
        "t4"@
    } else if i == 30 {
        "t5"@
    } else {
        "t6"@
    }
}

/// The ABI name of a register, for dumps.
pub fn reg_name(i: usize) -> (r: &'static str)
    requires
        i < 32,
    ensures
        r@ == register_name(i as int),
{
    match i {
        0 => "zero",
        1 => "ra",
        2 => "sp",
        3 => "gp",
        4 => "tp",
        5 => "t0",
        6 => "t1",
        7 => "t2",
        8 => "s0",
        9 => "s1",
        10 => "a0",
        11 => "a1",
        12 => "a2",
        13 => "a3",
        14 => "a4",
        15 => "a5",
        16 => "a6",
        17 => "a7",
        18 => "s2",
        19 => "s3",
        20 => "s4",
        21 => "s5",
        22 => "s6",
        23 => "s7",
        24 => "s8",
        25 => "s9",
        26 => "s10",
        27 => "s11",
        28 => "t3",
        29 => "t4",
        30 => "t5",
        _ => "t6",
    }
}

/// Decoded trap cause.
#[derive(Debug, Clone, Copy, PartialEq, Eq, Structural)]
pub enum Cause {
    Interrupt(u64),
    Exception(u64),
}

/// The bit that tells interrupts from exceptions.
pub const INTERRUPT: u64 = 0x8000_0000_0000_0000;

impl Cause {
    /// The cause a `scause` value stands for.
    pub open spec fn decoded(scause: u64) -> Cause {
        if scause >= INTERRUPT {
            Cause::Interrupt((scause - INTERRUPT) as u64)
        } else {
            Cause::Exception(scause)
        }
    }

    /// The name of a cause.
    pub open spec fn name_spec(self) -> Seq<char> {
        match self {
            Cause::Interrupt(n) => if n == 1 {
                "supervisor software interrupt"@
            } else if n == 5 {
                "supervisor timer interrupt"@
            } else if n == 9 {
                "supervisor external interrupt"@
            } else {
                "reserved interrupt"@
            },
            Cause::Exception(n) => if n == 0 {
                "instruction address misaligned"@
            } else if n == 1 {
                "instruction access fault"@
            } else if n == 2 {
                "illegal instruction"@
            } else if n == 3 {
                "breakpoint"@
            } else if n == 4 {
                "load address misaligned"@
            } else if n == 5 {
                "load access fault"@
            } else if n == 6 {
                "store/AMO address misaligned"@
            } else if n == 7 {
                "store/AMO access fault"@
            } else if n == 8 {
                "ecall from U-mode"@
            } else if n == 9 {
                "ecall from S-mode"@
            } else if n == 12 {
                "instruction page fault"@
            } else if n == 13 {
                "load page fault"@
            } else if n == 15 {
                "store/AMO page fault"@
            } else {
                "reserved exception"@
            },
        }
    }

    pub fn decode(scause: u64) -> (r: Self)
        ensures
            r == Cause::decoded(scause),
    {
        // The top bit distinguishes the two spaces; the rest is the code.
        proof {
            lemma_top_bit(scause);
        }
        if scause & INTERRUPT != 0 {
            Cause::Interrupt(scause & !INTERRUPT)
        } else {
            Cause::Exception(scause)
        }
    }

    pub fn name(&self) -> (r: &'static str)
        ensures
            r@ == self.name_spec(),
    {
        match self {
            Cause::Interrupt(1) => "supervisor software interrupt",
            Cause::Interrupt(5) => "supervisor timer interrupt",
            Cause::Interrupt(9) => "supervisor external interrupt",
            Cause::Interrupt(_) => "reserved interrupt",
            Cause::Exception(0) => "instruction address misaligned",
            Cause::Exception(1) => "instruction access fault",
            Cause::Exception(2) => "illegal instruction",
            Cause::Exception(3) => "breakpoint",
            Cause::Exception(4) => "load address misaligned",
            Cause::Exception(5) => "load access fault",
            Cause::Exception(6) => "store/AMO address misaligned",
            Cause::Exception(7) => "store/AMO access fault",
            Cause::Exception(8) => "ecall from U-mode",
            Cause::Exception(9) => "ecall from S-mode",
            Cause::Exception(12) => "instruction page fault",
            Cause::Exception(13) => "load page fault",
            Cause::Exception(15) => "store/AMO page fault",
            Cause::Exception(_) => "reserved exception",
        }
    }
}

proof fn lemma_top_bit(s: u64)
    by (bit_vector)
    ensures
        s & INTERRUPT != 0 <==> s >= INTERRUPT,
        s >= INTERRUPT ==> s & !INTERRUPT == s - INTERRUPT,
{
}

/// What to do about a trap taken in the kernel itself.
#[derive(Debug, Clone, Copy, PartialEq, Eq, Structural)]
pub enum KernelTrap {
    /// Count the tick and arm the next one.
    Tick,
    /// Ask the interrupt controller what happened.
    External,
    /// Count it and step over the instruction.
    Breakpoint,
    /// Dump everything and stop.
    Fatal,
}

/// What to do about a trap taken in the kernel itself.
pub open spec fn kernel_trap(cause: Cause) -> KernelTrap {
    if cause == Cause::Interrupt(5) {
        KernelTrap::Tick
    } else if cause == Cause::Interrupt(9) {
        KernelTrap::External
    } else if cause == Cause::Exception(3) {
        KernelTrap::Breakpoint
    } else {
        KernelTrap::Fatal
    }
}

/// Decide what to do about a trap taken in the kernel itself.
pub fn dispatch(cause: Cause) -> (r: KernelTrap)
    ensures
        r == kernel_trap(cause),
{
    match cause {
        Cause::Interrupt(5) => KernelTrap::Tick,
        Cause::Interrupt(9) => KernelTrap::External,
        Cause::Exception(3) => KernelTrap::Breakpoint,
        _ => KernelTrap::Fatal,
    }
}

/// Bytes of an instruction, by its first half-word: four if its two low bits
/// are set, else two.
pub open spec fn instruction_length(low: u16) -> u64 {
    if low % 4 == 3 {
        4
    } else {
        2
    }
}

/// Advance past the instruction that trapped, whose first half-word is `low`.
pub fn skip_faulting_instruction(frame: &mut TrapFrame, low: u16)
    requires
        old(frame).sepc + 4 <= u64::MAX,
    ensures
        final(frame)@ == (FrameView {
            sepc: (old(frame).sepc + instruction_length(low)) as u64,
            ..old(frame)@
        }),
{
    proof {
        lemma_low_bits(low);
    }
    frame.sepc = frame.sepc + if low & 0b11 == 0b11 {
        4
    } else {
        2
    };
}

proof fn lemma_low_bits(low: u16)
    by (bit_vector)
    ensures
        low & 0b11 == low % 4,
{
}

/// Bytes of a hart's built-in kernel stack.
pub const KERNEL_STACK_SIZE: u64 = 0x1_0000;

/// Top of a hart's kernel stack, where the trap entry can find it.
#[derive(Debug, Clone, Copy, PartialEq, Eq, Structural)]
pub struct KernelStack {
    pub top: u64,
}

impl KernelStack {
    pub fn new() -> (r: Self)
        ensures
            r.top == 0,
    {
        KernelStack { top: 0 }
    }

    /// Point the trap path at the kernel stack it should run on.
    pub fn set_kernel_stack(&mut self, top: u64)
        requires
            top % 16 == 0,
        ensures
            final(self).top == top,
    {
        self.top = top;
    }

    /// Point the trap path at a built-in stack that starts at `base`.
    pub fn use_default_kernel_stack(&mut self, base: u64)
        requires
            base % 16 == 0,
            base + KERNEL_STACK_SIZE <= u64::MAX,
        ensures
            final(self).top == base + KERNEL_STACK_SIZE,
    {
        self.set_kernel_stack(base + KERNEL_STACK_SIZE);
    }

    pub fn kernel_stack(&self) -> (r: u64)
        ensures
            r == self.top,
    {
        self.top
    }
}

} // verus!
