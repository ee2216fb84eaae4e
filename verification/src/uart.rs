//! The NS16550A console: which registers to touch, and with what.

use crate::mm::addr::PhysAddr;
use vstd::prelude::*;

verus! {

/// QEMU virt's UART0, as a physical address.
pub const UART0_PHYS: u64 = 0x1000_0000;

// Register offsets.

/// Read: receive buffer.
pub const RBR: u64 = 0;

/// Write: transmit holding.
pub const THR: u64 = 0;

/// With the divisor latch open: divisor, low byte.
pub const DLL: u64 = 0;

/// Interrupt enable.
pub const IER: u64 = 1;

/// With the divisor latch open: divisor, high byte.
pub const DLM: u64 = 1;

/// Write: FIFO control.
pub const FCR: u64 = 2;

/// Line control.
pub const LCR: u64 = 3;

/// Modem control.
pub const MCR: u64 = 4;

/// Line status.
pub const LSR: u64 = 5;

/// Line status: a byte has arrived.
pub const LSR_DATA_READY: u8 = 0x01;

/// Line status: the transmitter can accept another byte.
pub const LSR_THR_EMPTY: u8 = 0x20;

/// Line control: 8 bits, no parity, 1 stop bit.
pub const LCR_8BIT: u8 = 0x03;

/// Line control: the divisor latch.
pub const LCR_DLAB: u8 = 0x80;

/// FIFO control: on, with both sides emptied.
pub const FCR_FRESH: u8 = 0x07;

/// Modem control: DTR and RTS asserted.
pub const MCR_READY: u8 = 0x03;

/// One store to a register.
#[derive(Debug, Clone, Copy, PartialEq, Eq, Structural)]
pub struct Store {
    pub at: PhysAddr,
    pub value: u8,
}

/// An NS16550A with byte-spaced registers.
#[derive(Debug, Clone, Copy, PartialEq, Eq, Structural)]
pub struct Uart {
    /// Physical base.
    pub base: PhysAddr,
}

/// The bytes that bring the UART into a known state, by register, in order.
pub open spec fn init_sequence() -> Seq<(u64, u8)> {
    seq![
        // Interrupts off.
        (IER, 0x00u8),
        // Baud divisor, behind the latch.
        (LCR, LCR_DLAB),
        (DLL, 0x03u8),
        (DLM, 0x00u8),
        // Closing the latch in the same write that sets the word length.
        (LCR, LCR_8BIT),
        // Enable the FIFOs and discard what the firmware left in them.
        (FCR, FCR_FRESH),
        (MCR, MCR_READY),
    ]
}

impl Uart {
    pub fn new(base: u64) -> (r: Self)
        ensures
            r.base.0 == base,
    {
        Uart { base: PhysAddr::new(base) }
    }

    /// Whether the registers lie below the top of the address space.
    pub open spec fn wf(self) -> bool {
        self.base.0 + 8 <= u64::MAX
    }

    /// A store to the register at an offset.
    pub open spec fn store(self, register: (u64, u8)) -> Store {
        Store { at: PhysAddr((self.base.0 + register.0) as u64), value: register.1 }
    }

    fn reg(&self, off: u64) -> (r: PhysAddr)
        requires
            self.wf(),
            off < 8,
        ensures
            r.0 == self.base.0 + off,
    {
        PhysAddr::new(self.base.as_usize() + off)
    }

    fn write(&self, off: u64, value: u8) -> (r: Store)
        requires
            self.wf(),
            off < 8,
        ensures
            r == self.store((off, value)),
    {
        Store { at: self.reg(off), value }
    }

    /// Bring the UART into a known state: 8N1, FIFOs on and empty, interrupts
    /// off. The stores to perform, in order.
    pub fn init(&self) -> (r: Vec<Store>)
        requires
            self.wf(),
        ensures
            r@ == init_sequence().map_values(|w: (u64, u8)| self.store(w)),
    {
        let mut out: Vec<Store> = Vec::new();
        out.push(self.write(IER, 0x00));
        out.push(self.write(LCR, LCR_DLAB));
        out.push(self.write(DLL, 0x03));
        out.push(self.write(DLM, 0x00));
        out.push(self.write(LCR, LCR_8BIT));
        out.push(self.write(FCR, FCR_FRESH));
        out.push(self.write(MCR, MCR_READY));
        assert(out@ =~= init_sequence().map_values(|w: (u64, u8)| self.store(w)));
        out
    }

    /// Where the line status is read.
    pub fn status(&self) -> (r: PhysAddr)
        requires
            self.wf(),
        ensures
            r.0 == self.base.0 + LSR,
    {
        self.reg(LSR)
    }

    /// Transmit one byte, given the line status: the store to perform, or
    /// nothing while the transmitter cannot accept it.
    pub fn put(&self, status: u8, byte: u8) -> (r: Option<Store>)
        requires
            self.wf(),
        ensures
            r == if status & LSR_THR_EMPTY != 0 {
                Some(self.store((THR, byte)))
            } else {
                None
            },
    {
        if status & LSR_THR_EMPTY == 0 {
            None
        } else {
            Some(self.write(THR, byte))
        }
    }

    /// Receive without blocking, given the line status: where to read the byte,
    /// or nothing if none has arrived.
    pub fn get(&self, status: u8) -> (r: Option<PhysAddr>)
        requires
            self.wf(),
        ensures
            r == if status & LSR_DATA_READY != 0 {
                Some(PhysAddr((self.base.0 + RBR) as u64))
            } else {
                None
            },
    {
        if status & LSR_DATA_READY != 0 {
            Some(self.reg(RBR))
        } else {
            None
        }
    }

    /// The bytes to put for some text.
    pub fn write_str(&self, s: &str) -> (r: Vec<u8>)
        ensures
            r@ == crate::text::with_returns(crate::text::bytes_of(s@)),
    {
        crate::text::terminal_bytes(s.as_bytes())
    }
}

} // verus!
