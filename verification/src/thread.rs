//! Threads: the unit that runs, and the TCB that holds it when it is not running.

use crate::cap::RawCap;
use crate::mm::addr::{PhysAddr, VirtAddr};
use crate::mm::address_space::AddressSpace;
use crate::store::Blank;
use crate::trap::{zero_registers, FrameView, TrapFrame, A0, REGS, SP};
use vstd::prelude::*;

verus! {

/// Ids are for diagnostics: authority is the capability.
pub type ThreadId = u64;

/// `sstatus.SPIE`: interrupts are on once the thread resumes.
pub const SPIE: u64 = 0x20;

/// `sstatus.FS`, the two bits that decide whether `f0-f31` are usable.
pub const FS_MASK: u64 = 0x6000;

pub const FS_OFF: u64 = 0;

pub const FS_INITIAL: u64 = 0x2000;

pub const FS_CLEAN: u64 = 0x4000;

#[derive(Debug, Clone, Copy, PartialEq, Eq, Structural)]
pub enum ThreadState {
    /// Retyped but never started: no address space, no CSpace, no entry point.
    Inactive,
    /// On the run queue, waiting for a hart.
    Ready,
    /// Currently on a hart.
    Running,
    /// Queued on an endpoint with a message to hand over.
    BlockedOnSend,
    /// Queued on an endpoint waiting for one.
    BlockedOnRecv,
    /// Sent a `call` and is waiting for the reply capability to be used.
    AwaitingReply,
    /// Finished. Its frame is never resumed again.
    Exited,
}

impl ThreadState {
    pub open spec fn blocked(self) -> bool {
        self is BlockedOnSend || self is BlockedOnRecv || self is AwaitingReply
    }

    /// Whether the thread may be put on the run queue.
    pub fn is_runnable(self) -> (r: bool)
        ensures
            r == (self is Ready || self is Running),
    {
        matches!(self, ThreadState::Ready | ThreadState::Running)
    }

    pub fn is_blocked(self) -> (r: bool)
        ensures
            r == self.blocked(),
    {
        matches!(
            self,
            ThreadState::BlockedOnSend | ThreadState::BlockedOnRecv | ThreadState::AwaitingReply
        )
    }
}

/// What a blocked thread is waiting on, so it can be removed from that queue
/// without searching every object in the system.
#[derive(Debug, Clone, Copy, PartialEq, Eq, Structural)]
pub enum BlockedOn {
    Nothing,
    Endpoint(PhysAddr),
    Notification(PhysAddr),
}

/// A thread control block.
#[derive(Clone, Copy)]
pub struct Tcb {
    pub frame: TrapFrame,
    /// `f0-f31`, restored only once the thread has actually used one.
    pub fp: [u64; REGS],
    pub fp_valid: bool,
    pub state: ThreadState,
    pub id: ThreadId,
    /// The `satp` value that installs this thread's address space.
    pub satp: u64,
    /// The object this thread is queued on while blocked, which is what lets a
    /// blocked thread be taken off it and killed.
    pub blocked_on: BlockedOn,
    /// The one-shot reply capability handed over by a `call` this thread
    /// received.
    pub reply: RawCap,
    /// Root CNode of this thread's capability space.
    pub cspace: RawCap,
    /// Badge of the capability the last sender invoked, delivered on receive.
    pub badge: u64,
    /// True while this thread is blocked on a `call` rather than a bare `send`,
    /// so whoever receives knows to take a reply capability.
    pub call_pending: bool,
    /// Where this thread's faults are delivered.
    pub fault_ep: RawCap,
    /// True while the thread is blocked on a fault rather than a syscall, so
    /// the reply resumes it instead of overwriting its registers.
    pub faulted: bool,
    /// This TCB's own physical address.
    pub self_paddr: PhysAddr,
}

/// A thread control block, seen from outside.
#[verifier::ext_equal]
pub struct TcbView {
    pub frame: FrameView,
    pub fp: Seq<u64>,
    pub fp_valid: bool,
    pub state: ThreadState,
    pub id: ThreadId,
    pub satp: u64,
    pub blocked_on: BlockedOn,
    pub reply: RawCap,
    pub cspace: RawCap,
    pub badge: u64,
    pub call_pending: bool,
    pub fault_ep: RawCap,
    pub faulted: bool,
    pub self_paddr: PhysAddr,
}

impl View for Tcb {
    type V = TcbView;

    open spec fn view(&self) -> TcbView {
        TcbView {
            frame: self.frame@,
            fp: self.fp@,
            fp_valid: self.fp_valid,
            state: self.state,
            id: self.id,
            satp: self.satp,
            blocked_on: self.blocked_on,
            reply: self.reply,
            cspace: self.cspace,
            badge: self.badge,
            call_pending: self.call_pending,
            fault_ep: self.fault_ep,
            faulted: self.faulted,
            self_paddr: self.self_paddr,
        }
    }
}

impl TcbView {
    /// A thread that exists but cannot run.
    pub open spec fn inactive(paddr: PhysAddr, id: ThreadId) -> TcbView {
        TcbView {
            frame: FrameView { sstatus: SPIE | FS_OFF, ..FrameView::zero() },
            fp: Seq::new(32, |i: int| 0u64),
            fp_valid: false,
            state: ThreadState::Inactive,
            id,
            satp: 0,
            blocked_on: BlockedOn::Nothing,
            reply: RawCap::null_spec(),
            cspace: RawCap::null_spec(),
            badge: 0,
            call_pending: false,
            fault_ep: RawCap::null_spec(),
            faulted: false,
            self_paddr: paddr,
        }
    }

    /// A thread ready to be resumed into user mode.
    pub open spec fn ready(
        paddr: PhysAddr,
        id: ThreadId,
        satp: u64,
        entry: u64,
        stack_top: u64,
    ) -> TcbView {
        let blank = TcbView::inactive(paddr, id);
        TcbView {
            frame: FrameView {
                x: blank.frame.x.update(SP as int, stack_top),
                sepc: entry,
                ..blank.frame
            },
            state: ThreadState::Ready,
            satp,
            ..blank
        }
    }

    /// The thread with one register changed.
    pub open spec fn with_reg(self, i: int, value: u64) -> TcbView {
        TcbView { frame: self.frame.with_reg(i, value), ..self }
    }

    /// Whether the thread has ever used the FPU.
    pub open spec fn fp_used(self) -> bool {
        self.frame.sstatus & FS_MASK != FS_OFF
    }

    /// The thread with the FPU granted.
    pub open spec fn with_fp(self) -> TcbView {
        TcbView {
            frame: FrameView {
                sstatus: (self.frame.sstatus & !FS_MASK) | if self.fp_valid {
                    FS_CLEAN
                } else {
                    FS_INITIAL
                },
                ..self.frame
            },
            fp_valid: true,
            ..self
        }
    }
}

impl Blank for Tcb {
    open spec fn blank_view() -> TcbView {
        TcbView::inactive(PhysAddr(0), 0)
    }

    fn blank() -> (r: Tcb) {
        Tcb::init_inactive(PhysAddr::new(0), 0)
    }
}

impl Tcb {
    /// A new thread, ready to be resumed into U-mode.
    pub fn create(
        frame_pa: PhysAddr,
        id: ThreadId,
        space: &AddressSpace,
        entry: VirtAddr,
        stack_top: VirtAddr,
    ) -> (r: Tcb)
        ensures
            r@ == TcbView::ready(
                frame_pa,
                id,
                crate::mm::address_space::satp_of(space.mapper.root.0, space.asid),
                entry.0,
                stack_top.0,
            ),
    {
        let mut tcb: Tcb = Tcb::init_inactive(frame_pa, id);
        tcb.frame.x[SP] = stack_top.as_usize();
        tcb.frame.sepc = entry.as_usize();
        tcb.state = ThreadState::Ready;
        tcb.satp = space.satp();
        tcb
    }

    /// A thread that exists but cannot run.
    pub fn init_inactive(paddr: PhysAddr, id: ThreadId) -> (r: Tcb)
        ensures
            r@ == TcbView::inactive(paddr, id),
    {
        let mut frame: TrapFrame = TrapFrame::zero();
        // SPP = 0 so `sret` drops to U-mode; SPIE = 1 so it re-enables
        // interrupts there; FS = Off so the first float traps and we allocate
        // lazily.
        frame.sstatus = SPIE | FS_OFF;
        let fp: [u64; REGS] = zero_registers();
        Tcb {
            frame,
            fp,
            fp_valid: false,
            state: ThreadState::Inactive,
            id,
            satp: 0,
            blocked_on: BlockedOn::Nothing,
            reply: RawCap::null(),
            cspace: RawCap::null(),
            badge: 0,
            call_pending: false,
            fault_ep: RawCap::null(),
            faulted: false,
            self_paddr: paddr,
        }
    }

    /// Whether this thread has everything it needs to be put on the run queue.
    pub fn is_configured(&self) -> (r: bool)
        ensures
            r == (self.satp != 0),
    {
        self.satp != 0
    }

    /// Set where the thread starts and what stack it starts on.
    pub fn set_registers(&mut self, entry: VirtAddr, stack_top: VirtAddr)
        ensures
            final(self)@ == (TcbView {
                frame: FrameView {
                    x: old(self)@.frame.x.update(SP as int, stack_top.0),
                    sepc: entry.0,
                    ..old(self)@.frame
                },
                ..old(self)@
            }),
    {
        self.frame.sepc = entry.as_usize();
        self.frame.x[SP] = stack_top.as_usize();
    }

    /// Change one register.
    pub fn set_reg(&mut self, i: usize, value: u64)
        requires
            i < 32,
        ensures
            final(self)@ == old(self)@.with_reg(i as int, value),
    {
        self.frame.set(i, value);
    }

    /// The value `a0` will hold when the thread resumes.
    pub fn set_return(&mut self, value: u64)
        ensures
            final(self)@ == old(self)@.with_reg(A0 as int, value),
    {
        self.frame.set(A0, value);
    }

    /// Move past the `ecall` that trapped, so resuming does not re-execute it.
    pub fn skip_ecall(&mut self)
        requires
            old(self).frame.sepc + 4 <= u64::MAX,
        ensures
            final(self)@ == (TcbView {
                frame: FrameView {
                    sepc: (old(self)@.frame.sepc + 4) as u64,
                    ..old(self)@.frame
                },
                ..old(self)@
            }),
    {
        self.frame.sepc = self.frame.sepc + 4;
    }

    /// Grant this thread the FPU, restoring whatever state it had.
    pub fn enable_fp(&mut self)
        ensures
            final(self)@ == old(self)@.with_fp(),
            final(self)@.fp_used(),
    {
        proof {
            lemma_fp_bits(self.frame.sstatus);
        }
        self.frame.sstatus = (self.frame.sstatus & !FS_MASK) | if self.fp_valid {
            FS_CLEAN
        } else {
            FS_INITIAL
        };
        self.fp_valid = true;
    }

    pub fn uses_fp(&self) -> (r: bool)
        ensures
            r == self@.fp_used(),
    {
        self.frame.sstatus & FS_MASK != FS_OFF
    }
}

pub proof fn lemma_fp_bits(s: u64)
    by (bit_vector)
    ensures
        ((s & !FS_MASK) | FS_CLEAN) & FS_MASK != FS_OFF,
        ((s & !FS_MASK) | FS_INITIAL) & FS_MASK != FS_OFF,
{
}

/// Whether an instruction word is a floating-point one: the low seven bits are
/// one of the opcodes LOAD-FP, STORE-FP, MADD, MSUB, NMSUB, NMADD and OP-FP.
pub open spec fn fp_instruction(word: u64) -> bool {
    let opcode = word % 128;
    opcode == 0b000_0111 || opcode == 0b010_0111 || opcode == 0b100_0011 || opcode == 0b100_0111
        || opcode == 0b100_1011 || opcode == 0b100_1111 || opcode == 0b101_0011
}

/// Whether an instruction word is a floating-point one.
pub fn is_fp_instruction(word: u64) -> (r: bool)
    ensures
        r == fp_instruction(word),
{
    let opcode: u64 = word % 128;
    matches!(
        opcode,
        0b000_0111    // LOAD-FP
        | 0b010_0111  // STORE-FP
        | 0b100_0011  // MADD
        | 0b100_0111  // MSUB
        | 0b100_1011  // NMSUB
        | 0b100_1111  // NMADD
        | 0b101_0011  // OP-FP
    )
}

/// The next thread id.
#[derive(Debug, Clone, Copy, PartialEq, Eq, Structural)]
pub struct Ids {
    pub next: ThreadId,
}

impl Ids {
    /// Ids start at one.
    pub fn new() -> (r: Self)
        ensures
            r.next == 1,
    {
        Ids { next: 1 }
    }

    /// The next thread id.
    pub fn next_id(&mut self) -> (r: ThreadId)
        ensures
            r == old(self).next,
            final(self).next == crate::bits::one_more(old(self).next),
    {
        let id: ThreadId = self.next;
        self.next = crate::bits::increment(id);
        id
    }
}

} // verus!
