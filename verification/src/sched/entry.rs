//! Traps taken in user mode: system calls, faults and interrupts.

use crate::abi::label::FAULT_VM;
use crate::abi::msg::MessageInfo;
use crate::abi::object::ObjectType;
use crate::abi::result::OK;
use crate::abi::syscall::{CALL, EXIT, GET_ID, PUTC, RECV, REPLY, REPLY_RECV, SEND, YIELD};
use crate::sched::{Action, Kernel, KernelView, Next, Retire};
use crate::thread::{is_fp_instruction, Tcb, TcbView};
use crate::trap::{Cause, FrameView, A0, A1, A2, A3, A4, A7};
use vstd::prelude::*;

verus! {

/// What `a0` holds after a system call the kernel does not know.
pub const UNKNOWN_CALL: u64 = 0xffff_ffff_ffff_ffff;

/// A thread past the instruction that made its system call.
pub open spec fn past_ecall(t: TcbView) -> TcbView {
    TcbView { frame: FrameView { sepc: (t.frame.sepc + 4) as u64, ..t.frame }, ..t }
}

/// Whether `(after, next)` is what a system call comes to.
pub open spec fn is_syscall(before: KernelView, tcb: u64, after: KernelView, next: Next) -> bool {
    let number = before.thread(tcb).frame.x[A7 as int];
    let arg = before.thread(tcb).frame.x[A0 as int];
    let k = before.with_thread(tcb, past_ecall(before.thread(tcb)));
    if number == YIELD {
        (after, next) == k.retired(Retire::Requeue)
    } else if number == EXIT {
        (after, next) == k.retired(Retire::Exited)
    } else if number == PUTC {
        (after, next) == k.with_action(Action::Print((arg % 256) as u8)).finished(tcb, OK)
    } else if number == GET_ID {
        (after, next) == k.finished(tcb, k.thread(tcb).id)
    } else if number == CALL {
        crate::sched::invoke::is_invocation(k, tcb, true, after, next)
    } else if number == SEND {
        crate::sched::invoke::is_invocation(k, tcb, false, after, next)
    } else if number == RECV {
        (after, next) == crate::sched::message::recv_called(k, tcb)
    } else if number == REPLY {
        (after, next) == crate::sched::message::reply_called(k, tcb, false)
    } else if number == REPLY_RECV {
        (after, next) == crate::sched::message::reply_called(k, tcb, true)
    } else {
        (after, next) == k.finished(tcb, UNKNOWN_CALL)
    }
}

/// The header of the message that reports a fault.
pub open spec fn fault_header() -> MessageInfo {
    MessageInfo::packed(FAULT_VM, 3, false)
}

/// What a page fault was: bit 0 for a write, bit 1 for a fetch.
pub open spec fn fault_kind(cause: Cause) -> u64 {
    if cause == Cause::Exception(15) {
        1
    } else if cause == Cause::Exception(12) {
        2
    } else {
        0
    }
}

/// A thread with the message that reports its fault in its registers.
pub open spec fn faulting(t: TcbView, cause: Cause, address: u64) -> TcbView {
    TcbView {
        frame: FrameView {
            x: t.frame.x.update(A2 as int, address).update(A3 as int, t.frame.sepc).update(
                A4 as int,
                fault_kind(cause),
            ).update(A1 as int, fault_header().0),
            ..t.frame
        },
        faulted: true,
        ..t
    }
}

/// What a page fault does: the thread calls its pager, or dies for want of one.
pub open spec fn fault_delivered(k: KernelView, tcb: u64, cause: Cause, address: u64) -> (
    KernelView,
    Next,
) {
    let t = k.thread(tcb);
    if !(t.fault_ep.kind is Endpoint) {
        k.with_action(
            Action::Report { id: t.id, cause, at: t.frame.sepc, no_pager: true },
        ).retired(Retire::Killed)
    } else {
        crate::sched::message::sent(
            k.with_thread(tcb, faulting(t, cause, address)),
            tcb,
            t.fault_ep,
            fault_header(),
            true,
        )
    }
}

/// Whether `(after, next)` is what a trap taken in user mode comes to.
pub open spec fn is_user_trap(
    k: KernelView,
    tcb: u64,
    scause: u64,
    stval: u64,
    after: KernelView,
    next: Next,
) -> bool {
    let cause = Cause::decoded(scause);
    let t = k.thread(tcb);
    if cause == Cause::Interrupt(5) {
        (after, next) == k.with_action(Action::Tick).retired(Retire::Requeue)
    } else if cause == Cause::Interrupt(9) {
        // A device is no business of the thread that happens to run.
        (after, next) == (k.with_action(Action::External), Next::Resume(tcb))
    } else if cause == Cause::Exception(8) {
        is_syscall(k, tcb, after, next)
    } else if cause == Cause::Exception(2) && !t.fp_used() && crate::thread::fp_instruction(stval) {
        // The thread retries the instruction, with the FPU on.
        (after, next) == (
            k.with_thread(tcb, t.with_fp()).with_action(Action::RestoreFp(tcb)),
            Next::Resume(tcb),
        )
    } else if cause == Cause::Exception(12) || cause == Cause::Exception(13) || cause
        == Cause::Exception(15) {
        (after, next) == fault_delivered(k, tcb, cause, stval)
    } else {
        (after, next) == k.with_action(
            Action::Report { id: t.id, cause, at: t.frame.sepc, no_pager: false },
        ).retired(Retire::Killed)
    }
}

impl Kernel {
    /// The kernel's side of a trap taken in U-mode by the thread at `tcb`. It
    /// always resumes some thread, or leaves the scheduler.
    pub fn user_trap(&mut self, tcb: u64, scause: u64, stval: u64) -> (r: Next)
        requires
            old(self).wf(),
            Cause::decoded(scause) == Cause::Exception(8) ==> old(self)@.thread(tcb).frame.sepc + 4
                <= u64::MAX,
        ensures
            final(self).wf(),
            is_user_trap(old(self)@, tcb, scause, stval, final(self)@, r),
    {
        let cause: Cause = Cause::decode(scause);
        let mut t: Tcb = self.thread(tcb);
        match cause {
            Cause::Interrupt(5) => {
                self.act(Action::Tick);
                return self.retire(Retire::Requeue);
            },
            Cause::Interrupt(9) => {
                self.act(Action::External);
                return Next::Resume(tcb);
            },
            Cause::Exception(8) => {
                return self.syscall(tcb);
            },
            Cause::Exception(12) | Cause::Exception(13) | Cause::Exception(15) => {
                // Instruction, load and store page faults all go to the pager.
                return self.deliver_fault(tcb, cause, stval);
            },
            _ => {},
        }
        // A float in a thread that has not been given the FPU yet. Any other
        // illegal instruction is a genuine fault and falls through.
        if cause == Cause::Exception(2) && !t.uses_fp() && is_fp_instruction(stval) {
            t.enable_fp();
            self.set_thread(tcb, t);
            self.act(Action::RestoreFp(tcb));
            // Do not advance sepc: the thread retries the instruction.
            return Next::Resume(tcb);
        }
        self.act(Action::Report { id: t.id, cause, at: t.frame.sepc, no_pager: false });
        self.retire(Retire::Killed)
    }

    fn syscall(&mut self, tcb: u64) -> (r: Next)
        requires
            old(self).wf(),
            old(self)@.thread(tcb).frame.sepc + 4 <= u64::MAX,
        ensures
            final(self).wf(),
            is_syscall(old(self)@, tcb, final(self)@, r),
    {
        let mut t: Tcb = self.thread(tcb);
        let number: u64 = t.frame.x[A7];
        let arg: u64 = t.frame.x[A0];
        t.skip_ecall();
        self.set_thread(tcb, t);
        if number == YIELD {
            self.retire(Retire::Requeue)
        } else if number == EXIT {
            self.retire(Retire::Exited)
        } else if number == PUTC {
            self.act(Action::Print((arg % 256) as u8));
            self.finish(tcb, OK)
        } else if number == GET_ID {
            self.finish(tcb, t.id)
        } else if number == CALL {
            self.invoke(tcb, true)
        } else if number == SEND {
            self.invoke(tcb, false)
        } else if number == RECV {
            self.sys_recv(tcb)
        } else if number == REPLY {
            self.sys_reply(tcb, false)
        } else if number == REPLY_RECV {
            self.sys_reply(tcb, true)
        } else {
            self.finish(tcb, UNKNOWN_CALL)
        }
    }

    /// Deliver a fault to this thread's pager as if the thread had called it.
    ///
    /// The thread blocks in `AwaitingReply` exactly as a caller does, and the
    /// reply resumes it *without* advancing `sepc`, so the faulting instruction
    /// runs again against whatever the pager arranged.
    fn deliver_fault(&mut self, tcb: u64, cause: Cause, stval: u64) -> (r: Next)
        requires
            old(self).wf(),
        ensures
            final(self).wf(),
            (final(self)@, r) == fault_delivered(old(self)@, tcb, cause, stval),
    {
        let mut t: Tcb = self.thread(tcb);
        if t.fault_ep.kind != ObjectType::Endpoint {
            self.act(Action::Report { id: t.id, cause, at: t.frame.sepc, no_pager: true });
            return self.retire(Retire::Killed);
        }
        let kind: u64 = match cause {
            Cause::Exception(15) => 1,
            Cause::Exception(12) => 2,
            _ => 0,
        };
        let info: MessageInfo = MessageInfo::new(FAULT_VM, 3, false);
        t.frame.set(A2, stval);
        t.frame.set(A3, t.frame.sepc);
        t.frame.set(A4, kind);
        t.frame.set(A1, info.bits());
        t.faulted = true;
        self.set_thread(tcb, t);
        self.ipc_send(tcb, t.fault_ep, info, true)
    }
}

} // verus!
