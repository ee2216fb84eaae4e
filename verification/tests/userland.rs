//! Whole scenarios: user programs run on a small model of the hart, which takes
//! every trap to the kernel and does what the kernel asks of it.

use tessera::abi::label;
use tessera::abi::msg::{MessageInfo, MSG_REGS};
use tessera::abi::object::{ObjectType, SLOT_BITS};
use tessera::abi::result;
use tessera::abi::rights::{ALL, GRANT, READ, WRITE};
use tessera::abi::syscall;
use tessera::cap::cspace::{bootstrap, CSpace};
use tessera::cap::tcb::{check, configure, set_fault_ep, tcb_at, write_registers};
use tessera::cap::vspace::{assign, map_frame, map_table, unmap, vspace_cap};
use tessera::cap::{CapError, RawCap};
use tessera::demo::{
    demand_paging_demo, greeter, lazy_client, pager, user_space, SpaceError, LAZY, LAZY_VALUE,
    USER_STACK, USER_TEXT,
};
use tessera::ipc::{endpoint_at, transfer, EndpointState};
use tessera::irq::IrqTable;
use tessera::layout::Layout;
use tessera::mm::addr::{PhysAddr, VirtAddr, KERNEL_VMA, PAGE_SIZE};
use tessera::mm::address_space::{satp_for, AddressSpace, Asid, KERNEL_ROOT_FIRST};
use tessera::mm::discover::MemoryMap;
use tessera::mm::frame::BumpAllocator;
use tessera::mm::kernel_space::build;
use tessera::mm::page_table::{MapError, Mapper, Pte, PteFlags, R, U, W, X};
use tessera::mm::region::{Region, RegionList};
use tessera::mm::tlb::Flush;
use tessera::mm::Regions;
use tessera::notify::Notification;
use tessera::objects::Objects;
use tessera::plic::{Plic, PlicInfo, RegOp};
use tessera::sched::{Action, Kernel, Next, SpawnError};
use tessera::thread::{BlockedOn, Tcb, ThreadState, FS_MASK, FS_OFF, SPIE};
use tessera::trap::Cause;
use tessera::uprog::{self, Prog, A0, A7, ECALL, SPIN, USE_FP};

// --- The hart ---

const TIMER: u64 = (1 << 63) | 5;

/// A kernel, the memory it runs in, and the hart it runs on.
struct Machine {
    k: Kernel,
    frames: BumpAllocator,
    kernel: Mapper,
    /// Where the next untyped region is taken from.
    spare: u64,
    /// What `satp` holds, as far as the hart was told.
    satp: u64,
    printed: Vec<u8>,
    ticks: u64,
    externals: u64,
    saved_fp: u64,
    restored_fp: u64,
    reports: Vec<(u64, Cause, bool)>,
}

fn layout() -> Layout {
    let at = KERNEL_VMA + 0x8020_0000;
    Layout {
        kernel_start: at,
        kernel_end: at + 0x8000,
        text_start: at,
        text_end: at + 0x3000,
        rodata_start: at + 0x3000,
        rodata_end: at + 0x5000,
        data_start: at + 0x5000,
        data_end: at + 0x6000,
        bss_start: at + 0x6000,
        bss_end: at + 0x8000,
    }
}

fn list(regions: &[(u64, u64)]) -> Regions {
    let mut out: Regions = RegionList::new();
    for (start, end) in regions {
        out.push(Region::new(PhysAddr::new(*start), PhysAddr::new(*end))).unwrap();
    }
    out
}

fn memory_map() -> MemoryMap {
    MemoryMap {
        ram: list(&[(0x8000_0000, 0xa000_0000)]),
        reserved: list(&[]),
        free: list(&[(0x8040_0000, 0x9000_0000)]),
        devices: list(&[]),
        plic: None,
        fdt: Region::new(PhysAddr::new(0), PhysAddr::new(0)),
    }
}

impl Machine {
    fn new() -> Machine {
        Machine::with_frames(memory_map())
    }

    fn with_frames(map: MemoryMap) -> Machine {
        let mut frames = BumpAllocator::new();
        frames.init(&map.free);
        let mut objects = Objects::new(16);
        let kernel = build(&layout(), &map, &mut frames, &mut objects.mem).expect("kernel space");
        let satp = objects.kernel_root.activate(&kernel);
        Machine {
            k: Kernel::new(objects, satp),
            frames,
            kernel,
            spare: 0x9000_0000,
            satp,
            printed: Vec::new(),
            ticks: 0,
            externals: 0,
            saved_fp: 0,
            restored_fp: 0,
            reports: Vec::new(),
        }
    }

    /// Do what the kernel asked for, in order.
    fn perform(&mut self) {
        for action in self.k.drain_actions() {
            match action {
                Action::SaveFp(_) => self.saved_fp += 1,
                Action::RestoreFp(_) => self.restored_fp += 1,
                Action::Install { satp, .. } => self.satp = satp,
                Action::Print(b) => self.printed.push(b),
                Action::Tick => self.ticks += 1,
                Action::External => self.externals += 1,
                Action::Report { id, cause, no_pager, .. } => self.reports.push((id, cause, no_pager)),
            }
        }
    }

    fn run(&mut self) {
        let next = self.k.run();
        self.follow(next, u64::MAX);
    }

    fn run_with_timer(&mut self) {
        let next = self.k.run();
        self.follow(next, 64);
    }

    fn run_until_exit(&mut self, slice: u64) {
        let next = self.k.run_until_exit();
        self.follow(next, slice);
    }

    fn follow(&mut self, mut next: Next, slice: u64) {
        for _ in 0..100_000 {
            self.perform();
            match next {
                Next::Leave => {
                    self.k.left();
                    return;
                }
                Next::Resume(a) => next = self.execute(a, slice),
            }
        }
        panic!("the machine never came to rest");
    }

    /// Where a user address leads, if the page allows the access.
    fn reach(&self, va: u64, needed: u64) -> Option<u64> {
        let root = Mapper::from_root(PhysAddr::new((self.satp & ((1 << 44) - 1)) << 12));
        let (pa, flags, _) = root.translate(VirtAddr::new(va), &self.k.objects.mem)?;
        if flags.contains(PteFlags(U | needed)) {
            Some(pa.as_usize())
        } else {
            None
        }
    }

    /// Run one thread until it traps.
    fn execute(&mut self, a: u64, slice: u64) -> Next {
        let mut t: Tcb = *self.k.objects.threads.get(a);
        assert_eq!(t.satp, self.satp, "the hart runs a thread in another's address space");
        assert_eq!(t.state, ThreadState::Running);
        let mut left = slice;
        loop {
            let pc = t.frame.sepc;
            if left == 0 {
                return self.trap(a, t, TIMER, 0);
            }
            left -= 1;
            let word = match self.reach(pc, X) {
                None => return self.trap(a, t, 12, pc),
                Some(pa) => (self.k.objects.mem.read(pa, 0) >> (8 * (pa % 8))) as u32,
            };
            let rd = ((word >> 7) & 31) as usize;
            let rs1 = ((word >> 15) & 31) as usize;
            let rs2 = ((word >> 20) & 31) as usize;
            let imm = ((word as i32) >> 20) as i64 as u64;
            let mut to = pc + 4;
            match (word & 0x7f, (word >> 12) & 7) {
                (0x13, 0) => t.frame.x[rd] = t.frame.x[rs1].wrapping_add(imm),
                (0x13, 1) => t.frame.x[rd] = t.frame.x[rs1] << (imm & 63),
                (0x13, 5) => t.frame.x[rd] = t.frame.x[rs1] >> (imm & 63),
                (0x37, _) => t.frame.x[rd] = (word & 0xffff_f000) as i32 as i64 as u64,
                (0x03, 3) => {
                    let va = t.frame.x[rs1].wrapping_add(imm);
                    match self.reach(va, R) {
                        None => return self.trap(a, t, 13, va),
                        Some(pa) => t.frame.x[rd] = self.k.objects.mem.read(pa, 0),
                    }
                }
                (0x23, 3) => {
                    let high = ((word as i32) >> 25) as i64 as u64;
                    let va = t.frame.x[rs1].wrapping_add((high << 5) | rd as u64);
                    match self.reach(va, W) {
                        None => return self.trap(a, t, 15, va),
                        Some(pa) => self.k.objects.mem.write(pa, 0, t.frame.x[rs2]),
                    }
                }
                (0x63, 1) => {
                    let high = ((word as i32) >> 31) as i64 as u64;
                    let offset = (high << 12)
                        | (((word >> 7) & 1) as u64) << 11
                        | (((word >> 25) & 0x3f) as u64) << 5
                        | (((word >> 8) & 0xf) as u64) << 1;
                    if t.frame.x[rs1] != t.frame.x[rs2] {
                        to = pc.wrapping_add(offset);
                    }
                }
                (0x6f, _) => {
                    let high = ((word as i32) >> 31) as i64 as u64;
                    let offset = (high << 20)
                        | (((word >> 12) & 0xff) as u64) << 12
                        | (((word >> 20) & 1) as u64) << 11
                        | (((word >> 21) & 0x3ff) as u64) << 1;
                    t.frame.x[rd] = to;
                    to = pc.wrapping_add(offset);
                }
                (0x73, 0) if word == ECALL => return self.trap(a, t, 8, 0),
                (0x53, _) if t.frame.sstatus & FS_MASK != FS_OFF => {}
                _ => return self.trap(a, t, 2, word as u64),
            }
            t.frame.x[0] = 0;
            t.frame.sepc = to;
        }
    }

    fn trap(&mut self, a: u64, t: Tcb, scause: u64, stval: u64) -> Next {
        self.k.objects.threads.put(a, t);
        let next = self.k.user_trap(a, scause, stval);
        self.audit(next);
        next
    }

    /// The threads on the run queue, in order.
    fn queued(&mut self) -> Vec<u64> {
        let mut listed = Vec::new();
        while let Some(a) = self.k.queue.pop() {
            listed.push(a);
        }
        for a in &listed {
            self.k.queue.push(*a);
        }
        listed
    }

    /// After every trap, the run queue and the hart agree with the threads.
    fn audit(&mut self, next: Next) {
        let listed = self.queued();
        for (i, a) in listed.iter().enumerate() {
            assert_eq!(self.k.objects.threads.get(*a).state, ThreadState::Ready);
            assert!(!listed[..i].contains(a), "a thread is on the run queue twice");
        }
        match next {
            Next::Leave => assert_eq!(self.k.current, None),
            Next::Resume(a) => {
                assert_eq!(self.k.current, Some(a));
                assert_eq!(self.k.objects.threads.get(a).state, ThreadState::Running);
            }
        }
    }

    // --- Building things to run ---

    fn region(&mut self, bits: u8) -> RawCap {
        let size = 1u64 << bits;
        let at = (self.spare + size - 1) & !(size - 1);
        self.spare = at + size;
        RawCap::untyped(PhysAddr::new(at), bits, ALL)
    }

    fn space(&mut self, words: &[u32]) -> AddressSpace {
        user_space(&self.kernel, words, &mut self.frames, &mut self.k.objects.mem).expect("user space")
    }

    /// A space with an identifier of its own.
    fn tagged_space(&mut self, words: &[u32]) -> AddressSpace {
        let mut space = self.space(words);
        space.set_asid(self.k.objects.asids.assign_global().expect("asid"));
        space
    }

    fn cspace(&mut self) -> CSpace {
        let region = self.region(19);
        bootstrap(&mut self.k.objects, region, D + SLOT_BITS).expect("bootstrap")
    }

    fn make(&mut self, cs: &CSpace, kind: ObjectType, bits: u8, dst: u64) -> RawCap {
        cs.retype(&mut self.k.objects, (0, D), kind, bits, (dst, D), 1).expect("retype");
        self.read(cs, dst)
    }

    fn read(&self, cs: &CSpace, slot: u64) -> RawCap {
        cs.read(&self.k.objects.slots, slot, D).unwrap()
    }

    fn insert(&mut self, cs: &CSpace, slot: u64, cap: RawCap) {
        cs.insert(&mut self.k.objects.slots, slot, D, cap, None).expect("insert");
    }

    /// An endpoint object, carved from its own region.
    fn endpoint(&mut self) -> RawCap {
        let cs = self.cspace();
        self.make(&cs, ObjectType::Endpoint, 0, 16)
    }

    /// A space holding the endpoint in slot 8, badged if asked.
    fn cspace_with(&mut self, endpoint: RawCap, badge: u64) -> CSpace {
        let cs = self.cspace();
        let mut ep = endpoint;
        if badge != 0 {
            ep.set_badge(badge);
        }
        self.insert(&cs, EP_SLOT, ep);
        cs
    }

    /// A space holding the endpoint in slot 8 with exactly these rights.
    fn cspace_holding(&mut self, endpoint: RawCap, rights: u8) -> CSpace {
        let cs = self.cspace();
        self.insert(&cs, EP_SLOT, endpoint.with_rights(rights));
        cs
    }

    /// A thread with no capability space.
    fn start(&mut self, words: &[u32]) -> AddressSpace {
        let space = self.space(words);
        self.k.spawn(&space, text(), stack_top(), &mut self.frames).expect("spawn");
        space
    }

    fn start_in(&mut self, words: &[u32], cs: &CSpace) -> AddressSpace {
        let space = self.space(words);
        self.launch(&space, cs);
        space
    }

    fn launch(&mut self, space: &AddressSpace, cs: &CSpace) {
        self.k
            .spawn_with_cspace(space, text(), stack_top(), *cs.root(), &mut self.frames)
            .expect("spawn");
    }

    fn word(&self, space: &AddressSpace, va: u64) -> u64 {
        let (pa, _, _) = space.translate(VirtAddr::new(va), &self.k.objects.mem).expect("unmapped");
        self.k.objects.mem.read(pa.as_usize(), 0)
    }

    /// The word a program stored `offset` bytes below the top of its stack.
    fn stack_word(&self, space: &AddressSpace, offset: u64) -> u64 {
        self.word(space, USER_STACK + PAGE_SIZE - offset)
    }

    fn state_of(&self, tcb: &RawCap) -> ThreadState {
        tcb_at(&self.k.objects.threads, tcb).state
    }

    fn done(&self) -> (u64, u64) {
        (self.k.exited(), self.k.killed())
    }
}

fn text() -> VirtAddr {
    VirtAddr::new(USER_TEXT)
}

fn stack_top() -> VirtAddr {
    VirtAddr::new(USER_STACK + PAGE_SIZE)
}

/// Address bits of every capability space here.
const D: u8 = 6;

/// The endpoint capability lives in slot 8 of every thread's space.
const EP_SLOT: u64 = 8;

/// A second, deliberately weaker copy of the same endpoint.
const EP_WEAK: u64 = 9;

fn info(label: u64, length: u64, cap: bool) -> u32 {
    MessageInfo::new(label, length, cap).bits() as u32
}

fn exit_words() -> [u32; 2] {
    uprog::syscall(syscall::EXIT)
}

// --- Threads ---

#[test]
fn a_fresh_thread_starts_in_user_mode_with_no_fpu() {
    let mut m = Machine::new();
    let space = m.space(&exit_words());
    let frame = m.frames.alloc_frame(&mut m.k.objects.mem).expect("no frames");
    let t = Tcb::create(frame, 99, &space, text(), stack_top());
    assert_eq!(t.frame.sepc, USER_TEXT);
    assert_eq!(t.frame.x[2], USER_STACK + PAGE_SIZE, "sp was not set");
    assert_eq!(t.frame.sstatus & 0x100, 0, "SPP set: it would sret to S-mode");
    assert_ne!(t.frame.sstatus & SPIE, 0, "SPIE clear: it would run uninterruptible");
    assert_eq!(t.frame.sstatus & FS_MASK, FS_OFF, "a new thread must not own the FPU");
    assert_eq!(t.satp, space.satp());
}

#[test]
fn an_empty_run_queue_returns_immediately() {
    let mut m = Machine::new();
    assert_eq!(m.k.ready_count(), 0);
    assert_eq!(m.k.run(), Next::Leave);
}

#[test]
fn a_thread_runs_and_exits() {
    let mut m = Machine::new();
    m.start(&exit_words());
    assert_eq!(m.k.ready_count(), 1);
    m.run();
    assert_eq!(m.k.ready_count(), 0, "the thread was left on the queue");
    assert_eq!(m.done(), (1, 0));
    assert_eq!(m.k.spawned(), 1);
    assert_eq!(m.k.current_id(), None, "a thread is still marked current");
}

#[test]
fn a_thread_can_call_back_into_the_kernel() {
    let mut m = Machine::new();
    let words = [
        uprog::li(A7, syscall::GET_ID as u32),
        ECALL,
        uprog::li(A7, syscall::EXIT as u32),
        ECALL,
    ];
    m.start(&words);
    m.run();
    assert_eq!(m.done(), (1, 0), "the thread did not reach exit");
}

#[test]
fn three_threads_all_get_to_run() {
    let mut m = Machine::new();
    for _ in 0..3 {
        m.start(&exit_words());
    }
    assert_eq!(m.k.ready_count(), 3);
    m.run();
    assert_eq!(m.k.exited(), 3, "not every thread ran");
    assert_eq!(m.k.ready_count(), 0);
}

#[test]
fn yielding_puts_a_thread_at_the_back_and_it_comes_round_again() {
    let mut m = Machine::new();
    let words = [
        uprog::li(A7, syscall::YIELD as u32),
        ECALL,
        uprog::li(A7, syscall::YIELD as u32),
        ECALL,
        uprog::li(A7, syscall::EXIT as u32),
        ECALL,
    ];
    m.start(&words);
    m.start(&words);
    m.run();
    assert_eq!(m.done(), (2, 0));
}

/// `loop { putc(letter); yield }` three times, then exit.
fn chatter(letter: u8) -> Prog<32> {
    let head = Prog::<32>::new().li(9, 3);
    let top = head.here();
    head.li(A0, letter as u32)
        .syscall(syscall::PUTC)
        .syscall(syscall::YIELD)
        .addi(9, -1)
        .bne_back(9, top)
        .exit()
}

#[test]
fn threads_that_yield_take_strict_turns() {
    let mut m = Machine::new();
    for letter in [b'a', b'b', b'c'] {
        m.start(chatter(letter).as_slice());
    }
    m.run();
    assert_eq!(m.printed, b"abcabcabc".to_vec());
    assert_eq!(m.done(), (3, 0));
}

#[test]
fn an_unknown_system_call_is_answered_and_not_fatal() {
    let mut m = Machine::new();
    let prog = Prog::<16>::new().syscall(77).raw(uprog::sd(2, A0, -8)).exit();
    let space = m.start(prog.as_slice());
    m.run();
    assert_eq!(m.done(), (1, 0));
    assert_eq!(m.stack_word(&space, 8), u64::MAX);
}

#[test]
fn spawning_without_a_frame_is_refused() {
    let mut m = Machine::new();
    let space = m.space(&exit_words());
    let mut none = BumpAllocator::new();
    assert_eq!(m.k.spawn(&space, text(), stack_top(), &mut none), Err(SpawnError::OutOfFrames));
    assert_eq!(m.k.ready_count(), 0);
    assert_eq!(m.k.spawned(), 0);
}

#[test]
fn a_program_without_frames_to_live_in_gets_no_address_space() {
    let mut m = Machine::new();
    let mut none = BumpAllocator::new();
    assert_eq!(
        user_space(&m.kernel, &exit_words(), &mut none, &mut m.k.objects.mem).err(),
        Some(SpaceError::NoFrames)
    );
    let mut two = BumpAllocator::new();
    two.init(&list(&[(0x9f00_0000, 0x9f00_2000)]));
    assert_eq!(
        user_space(&m.kernel, &exit_words(), &mut two, &mut m.k.objects.mem).err(),
        Some(SpaceError::NoSpace)
    );
    let mut three = BumpAllocator::new();
    three.init(&list(&[(0x9f00_0000, 0x9f00_3000)]));
    assert_eq!(
        user_space(&m.kernel, &exit_words(), &mut three, &mut m.k.objects.mem).err(),
        Some(SpaceError::NoText)
    );
    let mut five = BumpAllocator::new();
    five.init(&list(&[(0x9f00_0000, 0x9f00_5000)]));
    assert_eq!(
        user_space(&m.kernel, &exit_words(), &mut five, &mut m.k.objects.mem).err(),
        Some(SpaceError::NoStack)
    );
}

#[test]
fn the_timer_preempts_a_thread_that_never_yields() {
    let mut m = Machine::new();
    m.start(&[SPIN]);
    m.start(&exit_words());
    m.run_until_exit(50);
    assert_eq!(m.k.exited(), 1, "the second thread never got the hart");
    assert!(m.ticks > 0, "it ran without a timer interrupt, so nothing was preempted");
    assert_eq!(m.k.kill_all(), 1, "the spinner should be the one thread left");
    assert_eq!(m.k.ready_count(), 0);
}

#[test]
fn a_float_traps_once_and_then_the_thread_keeps_the_fpu() {
    let mut m = Machine::new();
    let words = [USE_FP, USE_FP, uprog::li(A7, syscall::EXIT as u32), ECALL];
    m.start(&words);
    m.run();
    assert_eq!(m.done(), (1, 0), "the thread died on a floating-point instruction");
    assert_eq!(m.restored_fp, 1, "the second float trapped too");
}

#[test]
fn floating_point_state_follows_the_thread_that_uses_it() {
    let mut m = Machine::new();
    let user = Prog::<16>::new().raw(USE_FP).syscall(syscall::YIELD).raw(USE_FP).exit();
    m.start(user.as_slice());
    m.start(chatter(b'x').as_slice());
    m.run();
    assert_eq!(m.done(), (2, 0));
    assert!(m.saved_fp > 0, "the registers were not saved when the thread left the hart");
    assert_eq!(m.restored_fp, 2, "once when it first used them, once when it came back");
}

#[test]
fn a_thread_that_reads_unmapped_memory_is_killed() {
    let mut m = Machine::new();
    // ld a0, 0(x0): nothing is mapped at 0 in a user space, so this must fault.
    m.start(&[0x0000_3503, uprog::li(A7, syscall::EXIT as u32), ECALL]);
    m.run();
    assert_eq!(m.done(), (0, 1), "it reached exit, so the load succeeded");
    assert_eq!(m.reports, vec![(1, Cause::Exception(13), true)]);
}

#[test]
fn a_thread_reading_a_privileged_csr_is_killed_not_given_the_fpu() {
    let mut m = Machine::new();
    // `csrr a0, satp` is an illegal instruction in U-mode.
    m.start(&[0x1800_2573, uprog::li(A7, syscall::EXIT as u32), ECALL]);
    m.run();
    assert_eq!(m.done(), (0, 1), "the thread survived reading satp");
    assert_eq!(m.reports, vec![(1, Cause::Exception(2), false)]);
    assert_eq!(m.restored_fp, 0);
}

#[test]
fn user_text_is_not_writable_and_the_stack_is_not_executable() {
    let mut m = Machine::new();
    let space = m.space(&exit_words());
    let (_, text, _) = space.translate(VirtAddr::new(USER_TEXT), &m.k.objects.mem).expect("text unmapped");
    assert!(text.contains(PteFlags(X)) && text.contains(PteFlags(U)));
    assert!(!text.contains(PteFlags(W)), "user text is writable");
    let (_, stack, _) = space.translate(VirtAddr::new(USER_STACK), &m.k.objects.mem).expect("stack unmapped");
    assert!(stack.contains(PteFlags(W)) && stack.contains(PteFlags(U)));
    assert!(!stack.contains(PteFlags(X)), "the user stack is executable");
}

#[test]
fn a0_carries_the_syscall_result_back() {
    let mut m = Machine::new();
    let words = [
        uprog::li(A7, syscall::GET_ID as u32),
        ECALL,
        // sd a0, -8(sp): sp points one past the stack page, so store below it.
        0xfea1_3c23,
        uprog::li(A0, 0),
        uprog::li(A7, syscall::EXIT as u32),
        ECALL,
    ];
    let space = m.start(&words);
    m.run();
    assert_eq!(m.done(), (1, 0), "the thread faulted storing its id");
    assert_eq!(m.stack_word(&space, 8), 1, "the first thread's id did not come back");
}

// --- Messages ---

#[test]
fn a_message_header_packs_and_unpacks() {
    let header = MessageInfo::new(0x1234, 3, true);
    assert_eq!(header.label(), 0x1234);
    assert_eq!(header.length(), 3);
    assert!(header.carries_cap());
    let plain = MessageInfo::new(7, 0, false);
    assert_eq!(plain.label(), 7);
    assert_eq!(plain.length(), 0);
    assert!(!plain.carries_cap());
}

#[test]
fn a_message_cannot_claim_more_words_than_there_are_registers() {
    assert_eq!(MessageInfo::new(1, 99, false).length(), MSG_REGS, "length was not clamped");
}

#[test]
fn registers_outside_the_message_survive_every_transfer() {
    for length in 0..8 {
        let mut from = Tcb::init_inactive(PhysAddr::new(0x9000_0000), 1);
        let mut to = Tcb::init_inactive(PhysAddr::new(0x9000_1000), 2);
        for i in 1..32 {
            from.set_reg(i, 100 + i as u64);
            to.set_reg(i, 200 + i as u64);
        }
        let info = MessageInfo::from_bits((5 << 12) | length);
        transfer(&from, &mut to, info, 0x77);

        assert_eq!(to.frame.x[A0], 0x77);
        assert_eq!(to.frame.x[A0 + 1], (5 << 12) | length);
        assert_eq!(to.badge, 0x77);
        let moved = length.min(MSG_REGS) as usize;
        for i in 1..32 {
            if i == A0 || i == A0 + 1 {
                continue;
            }
            let base = if i >= A0 + 2 && i < A0 + 2 + moved { 100 } else { 200 };
            assert_eq!(to.frame.x[i], base + i as u64, "x{} with {} words", i, length);
        }
    }
}

/// `call(ep, label, mr0); exit()`: a client that asks once and stops.
fn client(label: u64, mr0: u32) -> Prog<16> {
    Prog::new()
        .li(A0, EP_SLOT as u32)
        .li(A0 + 1, info(label, 1, false))
        .li(A0 + 2, mr0)
        .syscall(syscall::CALL)
        .exit()
}

/// `recv(ep); reply(0x5a); exit()`: a server that answers once.
fn server_once() -> Prog<24> {
    Prog::new()
        .li(A0, EP_SLOT as u32)
        .syscall(syscall::RECV)
        .li(A0 + 1, info(0, 1, false))
        .li(A0 + 2, 0x5a)
        .syscall(syscall::REPLY)
        .exit()
}

#[test]
fn a_fresh_endpoint_is_idle() {
    let mut m = Machine::new();
    let ep = m.endpoint();
    assert_eq!(ep.kind, ObjectType::Endpoint);
    let e = endpoint_at(&m.k.objects.endpoints, ep.paddr);
    assert_eq!(e.state, EndpointState::Idle);
    assert!(e.is_empty());
}

#[test]
fn a_caller_with_no_server_blocks_rather_than_spinning() {
    let mut m = Machine::new();
    let ep = m.endpoint();
    let cs = m.cspace_with(ep, 0);
    m.start_in(client(1, 0x11).as_slice(), &cs);
    let other = m.cspace_with(ep, 0);
    m.start_in(&exit_words(), &other);
    m.run();
    assert_eq!(m.k.exited(), 1, "only the exiting thread should finish");
    let e = endpoint_at(&m.k.objects.endpoints, ep.paddr);
    assert_eq!(e.state, EndpointState::Sending, "the caller did not queue");
    assert!(!e.is_empty());
}

#[test]
fn a_thread_is_on_one_queue_at_most() {
    let mut m = Machine::new();
    let ep = m.endpoint();
    let cs = m.cspace_with(ep, 0);
    for _ in 0..3 {
        m.start_in(client(1, 0x11).as_slice(), &cs);
    }
    let started = m.queued();
    assert_eq!(started.len(), 3);
    m.run();
    assert_eq!(m.queued(), vec![]);
    let mut e = m.k.objects.endpoints.take(ep.paddr.as_usize());
    for a in started {
        assert_eq!(m.k.objects.threads.get(a).state, ThreadState::BlockedOnSend);
        assert_eq!(m.k.objects.threads.get(a).blocked_on, BlockedOn::Endpoint(ep.paddr));
        assert_eq!(e.dequeue(EndpointState::Sending), Some(a), "a caller is not where its state says");
    }
    assert_eq!(e.dequeue(EndpointState::Sending), None);
    assert_eq!(e.state, EndpointState::Idle);
}

#[test]
fn a_reply_capability_names_the_thread_that_waits_for_it() {
    let mut m = Machine::new();
    let ep = m.endpoint();
    let server_cs = m.cspace_with(ep, 0);
    let client_cs = m.cspace_with(ep, 0);
    let server = Prog::<16>::new().li(A0, EP_SLOT as u32).syscall(syscall::RECV).exit();
    m.start_in(server.as_slice(), &server_cs);
    m.start_in(client(1, 0).as_slice(), &client_cs);
    let started = m.queued();
    m.run();
    // The server exits without answering, and goes on being owed to.
    let held = m.k.objects.threads.get(started[0]).reply;
    assert_eq!((held.kind, held.paddr.as_usize()), (ObjectType::Reply, started[1]));
    assert_eq!(m.k.objects.threads.get(started[1]).state, ThreadState::AwaitingReply);
    assert_eq!(m.k.objects.threads.get(started[0]).state, ThreadState::Exited);
    // Both were parked on the endpoint on the way, and neither is now.
    for a in started {
        assert_eq!(m.k.objects.threads.get(a).blocked_on, BlockedOn::Nothing);
    }
}

#[test]
fn a_call_and_a_reply_complete_a_round_trip() {
    let mut m = Machine::new();
    let ep = m.endpoint();
    let server_cs = m.cspace_with(ep, 0);
    let client_cs = m.cspace_with(ep, 0xbeef);
    m.start_in(server_once().as_slice(), &server_cs);
    m.start_in(client(0x20, 0x99).as_slice(), &client_cs);
    m.run_with_timer();
    assert_eq!(m.done(), (2, 0), "both threads should finish the round trip");
}

#[test]
fn words_arrive_as_they_were_sent_both_ways() {
    let mut m = Machine::new();
    let ep = m.endpoint();
    let server_cs = m.cspace_with(ep, 0);
    let client_cs = m.cspace_with(ep, 0);
    let server = Prog::<32>::new()
        .li(A0, EP_SLOT as u32)
        .syscall(syscall::RECV)
        .raw(uprog::sd(2, A0 + 1, -8))
        .raw(uprog::sd(2, A0 + 2, -16))
        .raw(uprog::sd(2, A0 + 3, -24))
        .li(A0 + 1, info(9, 1, false))
        .li(A0 + 2, 0x5a)
        .syscall(syscall::REPLY)
        .exit();
    let caller = Prog::<32>::new()
        .li(A0, EP_SLOT as u32)
        .li(A0 + 1, info(0x20, 2, false))
        .li(A0 + 2, 0x99)
        .li(A0 + 3, 0x77)
        .syscall(syscall::CALL)
        .raw(uprog::sd(2, A0, -8))
        .raw(uprog::sd(2, A0 + 1, -16))
        .raw(uprog::sd(2, A0 + 2, -24))
        .exit();
    let s = m.start_in(server.as_slice(), &server_cs);
    let c = m.start_in(caller.as_slice(), &client_cs);
    m.run();
    assert_eq!(m.done(), (2, 0));
    assert_eq!(m.stack_word(&s, 8), MessageInfo::new(0x20, 2, false).bits());
    assert_eq!(m.stack_word(&s, 16), 0x99);
    assert_eq!(m.stack_word(&s, 24), 0x77);
    assert_eq!(m.stack_word(&c, 8), result::OK);
    assert_eq!(m.stack_word(&c, 16), MessageInfo::new(9, 1, false).bits());
    assert_eq!(m.stack_word(&c, 24), 0x5a);
}

#[test]
fn the_badge_of_the_invoked_capability_reaches_the_receiver() {
    let mut m = Machine::new();
    let ep = m.endpoint();
    let server_cs = m.cspace_with(ep, 0);
    let client_cs = m.cspace_with(ep, 0x7c0de);
    m.start_in(server_once().as_slice(), &server_cs);
    m.start_in(client(1, 0).as_slice(), &client_cs);
    m.run_with_timer();
    assert_eq!(m.k.killed(), 0);
    assert_eq!(m.k.last_badge(), 0x7c0de, "the badge did not reach the receiver");
}

#[test]
fn round_trips_do_not_consult_the_run_queue() {
    let pops = |trips: u32| {
        let mut m = Machine::new();
        let ep = m.endpoint();
        let server_cs = m.cspace_with(ep, 0);
        let client_cs = m.cspace_with(ep, 0);
        let server = uprog::ipc_server(EP_SLOT as u32, info(0, 1, false), syscall::RECV, syscall::REPLY_RECV);
        let client = uprog::ipc_client(EP_SLOT as u32, info(1, 1, false), syscall::CALL, syscall::EXIT, trips);
        m.start_in(server.as_slice(), &server_cs);
        m.start_in(client.as_slice(), &client_cs);
        let before = m.k.queue_pops();
        m.run_until_exit(u64::MAX);
        assert_eq!(m.k.exited(), 1, "the client did not finish {trips} trips");
        m.k.queue_pops() - before
    };
    let few = pops(2);
    let many = pops(16);
    assert_eq!(few, many, "the scheduler is on the path of a message");
}

#[test]
fn a_thread_with_no_cspace_cannot_invoke_anything() {
    let mut m = Machine::new();
    let space = m.start(call_recording(EP_SLOT).as_slice());
    m.run();
    assert_eq!(m.done(), (1, 0), "the thread was killed rather than refused");
    assert_eq!(m.stack_word(&space, 8), result::ERR_NO_CSPACE);
}

#[test]
fn an_endpoint_capability_is_required_to_receive() {
    let mut m = Machine::new();
    let ep = m.endpoint();
    let cs = m.cspace_with(ep, 0);
    // Slot 9 is empty, so a recv on it must fail rather than block forever.
    let space = m.start_in(recv_recording(9).as_slice(), &cs);
    m.run();
    assert_eq!(m.done(), (1, 0), "recv on an empty slot did not return");
    assert_eq!(m.stack_word(&space, 8), result::ERR_BAD_CAP);
}

#[test]
fn replying_to_nobody_is_refused() {
    let mut m = Machine::new();
    let ep = m.endpoint();
    let cs = m.cspace_with(ep, 0);
    let prog = Prog::<16>::new().syscall(syscall::REPLY).raw(uprog::sd(2, A0, -8)).exit();
    let space = m.start_in(prog.as_slice(), &cs);
    m.run();
    assert_eq!(m.done(), (1, 0));
    assert_eq!(m.stack_word(&space, 8), result::ERR_NO_REPLY);
}

#[test]
fn a_reply_can_be_given_only_once() {
    let mut m = Machine::new();
    let ep = m.endpoint();
    let server_cs = m.cspace_with(ep, 0);
    let client_cs = m.cspace_with(ep, 0);
    let server = Prog::<32>::new()
        .li(A0, EP_SLOT as u32)
        .syscall(syscall::RECV)
        .li(A0 + 1, info(0, 0, false))
        .syscall(syscall::REPLY)
        .syscall(syscall::REPLY)
        .raw(uprog::sd(2, A0, -8))
        .exit();
    let s = m.start_in(server.as_slice(), &server_cs);
    m.start_in(client(1, 0).as_slice(), &client_cs);
    m.run();
    assert_eq!(m.done(), (2, 0));
    assert_eq!(m.stack_word(&s, 8), result::ERR_NO_REPLY);
}

// --- Capabilities in messages ---

/// The slot a sender takes a capability from, and the one a receiver puts it in.
const SRC_SLOT: u64 = 20;

const DST_SLOT: u64 = 21;

fn cap_sender() -> Prog<24> {
    Prog::new()
        .li(A0, EP_SLOT as u32)
        .li(A0 + 1, info(1, 0, true))
        .li(A0 + 6, SRC_SLOT as u32)
        .syscall(syscall::CALL)
        .exit()
}

fn cap_receiver() -> Prog<24> {
    Prog::new()
        .li(A0, EP_SLOT as u32)
        .li(A0 + 6, DST_SLOT as u32)
        .syscall(syscall::RECV)
        .li(A0 + 1, info(0, 0, false))
        .syscall(syscall::REPLY)
        .exit()
}

#[test]
fn a_message_can_carry_a_capability() {
    let mut m = Machine::new();
    let ep = m.endpoint();
    let recv_cs = m.cspace_with(ep, 0);
    let send_cs = m.cspace_with(ep, 0);
    // Something recognisable to hand over: a second endpoint.
    let gift = m.endpoint();
    m.insert(&send_cs, SRC_SLOT, gift);
    assert!(m.read(&recv_cs, DST_SLOT).is_null(), "the destination is not empty");

    m.start_in(cap_receiver().as_slice(), &recv_cs);
    m.start_in(cap_sender().as_slice(), &send_cs);
    m.run();
    assert_eq!(m.done(), (2, 0));

    let arrived = m.read(&recv_cs, DST_SLOT);
    assert_eq!(arrived.kind, ObjectType::Endpoint, "no capability arrived");
    assert_eq!(arrived.paddr, gift.paddr, "a different object arrived");
    assert_eq!(arrived.badge(), 0, "the copy kept the sender's badge");

    // It is a derivative, so revoking the original takes it away again.
    assert_eq!(send_cs.descendants(&m.k.objects.slots, SRC_SLOT, D).unwrap(), 1);
    send_cs.revoke(&mut m.k.objects, SRC_SLOT, D).expect("revoke");
    assert!(m.read(&recv_cs, DST_SLOT).is_null(), "revoking did not reclaim the copy");
}

#[test]
fn a_capability_without_grant_is_not_transferred() {
    let mut m = Machine::new();
    let ep = m.endpoint();
    let recv_cs = m.cspace_with(ep, 0);
    let send_cs = m.cspace_with(ep, 0);
    // No GRANT, so the sender may hold it but not hand it on.
    let gift = m.endpoint().with_rights(READ);
    m.insert(&send_cs, SRC_SLOT, gift);
    m.start_in(cap_receiver().as_slice(), &recv_cs);
    m.start_in(cap_sender().as_slice(), &send_cs);
    m.run();
    assert_eq!(m.k.killed(), 0, "the send should be refused, not fatal");
    assert!(m.read(&recv_cs, DST_SLOT).is_null(), "a capability without GRANT was transferred anyway");
}

#[test]
fn untyped_memory_is_not_copied_by_a_message() {
    let mut m = Machine::new();
    let ep = m.endpoint();
    let recv_cs = m.cspace_with(ep, 0);
    let send_cs = m.cspace_with(ep, 0);
    let gift = m.region(16);
    m.insert(&send_cs, SRC_SLOT, gift);
    m.start_in(cap_receiver().as_slice(), &recv_cs);
    m.start_in(cap_sender().as_slice(), &send_cs);
    m.run();
    assert_eq!(m.done(), (2, 0), "the message should arrive without the capability");
    assert!(m.read(&recv_cs, DST_SLOT).is_null(), "a second watermark over the same region");
    assert_eq!(m.read(&send_cs, SRC_SLOT), gift);
}

#[test]
fn queued_senders_are_served_in_the_order_they_arrived() {
    let mut m = Machine::new();
    let ep = m.endpoint();
    let server_cs = m.cspace_with(ep, 0);
    for badge in [0x11, 0x22, 0x33] {
        let cs = m.cspace_with(ep, badge);
        m.start_in(client(1, 0).as_slice(), &cs);
    }
    // The server goes last, so all three are queued before it receives.
    let server = uprog::ipc_server(EP_SLOT as u32, info(0, 1, false), syscall::RECV, syscall::REPLY_RECV);
    m.start_in(server.as_slice(), &server_cs);

    m.k.reset_badge_log();
    m.run_with_timer();
    assert_eq!(m.done(), (3, 0), "not every client was served");
    assert_eq!(m.k.badge_log(), vec![0x11, 0x22, 0x33], "senders were served out of order");
}

// --- Rights on endpoints ---

/// `call(slot); *(sp - 8) = a0; exit()`.
fn call_recording(slot: u64) -> Prog<16> {
    Prog::new()
        .li(A0, slot as u32)
        .li(A0 + 1, info(1, 1, false))
        .li(A0 + 2, 0x11)
        .syscall(syscall::CALL)
        .raw(uprog::sd(2, A0, -8))
        .exit()
}

/// `recv(slot); *(sp - 8) = a0; exit()`.
fn recv_recording(slot: u64) -> Prog<16> {
    Prog::new().li(A0, slot as u32).syscall(syscall::RECV).raw(uprog::sd(2, A0, -8)).exit()
}

/// `recv(ep); reply_recv(weak ep); *(sp - 8) = a0; exit()`.
fn reply_recv_recording() -> Prog<24> {
    Prog::new()
        .li(A0, EP_SLOT as u32)
        .syscall(syscall::RECV)
        .li(A0, EP_WEAK as u32)
        .li(A0 + 1, info(0, 1, false))
        .syscall(syscall::REPLY_RECV)
        .raw(uprog::sd(2, A0, -8))
        .exit()
}

#[test]
fn sending_needs_write_on_the_endpoint() {
    let mut m = Machine::new();
    let ep = m.endpoint();
    let cs = m.cspace_holding(ep, READ);
    let space = m.start_in(call_recording(EP_SLOT).as_slice(), &cs);
    m.run_with_timer();
    assert_eq!(m.k.killed(), 0, "the sender should be refused, not killed");
    assert_eq!(m.stack_word(&space, 8), result::ERR_BAD_CAP, "a receive-only capability was allowed to send");
}

#[test]
fn receiving_needs_read_on_the_endpoint() {
    let mut m = Machine::new();
    let ep = m.endpoint();
    let cs = m.cspace_holding(ep, WRITE);
    let space = m.start_in(recv_recording(EP_SLOT).as_slice(), &cs);
    m.run_with_timer();
    assert_eq!(m.k.killed(), 0);
    assert_eq!(m.stack_word(&space, 8), result::ERR_BAD_CAP, "a send-only capability was allowed to receive");
}

#[test]
fn the_receive_half_of_reply_recv_needs_read() {
    let mut m = Machine::new();
    let ep = m.endpoint();
    // The server receives with a full capability and then names a send-only
    // copy of the same endpoint to `reply_recv`.
    let server_cs = m.cspace_holding(ep, ALL);
    m.insert(&server_cs, EP_WEAK, ep.with_rights(WRITE));
    let client_cs = m.cspace_holding(ep, WRITE);
    let space = m.start_in(reply_recv_recording().as_slice(), &server_cs);
    m.start_in(client(1, 0).as_slice(), &client_cs);
    m.run_with_timer();
    assert_eq!(m.k.killed(), 0);
    assert_eq!(m.stack_word(&space, 8), result::ERR_BAD_CAP, "reply_recv received on a send-only capability");
}

#[test]
fn an_answered_caller_runs_on_when_the_receive_is_refused() {
    let mut m = Machine::new();
    let ep = m.endpoint();
    let server_cs = m.cspace_holding(ep, ALL);
    m.insert(&server_cs, EP_WEAK, ep.with_rights(WRITE));
    let client_cs = m.cspace_holding(ep, WRITE);
    m.start_in(reply_recv_recording().as_slice(), &server_cs);
    m.start_in(client(1, 0).as_slice(), &client_cs);
    m.run_with_timer();
    assert_eq!(m.k.exited(), 2, "the client never ran again");
    assert_eq!(m.queued(), vec![]);
}

#[test]
fn killing_everything_empties_the_run_queue() {
    let mut m = Machine::new();
    m.start(&exit_words());
    m.start(&exit_words());
    let started = m.queued();
    assert_eq!(m.k.kill_all(), 2);
    assert_eq!(m.queued(), vec![]);
    for a in started {
        assert_eq!(m.k.objects.threads.get(a).state, ThreadState::Exited);
    }
    assert_eq!(m.k.run(), Next::Leave);
}

#[test]
fn a_send_only_client_can_still_call_a_receive_only_server() {
    let mut m = Machine::new();
    let ep = m.endpoint();
    let server_cs = m.cspace_holding(ep, READ);
    let client_cs = m.cspace_holding(ep, WRITE);
    m.start_in(server_once().as_slice(), &server_cs);
    m.start_in(client(0x20, 0x99).as_slice(), &client_cs);
    m.run_with_timer();
    assert_eq!(m.done(), (2, 0), "the round trip did not complete");
}

// --- Threads as objects ---

/// Slots in the parent's space.
const CHILD_TCB: u64 = 8;

const CHILD_CNODE: u64 = 9;

const CHILD_VSPACE: u64 = 10;

const SPARE: u64 = 11;

#[test]
fn a_retyped_thread_exists_but_cannot_run() {
    let mut m = Machine::new();
    let cs = m.cspace();
    let tcb = m.make(&cs, ObjectType::Tcb, 0, CHILD_TCB);
    let t = tcb_at(&m.k.objects.threads, &tcb);
    assert_eq!(t.state, ThreadState::Inactive);
    assert!(!t.is_configured(), "a fresh TCB must have no address space");
    assert!(t.cspace.is_null(), "a fresh TCB must have no capability space");
    assert!(t.fault_ep.is_null(), "a fresh TCB must have no pager");
}

#[test]
fn every_retyped_thread_gets_its_own_id() {
    let mut m = Machine::new();
    let cs = m.cspace();
    let a = m.make(&cs, ObjectType::Tcb, 0, CHILD_TCB);
    let b = m.make(&cs, ObjectType::Tcb, 0, SPARE);
    assert_ne!(tcb_at(&m.k.objects.threads, &a).id, tcb_at(&m.k.objects.threads, &b).id);
}

fn assigned(m: &mut Machine, table: &mut RawCap) -> Result<(), CapError> {
    let o = &mut m.k.objects;
    assign(table, &mut o.mem, &mut o.asids, &o.kernel_root)
}

#[test]
fn a_retyped_page_table_is_not_an_address_space_until_it_is_assigned() {
    let mut m = Machine::new();
    let cs = m.cspace();
    let mut table = m.make(&cs, ObjectType::PageTable, 0, CHILD_VSPACE);
    assert!(!table.is_assigned());
    assigned(&mut m, &mut table).expect("assign");
    assert!(table.is_assigned(), "assign must bind an ASID");
    assert_ne!(table.asid, 0);
}

#[test]
fn assigning_installs_the_kernel_half() {
    let mut m = Machine::new();
    let cs = m.cspace();
    let mut table = m.make(&cs, ObjectType::PageTable, 0, CHILD_VSPACE);
    let root = m.k.objects.kernel_root.root().expect("kernel root").as_usize();
    let first = KERNEL_ROOT_FIRST as u64;
    assert_eq!(m.k.objects.mem.read(table.paddr.as_usize(), first + 2), 0, "empty before assign");
    assigned(&mut m, &mut table).expect("assign");
    for i in first..512 {
        assert_eq!(
            m.k.objects.mem.read(table.paddr.as_usize(), i),
            m.k.objects.mem.read(root, i),
            "the trap handler must be mapped in every user root table"
        );
    }
    assert_ne!(m.k.objects.mem.read(root, first + 2), 0);
}

#[test]
fn assigning_before_there_is_a_kernel_space_is_refused() {
    let mut m = Machine::new();
    let cs = m.cspace();
    let mut table = m.make(&cs, ObjectType::PageTable, 0, CHILD_VSPACE);
    m.k.objects.kernel_root = tessera::mm::kernel_space::KernelRoot::new();
    assert_eq!(assigned(&mut m, &mut table), Err(CapError::NoKernelSpace));
    assert!(!table.is_assigned());
}

#[test]
fn assigning_twice_is_refused() {
    let mut m = Machine::new();
    let cs = m.cspace();
    let mut table = m.make(&cs, ObjectType::PageTable, 0, CHILD_VSPACE);
    assigned(&mut m, &mut table).expect("assign");
    assert_eq!(assigned(&mut m, &mut table), Err(CapError::AlreadyAssigned));
}

#[test]
fn only_a_page_table_can_be_assigned() {
    let mut m = Machine::new();
    let cs = m.cspace();
    let mut frame = m.make(&cs, ObjectType::Frame, 0, SPARE);
    assert_eq!(
        assigned(&mut m, &mut frame),
        Err(CapError::WrongType { wanted: ObjectType::PageTable, found: ObjectType::Frame })
    );
}

#[test]
fn assigned_spaces_get_distinct_asids() {
    let mut m = Machine::new();
    let cs = m.cspace();
    let mut a = m.make(&cs, ObjectType::PageTable, 0, CHILD_VSPACE);
    let mut b = m.make(&cs, ObjectType::PageTable, 0, SPARE);
    assigned(&mut m, &mut a).expect("assign a");
    assigned(&mut m, &mut b).expect("assign b");
    assert_ne!(a.asid, b.asid, "two spaces sharing an ASID is the bug ASIDs prevent");
}

#[test]
fn a_thread_cannot_be_configured_with_an_unassigned_space() {
    let mut m = Machine::new();
    let cs = m.cspace();
    let cnode = m.make(&cs, ObjectType::CNode, D + SLOT_BITS, CHILD_CNODE);
    let table = m.make(&cs, ObjectType::PageTable, 0, CHILD_VSPACE);
    let mut t = Tcb::init_inactive(PhysAddr::new(0x9f00_0000), 7);
    assert_eq!(configure(&mut t, cnode, table, RawCap::null()), Err(CapError::NotAssigned));
    assert!(!t.is_configured());
}

#[test]
fn configuring_gives_the_thread_a_space_a_cspace_and_a_satp() {
    let mut m = Machine::new();
    let cs = m.cspace();
    let cnode = m.make(&cs, ObjectType::CNode, D + SLOT_BITS, CHILD_CNODE);
    let mut table = m.make(&cs, ObjectType::PageTable, 0, CHILD_VSPACE);
    assigned(&mut m, &mut table).expect("assign");
    let mut t = Tcb::init_inactive(PhysAddr::new(0x9f00_0000), 7);
    configure(&mut t, cnode, table, RawCap::null()).expect("configure");
    assert!(t.is_configured());
    assert_eq!(t.satp, satp_for(table.paddr, Asid::new(table.asid)));
    assert_eq!(t.cspace.paddr, cnode.paddr);
    assert_eq!(t.state, ThreadState::Inactive, "configuring must not start it");
}

#[test]
fn a_configured_thread_cannot_be_reconfigured_while_it_runs() {
    let mut m = Machine::new();
    let cs = m.cspace();
    let cnode = m.make(&cs, ObjectType::CNode, D + SLOT_BITS, CHILD_CNODE);
    let mut table = m.make(&cs, ObjectType::PageTable, 0, CHILD_VSPACE);
    assigned(&mut m, &mut table).expect("assign");
    let mut t = Tcb::init_inactive(PhysAddr::new(0x9f00_0000), 7);
    configure(&mut t, cnode, table, RawCap::null()).expect("configure");
    t.state = ThreadState::Ready;
    assert_eq!(
        configure(&mut t, cnode, table, RawCap::null()),
        Err(CapError::NotInactive),
        "rewriting satp under a runnable thread must be refused"
    );
}

#[test]
fn registers_cannot_be_written_under_a_blocked_thread() {
    let mut t = Tcb::init_inactive(PhysAddr::new(0x9f00_0000), 7);
    t.state = ThreadState::BlockedOnSend;
    assert_eq!(write_registers(&mut t, text(), stack_top()), Err(CapError::NotInactive));
    assert_eq!(t.frame.sepc, 0);
    t.state = ThreadState::Inactive;
    assert_eq!(write_registers(&mut t, text(), stack_top()), Ok(()));
    assert_eq!((t.frame.sepc, t.frame.x[2]), (USER_TEXT, USER_STACK + PAGE_SIZE));
}

#[test]
fn only_an_endpoint_can_be_a_pager() {
    let mut m = Machine::new();
    let cs = m.cspace();
    let ep = m.make(&cs, ObjectType::Endpoint, 0, SPARE);
    let frame = m.make(&cs, ObjectType::Frame, 0, CHILD_TCB);
    let mut t = Tcb::init_inactive(PhysAddr::new(0x9f00_0000), 7);
    assert_eq!(
        set_fault_ep(&mut t, frame),
        Err(CapError::WrongType { wanted: ObjectType::Endpoint, found: ObjectType::Frame })
    );
    assert!(t.fault_ep.is_null());
    assert_eq!(set_fault_ep(&mut t, ep), Ok(()));
    assert_eq!(t.fault_ep.paddr, ep.paddr);
}

#[test]
fn a_thread_cannot_invoke_its_own_tcb_capability() {
    let mut m = Machine::new();
    let cs = m.cspace();
    let tcb = m.make(&cs, ObjectType::Tcb, 0, CHILD_TCB);
    let caller = tcb_at(&m.k.objects.threads, &tcb);
    assert_eq!(check(tcb, caller).err(), Some(CapError::SelfInvocation));
}

#[test]
fn configuring_a_thread_needs_write_on_its_capability() {
    let mut m = Machine::new();
    let cs = m.cspace();
    let tcb = m.make(&cs, ObjectType::Tcb, 0, CHILD_TCB);
    let other = m.make(&cs, ObjectType::Tcb, 0, SPARE);
    let caller = tcb_at(&m.k.objects.threads, &other);
    assert_eq!(
        check(tcb.with_rights(READ), caller).err(),
        Some(CapError::MissingRights { wanted: WRITE, held: READ })
    );
    assert!(check(tcb.with_rights(WRITE), caller).is_ok());
}

/// The child: store a recognisable word to its stack, then exit.
fn child_program() -> Prog<16> {
    Prog::<16>::new().li(A0, 0x2b).raw(uprog::sd(2, A0, -8)).exit()
}

/// Configure the child's thread, give it an entry point and a stack, and
/// resume it.
fn starting() -> Prog<64> {
    Prog::<64>::new()
        .li(A0, CHILD_TCB as u32)
        .li(A0 + 1, info(label::CONFIGURE, 3, false))
        .li(A0 + 2, CHILD_CNODE as u32)
        .li(A0 + 3, CHILD_VSPACE as u32)
        .li(A0 + 4, SPARE as u32)
        .syscall(syscall::CALL)
        .li(A0, CHILD_TCB as u32)
        .li(A0 + 1, info(label::WRITE_REGISTERS, 2, false))
        .li(A0 + 2, (USER_TEXT >> 12) as u32)
        .raw(uprog::slli(A0 + 2, A0 + 2, 12))
        .li(A0 + 3, ((USER_STACK + PAGE_SIZE) >> 12) as u32)
        .raw(uprog::slli(A0 + 3, A0 + 3, 12))
        .syscall(syscall::CALL)
        .li(A0, CHILD_TCB as u32)
        .li(A0 + 1, info(label::RESUME, 0, false))
        .syscall(syscall::CALL)
}

/// A parent space with a child thread, a child CNode and the child's program.
fn parent_of(m: &mut Machine) -> (CSpace, RawCap, AddressSpace) {
    let cs = m.cspace();
    let tcb = m.make(&cs, ObjectType::Tcb, 0, CHILD_TCB);
    m.make(&cs, ObjectType::CNode, D + SLOT_BITS, CHILD_CNODE);
    let space = m.tagged_space(child_program().as_slice());
    let mut vspace = vspace_cap(space.root());
    vspace.asid = space.asid().as_u16();
    m.insert(&cs, CHILD_VSPACE, vspace);
    (cs, tcb, space)
}

#[test]
fn a_thread_created_by_retyping_and_started_by_invocation_runs() {
    let mut m = Machine::new();
    let (cs, tcb, child) = parent_of(&mut m);
    let parent = m.tagged_space(starting().exit().as_slice());
    m.launch(&parent, &cs);
    m.run_with_timer();
    assert_eq!(m.done(), (2, 0), "the parent and the child it started");
    assert_eq!(m.state_of(&tcb), ThreadState::Exited);
    assert_eq!(m.stack_word(&child, 8), 0x2b, "the child never ran");
}

#[test]
fn a_thread_with_no_address_space_cannot_be_resumed() {
    let mut m = Machine::new();
    let cs = m.cspace();
    let tcb = m.make(&cs, ObjectType::Tcb, 0, CHILD_TCB);
    let prog = Prog::<32>::new()
        .li(A0, CHILD_TCB as u32)
        .li(A0 + 1, info(label::RESUME, 0, false))
        .syscall(syscall::CALL)
        .raw(uprog::sd(2, A0, -8))
        .exit();
    let parent = m.tagged_space(prog.as_slice());
    m.launch(&parent, &cs);
    m.run_with_timer();
    assert_eq!(m.k.exited(), 1, "only the parent should have run");
    assert_eq!(m.stack_word(&parent, 8), result::ERR_ASID, "a thread with satp 0 was started");
    assert_eq!(m.state_of(&tcb), ThreadState::Inactive);
}

#[test]
fn suspending_a_resumed_thread_takes_it_off_the_run_queue_before_it_runs() {
    let mut m = Machine::new();
    let (cs, tcb, child) = parent_of(&mut m);
    let prog = starting()
        .li(A0, CHILD_TCB as u32)
        .li(A0 + 1, info(label::SUSPEND, 0, false))
        .syscall(syscall::CALL)
        .raw(uprog::sd(2, A0, -8))
        .exit();
    let parent = m.tagged_space(prog.as_slice());
    m.launch(&parent, &cs);
    m.run();
    assert_eq!(m.stack_word(&parent, 8), 0, "suspend should have succeeded");
    assert_eq!(m.k.exited(), 1, "the child was suspended before it could run");
    assert_eq!(m.state_of(&tcb), ThreadState::Inactive);
    assert_eq!(m.stack_word(&child, 8), 0, "the child ran anyway");
}

#[test]
fn a_thread_blocked_on_a_message_cannot_be_suspended() {
    let mut m = Machine::new();
    let (cs, tcb, _) = parent_of(&mut m);
    // The child blocks on an endpoint that nobody serves.
    let ep = m.endpoint();
    let child_cs = CSpace::new(m.read(&cs, CHILD_CNODE)).unwrap();
    m.insert(&child_cs, EP_SLOT, ep);
    let waiting = m.tagged_space(recv_recording(EP_SLOT).as_slice());
    cs.delete(&mut m.k.objects, CHILD_VSPACE, D).unwrap();
    let mut vspace = vspace_cap(waiting.root());
    vspace.asid = waiting.asid().as_u16();
    m.insert(&cs, CHILD_VSPACE, vspace);
    let prog = starting()
        .syscall(syscall::YIELD)
        .li(A0, CHILD_TCB as u32)
        .li(A0 + 1, info(label::SUSPEND, 0, false))
        .syscall(syscall::CALL)
        .raw(uprog::sd(2, A0, -8))
        .exit();
    let parent = m.tagged_space(prog.as_slice());
    m.launch(&parent, &cs);
    m.run();
    assert_eq!(m.stack_word(&parent, 8), result::ERR_STATE);
    assert_eq!(m.state_of(&tcb), ThreadState::BlockedOnRecv);
}

// --- Endowing a space that is not your own ---

const GIFT: u64 = 8;

const CHILD: u64 = 9;

/// The same child CNode, held without `WRITE`.
const CHILD_RO: u64 = 10;

/// Where a mint is aimed, in whichever space the invoked CNode roots.
const TARGET: u64 = 3;

fn giver(m: &mut Machine) -> CSpace {
    let cs = m.cspace();
    m.make(&cs, ObjectType::Frame, 0, GIFT);
    m.make(&cs, ObjectType::CNode, D + SLOT_BITS, CHILD);
    cs.mint(&mut m.k.objects.slots, (CHILD, D), (CHILD_RO, D), READ | GRANT, 0).expect("weaken");
    cs
}

fn child_of(m: &Machine, cs: &CSpace) -> CSpace {
    CSpace::new(m.read(cs, CHILD)).expect("the child slot is not a cnode")
}

/// `call(cnode, Mint, [src, dst, ALL, 0]); *(sp - 8) = a0; exit()`.
fn mint_prog(cnode: u64, src: u64, dst: u64) -> Prog<24> {
    Prog::new()
        .li(A0, cnode as u32)
        .li(A0 + 1, info(label::MINT, 4, false))
        .li(A0 + 2, src as u32)
        .li(A0 + 3, dst as u32)
        .li(A0 + 4, ALL as u32)
        .li(A0 + 5, 0)
        .syscall(syscall::CALL)
        .raw(uprog::sd(2, A0, -8))
        .exit()
}

fn run_recording(m: &mut Machine, words: &[u32], cs: &CSpace) -> u64 {
    let space = m.tagged_space(words);
    m.launch(&space, cs);
    m.run_with_timer();
    m.stack_word(&space, 8)
}

#[test]
fn minting_into_a_child_cnode_lands_in_the_child_and_not_in_the_parent() {
    let mut m = Machine::new();
    let cs = giver(&mut m);
    assert_eq!(run_recording(&mut m, mint_prog(CHILD, GIFT, TARGET).as_slice(), &cs), result::OK);
    let child = child_of(&m, &cs);
    let landed = m.read(&child, TARGET);
    assert_eq!(landed.kind, ObjectType::Frame);
    assert_eq!(landed.paddr, m.read(&cs, GIFT).paddr, "a different frame arrived");
    assert!(m.read(&cs, TARGET).is_null(), "the copy landed in the parent too");
}

#[test]
fn a_child_cnode_held_without_write_cannot_be_minted_into() {
    let mut m = Machine::new();
    let cs = giver(&mut m);
    assert_eq!(
        run_recording(&mut m, mint_prog(CHILD_RO, GIFT, TARGET).as_slice(), &cs),
        result::ERR_BAD_CAP,
        "a read-only CNode capability was written through"
    );
    let child = child_of(&m, &cs);
    assert!(m.read(&child, TARGET).is_null(), "the refused copy landed anyway");
}

#[test]
fn invoking_your_own_root_cnode_still_mints_into_your_own_space() {
    let mut m = Machine::new();
    let cs = giver(&mut m);
    assert_eq!(run_recording(&mut m, mint_prog(1, GIFT, TARGET).as_slice(), &cs), result::OK);
    assert_eq!(m.read(&cs, TARGET).paddr, m.read(&cs, GIFT).paddr);
    let child = child_of(&m, &cs);
    assert!(m.read(&child, TARGET).is_null(), "it went to the child instead");
}

#[test]
fn a_frame_is_not_a_capability_space_to_mint_into() {
    let mut m = Machine::new();
    let cs = giver(&mut m);
    assert_eq!(
        run_recording(&mut m, mint_prog(GIFT, GIFT, TARGET).as_slice(), &cs),
        result::ERR_BAD_LABEL,
        "a frame was treated as a CNode"
    );
    assert!(m.read(&cs, TARGET).is_null());
}

#[test]
fn what_a_child_receives_is_still_revocable_by_its_parent() {
    let mut m = Machine::new();
    let cs = giver(&mut m);
    assert_eq!(run_recording(&mut m, mint_prog(CHILD, GIFT, TARGET).as_slice(), &cs), result::OK);
    assert_eq!(cs.descendants(&m.k.objects.slots, GIFT, D).unwrap(), 1);
    assert_eq!(cs.revoke(&mut m.k.objects, GIFT, D).unwrap(), 1);
    let child = child_of(&m, &cs);
    assert!(m.read(&child, TARGET).is_null(), "the child kept a revoked frame");
}

#[test]
fn a_child_cnode_is_only_as_deep_as_its_own_radix() {
    let mut m = Machine::new();
    let cs = giver(&mut m);
    let child = child_of(&m, &cs);
    assert_eq!(child.root_depth(), D, "the child's radix is not its own");
    // An index past the last slot wraps into the child rather than reaching
    // past it: there is no second level to reach into.
    assert_eq!(run_recording(&mut m, mint_prog(CHILD, GIFT, 1 << D).as_slice(), &cs), result::OK);
    assert!(!m.read(&child, 0).is_null(), "the index did not wrap to slot 0");
}

/// `call(slot, label, words); *(sp - 8) = a0; *(sp - 16) = a2; exit()`.
fn invoking(slot: u64, label: u64, words: &[u64]) -> Prog<64> {
    let mut p = Prog::<64>::new().li(A0, slot as u32).li(A0 + 1, info(label, words.len() as u64, false));
    for (i, w) in words.iter().enumerate() {
        p = p.li(A0 + 2 + i, *w as u32);
    }
    p.syscall(syscall::CALL).raw(uprog::sd(2, A0, -8)).raw(uprog::sd(2, A0 + 2, -16)).exit()
}

#[test]
fn a_program_can_retype_revoke_and_delete() {
    let mut m = Machine::new();
    let cs = m.cspace();
    // [target, size, dst, count]
    let retype = invoking(0, label::RETYPE, &[ObjectType::Frame as u64, 0, 20, 2]);
    assert_eq!(run_recording(&mut m, retype.as_slice(), &cs), result::OK);
    assert_eq!(m.read(&cs, 20).kind, ObjectType::Frame);
    assert_eq!(m.read(&cs, 21).kind, ObjectType::Frame);

    let mint = mint_prog(1, 20, 30);
    assert_eq!(run_recording(&mut m, mint.as_slice(), &cs), result::OK);
    let revoke = invoking(1, label::REVOKE, &[20]);
    assert_eq!(run_recording(&mut m, revoke.as_slice(), &cs), result::OK);
    assert!(m.read(&cs, 30).is_null());
    assert_eq!(m.read(&cs, 20).kind, ObjectType::Frame);

    let delete = invoking(1, label::DELETE, &[21]);
    assert_eq!(run_recording(&mut m, delete.as_slice(), &cs), result::OK);
    assert!(m.read(&cs, 21).is_null());
    assert_eq!(m.k.killed(), 0);
}

#[test]
fn a_program_learns_where_its_frame_is() {
    let mut m = Machine::new();
    let cs = m.cspace();
    let frame = m.make(&cs, ObjectType::Frame, 0, 20);
    let prog = invoking(20, label::GET_ADDRESS, &[]);
    let got = run_recording(&mut m, prog.as_slice(), &cs);
    assert_eq!(got, frame.paddr.as_usize());
}

#[test]
fn invocations_that_name_nothing_are_refused() {
    let mut m = Machine::new();
    let cs = m.cspace();
    // An empty slot, and a label the object does not understand.
    let empty = invoking(40, label::RETYPE, &[]);
    assert_eq!(run_recording(&mut m, empty.as_slice(), &cs), result::ERR_BAD_CAP);
    let odd = invoking(1, 0x77, &[]);
    assert_eq!(run_recording(&mut m, odd.as_slice(), &cs), result::ERR_BAD_LABEL);
    let odd_untyped = invoking(0, label::MAP, &[]);
    assert_eq!(run_recording(&mut m, odd_untyped.as_slice(), &cs), result::ERR_BAD_LABEL);
    assert_eq!(m.k.killed(), 0);
}

#[test]
fn interrupt_capabilities_take_no_invocation() {
    let mut m = Machine::new();
    let cs = m.cspace();
    let control = RawCap::new(ObjectType::IrqControl, ALL, 0, PhysAddr::new(0));
    cs.insert(&mut m.k.objects.slots, 41, D, control, None).expect("insert");
    for asked in [label::IRQ_GET, label::IRQ_SET_NOTIFICATION, label::IRQ_ACK] {
        let prog = invoking(41, asked, &[1]);
        assert_eq!(run_recording(&mut m, prog.as_slice(), &cs), result::ERR_BAD_CAP);
    }
    assert_eq!(m.k.killed(), 0);
}

// --- Paging from userspace ---

const FAULT_EP: u64 = 8;

const VSPACE: u64 = 9;

const L1_TABLE: u64 = 10;

const L0_TABLE: u64 = 11;

const FRAME: u64 = 12;

/// Copy-on-write: the pager's own address space, a second capability to the
/// shared frame so it can map it for itself, and the replacement frame.
const SELF_VSPACE: u64 = 13;

const ORIG_COPY: u64 = 14;

const NEW_FRAME: u64 = 15;

/// Scratch addresses in the pager's own space, inside the 2 MiB region its text
/// already occupies, so the intermediate tables are there and a leaf is enough.
const SCRATCH_SRC: u64 = 0x1000_2000;

const SCRATCH_DST: u64 = 0x1000_3000;

/// A client that stores to the lazy page and then exits.
fn client_program() -> Prog<32> {
    lazy_client()
}

/// The pager's space: the client's address space, the two page tables the
/// mapping will need, and a frame to hand over.
fn pager_cspace(m: &mut Machine, client: &AddressSpace, ep: RawCap) -> CSpace {
    let cs = m.cspace();
    m.insert(&cs, FAULT_EP, ep);
    m.insert(&cs, VSPACE, vspace_cap(client.root()));
    m.make(&cs, ObjectType::PageTable, 0, L1_TABLE);
    m.make(&cs, ObjectType::PageTable, 0, L0_TABLE);
    m.make(&cs, ObjectType::Frame, 0, FRAME);
    cs
}

/// Change the capability in a slot, as an invocation would.
fn on_slot<T>(m: &mut Machine, cs: &CSpace, slot: u64, f: impl FnOnce(&mut RawCap, &mut Machine) -> T) -> T {
    let mut cap = m.read(cs, slot);
    let out = f(&mut cap, m);
    let at = cs.resolve(&m.k.objects.slots, slot, D).unwrap();
    m.k.objects.slots.set_cap(at, cap);
    out
}

fn put_table(m: &mut Machine, cs: &CSpace, slot: u64, vs: &RawCap, level: usize) -> Result<(), CapError> {
    on_slot(m, cs, slot, |cap, m| map_table(cap, vs, VirtAddr::new(LAZY), level, &mut m.k.objects.mem))
}

fn put_tables(m: &mut Machine, cs: &CSpace, vs: &RawCap) {
    put_table(m, cs, L1_TABLE, vs, 2).expect("map l1");
    put_table(m, cs, L0_TABLE, vs, 1).expect("map l0");
}

fn put_frame(m: &mut Machine, cs: &CSpace, slot: u64, vs: &RawCap, rights: u8) -> Result<(), CapError> {
    on_slot(m, cs, slot, |cap, m| {
        let o = &mut m.k.objects;
        map_frame(cap, vs, VirtAddr::new(LAZY), rights, false, &mut o.mem, &mut o.tlb)
    })
}

fn take_frame(m: &mut Machine, cs: &CSpace, slot: u64) -> Result<(), CapError> {
    on_slot(m, cs, slot, |cap, m| {
        let o = &mut m.k.objects;
        unmap(cap, &mut o.mem, &mut o.tlb)
    })
}

fn lazy_page(m: &Machine, space: &AddressSpace) -> Option<(PhysAddr, PteFlags, usize)> {
    space.translate(VirtAddr::new(LAZY), &m.k.objects.mem)
}

fn paging() -> (Machine, AddressSpace, CSpace, RawCap) {
    let mut m = Machine::new();
    let space = m.space(client_program().as_slice());
    let ep = m.endpoint();
    let cs = pager_cspace(&mut m, &space, ep);
    let vs = m.read(&cs, VSPACE);
    (m, space, cs, vs)
}

#[test]
fn mapping_a_frame_records_where_it_went() {
    let (mut m, space, cs, vs) = paging();
    assert_eq!(vs.kind, ObjectType::PageTable);
    assert_eq!(vs.paddr, space.root());
    put_tables(&mut m, &cs, &vs);
    put_frame(&mut m, &cs, FRAME, &vs, READ | WRITE).expect("map frame");

    let cap = m.read(&cs, FRAME);
    assert_eq!(cap.mapping(), Some((space.root(), LAZY)), "the mapping was not recorded");
    let (pa, flags, level) = lazy_page(&m, &space).expect("not mapped");
    assert_eq!(pa, cap.paddr);
    assert_eq!(level, 0);
    assert!(flags.contains(PteFlags(U)) && flags.contains(PteFlags(W)));
    assert!(!flags.contains(PteFlags(X)), "a data page was mapped executable");
    assert_eq!(m.k.objects.tlb.drain(), vec![Flush::Page(VirtAddr::new(LAZY))]);

    // A capability records one mapping at a time.
    assert_eq!(put_frame(&mut m, &cs, FRAME, &vs, READ), Err(CapError::AlreadyMapped));
}

#[test]
fn mapping_without_the_intermediate_tables_asks_for_them() {
    let (mut m, _, cs, vs) = paging();
    assert_eq!(
        put_frame(&mut m, &cs, FRAME, &vs, READ),
        Err(CapError::Mapping(MapError::MissingTable)),
        "the kernel allocated a page table itself"
    );
    assert_eq!(m.read(&cs, FRAME).mapping(), None, "a failed map recorded a mapping anyway");
}

#[test]
fn a_mapping_cannot_grant_rights_the_capability_lacks() {
    let (mut m, space, cs, vs) = paging();
    put_tables(&mut m, &cs, &vs);
    // Weaken the frame capability to read-only, then ask for a writable page.
    cs.mint(&mut m.k.objects.slots, (FRAME, D), (20, D), READ | GRANT, 0).expect("mint");
    put_frame(&mut m, &cs, 20, &vs, READ | WRITE).expect("map");
    let (_, flags, _) = lazy_page(&m, &space).expect("not mapped");
    assert!(!flags.contains(PteFlags(W)), "a read-only capability produced a writable page");
    assert!(flags.contains(PteFlags(R)));
}

#[test]
fn revoking_a_frame_removes_its_mapping() {
    let (mut m, space, cs, vs) = paging();
    put_tables(&mut m, &cs, &vs);
    // Hand a copy to slot 20 and map that, so revoking the original has a
    // derivative to tear down.
    cs.mint(&mut m.k.objects.slots, (FRAME, D), (20, D), ALL, 0).expect("mint");
    put_frame(&mut m, &cs, 20, &vs, READ | WRITE).expect("map");
    assert!(lazy_page(&m, &space).is_some(), "not mapped before revoke");
    cs.revoke(&mut m.k.objects, FRAME, D).expect("revoke");
    assert!(lazy_page(&m, &space).is_none(), "the page is still mapped after its capability was revoked");
    assert!(m.read(&cs, 20).is_null());
}

/// Map the frame in a slot `page` pages further up.
fn put_frame_at(m: &mut Machine, cs: &CSpace, slot: u64, vs: &RawCap, page: u64) -> Result<(), CapError> {
    on_slot(m, cs, slot, |cap, m| {
        let o = &mut m.k.objects;
        map_frame(cap, vs, VirtAddr::new(LAZY + page * PAGE_SIZE), READ, false, &mut o.mem, &mut o.tlb)
    })
}

#[test]
fn a_revocation_starts_at_the_first_childs_deepest_leaf() {
    let (mut m, space, cs, vs) = paging();
    put_tables(&mut m, &cs, &vs);
    // 20 and 21 are copies of the frame, 22 and 23 are copies of 20. The latest
    // copy is the first child.
    for (src, dst) in [(FRAME, 20), (FRAME, 21), (20, 22), (20, 23)] {
        cs.mint(&mut m.k.objects.slots, (src, D), (dst, D), ALL, 0).expect("mint");
    }
    for (page, slot) in [20, 21, 22, 23].into_iter().enumerate() {
        put_frame_at(&mut m, &cs, slot, &vs, page as u64).expect("map");
    }
    m.k.objects.tlb.drain();
    assert_eq!(cs.revoke(&mut m.k.objects, FRAME, D), Ok(4));
    let page = |n: u64| Flush::Page(VirtAddr::new(LAZY + n * PAGE_SIZE));
    assert_eq!(m.k.objects.tlb.drain(), vec![page(1), page(3), page(2), page(0)]);
    for n in 0..4 {
        let va = VirtAddr::new(LAZY + n * PAGE_SIZE);
        assert!(space.translate(va, &m.k.objects.mem).is_none(), "page {n} is still mapped");
    }
}

#[test]
fn deleting_a_frame_removes_its_own_mapping_last() {
    let (mut m, space, cs, vs) = paging();
    put_tables(&mut m, &cs, &vs);
    cs.mint(&mut m.k.objects.slots, (FRAME, D), (20, D), ALL, 0).expect("mint");
    put_frame_at(&mut m, &cs, FRAME, &vs, 0).expect("map");
    put_frame_at(&mut m, &cs, 20, &vs, 1).expect("map");
    m.k.objects.tlb.drain();
    assert_eq!(cs.delete(&mut m.k.objects, FRAME, D), Ok(2));
    let page = |n: u64| Flush::Page(VirtAddr::new(LAZY + n * PAGE_SIZE));
    assert_eq!(m.k.objects.tlb.drain(), vec![page(1), page(0)]);
    assert!(lazy_page(&m, &space).is_none());
}

#[test]
fn destroying_one_frame_leaves_another_mapped() {
    let (mut m, space, cs, vs) = paging();
    put_tables(&mut m, &cs, &vs);
    cs.mint(&mut m.k.objects.slots, (FRAME, D), (20, D), ALL, 0).expect("mint");
    put_frame_at(&mut m, &cs, FRAME, &vs, 0).expect("map");
    put_frame_at(&mut m, &cs, 20, &vs, 1).expect("map");
    cs.revoke(&mut m.k.objects, FRAME, D).expect("revoke");
    // The copy's page is gone, the original's is not.
    assert!(space.translate(VirtAddr::new(LAZY + PAGE_SIZE), &m.k.objects.mem).is_none());
    assert_eq!(lazy_page(&m, &space).map(|(pa, _, _)| pa), Some(m.read(&cs, FRAME).paddr));
}

#[test]
fn unmapping_clears_the_record_as_well_as_the_entry() {
    let (mut m, space, cs, vs) = paging();
    put_tables(&mut m, &cs, &vs);
    put_frame(&mut m, &cs, FRAME, &vs, READ | WRITE).expect("map");
    take_frame(&mut m, &cs, FRAME).expect("unmap");
    assert_eq!(m.read(&cs, FRAME).mapping(), None);
    assert!(lazy_page(&m, &space).is_none());
    // And it can be mapped again.
    put_frame(&mut m, &cs, FRAME, &vs, READ).expect("remap");
    assert!(lazy_page(&m, &space).is_some());
}

#[test]
fn unmapping_a_table_undoes_mapping_it() {
    let (mut m, space, cs, vs) = paging();
    put_table(&mut m, &cs, L1_TABLE, &vs, 2).expect("map l1");
    let index = VirtAddr::new(LAZY).vpn(2) as u64;
    let root = space.root().as_usize();
    assert_eq!(
        Pte(m.k.objects.mem.read(root, index)).phys_addr(),
        m.read(&cs, L1_TABLE).paddr,
        "the table was not installed"
    );
    m.k.objects.tlb.drain();
    take_frame(&mut m, &cs, L1_TABLE).expect("unmap");
    assert_eq!(m.k.objects.mem.read(root, index), 0, "the branch is still there");
    assert_eq!(m.read(&cs, L1_TABLE).mapping(), None);
    assert_eq!(m.k.objects.tlb.drain(), vec![Flush::All]);
    // And it can be mapped again.
    put_table(&mut m, &cs, L1_TABLE, &vs, 2).expect("remap");
}

#[test]
fn unmapping_a_table_touches_no_page_of_another() {
    let (mut m, space, cs, vs) = paging();
    put_tables(&mut m, &cs, &vs);
    put_frame(&mut m, &cs, FRAME, &vs, READ | WRITE).expect("map");
    let lower = m.read(&cs, L0_TABLE).paddr.as_usize();
    let index = VirtAddr::new(LAZY).vpn(0) as u64;
    let leaf = m.k.objects.mem.read(lower, index);
    assert_ne!(leaf, 0);

    take_frame(&mut m, &cs, L0_TABLE).expect("unmap the table");
    assert!(lazy_page(&m, &space).is_none(), "the page is still reached");
    assert_eq!(m.k.objects.mem.read(lower, index), leaf, "the page's own entry was cleared");

    // Another frame goes to the same address, under another table. The first
    // capability no longer maps anything there, and takes nothing away.
    m.make(&cs, ObjectType::PageTable, 0, 20);
    m.make(&cs, ObjectType::Frame, 0, 21);
    put_table(&mut m, &cs, 20, &vs, 1).expect("map another table");
    put_frame(&mut m, &cs, 21, &vs, READ).expect("map another frame");
    take_frame(&mut m, &cs, FRAME).expect("already gone");
    assert_eq!(m.read(&cs, FRAME).mapping(), None);
    assert_eq!(lazy_page(&m, &space).unwrap().0, m.read(&cs, 21).paddr);
}

#[test]
fn revoking_a_table_removes_it_from_the_space() {
    let (mut m, space, cs, vs) = paging();
    cs.mint(&mut m.k.objects.slots, (L1_TABLE, D), (20, D), ALL, 0).expect("mint");
    put_table(&mut m, &cs, 20, &vs, 2).expect("map");
    cs.revoke(&mut m.k.objects, L1_TABLE, D).expect("revoke");
    let index = VirtAddr::new(LAZY).vpn(2) as u64;
    assert_eq!(m.k.objects.mem.read(space.root().as_usize(), index), 0, "the table is still in use");
}

#[test]
fn an_external_interrupt_leaves_the_running_thread_alone() {
    let mut m = Machine::new();
    let cs = m.cspace();
    m.start_in(client_program().as_slice(), &cs);
    let Next::Resume(tcb) = m.k.run() else { panic!("nothing to run") };
    let before = m.k.objects.threads.get(tcb).frame;
    assert_eq!(m.k.user_trap(tcb, (1 << 63) | 9, 0), Next::Resume(tcb));
    m.perform();
    assert_eq!(m.externals, 1);
    assert_eq!(m.k.killed(), 0);
    assert_eq!(m.k.current, Some(tcb));
    assert_eq!(m.k.objects.threads.get(tcb).frame.x, before.x);
    assert_eq!(m.k.objects.threads.get(tcb).frame.sepc, before.sepc);
}

#[test]
fn an_interrupt_is_posted_or_wakes_the_longest_waiter() {
    let mut m = Machine::new();
    let mut plic = Plic::new();
    let mut irqs = IrqTable::new();
    let here = PhysAddr::new(0x9800_0000);
    irqs.claim(10).unwrap();
    irqs.bind(10, here, 0b100, &plic).unwrap();

    // Not armed, nothing pending, or nobody to tell: nothing happens.
    assert_eq!(m.k.on_external_interrupt(&irqs, &plic, 10), vec![]);
    let info = PlicInfo {
        region: Region::new(PhysAddr::new(0x0c00_0000), PhysAddr::new(0x0c60_0000)),
        ndev: 95,
        context: 1,
    };
    plic.init(info, VirtAddr::new(KERNEL_VMA + 0x0c00_0000));
    assert_eq!(m.k.on_external_interrupt(&irqs, &plic, 0), vec![]);
    assert!(!m.k.objects.notifications.get(here.as_usize()).pending);

    // Served at the controller, then masked, in that order.
    let ops = vec![
        RegOp::Write { offset: 0x20_1004, value: 10 },
        RegOp::ClearBits { offset: 0x2080, bits: 1 << 10 },
    ];
    assert_eq!(m.k.on_external_interrupt(&irqs, &plic, 10), ops);
    assert_eq!(m.k.objects.notifications.get(here.as_usize()).word, 0b100);
    assert!(m.k.objects.notifications.get(here.as_usize()).pending);

    // A source bound to nothing is quieted all the same.
    assert_eq!(m.k.on_external_interrupt(&irqs, &plic, 11).len(), 2);

    // With threads waiting, the first of them runs.
    let mut n = Notification::new();
    let waiting: Vec<u64> = vec![0x9900_0000, 0x9900_1000];
    for a in &waiting {
        let mut t = Tcb::init_inactive(PhysAddr::new(*a), 7);
        t.state = ThreadState::BlockedOnRecv;
        m.k.objects.threads.put(*a, t);
        n.enqueue(*a, here, &mut m.k.objects.threads, &mut m.k.objects.waiters);
    }
    m.k.objects.notifications.put(here.as_usize(), n);
    assert_eq!(m.k.on_external_interrupt(&irqs, &plic, 10), ops);
    assert_eq!(m.queued(), vec![waiting[0]]);
    let first = m.k.objects.threads.get(waiting[0]);
    assert_eq!(first.state, ThreadState::Ready);
    assert_eq!(first.blocked_on, BlockedOn::Nothing);
    assert_eq!(first.frame.x[A0], 0b100);
    assert_eq!(m.k.objects.threads.get(waiting[1]).state, ThreadState::BlockedOnRecv);
    assert_eq!(m.k.objects.waiters.waiters(), 1);
    assert!(!m.k.objects.notifications.get(here.as_usize()).pending);
}

#[test]
fn a_thread_with_no_pager_is_killed_as_before() {
    let mut m = Machine::new();
    let cs = m.cspace();
    m.start_in(client_program().as_slice(), &cs);
    m.run_with_timer();
    assert_eq!(m.done(), (0, 1), "a pagerless fault should still be fatal");
    assert_eq!(m.reports, vec![(1, Cause::Exception(15), true)]);
}

#[test]
fn a_fault_reaches_the_pager_and_the_client_carries_on() {
    let mut m = Machine::new();
    let ep = m.endpoint();
    let space = m.space(client_program().as_slice());
    let pager_cs = pager_cspace(&mut m, &space, ep);
    let client_cs = m.cspace();

    // The pager is queued first, so it is blocked on recv before the client
    // faults.
    m.start_in(pager().as_slice(), &pager_cs);
    m.k.spawn_full(&space, text(), stack_top(), *client_cs.root(), ep, &mut m.frames).expect("spawn client");
    m.run_with_timer();

    assert_eq!(m.done(), (2, 0), "both threads should finish");
    assert_eq!(m.word(&space, LAZY), LAZY_VALUE as u64, "the client's store did not land in the mapped page");
}

#[test]
fn a_fault_waits_for_a_pager_that_is_not_listening_yet() {
    let mut m = Machine::new();
    let ep = m.endpoint();
    let space = m.space(client_program().as_slice());
    let pager_cs = pager_cspace(&mut m, &space, ep);
    let client_cs = m.cspace();
    m.k.spawn_full(&space, text(), stack_top(), *client_cs.root(), ep, &mut m.frames).expect("spawn client");
    m.start_in(pager().as_slice(), &pager_cs);
    m.run();
    assert_eq!(m.done(), (2, 0));
    assert_eq!(m.word(&space, LAZY), LAZY_VALUE as u64);
}

#[test]
fn the_demand_paging_demonstration_pages_its_client() {
    let mut m = Machine::new();
    let p = demand_paging_demo(&mut m.k, &m.kernel, &mut m.frames).expect("set up");
    assert_eq!(m.k.ready_count(), 2);
    m.run_with_timer();
    assert_eq!(m.done(), (2, 0));
    assert_eq!(m.word(&p.client, LAZY), LAZY_VALUE as u64);
    assert!(endpoint_at(&m.k.objects.endpoints, p.endpoint.paddr).is_empty());
}

#[test]
fn the_demonstration_needs_memory() {
    let mut m = Machine::new();
    let mut none = BumpAllocator::new();
    assert!(demand_paging_demo(&mut m.k, &m.kernel, &mut none).is_none());
    assert_eq!(m.k.ready_count(), 0);
}

#[test]
fn the_greeters_print_their_letters() {
    let mut m = Machine::new();
    for letter in [b'x', b'y', b'z'] {
        m.start(&greeter(letter));
    }
    m.run();
    assert_eq!(m.printed, b"xyz".to_vec());
    assert_eq!(m.done(), (3, 0));
}

#[test]
fn the_map_and_unmap_calls_a_pager_makes_compose_into_copy_on_write() {
    let (mut m, client, cs, vs) = paging();
    let shared = m.frames.alloc_frame(&mut m.k.objects.mem).expect("no frames");
    for i in 0..512 {
        m.k.objects.mem.write(shared.as_usize(), i, 0xaaaa_aaaa_aaaa_aaaa);
    }
    put_tables(&mut m, &cs, &vs);
    m.insert(&cs, 20, RawCap::new(ObjectType::Frame, ALL, 12, shared));
    put_frame(&mut m, &cs, 20, &vs, READ).expect("map shared ro");
    let (_, flags, _) = lazy_page(&m, &client).expect("shared page not mapped");
    assert!(!flags.contains(PteFlags(W)), "the shared page is writable, so nothing would fault");

    let new = m.read(&cs, FRAME).paddr;
    for i in 0..512 {
        let w = m.k.objects.mem.read(shared.as_usize(), i);
        m.k.objects.mem.write(new.as_usize(), i, w);
    }
    take_frame(&mut m, &cs, 20).expect("unmap shared");
    put_frame(&mut m, &cs, FRAME, &vs, READ | WRITE).expect("map copy");

    let (pa, flags, _) = lazy_page(&m, &client).expect("copy not mapped");
    assert_eq!(pa, new);
    assert!(flags.contains(PteFlags(W)), "the copy is not writable");
    m.k.objects.mem.write(new.as_usize(), 0, 0x1234);
    assert_eq!(m.k.objects.mem.read(shared.as_usize(), 0), 0xaaaa_aaaa_aaaa_aaaa, "the write reached the shared page");
}

/// A copy-on-write pager, entirely in userspace.
fn cow_pager() -> Prog<128> {
    let src_ptr = 18;
    let dst_ptr = 19;
    let count = 20;
    let tmp = 6;
    let fault_va = 9;
    let map4 = info(label::MAP, 4, false);
    let unmap0 = info(label::UNMAP, 0, false);

    let p = Prog::<128>::new()
        .li(A0, FAULT_EP as u32)
        .syscall(syscall::RECV)
        // a2 is the faulting address; keep it page-aligned in s1.
        .raw(uprog::srli(fault_va, A0 + 2, 12))
        .raw(uprog::slli(fault_va, fault_va, 12))
        // The shared frame, read-only, into our own space.
        .li(A0, ORIG_COPY as u32)
        .li(A0 + 1, map4)
        .li(A0 + 2, SELF_VSPACE as u32)
        .li(A0 + 3, SCRATCH_SRC as u32)
        .li(A0 + 4, READ as u32)
        .li(A0 + 5, 0)
        .syscall(syscall::CALL)
        // The replacement, writable, into our own space.
        .li(A0, NEW_FRAME as u32)
        .li(A0 + 1, map4)
        .li(A0 + 2, SELF_VSPACE as u32)
        .li(A0 + 3, SCRATCH_DST as u32)
        .li(A0 + 4, (READ | WRITE) as u32)
        .li(A0 + 5, 0)
        .syscall(syscall::CALL)
        // Copy a page, eight bytes at a time.
        .li(src_ptr, SCRATCH_SRC as u32)
        .li(dst_ptr, SCRATCH_DST as u32)
        .li(count, (PAGE_SIZE / 8) as u32);
    let top = p.here();
    p.raw(uprog::ld(tmp, src_ptr, 0))
        .raw(uprog::sd(dst_ptr, tmp, 0))
        .addi(src_ptr, 8)
        .addi(dst_ptr, 8)
        .addi(count, -1)
        .bne_back(count, top)
        // Take the shared frame away from the client.
        .li(A0, FRAME as u32)
        .li(A0 + 1, unmap0)
        .syscall(syscall::CALL)
        // Release our own two scratch mappings, so the copy can be mapped
        // elsewhere.
        .li(A0, ORIG_COPY as u32)
        .li(A0 + 1, unmap0)
        .syscall(syscall::CALL)
        .li(A0, NEW_FRAME as u32)
        .li(A0 + 1, unmap0)
        .syscall(syscall::CALL)
        // And give the client the copy, writable, where the original was.
        .li(A0, NEW_FRAME as u32)
        .li(A0 + 1, map4)
        .li(A0 + 2, VSPACE as u32)
        .raw(uprog::mv(A0 + 3, fault_va))
        .li(A0 + 4, (READ | WRITE) as u32)
        .li(A0 + 5, 0)
        .syscall(syscall::CALL)
        .li(A0 + 1, info(0, 0, false))
        .syscall(syscall::REPLY)
        .exit()
}

#[test]
fn the_cow_pager_program_assembles_and_fits_a_page() {
    let p = cow_pager();
    assert!(!p.as_slice().is_empty());
    assert!(p.as_slice().len() as u64 * 4 <= PAGE_SIZE);
}

#[test]
fn a_userspace_pager_performs_copy_on_write_end_to_end() {
    let mut m = Machine::new();
    let ep = m.endpoint();
    let client = m.space(client_program().as_slice());
    let pager = m.space(cow_pager().as_slice());
    let shared = m.frames.alloc_frame(&mut m.k.objects.mem).expect("no frames");
    for i in 0..512 {
        m.k.objects.mem.write(shared.as_usize(), i, 0xaaaa_aaaa_aaaa_aaaa);
    }

    let cs = m.cspace();
    m.insert(&cs, FAULT_EP, ep);
    m.insert(&cs, VSPACE, vspace_cap(client.root()));
    m.insert(&cs, SELF_VSPACE, vspace_cap(pager.root()));
    m.make(&cs, ObjectType::PageTable, 0, L1_TABLE);
    m.make(&cs, ObjectType::PageTable, 0, L0_TABLE);
    m.make(&cs, ObjectType::Frame, 0, NEW_FRAME);
    // The shared page, and a second capability to it the pager can map for
    // itself.
    m.insert(&cs, FRAME, RawCap::new(ObjectType::Frame, ALL, 12, shared));
    cs.mint(&mut m.k.objects.slots, (FRAME, D), (ORIG_COPY, D), ALL, 0).expect("second handle");

    // Give the client the shared page, read-only, so its store faults.
    let vs = m.read(&cs, VSPACE);
    put_tables(&mut m, &cs, &vs);
    put_frame(&mut m, &cs, FRAME, &vs, READ).expect("map shared ro");

    let client_cs = m.cspace();
    m.launch(&pager, &cs);
    m.k.spawn_full(&client, text(), stack_top(), *client_cs.root(), ep, &mut m.frames).expect("spawn client");
    m.run_with_timer();

    assert_eq!(m.done(), (2, 0), "both threads should finish");
    let (got, flags, _) = lazy_page(&m, &client).expect("nothing is mapped at the faulting address");
    assert!(flags.contains(PteFlags(W)), "the page the client ended up with is not writable");
    assert_ne!(got, shared, "the client kept writing to the shared page");
    // The client's store landed in its private copy, the rest of the page was
    // copied, and the page it was copied from is untouched.
    assert_eq!(m.k.objects.mem.read(got.as_usize(), 0), LAZY_VALUE as u64);
    assert_eq!(m.k.objects.mem.read(got.as_usize(), 64), 0xaaaa_aaaa_aaaa_aaaa);
    assert_eq!(m.k.objects.mem.read(shared.as_usize(), 0), 0xaaaa_aaaa_aaaa_aaaa);
}
