//! What the kernel tells the hardware, and what it makes of what the hardware
//! says: traps, the console, the power register, notifications, and the
//! instructions of small user programs.

use tessera::boot::{early_hex, early_print};
use tessera::display::{fatal, killed};
use tessera::ipc::is_waiting;
use tessera::mm::addr::{PhysAddr, VirtAddr, KERNEL_VMA};
use tessera::mm::memory::Memory;
use tessera::mm::page_table::{Pte, PteFlags, USER_RX};
use tessera::mm::region::{Region, RegionList};
use tessera::mm::DirectMap;
use tessera::notify::{at, init, Notification, Waiters};
use tessera::qemu::{exit_failure, exit_success};
use tessera::queue::Queue;
use tessera::store::Store;
use tessera::text::{contains, is, lists, starts_with, terminal_bytes};
use tessera::thread::{is_fp_instruction, BlockedOn, Ids, Tcb, ThreadState};
use tessera::trap::{
    dispatch, reg_name, skip_faulting_instruction, Cause, KernelStack, KernelTrap, TrapFrame,
};
use tessera::uart::{Uart, LSR_DATA_READY, LSR_THR_EMPTY, UART0_PHYS};
use tessera::uprog::{self, Prog, A0, A7, ECALL, SPIN, USE_FP};

// --- Traps ---

#[test]
fn causes_are_decoded_and_named() {
    assert_eq!(Cause::decode(8), Cause::Exception(8));
    assert_eq!(Cause::decode((1 << 63) | 5), Cause::Interrupt(5));
    assert_eq!(Cause::decode(13).name(), "load page fault");
    assert_eq!(Cause::decode((1 << 63) | 9).name(), "supervisor external interrupt");
    assert_eq!(Cause::decode(10).name(), "reserved exception");
    assert_eq!(Cause::decode((1 << 63) | 2).name(), "reserved interrupt");
}

#[test]
fn the_kernel_handles_ticks_devices_and_breakpoints_and_nothing_else() {
    assert_eq!(dispatch(Cause::Interrupt(5)), KernelTrap::Tick);
    assert_eq!(dispatch(Cause::Interrupt(9)), KernelTrap::External);
    assert_eq!(dispatch(Cause::Exception(3)), KernelTrap::Breakpoint);
    for cause in [Cause::Exception(2), Cause::Exception(8), Cause::Exception(13), Cause::Interrupt(1)] {
        assert_eq!(dispatch(cause), KernelTrap::Fatal);
    }
}

#[test]
fn breakpoints_are_stepped_over_by_their_own_length() {
    let mut frame = TrapFrame::zero();
    frame.sepc = 0x8020_0000;
    // A full `ebreak`, then a compressed one.
    skip_faulting_instruction(&mut frame, 0x0073);
    assert_eq!(frame.sepc, 0x8020_0004);
    skip_faulting_instruction(&mut frame, 0x9002);
    assert_eq!(frame.sepc, 0x8020_0006);
}

#[test]
fn registers_have_their_conventional_names() {
    assert_eq!(reg_name(2), "sp");
    assert_eq!(reg_name(10), "a0");
    assert_eq!(reg_name(31), "t6");
}

#[test]
fn an_unhandled_trap_is_dumped_in_full() {
    let mut frame = TrapFrame::zero();
    for i in 1..32 {
        frame.set(i, 0x100 + i as u64);
    }
    let dump = fatal(Cause::Exception(2), 0x8020_0000, 0xdead, 0x120, &frame);
    let lines: Vec<&str> = dump.split('\n').collect();
    assert_eq!(lines[0], "");
    assert_eq!(lines[1], "=== UNHANDLED TRAP ===");
    assert_eq!(lines[2], "cause   : illegal instruction (Exception(2))");
    assert_eq!(lines[3], "sepc    : 0x0000000080200000");
    assert_eq!(lines[4], "stval   : 0x000000000000dead");
    assert_eq!(lines[5], "sstatus : 0x0000000000000120  (SPP=1, SPIE=1, SIE=0)");
    assert_eq!(lines[6], "registers:");
    assert_eq!(
        lines[7],
        "  zero=0x0000000000000000    ra=0x0000000000000101    sp=0x0000000000000102    gp=0x0000000000000103"
    );
    // Eight lines of four, each ended.
    assert_eq!(lines.len(), 16);
    assert_eq!(lines[14].len(), lines[7].len());
    assert_eq!(lines[15], "");
}

#[test]
fn a_killed_thread_is_named() {
    assert_eq!(
        killed(7, Cause::Exception(13), 0x1000_0004, true),
        "thread 7 killed: load page fault at 0x10000004 (no fault endpoint)"
    );
    assert_eq!(
        killed(12, Cause::Interrupt(1), 0, false),
        "thread 12 killed: supervisor software interrupt at 0x0"
    );
    assert_eq!(Cause::Interrupt(5).text(), "Interrupt(5)");
}

#[test]
fn the_trap_path_finds_the_stack_it_was_given() {
    let mut stack = KernelStack::new();
    assert_eq!(stack.kernel_stack(), 0);
    stack.set_kernel_stack(0x8030_0000);
    assert_eq!(stack.kernel_stack(), 0x8030_0000);
    stack.use_default_kernel_stack(0x8040_0000);
    assert_eq!(stack.kernel_stack(), 0x8041_0000);
}

#[test]
fn only_floating_point_instructions_turn_the_fpu_on() {
    assert!(is_fp_instruction(USE_FP as u64));
    // fld fa0, 0(sp) and fsd fa0, 0(sp).
    assert!(is_fp_instruction(0x0001_3507));
    assert!(is_fp_instruction(0x00a1_3027));
    // csrr a0, satp; addi; an empty word.
    assert!(!is_fp_instruction(0x1800_2573));
    assert!(!is_fp_instruction(uprog::addi(A0, A0, 1) as u64));
    assert!(!is_fp_instruction(0));
}

#[test]
fn ids_are_handed_out_in_order() {
    let mut ids = Ids::new();
    assert_eq!([ids.next_id(), ids.next_id(), ids.next_id()], [1, 2, 3]);
}

#[test]
fn a_thread_is_runnable_blocked_or_neither() {
    assert!(ThreadState::Ready.is_runnable() && ThreadState::Running.is_runnable());
    assert!(!ThreadState::Inactive.is_runnable() && !ThreadState::Inactive.is_blocked());
    assert!(ThreadState::AwaitingReply.is_blocked() && ThreadState::BlockedOnSend.is_blocked());
    assert!(!ThreadState::Exited.is_runnable() && !ThreadState::Exited.is_blocked());
    let mut t = Tcb::init_inactive(PhysAddr::new(0x9000_0000), 3);
    assert!(!is_waiting(&t));
    t.state = ThreadState::BlockedOnRecv;
    assert!(is_waiting(&t));
    t.state = ThreadState::AwaitingReply;
    assert!(!is_waiting(&t));
}

#[test]
fn physical_memory_moves_once_paging_is_on() {
    let mut direct = DirectMap::new();
    assert_eq!(direct.phys_offset(), 0);
    assert_eq!(direct.phys_to_virt(PhysAddr::new(0x8020_0000)), VirtAddr::new(0x8020_0000));
    direct.set_phys_offset(KERNEL_VMA);
    assert_eq!(direct.phys_offset(), KERNEL_VMA);
    let va = direct.phys_to_virt(PhysAddr::new(0x8020_0000));
    assert_eq!(va, VirtAddr::new(0xffff_ffc0_8020_0000));
    assert_eq!(direct.virt_to_phys(va), PhysAddr::new(0x8020_0000));
}

// --- Text ---

#[test]
fn numbers_print_in_full_before_there_is_a_console() {
    assert_eq!(early_hex(0), b"0x0000000000000000".to_vec());
    assert_eq!(early_hex(0xdead_beef_0123_4567), b"0xdeadbeef01234567".to_vec());
}

#[test]
fn every_newline_returns_the_carriage() {
    assert_eq!(early_print("a\nb\n"), b"a\r\nb\r\n".to_vec());
    assert_eq!(terminal_bytes(b"\n\n"), b"\r\n\r\n".to_vec());
    assert_eq!(Uart::new(UART0_PHYS).write_str("plain"), b"plain".to_vec());
}

#[test]
fn string_lists_are_searched_by_whole_elements() {
    let list = b"sifive,plic-1.0.0\0riscv,plic0\0";
    assert!(lists(list, "riscv,plic0"));
    assert!(lists(list, "sifive,plic-1.0.0"));
    assert!(!lists(list, "plic0"));
    assert!(!lists(list, "riscv,plic"));
    assert!(starts_with(b"memory@80000000", "memory"));
    assert!(is(b"soc", "soc") && !is(b"socs", "soc"));
    assert!(contains(b"rv64imafdc_sstc", "sstc") && !contains(b"rv64", "sstc"));
}

#[test]
fn addresses_and_regions_read_well() {
    assert_eq!(PhysAddr::new(0x8020_0000).text(), "0x0080200000");
    assert_eq!(PhysAddr::new(0x12_3456_789a_bcde).text(), "0x123456789abcde");
    assert_eq!(PhysAddr::new(0).debug_text(), "PhysAddr(0x0)");
    assert_eq!(VirtAddr::new(0x1000).text(), "0x0000000000001000");
    assert_eq!(VirtAddr::new(u64::MAX).debug_text(), "VirtAddr(0xffffffffffffffff)");
    let a = Region::new(PhysAddr::new(0x8000_0000), PhysAddr::new(0x8020_0000));
    let b = Region::new(PhysAddr::new(0x9000_0000), PhysAddr::new(0x9000_0400));
    assert_eq!(a.text(), "0x0080000000..0x0080200000 (2048 KiB)");
    let mut list = RegionList::<4>::new();
    assert_eq!(list.text(), "[]");
    list.push(a).unwrap();
    assert_eq!(list.text(), "[0x0080000000..0x0080200000 (2048 KiB)]");
    list.push(b).unwrap();
    assert_eq!(
        list.text(),
        "[0x0080000000..0x0080200000 (2048 KiB), 0x0090000000..0x0090000400 (1 KiB)]"
    );
}

#[test]
fn entries_read_as_letters() {
    assert_eq!(PteFlags(USER_RX).text(), "VR-XU-A-");
    assert_eq!(PteFlags(0).text(), "--------");
    assert_eq!(PteFlags(0xff).text(), "VRWXUGAD");
    assert_eq!(Pte::empty().text(), "Pte(invalid)");
    let pa = PhysAddr::new(0x8020_0000);
    assert_eq!(Pte::leaf(pa, PteFlags(USER_RX)).text(), "Pte(0x0080200000 VR-XU-A- leaf)");
    assert_eq!(Pte::branch(pa).text(), "Pte(0x0080200000 V------- branch)");
}

// --- The console and the power register ---

#[test]
fn the_console_is_set_up_from_scratch() {
    let stores = Uart::new(UART0_PHYS).init();
    let all: Vec<(u64, u8)> = stores.iter().map(|s| (s.at.as_usize() - UART0_PHYS, s.value)).collect();
    assert_eq!(all, vec![(1, 0), (3, 0x80), (0, 3), (1, 0), (3, 3), (2, 7), (4, 3)]);
}

#[test]
fn a_byte_waits_until_the_transmitter_is_ready() {
    let uart = Uart::new(UART0_PHYS);
    assert_eq!(uart.status(), PhysAddr::new(UART0_PHYS + 5));
    assert_eq!(uart.put(0, b'x'), None);
    let store = uart.put(LSR_THR_EMPTY, b'x').unwrap();
    assert_eq!((store.at, store.value), (PhysAddr::new(UART0_PHYS), b'x'));
}

#[test]
fn a_byte_is_read_only_once_it_has_arrived() {
    let uart = Uart::new(UART0_PHYS);
    assert_eq!(uart.get(LSR_THR_EMPTY), None);
    assert_eq!(uart.get(LSR_DATA_READY), Some(PhysAddr::new(UART0_PHYS)));
}

#[test]
fn the_machine_is_told_how_the_run_ended() {
    assert_eq!(exit_success(), 0x5555);
    assert_eq!(exit_failure(1), 0x0001_3333);
    assert_eq!(exit_failure(0xffff), 0xffff_3333);
}

// --- Queues and notifications ---

#[test]
fn a_queue_is_first_come_first_served() {
    let mut q = Queue::new();
    assert!(q.is_empty());
    for a in [3, 1, 2] {
        q.push(a);
    }
    assert_eq!(q.len(), 3);
    assert!(q.remove(1));
    assert!(!q.remove(9));
    assert_eq!([q.pop(), q.pop(), q.pop()], [Some(3), Some(2), None]);
}

#[test]
fn a_fresh_notification_holds_nothing() {
    let mut n = Notification::new();
    assert!(n.is_empty());
    assert_eq!(n.take(), None);
}

#[test]
fn signals_between_waits_collapse_into_one() {
    let mut n = Notification::new();
    n.post(0b001);
    n.post(0b100);
    n.post(0b001);
    assert_eq!(n.take(), Some(0b101));
    assert_eq!(n.take(), None, "the word was not cleared by taking it");
}

#[test]
fn an_unbadged_signal_still_wakes_a_later_waiter() {
    let mut n = Notification::new();
    n.post(0);
    assert_eq!(n.take(), Some(0));
    assert_eq!(n.take(), None);
}

#[test]
fn waiters_are_counted_and_released_in_order() {
    let mut threads: Store<Tcb> = Store::new();
    let mut waiters = Waiters::new();
    let mut n = Notification::new();
    let here = PhysAddr::new(0x9000_0000);
    for a in [0x1000, 0x2000, 0x3000] {
        n.enqueue(a, here, &mut threads, &mut waiters);
    }
    assert_eq!(waiters.waiters(), 3);
    assert_eq!(threads.get(0x1000).blocked_on, BlockedOn::Notification(here));
    assert!(n.remove(0x2000, &mut threads, &mut waiters));
    assert!(!n.remove(0x2000, &mut threads, &mut waiters));
    assert_eq!(n.dequeue(&mut threads, &mut waiters), Some(0x1000));
    assert_eq!(threads.get(0x1000).blocked_on, BlockedOn::Nothing);
    assert_eq!(n.dequeue(&mut threads, &mut waiters), Some(0x3000));
    assert_eq!(n.dequeue(&mut threads, &mut waiters), None);
    assert_eq!(waiters.waiters(), 0);
}

#[test]
fn a_fresh_notification_is_quiet() {
    let mut all: Store<Notification> = Store::new();
    let here = PhysAddr::new(0x9000_0000);
    let mut loud = Notification::new();
    loud.post(7);
    all.put(here.as_usize(), loud);
    init(&mut all, here);
    assert!(at(&all, here).is_empty());
    assert_eq!(all.take(here.as_usize()).take(), None);
}

// --- Instructions ---

#[test]
fn instructions_are_encoded_as_the_manual_says() {
    assert_eq!(uprog::li(A7, 1), 0x0010_0893);
    assert_eq!(uprog::addi(A0, A0, -1), 0xfff5_0513);
    assert_eq!(uprog::lui(A0, 0x12345), 0x1234_5537);
    assert_eq!(uprog::mv(9, 13), 0x0006_8493);
    assert_eq!(uprog::slli(A0, A0, 12), 0x00c5_1513);
    assert_eq!(uprog::srli(A0, A0, 12), 0x00c5_5513);
    // sd a0, -8(sp) and ld a0, 0(zero).
    assert_eq!(uprog::sd(2, A0, -8), 0xfea1_3c23);
    assert_eq!(uprog::ld(A0, 0, 0), 0x0000_3503);
    // j . and bnez a6, -4.
    assert_eq!(uprog::jal(0, 0), SPIN);
    assert_eq!(uprog::bne(16, 0, -4), 0xfe08_1ee3);
    assert_eq!(uprog::syscall(1), [0x0010_0893, ECALL]);
}

#[test]
fn wide_constants_take_two_instructions() {
    let small = Prog::<4>::new().li(A0, 0x7ff);
    assert_eq!(small.as_slice(), [0x7ff0_0513]);
    let wide = Prog::<4>::new().li(A0, 0x5a5a);
    // lui a0, 0x6; addi a0, a0, -0x5a6.
    assert_eq!(wide.as_slice(), [0x0000_6537, 0xa5a5_0513]);
    assert_eq!(wide.here(), 2);
}

#[test]
fn backward_edges_land_on_their_targets() {
    let p = Prog::<8>::new().addi(16, -1).bne_back(16, 0).jump_back(0);
    assert_eq!(p.as_slice()[1], uprog::bne(16, 0, -4));
    assert_eq!(p.as_slice()[2], uprog::jal(0, -8));
}

#[test]
fn programs_are_written_into_a_frame_as_they_are() {
    let mut mem = Memory::new();
    let frame = PhysAddr::new(0x8040_0000);
    uprog::write_to_frame(frame, &[0x1111_2222, 0x3333_4444, 0x5555_6666], &mut mem);
    assert_eq!(mem.read(frame.as_usize(), 0), 0x3333_4444_1111_2222);
    assert_eq!(mem.read(frame.as_usize(), 1), 0x5555_6666);
}

#[test]
fn bytes_are_copied_where_they_belong_and_nowhere_else() {
    let mut mem = Memory::new();
    mem.write(0x8040_0000, 0, u64::MAX);
    mem.write(0x8040_0000, 1, u64::MAX);
    mem.copy_in(0x8040_0006, &[9, 1, 2, 3, 9], 1, 3);
    assert_eq!(mem.read(0x8040_0000, 0), 0x0201_ffff_ffff_ffff);
    assert_eq!(mem.read(0x8040_0000, 1), 0xffff_ffff_ffff_ff03);
    mem.write_byte(0x8040_0000, 0xab);
    assert_eq!(mem.read(0x8040_0000, 0), 0x0201_ffff_ffff_ffab);
    mem.zero_bytes(0x8040_0001, 4);
    assert_eq!(mem.read(0x8040_0000, 0), 0x0201_ff00_0000_00ab);
}
