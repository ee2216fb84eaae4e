# Tessera

The decision-making core of a capability microkernel for RV64, verified with
Verus.

`src/` holds every rule the kernel follows. Memory is a value here, the threads
and endpoints live in stores, and each step of the kernel is a function from one
state to the next, together with what the hart has to do. What touches a hart or
a device stays outside, in `app/`, which boots the kernel on a board in software.

| where | what |
|---|---|
| `abi/` | what user programs see: system calls, labels, rights, the boot info page |
| `mm/` | addresses, regions, frames, page tables, address spaces, discovery |
| `cap/` | capabilities, slots and what is derived from what, retyping, mapping |
| `ipc.rs`, `notify.rs`, `thread.rs`, `queue.rs` | the objects threads meet on |
| `sched/` | scheduling, messages, invocations, traps |
| `root/`, `elf.rs` | loading the first task and handing the machine over to it |
| `fdt.rs`, `plic.rs`, `irq.rs`, `uart.rs`, `sbi.rs`, `time.rs` | the platform |
| `boot.rs`, `layout.rs`, `trap.rs` | coming up, and coming back in |

## What is proved

Every function has a contract that fixes its result. On top of those stand laws,
public proof functions that speak of all states:

* `sched/soundness.rs`: a thread is on one queue at most, the one its state says,
  and a reply capability names a thread of its own that waits for the reply.
* `sched/interrupt.rs`: an interrupt wakes the thread that has waited longest for
  it, or is kept for the next one; it is never lost.
* `cap/ownership.rs`, `sched/ownership.rs`: memory has one owner. What an untyped
  region has yet to hand out is named by no other capability.
* `cap/vspace.rs`: unmapping a frame or a page table undoes mapping it, and removes
  no entry but its own.
* `cap/slot.rs`, `cap/cspace.rs`, `cap/teardown.rs`: rights never widen, and
  revoking reaches exactly what was derived, the first child's deepest leaf first.
* `cap/revocation.rs`: a page whose frame capability is destroyed translates no
  longer, and no entry is removed but those that name memory of what is destroyed.
* `mm/frame.rs`: the frames handed out and what is left add up to the memory the
  allocator was given, and never meet.
* `mm/translation.rs`, `mm/keeping.rs`, `mm/exact.rs`, `mm/unmapping.rs`: mapping a
  page or a range makes its addresses translate, unmapping stops that, and neither
  changes anything else.
* `mm/kernel_space.rs`: the kernel's own space maps its sections with their
  permissions, without aliases, and closed to userspace.
* `root/laws.rs`, `root/isolation.rs`, `root/handover.rs`, `root/endowment.rs`: the
  first task finds its image, its modules and the boot info, reaches no memory but
  its own, and is given what is left of the machine, once.
* `sched/laws.rs`: messages arrive as sent, calls bypass the run queue, and a
  request that is refused changes nothing but the answer.

One function is trusted: `text::decoded`, which asks the standard library whether
bytes are UTF-8.
