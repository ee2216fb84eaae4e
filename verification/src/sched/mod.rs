//! Round-robin scheduling over a single kernel stack per hart.

pub mod entry;
pub mod interrupt;
pub mod invoke;
pub mod invoking;
pub mod laws;
pub mod message;
pub mod ownership;
pub mod receiving;
pub mod refusing;
pub mod retyping;
pub mod soundness;
pub mod switching;
pub mod syscalls;
pub mod threading;
pub mod trapping;

use crate::cap::RawCap;
use crate::mm::addr::{PhysAddr, VirtAddr};
use crate::mm::address_space::AddressSpace;
use crate::mm::frame::BumpAllocator;
use crate::objects::{Objects, ObjectsView};
use crate::queue::Queue;
use crate::thread::{Tcb, TcbView, ThreadId, ThreadState};
use crate::trap::{Cause, A0};
use vstd::prelude::*;

verus! {

/// How many delivered badges are remembered.
pub const BADGE_LOG: usize = 8;

/// What the hart has to do before it returns to userspace, in order.
#[derive(Debug, Clone, Copy, PartialEq, Eq, Structural)]
pub enum Action {
    /// Save `f0-f31` into this thread.
    SaveFp(u64),
    /// Restore `f0-f31` from this thread.
    RestoreFp(u64),
    /// Write `satp`, and forget every translation if asked to.
    Install { satp: u64, flush: bool },
    /// Write the character with this code to the console.
    Print(u8),
    /// Account for a timer tick and arm the next one.
    Tick,
    /// Ask the interrupt controller what happened, and deliver it.
    External,
    /// Say which thread was killed, why, and where it was.
    Report { id: ThreadId, cause: Cause, at: u64, no_pager: bool },
}

/// Where control goes when the kernel is done.
#[derive(Debug, Clone, Copy, PartialEq, Eq, Structural)]
pub enum Next {
    /// Back to userspace, as this thread.
    Resume(u64),
    /// Nothing left to run: back to whoever called [`Kernel::run`].
    Leave,
}

/// Why a thread is coming off the hart.
#[derive(Debug, Clone, Copy, PartialEq, Eq, Structural)]
pub enum Retire {
    /// Still runnable: back to the tail of the queue.
    Requeue,
    /// Called `exit`.
    Exited,
    /// Faulted, and the kernel destroyed it.
    Killed,
    /// Parked on an endpoint. Its state is already set and it is on no queue
    /// the scheduler owns; the endpoint will make it runnable again.
    Blocked,
}

#[derive(Debug, Clone, Copy, PartialEq, Eq, Structural)]
pub enum SpawnError {
    /// No frame left for a TCB.
    OutOfFrames,
}

/// The whole state of the kernel.
pub struct Kernel {
    pub objects: Objects,
    /// Threads that can run, longest waiting first.
    pub queue: Queue,
    /// The thread on this hart.
    pub current: Option<u64>,
    /// What `satp` holds.
    pub satp: u64,
    /// What the hart still has to do.
    pub actions: Vec<Action>,
    pub spawned: u64,
    pub exited: u64,
    pub killed: u64,
    /// How many times a thread has been taken off the run queue.
    pub pops: u64,
    pub stop_on_exit: bool,
    pub last_badge: u64,
    /// The last few badges delivered, so that messages can be seen to arrive in
    /// the order they were sent.
    pub badges: [u64; BADGE_LOG],
    pub badge_count: u64,
}

/// The state of the kernel, seen from outside.
#[verifier::ext_equal]
pub struct KernelView {
    pub objects: ObjectsView,
    pub queue: Seq<u64>,
    pub current: Option<u64>,
    pub satp: u64,
    pub actions: Seq<Action>,
    pub spawned: u64,
    pub exited: u64,
    pub killed: u64,
    pub pops: u64,
    pub stop_on_exit: bool,
    pub last_badge: u64,
    pub badges: Seq<u64>,
    pub badge_count: u64,
}

impl View for Kernel {
    type V = KernelView;

    open spec fn view(&self) -> KernelView {
        KernelView {
            objects: self.objects@,
            queue: self.queue@,
            current: self.current,
            satp: self.satp,
            actions: self.actions@,
            spawned: self.spawned,
            exited: self.exited,
            killed: self.killed,
            pops: self.pops,
            stop_on_exit: self.stop_on_exit,
            last_badge: self.last_badge,
            badges: self.badges@,
            badge_count: self.badge_count,
        }
    }
}

/// The address space identifier in a `satp` value.
pub open spec fn asid_field(satp: u64) -> u64 {
    (satp / 0x1000_0000_0000) % 0x1_0000
}

impl KernelView {
    /// The thread at an address.
    pub open spec fn thread(self, a: u64) -> TcbView {
        self.objects.threads[a]
    }

    pub open spec fn with_thread(self, a: u64, t: TcbView) -> KernelView {
        KernelView {
            objects: ObjectsView { threads: self.objects.threads.insert(a, t), ..self.objects },
            ..self
        }
    }

    pub open spec fn with_state(self, a: u64, state: ThreadState) -> KernelView {
        self.with_thread(a, TcbView { state, ..self.thread(a) })
    }

    pub open spec fn with_action(self, action: Action) -> KernelView {
        KernelView { actions: self.actions.push(action), ..self }
    }

    pub open spec fn with_ready(self, a: u64) -> KernelView {
        KernelView { queue: self.queue.push(a), ..self }
    }

    /// Saving the FP registers of a thread, if it ever touched one.
    pub open spec fn fp_saved(self, a: u64) -> KernelView {
        if self.thread(a).fp_used() {
            self.with_action(Action::SaveFp(a))
        } else {
            self
        }
    }

    /// Restoring the FP registers of a thread, if it ever touched one.
    pub open spec fn fp_restored(self, a: u64) -> KernelView {
        if self.thread(a).fp_used() {
            self.with_action(Action::RestoreFp(a))
        } else {
            self
        }
    }

    /// Installing an address space, unless it is installed already. A space
    /// without an identifier of its own shares one with others, so what is
    /// cached under it has to go.
    pub open spec fn space_installed(self, satp: u64) -> KernelView {
        if self.satp == satp {
            self
        } else {
            KernelView {
                satp,
                ..self.with_action(Action::Install { satp, flush: asid_field(satp) == 0 })
            }
        }
    }

    /// Making a thread the current one.
    pub open spec fn activated(self, a: u64) -> KernelView {
        KernelView {
            current: Some(a),
            ..self.with_state(a, ThreadState::Running).fp_restored(a).space_installed(
                self.thread(a).satp,
            )
        }
    }

    /// Taking the longest waiting thread off the run queue.
    pub open spec fn next_taken(self) -> (KernelView, Option<u64>) {
        if self.queue.len() == 0 {
            (self, None)
        } else {
            (
                KernelView {
                    queue: self.queue.drop_first(),
                    pops: crate::bits::one_more(self.pops),
                    ..self
                },
                Some(self.queue[0]),
            )
        }
    }

    /// Resuming the longest waiting thread, if there is one.
    pub open spec fn next_resumed(self) -> (KernelView, Next) {
        match self.next_taken() {
            (k, Some(a)) => (k.activated(a), Next::Resume(a)),
            (k, None) => (k, Next::Leave),
        }
    }

    /// The current thread off the hart, for a reason.
    pub open spec fn parted(self, why: Retire) -> KernelView {
        let idle = KernelView { current: None, ..self };
        match self.current {
            None => idle,
            Some(a) => {
                let saved = idle.fp_saved(a);
                match why {
                    Retire::Requeue => saved.with_state(a, ThreadState::Ready).with_ready(a),
                    Retire::Exited => KernelView {
                        exited: crate::bits::one_more(saved.exited),
                        ..saved.with_state(a, ThreadState::Exited)
                    },
                    Retire::Killed => KernelView {
                        killed: crate::bits::one_more(saved.killed),
                        ..saved.with_state(a, ThreadState::Exited)
                    },
                    Retire::Blocked => saved,
                }
            },
        }
    }

    /// The current thread off the hart, and whatever is next on it.
    pub open spec fn retired(self, why: Retire) -> (KernelView, Next) {
        let parted = self.parted(why);
        if self.current is Some && why is Exited && self.stop_on_exit {
            (parted, Next::Leave)
        } else {
            parted.next_resumed()
        }
    }

    /// One thread straight to another, past the run queue.
    pub open spec fn switched(self, next: u64) -> (KernelView, Next) {
        let saved = match self.current {
            Some(a) => self.fp_saved(a),
            None => self,
        };
        (saved.activated(next), Next::Resume(next))
    }

    /// A system call that did not block, answered.
    pub open spec fn finished(self, a: u64, value: u64) -> (KernelView, Next) {
        (self.with_thread(a, self.thread(a).with_reg(A0 as int, value)), Next::Resume(a))
    }

    /// A delivered badge, on record.
    pub open spec fn badge_logged(self, badge: u64) -> KernelView {
        KernelView {
            last_badge: badge,
            badges: if self.badge_count < BADGE_LOG {
                self.badges.update(self.badge_count as int, badge)
            } else {
                self.badges
            },
            badge_count: crate::bits::one_more(self.badge_count),
            ..self
        }
    }
}

impl Kernel {
    /// Whether the objects are sound, and every thread's capability space is.
    pub open spec fn wf(self) -> bool {
        &&& self.objects.wf()
        &&& forall|a: u64| (#[trigger] self@.objects.threads[a]).cspace.is_sound()
        &&& forall|a: u64| (#[trigger] self@.objects.threads[a]).frame.x.len() == 32
    }

    /// A kernel with nothing to run, over the given objects.
    pub fn new(objects: Objects, satp: u64) -> (r: Self)
        requires
            objects.wf(),
            forall|a: u64| (#[trigger] objects@.threads[a]).cspace.is_sound(),
            forall|a: u64| (#[trigger] objects@.threads[a]).frame.x.len() == 32,
        ensures
            r.wf(),
            r@ == (KernelView {
                objects: objects@,
                queue: Seq::empty(),
                current: None,
                satp,
                actions: Seq::empty(),
                spawned: 0,
                exited: 0,
                killed: 0,
                pops: 0,
                stop_on_exit: false,
                last_badge: 0,
                badges: Seq::new(BADGE_LOG as nat, |i: int| u64::MAX),
                badge_count: 0,
            }),
    {
        let k = Kernel {
            objects,
            queue: Queue::new(),
            current: None,
            satp,
            actions: Vec::new(),
            spawned: 0,
            exited: 0,
            killed: 0,
            pops: 0,
            stop_on_exit: false,
            last_badge: 0,
            badges: [u64::MAX;BADGE_LOG],
            badge_count: 0,
        };
        assert(k@.badges =~= Seq::new(BADGE_LOG as nat, |i: int| u64::MAX));
        k
    }

    /// Hand over what the hart has to do.
    pub fn drain_actions(&mut self) -> (r: Vec<Action>)
        requires
            old(self).wf(),
        ensures
            final(self).wf(),
            r@ == old(self)@.actions,
            final(self)@ == (KernelView { actions: Seq::empty(), ..old(self)@ }),
    {
        let mut due: Vec<Action> = Vec::new();
        core::mem::swap(&mut due, &mut self.actions);
        due
    }

    // --- Small steps ---

    fn thread(&self, a: u64) -> (r: Tcb)
        requires
            self.wf(),
        ensures
            r@ == self@.thread(a),
            r.cspace.is_sound(),
    {
        *self.objects.threads.get(a)
    }

    fn set_thread(&mut self, a: u64, t: Tcb)
        requires
            old(self).wf(),
            t.cspace.is_sound(),
        ensures
            final(self).wf(),
            final(self)@ == old(self)@.with_thread(a, t@),
    {
        self.objects.threads.put(a, t);
    }

    fn set_state(&mut self, a: u64, state: ThreadState)
        requires
            old(self).wf(),
        ensures
            final(self).wf(),
            final(self)@ == old(self)@.with_state(a, state),
    {
        let mut t: Tcb = self.thread(a);
        t.state = state;
        self.set_thread(a, t);
    }

    fn act(&mut self, action: Action)
        requires
            old(self).wf(),
        ensures
            final(self).wf(),
            final(self)@ == old(self)@.with_action(action),
    {
        self.actions.push(action);
    }

    fn push(&mut self, a: u64)
        requires
            old(self).wf(),
        ensures
            final(self).wf(),
            final(self)@ == old(self)@.with_ready(a),
    {
        self.queue.push(a);
    }

    fn save_fp(&mut self, a: u64)
        requires
            old(self).wf(),
        ensures
            final(self).wf(),
            final(self)@ == old(self)@.fp_saved(a),
    {
        if self.thread(a).uses_fp() {
            self.act(Action::SaveFp(a));
        }
    }

    /// Make a thread current, and install its address space.
    fn activate(&mut self, a: u64)
        requires
            old(self).wf(),
        ensures
            final(self).wf(),
            final(self)@ == old(self)@.activated(a),
    {
        let t: Tcb = self.thread(a);
        self.set_state(a, ThreadState::Running);
        if t.uses_fp() {
            self.act(Action::RestoreFp(a));
        }
        // Threads that share an address space need no switch at all: `satp`
        // already holds the right value, and writing it would flush for nothing.
        if self.satp != t.satp {
            // An unassigned space is ASID 0, which every other unassigned space
            // also uses, so its entries have to go. Once an ASID pool has given
            // the space a number of its own, the tag keeps them apart and the
            // flush is unnecessary.
            let flush: bool = (t.satp / 0x1000_0000_0000) % 0x1_0000 == 0;
            self.act(Action::Install { satp: t.satp, flush });
            self.satp = t.satp;
        }
        self.current = Some(a);
    }

    fn take_next(&mut self) -> (r: Option<u64>)
        requires
            old(self).wf(),
        ensures
            final(self).wf(),
            (final(self)@, r) == old(self)@.next_taken(),
    {
        match self.queue.pop() {
            None => None,
            Some(a) => {
                // Counted, not for statistics: a call/reply pair must not
                // consult the run queue, and this is how that can be seen.
                self.pops = crate::bits::increment(self.pops);
                Some(a)
            },
        }
    }

    fn resume_next(&mut self) -> (r: Next)
        requires
            old(self).wf(),
        ensures
            final(self).wf(),
            (final(self)@, r) == old(self)@.next_resumed(),
    {
        match self.take_next() {
            Some(a) => {
                self.activate(a);
                Next::Resume(a)
            },
            None => Next::Leave,
        }
    }

    /// Stop running the current thread and resume whatever is next.
    fn retire(&mut self, why: Retire) -> (r: Next)
        requires
            old(self).wf(),
        ensures
            final(self).wf(),
            (final(self)@, r) == old(self)@.retired(why),
    {
        let current: Option<u64> = self.current;
        self.current = None;
        match current {
            None => {},
            Some(a) => {
                self.save_fp(a);
                match why {
                    Retire::Requeue => {
                        self.set_state(a, ThreadState::Ready);
                        self.push(a);
                    },
                    Retire::Exited => {
                        self.set_state(a, ThreadState::Exited);
                        self.exited = crate::bits::increment(self.exited);
                        if self.stop_on_exit {
                            return Next::Leave;
                        }
                    },
                    Retire::Killed => {
                        self.set_state(a, ThreadState::Exited);
                        self.killed = crate::bits::increment(self.killed);
                    },
                    // Already queued on an endpoint; touching the run queue
                    // here would be wrong.
                    Retire::Blocked => {},
                }
            },
        }
        self.resume_next()
    }

    /// Resume `next` without consulting the run queue.
    ///
    /// This is the direct switch: a `call`/`reply` pair moves the hart from one
    /// thread to another and the scheduler never runs.
    fn switch_direct(&mut self, next: u64) -> (r: Next)
        requires
            old(self).wf(),
        ensures
            final(self).wf(),
            (final(self)@, r) == old(self)@.switched(next),
    {
        // Whatever is leaving the hart still owns the FP registers if it ever
        // touched one. `activate` restores them for the thread arriving.
        match self.current {
            Some(a) => {
                self.save_fp(a);
            },
            None => {},
        }
        self.activate(next);
        Next::Resume(next)
    }

    /// Finish a syscall that did not block, returning `value` in `a0`.
    fn finish(&mut self, a: u64, value: u64) -> (r: Next)
        requires
            old(self).wf(),
        ensures
            final(self).wf(),
            (final(self)@, r) == old(self)@.finished(a, value),
    {
        let mut t: Tcb = self.thread(a);
        t.set_return(value);
        self.set_thread(a, t);
        Next::Resume(a)
    }

    fn log_badge(&mut self, badge: u64)
        requires
            old(self).wf(),
        ensures
            final(self).wf(),
            final(self)@ == old(self)@.badge_logged(badge),
    {
        self.last_badge = badge;
        if self.badge_count < BADGE_LOG as u64 {
            self.badges[self.badge_count as usize] = badge;
        }
        self.badge_count = crate::bits::increment(self.badge_count);
    }

    // --- Starting and stopping ---

    /// Run threads until the run queue empties: resume the first, if there is
    /// one.
    ///
    /// The way out exists for shutdown and for tests. It is not on any hot path:
    /// while threads exist, control leaves here only by returning to one.
    pub fn run(&mut self) -> (r: Next)
        requires
            old(self).wf(),
        ensures
            final(self).wf(),
            (final(self)@, r) == old(self)@.next_resumed(),
    {
        self.resume_next()
    }

    /// Run threads until one of them exits, or the queue empties.
    ///
    /// A thread that never yields cannot be waited for any other way, so this is
    /// how a caller observes that preemption happened at all. Whoever comes back
    /// from it calls [`Kernel::left`].
    pub fn run_until_exit(&mut self) -> (r: Next)
        requires
            old(self).wf(),
        ensures
            final(self).wf(),
            (final(self)@, r) == (KernelView {
                stop_on_exit: true,
                ..old(self)@
            }).next_resumed(),
    {
        self.stop_on_exit = true;
        self.resume_next()
    }

    /// The run that was to end at the first exit is over.
    pub fn left(&mut self)
        requires
            old(self).wf(),
        ensures
            final(self).wf(),
            final(self)@ == (KernelView { stop_on_exit: false, ..old(self)@ }),
    {
        self.stop_on_exit = false;
    }

    /// Destroy every thread still on the queue. Teardown, not scheduling: nothing
    /// may be current when it is called.
    pub fn kill_all(&mut self) -> (n: u64)
        requires
            old(self).wf(),
            old(self)@.current is None,
        ensures
            final(self).wf(),
            final(self)@ == all_killed(old(self)@, old(self)@.queue),
            n == old(self)@.queue.len(),
    {
        let ghost k = self@;
        let total: usize = self.queue.len();
        let mut n: u64 = 0;
        assert(k.queue.skip(0) =~= k.queue);
        assert(k.queue.take(0) =~= Seq::empty());
        loop
            invariant
                self.wf(),
                total == k.queue.len(),
                n <= total,
                k == old(self)@,
                self@ == all_killed(k, k.queue.take(n as int)),
                self@.queue == k.queue.skip(n as int),
            ensures
                n == total,
            decreases total - n,
        {
            match self.take_next() {
                None => {
                    break ;
                },
                Some(a) => {
                    self.set_state(a, ThreadState::Exited);
                    proof {
                        assert(k.queue.take(n + 1).drop_last() =~= k.queue.take(n as int));
                        assert(k.queue.skip(n as int).drop_first() =~= k.queue.skip(n + 1));
                    }
                    n = n + 1;
                },
            }
        }
        assert(k.queue.take(n as int) =~= k.queue);
        n
    }

    /// Create a runnable thread in `space` and put it on the run queue.
    pub fn spawn(
        &mut self,
        space: &AddressSpace,
        entry: VirtAddr,
        stack_top: VirtAddr,
        frames: &mut BumpAllocator,
    ) -> (r: Result<ThreadId, SpawnError>)
        requires
            old(self).wf(),
        ensures
            final(self).wf(),
            is_spawn(
                old(self)@,
                final(self)@,
                old(frames).pending(),
                final(frames).pending(),
                *space,
                entry.0,
                stack_top.0,
                RawCap::null_spec(),
                RawCap::null_spec(),
                r,
            ),
    {
        self.spawn_full(space, entry, stack_top, RawCap::null(), RawCap::null(), frames)
    }

    /// As [`Kernel::spawn`], giving the thread a capability space to invoke
    /// through.
    pub fn spawn_with_cspace(
        &mut self,
        space: &AddressSpace,
        entry: VirtAddr,
        stack_top: VirtAddr,
        cspace: RawCap,
        frames: &mut BumpAllocator,
    ) -> (r: Result<ThreadId, SpawnError>)
        requires
            old(self).wf(),
            cspace.is_sound(),
        ensures
            final(self).wf(),
            is_spawn(
                old(self)@,
                final(self)@,
                old(frames).pending(),
                final(frames).pending(),
                *space,
                entry.0,
                stack_top.0,
                cspace,
                RawCap::null_spec(),
                r,
            ),
    {
        self.spawn_full(space, entry, stack_top, cspace, RawCap::null(), frames)
    }

    /// As [`Kernel::spawn_with_cspace`], with a fault endpoint so the thread has
    /// a pager.
    pub fn spawn_full(
        &mut self,
        space: &AddressSpace,
        entry: VirtAddr,
        stack_top: VirtAddr,
        cspace: RawCap,
        fault_ep: RawCap,
        frames: &mut BumpAllocator,
    ) -> (r: Result<ThreadId, SpawnError>)
        requires
            old(self).wf(),
            cspace.is_sound(),
        ensures
            final(self).wf(),
            is_spawn(
                old(self)@,
                final(self)@,
                old(frames).pending(),
                final(frames).pending(),
                *space,
                entry.0,
                stack_top.0,
                cspace,
                fault_ep,
                r,
            ),
    {
        let frame: PhysAddr = match frames.alloc_frame(&mut self.objects.mem) {
            Some(f) => f,
            None => {
                return Err(SpawnError::OutOfFrames);
            },
        };
        let id: ThreadId = self.objects.ids.next_id();
        let mut tcb: Tcb = Tcb::create(frame, id, space, entry, stack_top);
        tcb.cspace = cspace;
        tcb.fault_ep = fault_ep;
        self.set_thread(frame.as_usize(), tcb);
        self.enlist(frame.as_usize());
        Ok(id)
    }

    /// Put a thread on the run queue directly.
    ///
    /// The root task's thread arrives this way, because at boot there is no CSpace
    /// to invoke `Resume` through. Everything after it is started by its parent.
    pub fn enlist(&mut self, tcb: u64)
        requires
            old(self).wf(),
        ensures
            final(self).wf(),
            final(self)@ == enlisted(old(self)@, tcb),
    {
        self.push(tcb);
        self.spawned = crate::bits::increment(self.spawned);
    }

    // --- What can be observed ---

    pub fn ready_count(&self) -> (r: usize)
        ensures
            r == self@.queue.len(),
    {
        self.queue.len()
    }

    pub fn spawned(&self) -> (r: u64)
        ensures
            r == self@.spawned,
    {
        self.spawned
    }

    /// Threads that ran off the end by calling `exit`.
    pub fn exited(&self) -> (r: u64)
        ensures
            r == self@.exited,
    {
        self.exited
    }

    /// Threads the kernel destroyed because they faulted.
    pub fn killed(&self) -> (r: u64)
        ensures
            r == self@.killed,
    {
        self.killed
    }

    /// How many times a thread has been taken off the run queue.
    ///
    /// The fast path must not move this: a `call`/`reply` pair switches directly
    /// from one thread to the other, so the only pops in a ping-pong are the two
    /// that started the threads.
    pub fn queue_pops(&self) -> (r: u64)
        ensures
            r == self@.pops,
    {
        self.pops
    }

    /// The badge delivered by the most recent receive.
    pub fn last_badge(&self) -> (r: u64)
        ensures
            r == self@.last_badge,
    {
        self.last_badge
    }

    /// The id of the thread on this hart, if one is running.
    pub fn current_id(&self) -> (r: Option<ThreadId>)
        requires
            self.wf(),
        ensures
            r == match self@.current {
                Some(a) => Some(self@.thread(a).id),
                None => None,
            },
    {
        match self.current {
            Some(a) => Some(self.thread(a).id),
            None => None,
        }
    }

    /// Badges delivered since [`Kernel::reset_badge_log`], oldest first, as many
    /// as are remembered.
    pub fn badge_log(&self) -> (r: Vec<u64>)
        ensures
            r@ == self@.badges.take(
                if self@.badge_count < BADGE_LOG {
                    self@.badge_count as int
                } else {
                    BADGE_LOG as int
                },
            ),
    {
        let n: usize = if self.badge_count < BADGE_LOG as u64 {
            self.badge_count as usize
        } else {
            BADGE_LOG
        };
        let mut out: Vec<u64> = Vec::new();
        let mut i: usize = 0;
        while i < n
            invariant
                i <= n <= BADGE_LOG,
                out@ == self@.badges.take(i as int),
            decreases n - i,
        {
            out.push(self.badges[i]);
            assert(self@.badges.take(i + 1) =~= self@.badges.take(i as int).push(
                self@.badges[i as int],
            ));
            i = i + 1;
        }
        out
    }

    pub fn reset_badge_log(&mut self)
        requires
            old(self).wf(),
        ensures
            final(self).wf(),
            final(self)@ == (KernelView { badge_count: 0, ..old(self)@ }),
    {
        self.badge_count = 0;
    }
}

/// Every listed thread taken off the queue and destroyed.
pub open spec fn all_killed(k: KernelView, list: Seq<u64>) -> KernelView
    decreases list.len(),
{
    if list.len() == 0 {
        k
    } else {
        all_killed(k, list.drop_last()).next_taken().0.with_state(list.last(), ThreadState::Exited)
    }
}

/// A thread on the run queue, and counted.
pub open spec fn enlisted(k: KernelView, a: u64) -> KernelView {
    KernelView { spawned: crate::bits::one_more(k.spawned), ..k.with_ready(a) }
}

/// What creating a thread does.
pub open spec fn is_spawn(
    before: KernelView,
    after: KernelView,
    frames_before: Seq<u64>,
    frames_after: Seq<u64>,
    space: AddressSpace,
    entry: u64,
    stack_top: u64,
    cspace: RawCap,
    fault_ep: RawCap,
    r: Result<ThreadId, SpawnError>,
) -> bool {
    if frames_before.len() == 0 {
        &&& r == Err::<ThreadId, SpawnError>(SpawnError::OutOfFrames)
        &&& after == before
        &&& frames_after == frames_before
    } else {
        let frame = frames_before[0];
        let id = before.objects.ids.next;
        let fresh = TcbView::ready(
            PhysAddr(frame),
            id,
            crate::mm::address_space::satp_of(space.mapper.root.0, space.asid),
            entry,
            stack_top,
        );
        let made = KernelView {
            objects: ObjectsView {
                mem: crate::mm::memory::with_zero_frame(before.objects.mem, frame),
                ids: crate::thread::Ids { next: crate::bits::one_more(id) },
                ..before.objects
            },
            ..before
        };
        &&& r == Ok::<ThreadId, SpawnError>(id)
        &&& frames_after == frames_before.drop_first()
        &&& after == enlisted(made.with_thread(frame, TcbView { cspace, fault_ep, ..fresh }), frame)
    }
}

} // verus!
