//! Which notification an interrupt source wakes, and who is allowed to say so.
//!
//! A fixed table, one entry per source: an interrupt arrives with nothing to
//! look anything up by except its number.

use crate::mm::addr::PhysAddr;
use crate::plic::{Plic, RegOp};
use vstd::prelude::*;

verus! {

/// Sources the table has room for. The platform's real count comes from the
/// device tree and is checked against this.
pub const MAX_IRQ: usize = 96;

#[derive(Debug, Clone, Copy, PartialEq, Eq, Structural)]
pub enum IrqError {
    /// Source 0 does not exist: the controller uses it to mean "none".
    OutOfRange,
    /// An `IrqHandler` capability for this source already exists. Two drivers
    /// servicing one device is not a configuration, it is a race.
    AlreadyClaimed,
    /// No `IrqHandler` capability has been minted for this source.
    NotClaimed,
}

/// What the kernel knows about one source.
#[derive(Clone, Copy, PartialEq, Eq, Structural, Debug)]
pub struct Entry {
    /// The notification to signal, or zero if none is bound yet.
    pub notification: PhysAddr,
    pub badge: u64,
    /// Whether an `IrqHandler` capability for this source has been handed out.
    pub claimed: bool,
}

/// A source nobody has asked for.
pub open spec fn unclaimed() -> Entry {
    Entry { notification: PhysAddr(0), badge: 0, claimed: false }
}

/// Whether a number names a source.
pub open spec fn is_source(irq: u64) -> bool {
    0 < irq < MAX_IRQ
}

/// Where a table delivers a source, if anywhere.
pub open spec fn delivered_to(table: Seq<Entry>, irq: u64) -> Option<(PhysAddr, u64)> {
    if is_source(irq) && table[irq as int].notification.0 != 0 {
        Some((table[irq as int].notification, table[irq as int].badge))
    } else {
        None
    }
}

pub struct IrqTable {
    entries: [Entry; MAX_IRQ],
}

impl View for IrqTable {
    type V = Seq<Entry>;

    closed spec fn view(&self) -> Seq<Entry> {
        self.entries@
    }
}

impl IrqTable {
    /// A table has an entry for every source, and for the one that means none.
    pub proof fn has_every_source(&self)
        ensures
            self@.len() == MAX_IRQ,
    {
    }

    /// A table with every source unclaimed.
    pub fn new() -> (r: Self)
        ensures
            r@ == Seq::new(MAX_IRQ as nat, |i: int| unclaimed()),
    {
        let none: Entry = Entry { notification: PhysAddr(0), badge: 0, claimed: false };
        let r = IrqTable { entries: [none;MAX_IRQ] };
        assert(r@ =~= Seq::new(MAX_IRQ as nat, |i: int| unclaimed()));
        r
    }

    /// Reset every source.
    pub fn reset(&mut self)
        ensures
            final(self)@ == Seq::new(MAX_IRQ as nat, |i: int| unclaimed()),
    {
        *self = IrqTable::new();
    }

    /// Hand out the right to receive one source, if nobody holds it already.
    pub fn claim(&mut self, irq: u64) -> (r: Result<(), IrqError>)
        ensures
            old(self)@.len() == MAX_IRQ,
            final(self)@.len() == MAX_IRQ,
            !is_source(irq) ==> r == Err::<(), IrqError>(IrqError::OutOfRange) && final(self)@
                == old(self)@,
            is_source(irq) && old(self)@[irq as int].claimed ==> r == Err::<(), IrqError>(
                IrqError::AlreadyClaimed,
            ) && final(self)@ == old(self)@,
            is_source(irq) && !old(self)@[irq as int].claimed ==> r is Ok && final(self)@ == old(
                self,
            )@.update(irq as int, Entry { claimed: true, ..old(self)@[irq as int] }),
    {
        if irq == 0 || irq >= MAX_IRQ as u64 {
            return Err(IrqError::OutOfRange);
        }
        let i: usize = irq as usize;
        let e: Entry = self.entries[i];
        if e.claimed {
            return Err(IrqError::AlreadyClaimed);
        }
        self.entries[i] = Entry { notification: e.notification, badge: e.badge, claimed: true };
        Ok(())
    }

    /// Deliver `irq` to this notification from now on, and say how to unmask it
    /// at the controller.
    pub fn bind(&mut self, irq: u64, notification: PhysAddr, badge: u64, plic: &Plic) -> (r: Result<
        RegOp,
        IrqError,
    >)
        requires
            plic.context() <= u32::MAX,
        ensures
            old(self)@.len() == MAX_IRQ,
            final(self)@.len() == MAX_IRQ,
            !is_source(irq) ==> r == Err::<RegOp, IrqError>(IrqError::OutOfRange) && final(self)@
                == old(self)@,
            is_source(irq) && !old(self)@[irq as int].claimed ==> r == Err::<RegOp, IrqError>(
                IrqError::NotClaimed,
            ) && final(self)@ == old(self)@,
            is_source(irq) && old(self)@[irq as int].claimed ==> r == Ok::<RegOp, IrqError>(
                plic.unmasking(irq),
            ) && final(self)@ == old(self)@.update(
                irq as int,
                Entry { notification, badge, claimed: true },
            ),
    {
        if irq == 0 || irq >= MAX_IRQ as u64 {
            return Err(IrqError::OutOfRange);
        }
        let i: usize = irq as usize;
        if !self.entries[i].claimed {
            return Err(IrqError::NotClaimed);
        }
        self.entries[i] = Entry { notification, badge, claimed: true };
        Ok(plic.enable(irq))
    }

    /// Stop delivering `irq` anywhere, and say how to mask it at the controller.
    pub fn unbind(&mut self, irq: u64, plic: &Plic) -> (r: Result<RegOp, IrqError>)
        requires
            plic.context() <= u32::MAX,
        ensures
            old(self)@.len() == MAX_IRQ,
            final(self)@.len() == MAX_IRQ,
            !is_source(irq) ==> r == Err::<RegOp, IrqError>(IrqError::OutOfRange) && final(self)@
                == old(self)@,
            is_source(irq) ==> r == Ok::<RegOp, IrqError>(plic.masking(irq)) && final(self)@ == old(
                self,
            )@.update(
                irq as int,
                Entry { notification: PhysAddr(0), ..old(self)@[irq as int] },
            ),
    {
        if irq == 0 || irq >= MAX_IRQ as u64 {
            return Err(IrqError::OutOfRange);
        }
        let i: usize = irq as usize;
        let e: Entry = self.entries[i];
        self.entries[i] =
        Entry { notification: PhysAddr(0), badge: e.badge, claimed: e.claimed };
        Ok(plic.disable(irq))
    }

    /// Where `irq` should be delivered, if anywhere.
    pub fn target(&self, irq: u64) -> (r: Option<(PhysAddr, u64)>)
        ensures
            r == delivered_to(self@, irq),
    {
        if irq == 0 || irq >= MAX_IRQ as u64 {
            return None;
        }
        let e: Entry = self.entries[irq as usize];
        if e.notification.0 == 0 {
            None
        } else {
            Some((e.notification, e.badge))
        }
    }

    /// Whether any source is bound to a notification.
    ///
    /// The scheduler asks this when its run queue empties: if hardware can still
    /// make a blocked thread runnable, an empty queue means idle, not finished.
    pub fn any_bound(&self) -> (r: bool)
        ensures
            r == exists|i: int|
                0 <= i < MAX_IRQ && (#[trigger] self@[i]).notification.0 != 0,
    {
        let mut i: usize = 0;
        while i < MAX_IRQ
            invariant
                i <= MAX_IRQ,
                forall|k: int| 0 <= k < i ==> (#[trigger] self@[k]).notification.0 == 0,
            decreases MAX_IRQ - i,
        {
            if self.entries[i].notification.0 != 0 {
                assert(self@[i as int].notification.0 != 0);
                return true;
            }
            i = i + 1;
        }
        false
    }

    pub fn is_claimed(&self, irq: u64) -> (r: bool)
        ensures
            r == (irq < MAX_IRQ && self@[irq as int].claimed),
    {
        irq < MAX_IRQ as u64 && self.entries[irq as usize].claimed
    }
}

/// Whether every source that is bound was claimed first, and source zero never
/// is.
pub open spec fn only_claimed_sources_are_bound(table: Seq<Entry>) -> bool {
    forall|i: int|
        0 <= i < table.len() && (#[trigger] table[i]).notification.0 != 0 ==> i != 0
            && table[i].claimed
}

/// Claiming, binding and unbinding a source, and resetting the table, keep every
/// bound source a claimed one.
pub proof fn bound_sources_stay_claimed(table: Seq<Entry>, irq: u64, notification: PhysAddr, badge: u64)
    requires
        table.len() == MAX_IRQ,
        only_claimed_sources_are_bound(table),
        is_source(irq),
    ensures
        only_claimed_sources_are_bound(
            table.update(irq as int, Entry { claimed: true, ..table[irq as int] }),
        ),
        table[irq as int].claimed ==> only_claimed_sources_are_bound(
            table.update(irq as int, Entry { notification, badge, claimed: true }),
        ),
        only_claimed_sources_are_bound(
            table.update(
                irq as int,
                Entry { notification: PhysAddr(0), ..table[irq as int] },
            ),
        ),
        only_claimed_sources_are_bound(Seq::new(MAX_IRQ as nat, |i: int| unclaimed())),
{
}

} // verus!
