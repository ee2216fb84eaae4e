//! Every object the kernel keeps, each kind in its own store.

use crate::cap::asid::{AsidPool, Asids};
use crate::cap::slot::Derivation;
use crate::cap::slot_table::SlotTable;
use crate::cap::RawCap;
use crate::ipc::{Endpoint, EndpointView};
use crate::mm::addr::PhysAddr;
use crate::mm::kernel_space::KernelRoot;
use crate::mm::memory::Memory;
use crate::mm::tlb::{Flush, Tlb};
use crate::notify::{Notification, NotificationView, Waiters};
use crate::store::Store;
use crate::thread::{Ids, Tcb, TcbView};
use vstd::prelude::*;

verus! {

/// Every object the kernel keeps.
pub struct Objects {
    /// Capability slots, and what was derived from what.
    pub slots: SlotTable,
    /// Physical memory that is not one of the objects below.
    pub mem: Memory,
    /// Invalidations the hart owes.
    pub tlb: Tlb,
    pub endpoints: Store<Endpoint>,
    pub notifications: Store<Notification>,
    /// How many threads are parked on notifications.
    pub waiters: Waiters,
    pub threads: Store<Tcb>,
    pub ids: Ids,
    pub asids: Asids,
    pub kernel_root: KernelRoot,
}

/// The objects, seen from outside.
#[verifier::ext_equal]
pub struct ObjectsView {
    pub slots: Derivation,
    pub mem: Map<int, u64>,
    pub flushes: Seq<Flush>,
    pub endpoints: Map<u64, EndpointView>,
    pub notifications: Map<u64, NotificationView>,
    pub waiters: Waiters,
    pub threads: Map<u64, TcbView>,
    pub ids: Ids,
    pub asids: Asids,
    pub kernel_root: KernelRoot,
}

impl ObjectsView {
    /// No objects, on a hart with this many ASID bits.
    pub open spec fn none(asid_bits: u8) -> ObjectsView {
        ObjectsView {
            slots: Derivation {
                caps: Map::total(|a: u64| RawCap::null_spec()),
                parent: Map::total(|a: u64| None),
                kids: Map::total(|a: u64| Seq::empty()),
            },
            mem: Map::total(|w: int| 0u64),
            flushes: Seq::empty(),
            endpoints: Map::total(|a: u64| EndpointView::idle()),
            notifications: Map::total(|a: u64| NotificationView::quiet()),
            waiters: Waiters { count: 0 },
            threads: Map::total(|a: u64| TcbView::inactive(PhysAddr(0), 0)),
            ids: Ids { next: 1 },
            asids: Asids {
                hart_bits: asid_bits,
                probed: false,
                ready: false,
                pool: AsidPool { used: 0, bits: 0 },
            },
            kernel_root: KernelRoot { pa: 0 },
        }
    }
}

impl View for Objects {
    type V = ObjectsView;

    open spec fn view(&self) -> ObjectsView {
        ObjectsView {
            slots: self.slots@,
            mem: self.mem@,
            flushes: self.tlb@,
            endpoints: self.endpoints@,
            notifications: self.notifications@,
            waiters: self.waiters,
            threads: self.threads@,
            ids: self.ids,
            asids: self.asids,
            kernel_root: self.kernel_root,
        }
    }
}

impl Objects {
    /// Whether the derivation tree is one, and the identifier pool is sized for
    /// a hart that can exist.
    pub open spec fn wf(self) -> bool {
        self.slots.wf() && self.asids.is_sound()
    }

    /// No objects, on a hart with this many ASID bits.
    pub fn new(asid_bits: u8) -> (r: Self)
        requires
            asid_bits <= 16,
        ensures
            r.wf(),
            r@ == ObjectsView::none(asid_bits),
    {
        let r = Objects {
            slots: SlotTable::new(),
            mem: Memory::new(),
            tlb: Tlb::new(),
            endpoints: Store::new(),
            notifications: Store::new(),
            waiters: Waiters::new(),
            threads: Store::new(),
            ids: Ids::new(),
            asids: Asids::new(asid_bits),
            kernel_root: KernelRoot::new(),
        };
        assert(r@ =~= ObjectsView::none(asid_bits));
        r
    }
}

} // verus!
