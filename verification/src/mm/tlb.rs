//! The translations the hart has to forget.

use crate::mm::addr::VirtAddr;
use crate::mm::address_space::Asid;
use vstd::prelude::*;

verus! {

/// One invalidation.
#[derive(Clone, Copy, PartialEq, Eq, Structural, Debug)]
pub enum Flush {
    /// Every translation.
    All,
    /// Translations of one page.
    Page(VirtAddr),
    /// Translations tagged with one identifier.
    Tagged(Asid),
}

/// Invalidations that are due before the hart returns to userspace, oldest
/// first.
pub struct Tlb {
    pub pending: Vec<Flush>,
}

impl View for Tlb {
    type V = Seq<Flush>;

    open spec fn view(&self) -> Seq<Flush> {
        self.pending@
    }
}

impl Tlb {
    pub fn new() -> (r: Self)
        ensures
            r@ == Seq::<Flush>::empty(),
    {
        Tlb { pending: Vec::new() }
    }

    /// Hand over the invalidations that are due.
    pub fn drain(&mut self) -> (r: Vec<Flush>)
        ensures
            r@ == old(self)@,
            final(self)@ == Seq::<Flush>::empty(),
    {
        let mut due: Vec<Flush> = Vec::new();
        core::mem::swap(&mut due, &mut self.pending);
        due
    }

    /// Forget every cached translation.
    pub fn flush_tlb_all(&mut self)
        ensures
            final(self)@ == old(self)@.push(Flush::All),
    {
        self.pending.push(Flush::All);
    }

    /// Forget the cached translation of one page.
    pub fn flush_tlb_page(&mut self, va: VirtAddr)
        ensures
            final(self)@ == old(self)@.push(Flush::Page(va)),
    {
        self.pending.push(Flush::Page(va));
    }

    /// Forget every translation tagged with `asid`.
    pub fn flush_asid(&mut self, asid: Asid)
        ensures
            final(self)@ == old(self)@.push(Flush::Tagged(asid)),
    {
        self.pending.push(Flush::Tagged(asid));
    }
}

} // verus!
