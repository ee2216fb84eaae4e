//! Mapping invocations: what a userspace pager uses to install a page.

use crate::abi::object::{ObjectType, PAGE_BITS};
use crate::abi::rights::{ALL, READ, WRITE};
use crate::cap::asid::Asids;
use crate::cap::{CapError, RawCap};
use crate::mm::addr::{PhysAddr, VirtAddr};
use crate::mm::address_space::install_kernel_half;
use crate::mm::kernel_space::KernelRoot;
use crate::mm::memory::Memory;
use crate::mm::page_table::{MapError, Mapper, Pte, PteFlags, Walk, A, D, R, U, V, W, X};
use crate::mm::tlb::{Flush, Tlb};
use vstd::prelude::*;

verus! {

/// The page table permissions that capability rights come to.
pub open spec fn user_flags(rights: u8, executable: bool) -> u64 {
    let base = V | U | A;
    let readable = if rights & READ != 0 {
        base | R
    } else {
        base
    };
    let writable = if rights & WRITE != 0 {
        readable | W | D
    } else {
        readable
    };
    if executable {
        writable | X
    } else {
        writable
    }
}

/// Turn capability rights into page table permissions.
/// `U` always, `G` never: a global user mapping would outlive an ASID.
pub fn flags_for(rights: u8, executable: bool) -> (r: PteFlags)
    ensures
        r == PteFlags(user_flags(rights, executable)),
{
    let mut flags: PteFlags = PteFlags(V).union(PteFlags(U)).union(PteFlags(A));
    if rights & READ != 0 {
        flags = flags.union(PteFlags(R));
    }
    if rights & WRITE != 0 {
        flags = flags.union(PteFlags(W)).union(PteFlags(D));
    }
    if executable {
        flags = flags.union(PteFlags(X));
    }
    flags
}

/// Mappings made from capabilities are always reachable from user mode, never
/// global, and writable only with the right to write.
pub proof fn user_permissions_follow_the_rights(rights: u8, executable: bool)
    ensures
        ({
            let flags = user_flags(rights, executable);
            &&& flags & U == U
            &&& flags & crate::mm::page_table::G == 0
            &&& flags & R == R <==> rights & READ != 0
            &&& flags & W == W <==> rights & WRITE != 0
            &&& flags & X == X <==> executable
            &&& flags <= 0xff
        }),
{
    lemma_user_flags(rights & READ != 0, rights & WRITE != 0, executable);
}

spec fn chosen_flags(read: bool, write: bool, execute: bool) -> u64 {
    let base = V | U | A;
    let readable = if read {
        base | R
    } else {
        base
    };
    let writable = if write {
        readable | W | D
    } else {
        readable
    };
    if execute {
        writable | X
    } else {
        writable
    }
}

proof fn lemma_user_flags(read: bool, write: bool, execute: bool)
    by (bit_vector)
    ensures
        chosen_flags(read, write, execute) & U == U,
        chosen_flags(read, write, execute) & crate::mm::page_table::G == 0,
        chosen_flags(read, write, execute) & R == R <==> read,
        chosen_flags(read, write, execute) & W == W <==> write,
        chosen_flags(read, write, execute) & X == X <==> execute,
        chosen_flags(read, write, execute) <= 0xff,
{
}

/// What a mapping invocation leaves behind.
pub struct Remapped {
    pub cap: RawCap,
    pub mem: Map<int, u64>,
    pub result: Result<(), CapError>,
}

/// The invalidations that are due once a page has been mapped or unmapped.
pub open spec fn flushed(flushes: Seq<Flush>, va: u64, done: bool) -> Seq<Flush> {
    if done {
        flushes.push(Flush::Page(VirtAddr(va)))
    } else {
        flushes
    }
}

/// Whether a pair of capabilities can be mapped one into the other.
pub open spec fn mappable_pair(cap: RawCap, wanted: ObjectType, vspace: RawCap) -> Result<
    (),
    CapError,
> {
    if cap.kind != wanted {
        Err(CapError::WrongType { wanted, found: cap.kind })
    } else if !(vspace.kind is PageTable) {
        Err(CapError::WrongType { wanted: ObjectType::PageTable, found: vspace.kind })
    } else if cap.mapping_spec() is Some {
        Err(CapError::AlreadyMapped)
    } else {
        Ok(())
    }
}

/// The capability and memory after an attempt to install something.
pub open spec fn recorded(
    cap: RawCap,
    vspace: RawCap,
    va: u64,
    m: Map<int, u64>,
    installed: (Map<int, u64>, Result<(), MapError>),
) -> Remapped {
    match installed.1 {
        Err(e) => Remapped { cap, mem: installed.0, result: Err(CapError::Mapping(e)) },
        Ok(_) => Remapped {
            cap: RawCap { w0: vspace.paddr.0, w1: va, ..cap },
            mem: installed.0,
            result: Ok(()),
        },
    }
}

/// What mapping a frame does.
pub open spec fn frame_mapped(
    frame: RawCap,
    vspace: RawCap,
    m: Map<int, u64>,
    va: u64,
    rights_mask: u8,
    executable: bool,
) -> Remapped {
    match mappable_pair(frame, ObjectType::Frame, vspace) {
        Err(e) => Remapped { cap: frame, mem: m, result: Err(e) },
        Ok(_) => recorded(
            frame,
            vspace,
            va,
            m,
            crate::mm::page_table::leaf_installed(
                m,
                vspace.paddr.0,
                va,
                frame.paddr.0,
                0,
                PteFlags(user_flags(frame.rights & rights_mask, executable)),
            ),
        ),
    }
}

/// What mapping a page table does.
pub open spec fn table_mapped(
    table: RawCap,
    vspace: RawCap,
    m: Map<int, u64>,
    va: u64,
    level: int,
) -> Remapped {
    match mappable_pair(table, ObjectType::PageTable, vspace) {
        Err(e) => Remapped { cap: table, mem: m, result: Err(e) },
        Ok(_) => recorded(
            table,
            vspace,
            va,
            m,
            crate::mm::page_table::table_installed(m, vspace.paddr.0, va, table.paddr.0, level),
        ),
    }
}

/// What removing the mapping a capability records does: the entry that names
/// its frame or table goes, if it is still there, and no other does.
pub open spec fn cap_unmapped(cap: RawCap, m: Map<int, u64>) -> Remapped {
    match cap.mapping_spec() {
        None => Remapped { cap, mem: m, result: Ok(()) },
        Some((root, va)) => {
            let done = crate::mm::page_table::removed(
                m,
                root.0,
                va,
                cap.paddr.0,
                cap.kind is Frame,
            );
            match done.1 {
                Err(MapError::NotMapped) | Ok(_) => Remapped {
                    cap: cap.unmapped_spec(),
                    mem: done.0,
                    result: Ok(()),
                },
                Err(e) => Remapped { cap, mem: done.0, result: Err(CapError::Mapping(e)) },
            }
        },
    }
}

/// The invalidations that are due once a capability's mapping is gone: of the
/// page it was mapped at, or of everything for a table, which covers many.
pub open spec fn unmap_flushes(cap: RawCap, m: Map<int, u64>, flushes: Seq<Flush>) -> Seq<Flush> {
    match cap.mapping_spec() {
        None => flushes,
        Some((_, va)) => if cap.kind is Frame {
            flushed(flushes, va, cap_unmapped(cap, m).result is Ok)
        } else if cap_unmapped(cap, m).result is Ok {
            flushes.push(Flush::All)
        } else {
            flushes
        },
    }
}

/// Borrow the address space a page table capability names.
pub fn mapper_for(cap: &RawCap) -> (r: Mapper)
    ensures
        r.root == cap.paddr,
{
    Mapper::from_root(cap.paddr)
}

/// Install `frame` into the address space `vspace` names, at `vaddr`.
pub fn map_frame(
    frame: &mut RawCap,
    vspace: &RawCap,
    vaddr: VirtAddr,
    rights_mask: u8,
    executable: bool,
    mem: &mut Memory,
    tlb: &mut Tlb,
) -> (r: Result<(), CapError>)
    ensures
        ({
            let done = frame_mapped(*old(frame), *vspace, old(mem)@, vaddr.0, rights_mask, executable);
            &&& *final(frame) == done.cap
            &&& final(mem)@ == done.mem
            &&& r == done.result
            &&& final(tlb)@ == flushed(old(tlb)@, vaddr.0, done.result is Ok)
        }),
{
    if frame.kind != ObjectType::Frame {
        return Err(CapError::WrongType { wanted: ObjectType::Frame, found: frame.kind });
    }
    if vspace.kind != ObjectType::PageTable {
        return Err(CapError::WrongType { wanted: ObjectType::PageTable, found: vspace.kind });
    }
    if frame.mapping().is_some() {
        return Err(CapError::AlreadyMapped);
    }
    // A capability cannot install permissions it does not itself carry.

    let granted: u8 = frame.rights & rights_mask;
    let mut mapper: Mapper = mapper_for(vspace);
    match mapper.map_leaf(vaddr, frame.paddr, 0, flags_for(granted, executable), mem) {
        Ok(_) => {},
        Err(e) => {
            return Err(CapError::Mapping(e));
        },
    }
    frame.set_mapping(vspace.paddr, vaddr.as_usize());
    tlb.flush_tlb_page(vaddr);
    Ok(())
}

/// Install a userspace-supplied page table as an intermediate level.
pub fn map_table(
    table: &mut RawCap,
    vspace: &RawCap,
    vaddr: VirtAddr,
    level: usize,
    mem: &mut Memory,
) -> (r: Result<(), CapError>)
    ensures
        ({
            let done = table_mapped(*old(table), *vspace, old(mem)@, vaddr.0, level as int);
            &&& *final(table) == done.cap
            &&& final(mem)@ == done.mem
            &&& r == done.result
        }),
{
    if table.kind != ObjectType::PageTable {
        return Err(CapError::WrongType { wanted: ObjectType::PageTable, found: table.kind });
    }
    if vspace.kind != ObjectType::PageTable {
        return Err(CapError::WrongType { wanted: ObjectType::PageTable, found: vspace.kind });
    }
    if table.mapping().is_some() {
        return Err(CapError::AlreadyMapped);
    }
    let mut mapper: Mapper = mapper_for(vspace);
    match mapper.map_table(vaddr, table.paddr, level, mem) {
        Ok(_) => {},
        Err(e) => {
            return Err(CapError::Mapping(e));
        },
    }
    table.set_mapping(vspace.paddr, vaddr.as_usize());
    Ok(())
}

/// Remove whatever mapping a capability records, if any.
pub fn unmap(cap: &mut RawCap, mem: &mut Memory, tlb: &mut Tlb) -> (r: Result<(), CapError>)
    ensures
        ({
            let done = cap_unmapped(*old(cap), old(mem)@);
            &&& *final(cap) == done.cap
            &&& final(mem)@ == done.mem
            &&& r == done.result
            &&& final(tlb)@ == unmap_flushes(*old(cap), old(mem)@, old(tlb)@)
        }),
{
    let (root, vaddr) = match cap.mapping() {
        Some(m) => m,
        None => {
            return Ok(());
        },
    };
    let va: VirtAddr = VirtAddr::new(vaddr);
    let page: bool = cap.kind == ObjectType::Frame;
    let mut mapper: Mapper = Mapper::from_root(root);
    match mapper.remove(va, cap.paddr, page, mem) {
        // Already gone is not an error: the address space may have been torn
        // down first, which is the ordinary case when a process dies.
        Ok(_) | Err(MapError::NotMapped) => {},
        Err(e) => {
            return Err(CapError::Mapping(e));
        },
    }
    cap.clear_mapping();
    if page {
        tlb.flush_tlb_page(va);
    } else {
        tlb.flush_tlb_all();
    }
    Ok(())
}

/// The root page table capability for an address space the kernel built.
pub fn vspace_cap(root: PhysAddr) -> (r: RawCap)
    ensures
        r == RawCap::plain(ObjectType::PageTable, ALL, PAGE_BITS, root),
{
    RawCap::new(ObjectType::PageTable, ALL, PAGE_BITS, root)
}

/// What a request to turn a page table into an address space leaves behind.
pub struct Assigned {
    pub table: RawCap,
    pub mem: Map<int, u64>,
    pub asids: Asids,
    pub result: Result<(), CapError>,
}

/// What turning a page table into an address space does.
pub open spec fn table_assigned(
    table: RawCap,
    m: Map<int, u64>,
    asids: Asids,
    kernel: KernelRoot,
) -> Assigned {
    let refused = if !(table.kind is PageTable) {
        Some(CapError::WrongType { wanted: ObjectType::PageTable, found: table.kind })
    } else if table.asid != 0 {
        Some(CapError::AlreadyAssigned)
    } else if table.mapping_spec() is Some {
        Some(CapError::AlreadyMapped)
    } else if kernel.pa == 0 {
        Some(CapError::NoKernelSpace)
    } else {
        None
    };
    match refused {
        Some(e) => Assigned { table, mem: m, asids, result: Err(e) },
        None => {
            let mem = crate::mm::address_space::with_kernel_half(m, table.paddr.0, kernel.pa);
            match asids.assigned() {
                (after, Ok(asid)) => Assigned {
                    table: RawCap { asid: asid.0, ..table },
                    mem,
                    asids: after,
                    result: Ok(()),
                },
                (after, Err(e)) => Assigned {
                    table,
                    mem,
                    asids: after,
                    result: Err(CapError::Asid(e)),
                },
            }
        },
    }
}

/// Turn a retyped page table into an address space root.
pub fn assign(table: &mut RawCap, mem: &mut Memory, asids: &mut Asids, kernel: &KernelRoot) -> (r:
    Result<(), CapError>)
    requires
        old(asids).is_sound(),
    ensures
        final(asids).is_sound(),
        ({
            let done = table_assigned(*old(table), old(mem)@, *old(asids), *kernel);
            &&& *final(table) == done.table
            &&& final(mem)@ == done.mem
            &&& *final(asids) == done.asids
            &&& r == done.result
        }),
{
    if table.kind != ObjectType::PageTable {
        return Err(CapError::WrongType { wanted: ObjectType::PageTable, found: table.kind });
    }
    if table.is_assigned() {
        return Err(CapError::AlreadyAssigned);
    }
    // A table already installed somewhere is an intermediate level, not a root.

    if table.mapping().is_some() {
        return Err(CapError::AlreadyMapped);
    }
    let kernel_root: PhysAddr = match kernel.root() {
        Some(pa) => pa,
        None => {
            return Err(CapError::NoKernelSpace);
        },
    };
    install_kernel_half(table.paddr, kernel_root, mem);
    match asids.assign_global() {
        Ok(asid) => {
            table.asid = asid.as_u16();
            Ok(())
        },
        Err(e) => Err(CapError::Asid(e)),
    }
}

// --- What unmapping removes ---

/// Whether following `va` from a table of level `from` down to level `to` passes
/// through the table at `pa`.
pub open spec fn passes(m: Map<int, u64>, table: u64, va: u64, pa: u64, from: nat, to: nat) -> bool
    decreases from,
{
    let e = crate::mm::page_table::entry_for(m, table, va, from);
    from > to && e.branch_entry() && (e.target() == pa || passes(
        m,
        e.target(),
        va,
        pa,
        (from - 1) as nat,
        to,
    ))
}

/// What was just put where `va` leads is what removing finds.
proof fn lemma_removed_again(
    m: Map<int, u64>,
    table: u64,
    va: u64,
    pa: u64,
    page: bool,
    from: nat,
    level: nat,
    entry: Pte,
    t: u64,
)
    requires
        level <= from,
        crate::mm::page_table::walk(m, table, va, from, level) == Walk::Table(t),
        !crate::mm::page_table::entry_for(m, t, va, level).valid(),
        crate::mm::page_table::is_own_entry(entry, pa, page, level),
        !page ==> !passes(m, table, va, pa, from, level),
    ensures
        ({
            let w = crate::mm::page_table::entry_word(t, va, level);
            crate::mm::page_table::removed_from(m.insert(w, entry.0), table, va, pa, page, from)
                == (m.insert(w, 0), true)
        }),
    decreases from,
{
    let w = crate::mm::page_table::entry_word(t, va, level);
    let m2 = m.insert(w, entry.0);
    if from == level {
        assert(m2.insert(w, 0) =~= m.insert(w, 0));
    } else {
        let e = crate::mm::page_table::entry_for(m, table, va, from);
        assert(crate::mm::page_table::entry_word(table, va, from) != w);
        assert(crate::mm::page_table::entry_for(m2, table, va, from) == e);
        lemma_removed_again(m, e.target(), va, pa, page, (from - 1) as nat, level, entry, t);
    }
}

/// Clearing a word that was no valid entry changes no translation.
proof fn lemma_nothing_cleared(m: Map<int, u64>, table: u64, b: u64, level: nat, w: int)
    requires
        !Pte(m[w]).valid(),
    ensures
        crate::mm::page_table::translated_from(m.insert(w, 0), table, b, level)
            == crate::mm::page_table::translated_from(m, table, b, level),
    decreases level,
{
    crate::mm::page_table::lemma_empty_entry();
    let e = crate::mm::page_table::entry_for(m, table, b, level);
    if e.branch_entry() && level > 0 {
        lemma_nothing_cleared(m, e.target(), b, (level - 1) as nat, w);
    }
}

proof fn lemma_removed_entry(
    m: Map<int, u64>,
    table: u64,
    va: u64,
    pa: u64,
    page: bool,
    level: nat,
)
    ensures
        ({
            let (m2, found) = crate::mm::page_table::removed_from(m, table, va, pa, page, level);
            &&& !found ==> m2 == m
            &&& found ==> exists|w: int|
                {
                    &&& m2 == #[trigger] m.insert(w, 0)
                    &&& Pte(m[w]).target() == pa
                    &&& if page {
                        Pte(m[w]).leaf_entry()
                    } else {
                        Pte(m[w]).branch_entry()
                    }
                }
        }),
    decreases level,
{
    let e = crate::mm::page_table::entry_for(m, table, va, level);
    if crate::mm::page_table::is_own_entry(e, pa, page, level) {
        let w = crate::mm::page_table::entry_word(table, va, level);
        assert(Pte(m[w]) == e && m.insert(w, 0) == m.insert(w, 0));
    } else if e.branch_entry() && level > 0 {
        lemma_removed_entry(m, e.target(), va, pa, page, (level - 1) as nat);
    }
}

/// Unmapping removes one entry at most, and none but one that names the memory
/// of the capability: a page of it for a frame, a table for a page table.
pub proof fn unmapping_removes_nothing_else(cap: RawCap, m: Map<int, u64>)
    ensures
        ({
            let done = cap_unmapped(cap, m);
            done.mem == m || exists|w: int|
                {
                    &&& done.mem == #[trigger] m.insert(w, 0)
                    &&& Pte(m[w]).target() == cap.paddr.0
                    &&& if cap.kind is Frame {
                        Pte(m[w]).leaf_entry()
                    } else {
                        Pte(m[w]).branch_entry()
                    }
                }
        }),
{
    if let Some((root, va)) = cap.mapping_spec() {
        lemma_removed_entry(m, root.0, va, cap.paddr.0, cap.kind is Frame, 2);
    }
}

proof fn lemma_cut_off(m: Map<int, u64>, table: u64, va: u64, pa: u64, level: nat)
    ensures
        !passes(
            crate::mm::page_table::removed_from(m, table, va, pa, false, level).0,
            table,
            va,
            pa,
            level,
            0,
        ),
        forall|w: int| #[trigger]
            crate::mm::page_table::removed_from(m, table, va, pa, false, level).0[w] != m[w]
                ==> Pte(m[w]).branch_entry() && Pte(m[w]).target() == pa,
    decreases level,
{
    crate::mm::page_table::lemma_empty_entry();
    let e = crate::mm::page_table::entry_for(m, table, va, level);
    let w = crate::mm::page_table::entry_word(table, va, level);
    if level > 0 && e.branch_entry() && e.target() != pa {
        lemma_cut_off(m, e.target(), va, pa, (level - 1) as nat);
        let m2 = crate::mm::page_table::removed_from(m, e.target(), va, pa, false, (level - 1) as nat).0;
        assert(m2[w] == m[w]);
    }
}

/// Once a page table capability is unmapped, the address it was mapped at no
/// longer leads to the table: the hardware does not read that memory as a table
/// on its way there.
pub proof fn an_unmapped_table_is_cut_off(table: RawCap, m: Map<int, u64>)
    requires
        table.kind is PageTable,
        table.mapping_spec() is Some,
        cap_unmapped(table, m).result is Ok,
    ensures
        ({
            let (root, va) = table.mapping_spec()->Some_0;
            let done = cap_unmapped(table, m);
            &&& !passes(done.mem, root.0, va, table.paddr.0, 2, 0)
            &&& done.cap.mapping_spec() is None
        }),
{
    let (root, va) = table.mapping_spec()->Some_0;
    lemma_cut_off(m, root.0, va, table.paddr.0, 2);
}

/// Unmapping a page table that was just mapped succeeds and leaves the capability
/// as it was before. Memory is what it was, but for the one entry, which held
/// nothing valid and now is empty; and every address translates as it did. A
/// table must not already be on the way to where it is put.
pub proof fn unmapping_a_table_undoes_mapping_it(
    table: RawCap,
    vspace: RawCap,
    m: Map<int, u64>,
    va: u64,
    level: int,
)
    requires
        0 <= level,
        table_mapped(table, vspace, m, va, level).result is Ok,
        table.paddr.0 < crate::mm::addr::PHYS_LIMIT,
        vspace.paddr.0 != 0,
        !passes(m, vspace.paddr.0, va, table.paddr.0, 2, level as nat),
    ensures
        ({
            let mapped = table_mapped(table, vspace, m, va, level);
            let done = cap_unmapped(mapped.cap, mapped.mem);
            &&& mapped.cap.mapping_spec() == Some((vspace.paddr, va))
            &&& done.result is Ok
            &&& done.cap == RawCap { w0: 0, w1: 0, ..table }
            &&& exists|w: int| !Pte(m[w]).valid() && done.mem == #[trigger] m.insert(w, 0)
            &&& forall|root: u64, b: u64| #[trigger]
                crate::mm::page_table::translated(done.mem, root, b)
                    == crate::mm::page_table::translated(m, root, b)
        }),
{
    let root = vspace.paddr.0;
    let l = level as nat;
    let t = crate::mm::page_table::walk(m, root, va, 2, l)->Table_0;
    let w = crate::mm::page_table::entry_word(t, va, l);
    let entry = Pte::branch_of(table.paddr.0);
    crate::mm::page_table::branch_entries_round_trip(table.paddr.0);
    lemma_removed_again(m, root, va, table.paddr.0, false, 2, l, entry, t);
    assert(!Pte(m[w]).valid());
    assert forall|top: u64, b: u64| #[trigger]
        crate::mm::page_table::translated(m.insert(w, 0), top, b)
            == crate::mm::page_table::translated(m, top, b) by {
        lemma_nothing_cleared(m, top, b, 2, w);
    }
}

/// Removing a page is unmapping its address, if the page is the one that is
/// mapped there, and nothing otherwise.
proof fn lemma_page_removed(m: Map<int, u64>, table: u64, va: u64, pa: u64, level: nat)
    requires
        level <= 2,
    ensures
        ({
            let all = crate::mm::page_table::unmapped_from(m, table, va, level);
            let found = crate::mm::page_table::translated_from(m, table, va, level);
            crate::mm::page_table::removed_from(m, table, va, pa, true, level) == if all.1 == Ok::<
                PhysAddr,
                MapError,
            >(PhysAddr(pa)) && found is Some && found->Some_0.2 == 0 {
                (all.0, true)
            } else {
                (m, false)
            }
        }),
    decreases level,
{
    let e = crate::mm::page_table::entry_for(m, table, va, level);
    if e.branch_entry() && level > 0 {
        lemma_page_removed(m, e.target(), va, pa, (level - 1) as nat);
    }
}

/// Whether a frame is still mapped where its capability records it.
pub open spec fn is_mapped_there(frame: RawCap, m: Map<int, u64>) -> bool {
    match frame.mapping_spec() {
        None => false,
        Some((root, va)) => crate::mm::addr::canonical(va) && (crate::mm::page_table::translated(
            m,
            root.0,
            crate::mm::unmapping::page_start(va, 0),
        ) matches Some((pa, _, level)) && pa == frame.paddr && level == 0),
    }
}

/// In a tree of tables, unmapping a frame removes exactly its page from where the
/// capability records it, if it is still mapped there: no address of the page is
/// translated any more, and every other address is translated as before. If the
/// frame is mapped there no longer, nothing changes.
pub proof fn unmapping_a_frame_removes_exactly_its_page(frame: RawCap, m: Map<int, u64>, b: u64)
    requires
        frame.kind is Frame,
        frame.mapping_spec() is Some,
        crate::mm::translation::is_tree(m, frame.mapping_spec()->Some_0.0.0),
    ensures
        ({
            let (root, va) = frame.mapping_spec()->Some_0;
            let start = crate::mm::unmapping::page_start(va, 0);
            let done = cap_unmapped(frame, m);
            let there = is_mapped_there(frame, m);
            &&& there ==> crate::mm::page_table::translated(done.mem, root.0, b) == if
                crate::mm::translation::in_page(b, start, 0) {
                None
            } else {
                crate::mm::page_table::translated(m, root.0, b)
            }
            &&& !there ==> done.mem == m
        }),
{
    let (root, va) = frame.mapping_spec()->Some_0;
    let start = crate::mm::unmapping::page_start(va, 0);
    lemma_page_removed(m, root.0, va, frame.paddr.0, 2);
    crate::mm::unmapping::unmapping_removes_exactly_its_page(m, root.0, va, b);
    crate::mm::unmapping::lemma_one_page(m, root.0, va);
}

/// Unmapping a frame that is still mapped leaves no address of its page
/// translated, whatever else the tables hold.
pub proof fn an_unmapped_frame_is_translated_no_longer(frame: RawCap, m: Map<int, u64>, b: u64)
    requires
        frame.kind is Frame,
        is_mapped_there(frame, m),
        crate::mm::translation::in_page(
            b,
            crate::mm::unmapping::page_start(frame.mapping_spec()->Some_0.1, 0),
            0,
        ),
    ensures
        crate::mm::page_table::translated(
            cap_unmapped(frame, m).mem,
            frame.mapping_spec()->Some_0.0.0,
            b,
        ) is None,
{
    let (root, va) = frame.mapping_spec()->Some_0;
    lemma_page_removed(m, root.0, va, frame.paddr.0, 2);
    crate::mm::unmapping::lemma_one_page(m, root.0, va);
    crate::mm::unmapping::lemma_page_unmapped(m, root.0, va, b);
}

/// Unmapping a frame that is still mapped succeeds.
pub(crate) proof fn lemma_unmapping_answers(frame: RawCap, m: Map<int, u64>)
    requires
        frame.kind is Frame,
        is_mapped_there(frame, m),
    ensures
        cap_unmapped(frame, m).result is Ok,
        cap_unmapped(frame, m).cap == frame.unmapped_spec(),
{
}

/// Writing an entry below leaves the tables above it where they are.
proof fn lemma_walk_still(
    m: Map<int, u64>,
    table: u64,
    va: u64,
    from: nat,
    level: nat,
    entry: Pte,
    t: u64,
)
    requires
        level <= from,
        crate::mm::page_table::walk(m, table, va, from, level) == Walk::Table(t),
        !crate::mm::page_table::entry_for(m, t, va, level).valid(),
    ensures
        crate::mm::page_table::walk(
            m.insert(crate::mm::page_table::entry_word(t, va, level), entry.0),
            table,
            va,
            from,
            level,
        ) == Walk::Table(t),
    decreases from,
{
    if from > level {
        let w = crate::mm::page_table::entry_word(t, va, level);
        let e = crate::mm::page_table::entry_for(m, table, va, from);
        assert(crate::mm::page_table::entry_word(table, va, from) != w);
        assert(crate::mm::page_table::entry_for(m.insert(w, entry.0), table, va, from) == e);
        lemma_walk_still(m, e.target(), va, (from - 1) as nat, level, entry, t);
    }
}

/// A page table that was mapped is what the address leads to, one level down.
pub proof fn a_mapped_table_is_reached(
    table: RawCap,
    vspace: RawCap,
    m: Map<int, u64>,
    va: u64,
    level: int,
)
    requires
        0 <= level,
        table_mapped(table, vspace, m, va, level).result is Ok,
        table.paddr.0 < crate::mm::addr::PHYS_LIMIT,
    ensures
        level == 1 || level == 2,
        crate::mm::page_table::walk(
            table_mapped(table, vspace, m, va, level).mem,
            vspace.paddr.0,
            va,
            2,
            (level - 1) as nat,
        ) == Walk::Table(table.paddr.0),
{
    let l = level as nat;
    let t = crate::mm::page_table::walk(m, vspace.paddr.0, va, 2, l)->Table_0;
    let entry = Pte::branch_of(table.paddr.0);
    let w = crate::mm::page_table::entry_word(t, va, l);
    let m2 = m.insert(w, entry.0);
    crate::mm::page_table::branch_entries_round_trip(table.paddr.0);
    lemma_walk_still(m, vspace.paddr.0, va, 2, l, entry, t);
    assert(crate::mm::page_table::entry_for(m2, t, va, l) == entry);
    crate::mm::translation::lemma_walk_step(m2, vspace.paddr.0, va, 2, l, t);
}

/// Unmapping a frame that was just mapped succeeds, leaves the capability as it
/// was before and no translation behind.
pub proof fn unmapping_a_frame_undoes_mapping_it(
    frame: RawCap,
    vspace: RawCap,
    m: Map<int, u64>,
    va: u64,
    rights_mask: u8,
    executable: bool,
)
    requires
        frame_mapped(frame, vspace, m, va, rights_mask, executable).result is Ok,
        frame.paddr.0 < crate::mm::addr::PHYS_LIMIT,
        vspace.paddr.0 != 0,
    ensures
        ({
            let mapped = frame_mapped(frame, vspace, m, va, rights_mask, executable);
            let done = cap_unmapped(mapped.cap, mapped.mem);
            &&& mapped.cap.mapping_spec() == Some((vspace.paddr, va))
            &&& done.result is Ok
            &&& done.cap == RawCap { w0: 0, w1: 0, ..frame }
            &&& crate::mm::page_table::translated(done.mem, vspace.paddr.0, va) is None
        }),
{
    let flags = PteFlags(user_flags(frame.rights & rights_mask, executable));
    let root = vspace.paddr.0;
    let t = crate::mm::page_table::walk(m, root, va, 2, 0)->Table_0;
    let w = crate::mm::page_table::entry_word(t, va, 0);
    let entry = Pte::leaf_of(frame.paddr.0, flags.0);
    crate::mm::addr::lemma_spans();
    user_permissions_follow_the_rights(frame.rights & rights_mask, executable);
    crate::mm::page_table::leaf_entries_round_trip(frame.paddr.0, flags);
    lemma_removed_again(m, root, va, frame.paddr.0, true, 2, 0, entry, t);
    crate::mm::translation::unmapping_undoes_mapping(m, root, va, frame.paddr.0, 0, flags);
    assert(crate::mm::page_table::unmapped(m.insert(w, entry.0), root, va).0 == m.insert(w, 0)) by {
        lemma_unmapped_again(m, root, va, 2, entry, t);
    }
}

/// Removing the leaf that was just put where `va` leads is what unmapping does.
proof fn lemma_unmapped_again(m: Map<int, u64>, table: u64, va: u64, from: nat, entry: Pte, t: u64)
    requires
        crate::mm::page_table::walk(m, table, va, from, 0) == Walk::Table(t),
        !crate::mm::page_table::entry_for(m, t, va, 0).valid(),
        entry.leaf_entry(),
    ensures
        ({
            let w = crate::mm::page_table::entry_word(t, va, 0);
            crate::mm::page_table::unmapped_from(m.insert(w, entry.0), table, va, from).0
                == m.insert(w, 0)
        }),
    decreases from,
{
    let w = crate::mm::page_table::entry_word(t, va, 0);
    let m2 = m.insert(w, entry.0);
    if from == 0 {
        assert(m2.insert(w, 0) =~= m.insert(w, 0));
    } else {
        let e = crate::mm::page_table::entry_for(m, table, va, from);
        assert(crate::mm::page_table::entry_word(table, va, from) != w);
        assert(crate::mm::page_table::entry_for(m2, table, va, from) == e);
        lemma_unmapped_again(m, e.target(), va, (from - 1) as nat, entry, t);
    }
}

/// A frame that was mapped translates to its own memory, with exactly the
/// permissions that the capability carries and the request names.
pub proof fn a_mapped_frame_translates(
    frame: RawCap,
    vspace: RawCap,
    m: Map<int, u64>,
    va: u64,
    rights_mask: u8,
    executable: bool,
    a: u64,
)
    requires
        frame_mapped(frame, vspace, m, va, rights_mask, executable).result is Ok,
        frame.paddr.0 < crate::mm::addr::PHYS_LIMIT,
        va <= a < va + 4096,
    ensures
        ({
            let mapped = frame_mapped(frame, vspace, m, va, rights_mask, executable);
            &&& crate::mm::page_table::translated(mapped.mem, vspace.paddr.0, a) matches Some(found)
            &&& found.0 == PhysAddr((frame.paddr.0 + (a - va)) as u64)
            &&& found.2 == 0
            &&& found.1.0 & U == U
            &&& found.1.0 & R == R <==> frame.rights & READ != 0 && rights_mask & READ != 0
            &&& found.1.0 & W == W <==> frame.rights & WRITE != 0 && rights_mask & WRITE != 0
            &&& found.1.0 & X == X <==> executable
            &&& found.1.0 & R == R <==> found.1.0 & R != 0
            &&& found.1.0 & W == W <==> found.1.0 & W != 0
            &&& found.1.0 & X == X <==> found.1.0 & X != 0
            &&& found.1.0 & U != 0
        }),
{
    let flags = user_flags(frame.rights & rights_mask, executable);
    crate::mm::addr::lemma_spans();
    user_permissions_follow_the_rights(frame.rights & rights_mask, executable);
    crate::mm::translation::an_installed_leaf_translates(
        m,
        vspace.paddr.0,
        va,
        frame.paddr.0,
        0,
        PteFlags(flags),
        a,
    );
    lemma_granted(flags, frame.rights, rights_mask);
}

proof fn lemma_granted(flags: u64, rights: u8, mask: u8)
    by (bit_vector)
    ensures
        flags & U == U ==> (flags | V) & U == U && (flags | V) & U != 0,
        (flags | V) & R == R <==> flags & R == R,
        (flags | V) & W == W <==> flags & W == W,
        (flags | V) & X == X <==> flags & X == X,
        (flags | V) & R == R <==> (flags | V) & R != 0,
        (flags | V) & W == W <==> (flags | V) & W != 0,
        (flags | V) & X == X <==> (flags | V) & X != 0,
        (rights & mask) & READ != 0 <==> rights & READ != 0 && mask & READ != 0,
        (rights & mask) & WRITE != 0 <==> rights & WRITE != 0 && mask & WRITE != 0,
{
}

} // verus!
