//! The programs the kernel runs before there is anything to load, to show that
//! threads, preemption and paging work.

use crate::abi::label;
use crate::abi::msg::MessageInfo;
use crate::abi::object::{ObjectType, SLOT_BITS};
use crate::abi::rights::{ALL, READ, WRITE};
use crate::abi::syscall;
use crate::cap::cspace::{bootstrap, CSpace};
use crate::cap::vspace::vspace_cap;
use crate::cap::RawCap;
use crate::mm::addr::{PhysAddr, VirtAddr, PAGE_SIZE};
use crate::mm::address_space::AddressSpace;
use crate::mm::frame::BumpAllocator;
use crate::mm::memory::Memory;
use crate::mm::page_table::{Mapper, PteFlags, USER_RW, USER_RX};
use crate::objects::ObjectsView;
use crate::root::blocks::alloc_aligned;
use crate::root::pages::Loading;
use crate::sched::{Kernel, KernelView};
use crate::thread::{Ids, TcbView};
use crate::uprog::{
    li, mv, sd, slli, srli, write_to_frame, Prog, A0, A1, A2, A3, A4, A5, A7, ECALL,
};
use vstd::prelude::*;

verus! {

/// Where user text is mapped.
pub const USER_TEXT: u64 = 0x1000_0000;

/// Where the user stack is mapped.
pub const USER_STACK: u64 = 0x2000_0000;

/// The address a client touches that nothing maps up front.
pub const LAZY: u64 = 0x4000_0000;

/// What the client stores there.
pub const LAZY_VALUE: u32 = 0x5a5a;

// The slots the pager finds its capabilities in.

pub const FAULT_EP: u64 = 8;

pub const VSPACE: u64 = 9;

pub const L1: u64 = 10;

pub const L0: u64 = 11;

pub const FRAME: u64 = 12;

/// The register a program keeps the page it is about in.
pub const PAGE: usize = 9;

// --- Programs ---

/// `putc(letter); exit()`: the smallest program that proves a thread ran.
pub fn greeter(letter: u8) -> (r: [u32; 5])
    ensures
        r@ == seq![
            crate::uprog::i_type(letter as u32, 0, 0, 10, 0x13),
            crate::uprog::i_type(syscall::PUTC as u32, 0, 0, 17, 0x13),
            ECALL,
            crate::uprog::i_type(syscall::EXIT as u32, 0, 0, 17, 0x13),
            ECALL,
        ],
{
    let r: [u32; 5] = [
        li(A0, letter as u32),
        li(A7, syscall::PUTC as u32),
        ECALL,
        li(A7, syscall::EXIT as u32),
        ECALL,
    ];
    assert(r@ =~= seq![
        crate::uprog::i_type(letter as u32, 0, 0, 10, 0x13),
        crate::uprog::i_type(syscall::PUTC as u32, 0, 0, 17, 0x13),
        ECALL,
        crate::uprog::i_type(syscall::EXIT as u32, 0, 0, 17, 0x13),
        ECALL,
    ]);
    r
}

/// The words of [`lazy_client`].
pub open spec fn lazy_client_words() -> Seq<u32> {
    crate::uprog::li_words(PAGE, (LAZY / 4096) as u32) + seq![
        crate::uprog::i_type(12, 9, 1, 9, 0x13),
    ] + crate::uprog::li_words(A0, LAZY_VALUE) + seq![crate::uprog::s_type(0, 10, 9, 3, 0x23)]
        + crate::uprog::syscall_words(1)
}

/// A client that stores to a page nothing maps.
pub fn lazy_client() -> (r: Prog<32>)
    ensures
        r@ == lazy_client_words(),
{
    proof {
        lemma_small_shifts();
    }
    let r = Prog::<32>::new().li(PAGE, (LAZY / PAGE_SIZE) as u32).raw(slli(PAGE, PAGE, 12)).li(
        A0,
        LAZY_VALUE,
    ).raw(sd(PAGE, A0, 0)).exit();
    assert(r@ =~= lazy_client_words());
    r
}

proof fn lemma_small_shifts()
    by (bit_vector)
    ensures
        12u32 & 0x3f == 12u32,
        (0i32 as u32) == 0u32,
{
}

/// The words with which a pager invokes `Map` on one of its objects.
pub open spec fn install_words(slot: u64, rights: u32, level: u32) -> Seq<u32> {
    crate::uprog::li_words(A0, slot as u32) + crate::uprog::li_words(
        A1,
        MessageInfo::packed(label::MAP, 4, false).0 as u32,
    ) + crate::uprog::li_words(A2, VSPACE as u32) + seq![crate::uprog::i_type(0, 9, 0, 13, 0x13)]
        + crate::uprog::li_words(A4, rights) + crate::uprog::li_words(A5, level)
        + crate::uprog::syscall_words(syscall::CALL)
}

/// The words of [`pager`].
pub open spec fn pager_words() -> Seq<u32> {
    crate::uprog::li_words(A0, FAULT_EP as u32) + crate::uprog::syscall_words(syscall::RECV) + seq![
        crate::uprog::i_type(12, 12, 5, 9, 0x13),
        crate::uprog::i_type(12, 9, 1, 9, 0x13),
    ] + install_words(L1, 0, 2) + install_words(L0, 0, 1) + install_words(
        FRAME,
        (READ | WRITE) as u32,
        0,
    ) + crate::uprog::li_words(A1, MessageInfo::packed(0, 0, false).0 as u32)
        + crate::uprog::syscall_words(syscall::REPLY) + crate::uprog::syscall_words(1)
}

/// Invoke `Map` on the object in a slot, for the page in the page register.
fn install(prog: Prog<64>, slot: u64, rights: u32, level: u32) -> (r: Prog<64>)
    requires
        prog@.len() + 14 <= 64,
    ensures
        r@ == prog@ + install_words(slot, rights, level),
{
    let info: u32 = MessageInfo::new(label::MAP, 4, false).bits() as u32;
    let r = prog.li(A0, slot as u32).li(A1, info).li(A2, VSPACE as u32).raw(mv(A3, PAGE)).li(
        A4,
        rights,
    ).li(A5, level).syscall(syscall::CALL);
    assert(r@ =~= prog@ + install_words(slot, rights, level));
    r
}

/// A pager that receives one fault, installs both intermediate tables and a
/// frame under it, and replies.
pub fn pager() -> (r: Prog<64>)
    ensures
        r@ == pager_words(),
{
    proof {
        lemma_small_shifts();
    }
    let head = Prog::<64>::new().li(A0, FAULT_EP as u32).syscall(syscall::RECV).raw(
        srli(PAGE, A2, 12),
    ).raw(slli(PAGE, PAGE, 12));
    let tables = install(install(head, L1, 0, 2), L0, 0, 1);
    let mapped = install(tables, FRAME, (READ | WRITE) as u32, 0);
    let r = mapped.li(A1, MessageInfo::new(0, 0, false).bits() as u32).syscall(
        syscall::REPLY,
    ).exit();
    assert(r@ =~= pager_words());
    r
}

// --- Where they run ---

/// Why an address space for a program could not be made.
#[derive(Debug, Clone, Copy, PartialEq, Eq, Structural)]
pub enum SpaceError {
    NoFrames,
    NoSpace,
    NoText,
    NoStack,
}

/// What mapping a page into a program's space does.
pub open spec fn page_mapped(l: Loading, root: u64, va: u64, pa: u64, flags: PteFlags) -> (
    Loading,
    bool,
) {
    if crate::mm::address_space::mapping_refused(
        va,
        crate::mm::addr::span(0) as u64,
        flags,
    ) is Some {
        (l, false)
    } else {
        let done = crate::mm::page_table::mapped(l.mem, l.frames, root, va, pa, 0, flags);
        (Loading { mem: done.mem, frames: done.frames }, done.result is Ok)
    }
}

/// What making an address space with one page of text and one page of stack
/// does.
pub open spec fn space_made(l: Loading, kernel_root: u64, words: Seq<u32>) -> (
    Loading,
    Result<AddressSpace, SpaceError>,
) {
    if l.frames.len() == 0 {
        (l, Err(SpaceError::NoFrames))
    } else if l.frames.len() == 1 {
        (
            Loading {
                mem: crate::mm::memory::with_zero_frame(l.mem, l.frames[0]),
                frames: l.frames.drop_first(),
            },
            Err(SpaceError::NoFrames),
        )
    } else {
        let text = l.frames[0];
        let stack = l.frames[1];
        let written = Loading {
            mem: crate::mm::memory::with_bytes(
                crate::mm::memory::with_zero_frame(
                    crate::mm::memory::with_zero_frame(l.mem, text),
                    stack,
                ),
                text as int,
                crate::uprog::program_bytes(words),
            ),
            frames: l.frames.drop_first().drop_first(),
        };
        if written.frames.len() == 0 {
            (written, Err(SpaceError::NoSpace))
        } else {
            let root = written.frames[0];
            let fresh = Loading {
                mem: crate::mm::address_space::with_kernel_half(
                    crate::mm::memory::with_zero_frame(written.mem, root),
                    root,
                    kernel_root,
                ),
                frames: written.frames.drop_first(),
            };
            match page_mapped(fresh, root, USER_TEXT, text, PteFlags(USER_RX)) {
                (w, false) => (w, Err(SpaceError::NoText)),
                (w, true) => match page_mapped(w, root, USER_STACK, stack, PteFlags(USER_RW)) {
                    (v, false) => (v, Err(SpaceError::NoStack)),
                    (v, true) => (
                        v,
                        Ok(
                            AddressSpace {
                                mapper: Mapper { root: PhysAddr(root) },
                                asid: crate::mm::address_space::Asid(
                                    crate::mm::address_space::UNASSIGNED,
                                ),
                                kernel_fingerprint: crate::mm::address_space::fingerprint(
                                    fresh.mem,
                                    kernel_root,
                                ),
                            },
                        ),
                    ),
                },
            }
        }
    }
}

/// An address space with one page of user text and one page of user stack.
pub fn user_space(
    kernel: &Mapper,
    words: &[u32],
    frames: &mut BumpAllocator,
    mem: &mut Memory,
) -> (r: Result<AddressSpace, SpaceError>)
    requires
        words@.len() * 4 <= PAGE_SIZE,
    ensures
        final(frames).home() == old(frames).home(),
        (Loading { mem: final(mem)@, frames: final(frames).pending() }, r) == space_made(
            (Loading { mem: old(mem)@, frames: old(frames).pending() }),
            kernel.root.0,
            words@,
        ),
{
    let text: PhysAddr = match frames.alloc_frame(mem) {
        Some(f) => f,
        None => {
            return Err(SpaceError::NoFrames);
        },
    };
    let stack: PhysAddr = match frames.alloc_frame(mem) {
        Some(f) => f,
        None => {
            return Err(SpaceError::NoFrames);
        },
    };
    write_to_frame(text, words, mem);
    let mut space: AddressSpace = match AddressSpace::new(kernel, frames, mem) {
        Ok(s) => s,
        Err(_) => {
            return Err(SpaceError::NoSpace);
        },
    };
    match space.map(VirtAddr::new(USER_TEXT), text, 0, PteFlags(USER_RX), frames, mem) {
        Ok(_) => {},
        Err(_) => {
            return Err(SpaceError::NoText);
        },
    }
    match space.map(VirtAddr::new(USER_STACK), stack, 0, PteFlags(USER_RW), frames, mem) {
        Ok(_) => {},
        Err(_) => {
            return Err(SpaceError::NoStack);
        },
    }
    Ok(space)
}

// --- Setting demand paging up ---

/// Address bits of the capability spaces made here.
pub const DEPTH: u8 = 6;

/// The slot the endpoint is made in.
pub const ENDPOINT: u64 = 16;

/// The kernel, and the frames it has to give.
#[verifier::ext_equal]
pub struct Stage {
    pub k: KernelView,
    pub frames: Seq<u64>,
}

/// What was set up, to be looked at once it has run.
#[derive(Clone, Copy)]
pub struct Paging {
    /// The client's address space.
    pub client: AddressSpace,
    /// The endpoint its faults are delivered to.
    pub endpoint: RawCap,
}

/// A stage with other memory and frames.
pub open spec fn at(s: Stage, l: Loading) -> Stage {
    Stage { k: crate::root::with_memory(s.k, l.mem), frames: l.frames }
}

/// A stage with other objects.
pub open spec fn holding(s: Stage, objects: ObjectsView) -> Stage {
    Stage { k: KernelView { objects, ..s.k }, frames: s.frames }
}

/// What making a capability space out of `2^bits` fresh bytes does.
pub open spec fn rooted(s: Stage, bits: u8) -> (Stage, Option<RawCap>) {
    match crate::root::blocks::frames_for(s.frames, bits) {
        None => (
            at(
                s,
                Loading {
                    mem: crate::root::blocks::frames_zeroed(
                        s.k.objects.mem,
                        s.frames,
                        s.frames.len() as int,
                    ),
                    frames: Seq::empty(),
                },
            ),
            None,
        ),
        Some(n) => {
            let first = s.frames[n - crate::root::blocks::frames_in_block(bits)];
            let taken = at(
                s,
                Loading {
                    mem: crate::root::blocks::frames_zeroed(s.k.objects.mem, s.frames, n),
                    frames: s.frames.skip(n),
                },
            );
            let done = crate::cap::cspace::bootstrapped(
                taken.k.objects,
                RawCap::plain(ObjectType::Untyped, ALL, bits, PhysAddr(first)),
                (DEPTH + SLOT_BITS) as u8,
            );
            (
                holding(taken, done.0),
                match done.1 {
                    Ok(space) => Some(space.root),
                    Err(_) => None,
                },
            )
        },
    }
}

/// What retyping one object into a slot does, from the region in slot zero.
pub open spec fn made_in(s: Stage, root: RawCap, kind: ObjectType, slot: u64) -> (Stage, bool) {
    let done = crate::cap::cspace::retyped(
        s.k.objects,
        root,
        (0, DEPTH),
        kind,
        0,
        (slot, DEPTH),
        1,
    );
    (holding(s, done.0), done.1 is Ok)
}

/// What putting a capability in a slot does.
pub open spec fn put_in(s: Stage, root: RawCap, slot: u64, cap: RawCap) -> (Stage, bool) {
    let done = crate::cap::cspace::inserted(s.k.objects.slots, root, slot, DEPTH, cap, None);
    (holding(s, ObjectsView { slots: done.0, ..s.k.objects }), done.1 is Ok)
}

/// What giving the pager what it needs does: the endpoint, the client's address
/// space, two page tables and a frame.
pub open spec fn stocked(s: Stage, root: RawCap, endpoint: RawCap, client_root: u64) -> (
    Stage,
    bool,
) {
    let vspace = RawCap::plain(
        ObjectType::PageTable,
        ALL,
        crate::abi::object::PAGE_BITS,
        PhysAddr(client_root),
    );
    match put_in(s, root, FAULT_EP, endpoint) {
        (w, false) => (w, false),
        (a, true) => match put_in(a, root, VSPACE, vspace) {
            (w, false) => (w, false),
            (b, true) => match made_in(b, root, ObjectType::PageTable, L1) {
                (w, false) => (w, false),
                (c, true) => match made_in(c, root, ObjectType::PageTable, L0) {
                    (w, false) => (w, false),
                    (d, true) => made_in(d, root, ObjectType::Frame, FRAME),
                },
            },
        },
    }
}

/// What starting a program does.
pub open spec fn started(s: Stage, space: AddressSpace, cspace: RawCap, fault_ep: RawCap) -> (
    Stage,
    bool,
) {
    if s.frames.len() == 0 {
        (s, false)
    } else {
        let frame = s.frames[0];
        let id = s.k.objects.ids.next;
        let fresh = TcbView {
            cspace,
            fault_ep,
            ..TcbView::ready(
                PhysAddr(frame),
                id,
                crate::mm::address_space::satp_of(space.mapper.root.0, space.asid),
                USER_TEXT,
                (USER_STACK + PAGE_SIZE) as u64,
            )
        };
        let objects = ObjectsView {
            mem: crate::mm::memory::with_zero_frame(s.k.objects.mem, frame),
            ids: Ids { next: crate::bits::one_more(id) },
            ..s.k.objects
        };
        (
            Stage {
                k: crate::sched::enlisted(
                    (KernelView { objects, ..s.k }).with_thread(frame, fresh),
                    frame,
                ),
                frames: s.frames.drop_first(),
            },
            true,
        )
    }
}

/// What making a program's address space does.
pub open spec fn spaced(s: Stage, kernel_root: u64, words: Seq<u32>) -> (
    Stage,
    Option<AddressSpace>,
) {
    let done = space_made(
        Loading { mem: s.k.objects.mem, frames: s.frames },
        kernel_root,
        words,
    );
    (
        at(s, done.0),
        match done.1 {
            Ok(space) => Some(space),
            Err(_) => None,
        },
    )
}

/// What making the endpoint that faults arrive at does.
pub open spec fn endpoint_made(s: Stage) -> (Stage, Option<RawCap>) {
    match rooted(s, 18) {
        (w, None) => (w, None),
        (a, Some(root)) => match made_in(a, root, ObjectType::Endpoint, ENDPOINT) {
            (w, false) => (w, None),
            (b, true) => match crate::cap::cspace::located(
                b.k.objects.slots.caps,
                root,
                ENDPOINT,
                DEPTH,
            ) {
                Err(_) => (b, None),
                Ok(slot) => (b, Some(b.k.objects.slots.caps[slot])),
            },
        },
    }
}

/// What starting the pager and its client does.
pub open spec fn both_started(
    s: Stage,
    client: AddressSpace,
    pager: AddressSpace,
    endpoint: RawCap,
) -> (Stage, bool) {
    match rooted(s, 19) {
        (w, None) => (w, false),
        (a, Some(pager_root)) => match stocked(a, pager_root, endpoint, client.mapper.root.0) {
            (w, false) => (w, false),
            (b, true) => match rooted(b, 18) {
                (w, None) => (w, false),
                (c, Some(client_root)) => match started(
                    c,
                    pager,
                    pager_root,
                    RawCap::null_spec(),
                ) {
                    (w, false) => (w, false),
                    (d, true) => started(d, client, client_root, endpoint),
                },
            },
        },
    }
}

/// What setting demand paging up does.
pub open spec fn staged(s: Stage, kernel_root: u64) -> (Stage, Option<Paging>) {
    match endpoint_made(s) {
        (w, None) => (w, None),
        (a, Some(endpoint)) => match spaced(a, kernel_root, lazy_client_words()) {
            (w, None) => (w, None),
            (b, Some(client)) => match spaced(b, kernel_root, pager_words()) {
                (w, None) => (w, None),
                (c, Some(pager)) => match both_started(c, client, pager, endpoint) {
                    (w, false) => (w, None),
                    (d, true) => (d, Some(Paging { client, endpoint })),
                },
            },
        },
    }
}

/// A block taken from memory that exists can be named by a capability.
proof fn lemma_block_sound(frames: Seq<u64>, bits: u8)
    requires
        12 <= bits < 32,
        crate::root::blocks::frames_for(frames, bits) is Some,
        forall|k: int|
            0 <= k < frames.len() ==> (#[trigger] frames[k]) + 4096 <= crate::mm::addr::PHYS_LIMIT,
    ensures
        ({
            let n = crate::root::blocks::frames_for(frames, bits)->Some_0;
            RawCap::plain(
                ObjectType::Untyped,
                ALL,
                bits,
                PhysAddr(frames[n - crate::root::blocks::frames_in_block(bits)]),
            ).is_sound()
        }),
{
    let n = crate::root::blocks::frames_for(frames, bits)->Some_0;
    let need = crate::root::blocks::frames_in_block(bits);
    vstd::arithmetic::power2::lemma2_to64();
    if bits > 12 {
        vstd::arithmetic::power2::lemma_pow2_adds(12, (bits - 12) as nat);
        vstd::arithmetic::power2::lemma_pow2_pos((bits - 12) as nat);
    }
    crate::root::blocks::a_taken_block_is_whole(frames, bits, need - 1);
    assert(frames[n - 1] + 4096 <= crate::mm::addr::PHYS_LIMIT);
}

/// A capability space rooted in a CNode carved out of `2^bits` fresh bytes.
pub fn root_space(k: &mut Kernel, bits: u8, frames: &mut BumpAllocator) -> (r: Option<CSpace>)
    requires
        old(k).wf(),
        12 <= bits < 32,
        crate::root::in_physical_memory(old(frames).home()),
    ensures
        final(k).wf(),
        final(frames).home() == old(frames).home(),
        ({
            let done = rooted(Stage { k: old(k)@, frames: old(frames).pending() }, bits);
            &&& final(k)@ == done.0.k
            &&& final(frames).pending() == done.0.frames
            &&& match done.1 {
                Some(root) => r == Some(CSpace { root }),
                None => r is None,
            }
        }),
        r matches Some(cs) ==> cs.wf(),
{
    let ghost pending = frames.pending();
    proof {
        assert forall|i: int| 0 <= i < pending.len() implies (#[trigger] pending[i]) + 4096
            <= crate::mm::addr::PHYS_LIMIT by {
            frames.pending_frames_lie_in_memory(crate::mm::addr::PHYS_LIMIT as int, i);
        }
    }
    let first: PhysAddr = match alloc_aligned(bits, frames, &mut k.objects.mem) {
        Some(pa) => pa,
        None => {
            assert(frames.pending() =~= Seq::<u64>::empty());
            return None;
        },
    };
    proof {
        lemma_block_sound(pending, bits);
    }
    match bootstrap(&mut k.objects, RawCap::untyped(first, bits, ALL), DEPTH + SLOT_BITS) {
        Ok(cs) => Some(cs),
        Err(_) => None,
    }
}

/// Retype one object into a slot, from the region in slot zero.
fn make(k: &mut Kernel, cs: &CSpace, kind: ObjectType, slot: u64) -> (r: bool)
    requires
        old(k).wf(),
        cs.wf(),
    ensures
        final(k).wf(),
        forall|frames: Seq<u64>|
            #[trigger] made_in((Stage { k: old(k)@, frames }), cs.root, kind, slot) == (
                Stage { k: final(k)@, frames },
                r,
            ),
{
    proof {
        crate::sched::invoke::lemma_retyped_threads(
            k@.objects,
            cs.root,
            (0, DEPTH),
            kind,
            0,
            (slot, DEPTH),
            1,
        );
    }
    cs.retype(&mut k.objects, (0, DEPTH), kind, 0, (slot, DEPTH), 1).is_ok()
}

/// Give the pager what it needs: the endpoint, the client's address space, two
/// page tables and a frame.
fn stock(k: &mut Kernel, cs: &CSpace, endpoint: RawCap, client_root: PhysAddr) -> (r: bool)
    requires
        old(k).wf(),
        cs.wf(),
        endpoint.is_sound(),
    ensures
        final(k).wf(),
        forall|frames: Seq<u64>|
            #[trigger] stocked(
                (Stage { k: old(k)@, frames }),
                cs.root,
                endpoint,
                client_root.0,
            ) == (Stage { k: final(k)@, frames }, r),
{
    if cs.insert(&mut k.objects.slots, FAULT_EP, DEPTH, endpoint, None).is_err() {
        return false;
    }
    if cs.insert(&mut k.objects.slots, VSPACE, DEPTH, vspace_cap(client_root), None).is_err() {
        return false;
    }
    make(k, cs, ObjectType::PageTable, L1) && make(k, cs, ObjectType::PageTable, L0) && make(
        k,
        cs,
        ObjectType::Frame,
        FRAME,
    )
}

/// Make the endpoint that faults arrive at.
fn make_endpoint(k: &mut Kernel, frames: &mut BumpAllocator) -> (r: Option<RawCap>)
    requires
        old(k).wf(),
        crate::root::in_physical_memory(old(frames).home()),
    ensures
        final(k).wf(),
        final(frames).home() == old(frames).home(),
        (Stage { k: final(k)@, frames: final(frames).pending() }, r) == endpoint_made(
            (Stage { k: old(k)@, frames: old(frames).pending() }),
        ),
        r matches Some(cap) ==> cap.is_sound(),
{
    let cs: CSpace = match root_space(k, 18, frames) {
        Some(cs) => cs,
        None => {
            return None;
        },
    };
    if !make(k, &cs, ObjectType::Endpoint, ENDPOINT) {
        return None;
    }
    match cs.read(&k.objects.slots, ENDPOINT, DEPTH) {
        Ok(cap) => Some(cap),
        Err(_) => None,
    }
}

/// Start the pager and its client.
fn start_both(
    k: &mut Kernel,
    client: &AddressSpace,
    pager: &AddressSpace,
    endpoint: RawCap,
    frames: &mut BumpAllocator,
) -> (r: bool)
    requires
        old(k).wf(),
        endpoint.is_sound(),
        crate::root::in_physical_memory(old(frames).home()),
    ensures
        final(k).wf(),
        (Stage { k: final(k)@, frames: final(frames).pending() }, r) == both_started(
            (Stage { k: old(k)@, frames: old(frames).pending() }),
            *client,
            *pager,
            endpoint,
        ),
{
    let pager_cs: CSpace = match root_space(k, 19, frames) {
        Some(cs) => cs,
        None => {
            return false;
        },
    };
    let ghost a = Stage { k: k@, frames: frames.pending() };
    if !stock(k, &pager_cs, endpoint, client.root()) {
        return false;
    }
    assert(stocked(a, pager_cs.root, endpoint, client.mapper.root.0) == (
        Stage { k: k@, frames: frames.pending() },
        true,
    ));
    let client_cs: CSpace = match root_space(k, 18, frames) {
        Some(cs) => cs,
        None => {
            return false;
        },
    };
    let entry: VirtAddr = VirtAddr::new(USER_TEXT);
    let stack: VirtAddr = VirtAddr::new(USER_STACK + PAGE_SIZE);
    if k.spawn_with_cspace(pager, entry, stack, pager_cs.root, frames).is_err() {
        return false;
    }
    k.spawn_full(client, entry, stack, client_cs.root, endpoint, frames).is_ok()
}

/// Spawn a client that stores to an unmapped page and a pager that maps it.
///
/// Nothing has run when this returns. It comes to nothing if there is not
/// enough memory.
pub fn demand_paging_demo(k: &mut Kernel, kernel: &Mapper, frames: &mut BumpAllocator) -> (r: Option<
    Paging,
>)
    requires
        old(k).wf(),
        crate::root::in_physical_memory(old(frames).home()),
    ensures
        final(k).wf(),
        (Stage { k: final(k)@, frames: final(frames).pending() }, r) == staged(
            (Stage { k: old(k)@, frames: old(frames).pending() }),
            kernel.root.0,
        ),
{
    let endpoint: RawCap = match make_endpoint(k, frames) {
        Some(cap) => cap,
        None => {
            return None;
        },
    };
    let client_prog = lazy_client();
    let pager_prog = pager();
    proof {
        lemma_program_sizes();
    }
    let client: AddressSpace = match user_space(
        kernel,
        client_prog.as_slice(),
        frames,
        &mut k.objects.mem,
    ) {
        Ok(space) => space,
        Err(_) => {
            return None;
        },
    };
    let pager: AddressSpace = match user_space(
        kernel,
        pager_prog.as_slice(),
        frames,
        &mut k.objects.mem,
    ) {
        Ok(space) => space,
        Err(_) => {
            return None;
        },
    };
    if start_both(k, &client, &pager, endpoint, frames) {
        Some(Paging { client, endpoint })
    } else {
        None
    }
}

/// Both programs fit in a page.
proof fn lemma_program_sizes()
    ensures
        lazy_client_words().len() * 4 <= 4096,
        pager_words().len() * 4 <= 4096,
{
}

} // verus!
