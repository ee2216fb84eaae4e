//! Hand-encoded user programs, for running code before anything can load it.

use crate::mm::addr::{PhysAddr, PAGE_SIZE};
use crate::mm::memory::Memory;
use vstd::prelude::*;

verus! {

pub const ECALL: u32 = 0x0000_0073;

/// `jal x0, 0`: branch to itself. Only a timer gets a thread out of this.
pub const SPIN: u32 = 0x0000_006f;

/// `fmv.d.x f0, zero`.
pub const USE_FP: u32 = 0xf200_0053;

pub const A0: usize = 10;

pub const A1: usize = 11;

pub const A2: usize = 12;

pub const A3: usize = 13;

pub const A4: usize = 14;

pub const A5: usize = 15;

pub const A7: usize = 17;

// --- Instruction formats ---

/// A register and a 12-bit immediate into a register.
pub open spec fn i_type(imm: u32, rs1: u32, funct3: u32, rd: u32, opcode: u32) -> u32 {
    ((imm & 0xfff) << 20) | (rs1 << 15) | (funct3 << 12) | (rd << 7) | opcode
}

/// A store: the immediate is split around the source registers.
pub open spec fn s_type(imm: u32, rs2: u32, rs1: u32, funct3: u32, opcode: u32) -> u32 {
    ((imm & 0xfe0) << 20) | (rs2 << 20) | (rs1 << 15) | (funct3 << 12) | ((imm & 0x1f) << 7) | opcode
}

/// A conditional branch: a 13-bit byte offset, scattered.
pub open spec fn b_type(imm: u32, rs2: u32, rs1: u32, funct3: u32, opcode: u32) -> u32 {
    ((imm & 0x1000) << 19) | ((imm & 0x7e0) << 20) | (rs2 << 20) | (rs1 << 15) | (funct3 << 12) | ((
    imm & 0x1e) << 7) | ((imm & 0x800) >> 4) | opcode
}

/// The upper 20 bits of a register.
pub open spec fn u_type(imm: u32, rd: u32, opcode: u32) -> u32 {
    ((imm & 0xf_ffff) << 12) | (rd << 7) | opcode
}

/// A jump: a 21-bit byte offset, scattered.
pub open spec fn j_type(imm: u32, rd: u32, opcode: u32) -> u32 {
    ((imm & 0x10_0000) << 11) | ((imm & 0x7fe) << 20) | ((imm & 0x800) << 9) | (imm & 0xf_f000) | (rd
        << 7) | opcode
}

/// The immediate of a store.
pub open spec fn s_immediate(word: u32) -> u32 {
    ((word >> 25) << 5) | ((word >> 7) & 0x1f)
}

/// The byte offset of a branch, sign-extended.
pub open spec fn b_offset(word: u32) -> u32 {
    (if word >> 31 == 1 {
        0xffff_f000u32
    } else {
        0
    }) | ((word << 4) & 0x800) | ((word >> 20) & 0x7e0) | ((word >> 7) & 0x1e)
}

/// The byte offset of a jump, sign-extended.
pub open spec fn j_offset(word: u32) -> u32 {
    (if word >> 31 == 1 {
        0xfff0_0000u32
    } else {
        0
    }) | (word & 0xf_f000) | ((word >> 9) & 0x800) | ((word >> 20) & 0x7fe)
}

/// An instruction holds, where the hart looks for them, the operation, the
/// registers and the immediate it was made from.
pub proof fn instructions_hold_their_fields(
    imm: u32,
    rs2: u32,
    rs1: u32,
    funct3: u32,
    rd: u32,
    opcode: u32,
)
    by (bit_vector)
    requires
        rs2 < 32,
        rs1 < 32,
        rd < 32,
        funct3 < 8,
        opcode < 128,
    ensures
        i_type(imm, rs1, funct3, rd, opcode) & 0x7f == opcode,
        (i_type(imm, rs1, funct3, rd, opcode) >> 7) & 0x1f == rd,
        (i_type(imm, rs1, funct3, rd, opcode) >> 12) & 7 == funct3,
        (i_type(imm, rs1, funct3, rd, opcode) >> 15) & 0x1f == rs1,
        i_type(imm, rs1, funct3, rd, opcode) >> 20 == imm & 0xfff,
        s_type(imm, rs2, rs1, funct3, opcode) & 0x7f == opcode,
        (s_type(imm, rs2, rs1, funct3, opcode) >> 12) & 7 == funct3,
        (s_type(imm, rs2, rs1, funct3, opcode) >> 15) & 0x1f == rs1,
        (s_type(imm, rs2, rs1, funct3, opcode) >> 20) & 0x1f == rs2,
        s_immediate(s_type(imm, rs2, rs1, funct3, opcode)) == imm & 0xfff,
        b_type(imm, rs2, rs1, funct3, opcode) & 0x7f == opcode,
        (b_type(imm, rs2, rs1, funct3, opcode) >> 12) & 7 == funct3,
        (b_type(imm, rs2, rs1, funct3, opcode) >> 15) & 0x1f == rs1,
        (b_type(imm, rs2, rs1, funct3, opcode) >> 20) & 0x1f == rs2,
        imm & 1 == 0 && (imm & 0xffff_f000 == 0 || imm & 0xffff_f000 == 0xffff_f000) ==> b_offset(
            b_type(imm, rs2, rs1, funct3, opcode),
        ) == imm,
        u_type(imm, rd, opcode) & 0x7f == opcode,
        (u_type(imm, rd, opcode) >> 7) & 0x1f == rd,
        u_type(imm, rd, opcode) >> 12 == imm & 0xf_ffff,
        j_type(imm, rd, opcode) & 0x7f == opcode,
        (j_type(imm, rd, opcode) >> 7) & 0x1f == rd,
        imm & 1 == 0 && (imm & 0xfff0_0000 == 0 || imm & 0xfff0_0000 == 0xfff0_0000) ==> j_offset(
            j_type(imm, rd, opcode),
        ) == imm,
{
}

fn encode_i(imm: u32, rs1: u32, funct3: u32, rd: u32, opcode: u32) -> (r: u32)
    ensures
        r == i_type(imm, rs1, funct3, rd, opcode),
{
    ((imm & 0xfff) << 20) | (rs1 << 15) | (funct3 << 12) | (rd << 7) | opcode
}

// --- Instructions ---

/// `addi rd, zero, imm`: the `li` of a small constant.
pub fn li(rd: usize, imm: u32) -> (r: u32)
    ensures
        r == i_type(imm, 0, 0, rd as u32, 0x13),
{
    encode_i(imm, 0, 0, rd as u32, 0x13)
}

/// `lui rd, imm20`: the upper 20 bits of a constant.
pub fn lui(rd: usize, imm20: u32) -> (r: u32)
    ensures
        r == u_type(imm20, rd as u32, 0x37),
{
    ((imm20 & 0xf_ffff) << 12) | ((rd as u32) << 7) | 0x37
}

/// `addi rd, rs1, imm`.
pub fn addi(rd: usize, rs1: usize, imm: i32) -> (r: u32)
    ensures
        r == i_type(imm as u32, rs1 as u32, 0, rd as u32, 0x13),
{
    encode_i(imm as u32, rs1 as u32, 0, rd as u32, 0x13)
}

/// `jal rd, offset`: offset in bytes from this instruction.
pub fn jal(rd: usize, offset: i32) -> (r: u32)
    ensures
        r == j_type(offset as u32, rd as u32, 0x6f),
{
    let imm: u32 = offset as u32;
    ((imm & 0x10_0000) << 11) | ((imm & 0x7fe) << 20) | ((imm & 0x800) << 9) | (imm & 0xf_f000) | ((
    rd as u32) << 7) | 0x6f
}

/// `bne rs1, rs2, offset`: offset in bytes from this instruction.
pub fn bne(rs1: usize, rs2: usize, offset: i32) -> (r: u32)
    ensures
        r == b_type(offset as u32, rs2 as u32, rs1 as u32, 1, 0x63),
{
    let imm: u32 = offset as u32;
    let funct3: u32 = 1;
    ((imm & 0x1000) << 19) | ((imm & 0x7e0) << 20) | ((rs2 as u32) << 20) | ((rs1 as u32) << 15) | (
    funct3 << 12) | ((imm & 0x1e) << 7) | ((imm & 0x800) >> 4) | 0x63
}

/// `slli rd, rs1, shamt`.
pub fn slli(rd: usize, rs1: usize, shamt: u32) -> (r: u32)
    ensures
        r == i_type(shamt & 0x3f, rs1 as u32, 1, rd as u32, 0x13),
{
    encode_i(shamt & 0x3f, rs1 as u32, 1, rd as u32, 0x13)
}

/// `srli rd, rs1, shamt`.
pub fn srli(rd: usize, rs1: usize, shamt: u32) -> (r: u32)
    ensures
        r == i_type(shamt & 0x3f, rs1 as u32, 5, rd as u32, 0x13),
{
    encode_i(shamt & 0x3f, rs1 as u32, 5, rd as u32, 0x13)
}

/// `mv rd, rs`: `addi rd, rs, 0`.
pub fn mv(rd: usize, rs: usize) -> (r: u32)
    ensures
        r == i_type(0, rs as u32, 0, rd as u32, 0x13),
{
    encode_i(0, rs as u32, 0, rd as u32, 0x13)
}

/// `sd rs2, offset(rs1)`.
pub fn sd(rs1: usize, rs2: usize, offset: i32) -> (r: u32)
    ensures
        r == s_type(offset as u32, rs2 as u32, rs1 as u32, 3, 0x23),
{
    let imm: u32 = offset as u32;
    let funct3: u32 = 3;
    ((imm & 0xfe0) << 20) | ((rs2 as u32) << 20) | ((rs1 as u32) << 15) | (funct3 << 12) | ((imm
        & 0x1f) << 7) | 0x23
}

/// `ld rd, offset(rs1)`.
pub fn ld(rd: usize, rs1: usize, offset: i32) -> (r: u32)
    ensures
        r == i_type(offset as u32, rs1 as u32, 3, rd as u32, 0x03),
{
    encode_i(offset as u32, rs1 as u32, 3, rd as u32, 0x03)
}

/// `li a7, n; ecall`, the two words every system call here starts from.
pub fn syscall(n: u64) -> (r: [u32; 2])
    ensures
        r@ == seq![i_type(n as u32, 0, 0, 17, 0x13), ECALL],
{
    let r: [u32; 2] = [li(A7, n as u32), ECALL];
    assert(r@ =~= seq![i_type(n as u32, 0, 0, 17, 0x13), ECALL]);
    r
}

// --- Wide constants ---

/// The upper half of a wide constant. The lower half is sign-extended when it is
/// added, so this one is biased.
pub open spec fn upper(value: u32) -> u32 {
    (((value + 0x800) % 0x1_0000_0000) as u32) >> 12
}

/// The words that load a 32-bit constant.
pub open spec fn li_words(rd: usize, value: u32) -> Seq<u32> {
    if value < 0x800 {
        seq![i_type(value, 0, 0, rd as u32, 0x13)]
    } else {
        seq![
            u_type(upper(value), rd as u32, 0x37),
            i_type(value, rd as u32, 0, rd as u32, 0x13),
        ]
    }
}

/// A 12-bit immediate, sign-extended to 32 bits.
pub open spec fn sign_extended(imm: u32) -> u32 {
    if imm & 0x800 == 0 {
        imm & 0xfff
    } else {
        imm | 0xffff_f000
    }
}

/// The two halves a wide constant is loaded from add up to it.
pub proof fn wide_constants_are_loaded_whole(value: u32)
    ensures
        (((upper(value) & 0xf_ffff) << 12) + sign_extended(value)) % 0x1_0000_0000 == value,
{
    let biased = ((value + 0x800) % 0x1_0000_0000) as u32;
    lemma_halves(value, biased, 0);
}

proof fn lemma_halves(value: u32, biased: u32, lo: u32)
    by (bit_vector)
    requires
        biased == (value + 0x800) % 0x1_0000_0000,
    ensures
        ((((biased >> 12) & 0xf_ffff) << 12) + (if value & 0x800 == 0 {
            value & 0xfff
        } else {
            value | 0xffff_f000
        })) % 0x1_0000_0000 == value,
        (lo + ((biased >> 12) << 12)) % 0x1_0000_0000 == value ==> lo & 0xfff == value & 0xfff,
{
}

// --- Programs ---

/// A small program, assembled into a fixed buffer.
///
/// `li` only reaches 12 bits, and a packed message header does not fit, so
/// anything wider needs `lui` + `addi`. A builder keeps programs readable
/// instead of a wall of hand-encoded words.
pub struct Prog<const N: usize> {
    words: [u32; N],
    len: usize,
}

impl<const N: usize> View for Prog<N> {
    type V = Seq<u32>;

    /// The words assembled so far.
    closed spec fn view(&self) -> Seq<u32> {
        self.words@.take(self.len as int)
    }
}

/// How far word `target` is from word `at`, in bytes.
pub open spec fn distance(target: int, at: int) -> i32 {
    ((target - at) * 4) as i32
}

/// Whether a branch between two words can be expressed at all.
pub open spec fn reachable(target: int, at: int) -> bool {
    &&& 0 <= target <= i32::MAX
    &&& 0 <= at <= i32::MAX
    &&& i32::MIN <= (target - at) * 4 <= i32::MAX
}

impl<const N: usize> Prog<N> {
    #[verifier::type_invariant]
    spec fn fits(self) -> bool {
        self.len <= N
    }

    pub fn new() -> (r: Self)
        ensures
            r@ == Seq::<u32>::empty(),
    {
        let r = Prog { words: [0;N], len: 0 };
        assert(r@ =~= Seq::<u32>::empty());
        r
    }

    pub fn raw(self, word: u32) -> (r: Self)
        requires
            self@.len() < N,
        ensures
            r@ == self@.push(word),
    {
        proof {
            use_type_invariant(&self);
        }
        let mut words: [u32; N] = self.words;
        let len: usize = self.len;
        words[len] = word;
        let r = Prog { words, len: len + 1 };
        assert(r@ =~= self@.push(word));
        r
    }

    /// Load any 32-bit constant into `rd`.
    pub fn li(self, rd: usize, value: u32) -> (r: Self)
        requires
            self@.len() + li_words(rd, value).len() <= N,
        ensures
            r@ == self@ + li_words(rd, value),
    {
        if value < 0x800 {
            let r = self.raw(self::li(rd, value));
            assert(r@ =~= self@ + li_words(rd, value));
            return r;
        }
        // The `addi` immediate is sign-extended, so bias the upper half.

        let biased: u32 = value.wrapping_add(0x800);
        let hi: u32 = biased >> 12;
        let lo: u32 = value.wrapping_sub(hi << 12);
        proof {
            lemma_halves(value, biased, lo);
            assert(lo & 0xfff == value & 0xfff);
        }
        let r = self.raw(lui(rd, hi)).raw(encode_i(lo, rd as u32, 0, rd as u32, 0x13));
        assert(r@ =~= self@ + li_words(rd, value));
        r
    }

    pub fn ecall(self) -> (r: Self)
        requires
            self@.len() < N,
        ensures
            r@ == self@.push(ECALL),
    {
        self.raw(ECALL)
    }

    /// The index of the next word, to branch back to.
    pub fn here(&self) -> (r: usize)
        ensures
            r == self@.len(),
            r <= N,
    {
        proof {
            use_type_invariant(self);
        }
        self.len
    }

    /// `bne rs, zero, <word target>`: the backward edge of a loop.
    pub fn bne_back(self, rs: usize, target: usize) -> (r: Self)
        requires
            self@.len() < N,
            reachable(target as int, self@.len() as int),
        ensures
            r@ == self@.push(
                b_type(distance(target as int, self@.len() as int) as u32, 0, rs as u32, 1, 0x63),
            ),
    {
        let offset: i32 = (target as i32 - self.here() as i32) * 4;
        self.raw(bne(rs, 0, offset))
    }

    /// `jal zero, <word target>`.
    pub fn jump_back(self, target: usize) -> (r: Self)
        requires
            self@.len() < N,
            reachable(target as int, self@.len() as int),
        ensures
            r@ == self@.push(j_type(distance(target as int, self@.len() as int) as u32, 0, 0x6f)),
    {
        let offset: i32 = (target as i32 - self.here() as i32) * 4;
        self.raw(jal(0, offset))
    }

    /// `addi rd, rd, imm`.
    pub fn addi(self, rd: usize, imm: i32) -> (r: Self)
        requires
            self@.len() < N,
        ensures
            r@ == self@.push(i_type(imm as u32, rd as u32, 0, rd as u32, 0x13)),
    {
        self.raw(self::addi(rd, rd, imm))
    }

    /// `li a7, n; ecall`.
    pub fn syscall(self, n: u64) -> (r: Self)
        requires
            self@.len() + li_words(A7, n as u32).len() + 1 <= N,
        ensures
            r@ == self@ + syscall_words(n),
    {
        let r = self.li(A7, n as u32).ecall();
        assert(r@ =~= self@ + syscall_words(n));
        r
    }

    pub fn exit(self) -> (r: Self)
        requires
            self@.len() + 2 <= N,
        ensures
            r@ == self@ + syscall_words(1),
    {
        self.syscall(1)
    }

    pub fn as_slice(&self) -> (r: &[u32])
        ensures
            r@ == self@,
    {
        proof {
            use_type_invariant(self);
        }
        let all: &[u32] = self.words.as_slice();
        vstd::slice::slice_subrange(all, 0, self.len)
    }
}

impl<const N: usize> Default for Prog<N> {
    fn default() -> (r: Self)
        ensures
            r@ == Seq::<u32>::empty(),
    {
        Self::new()
    }
}

/// The words of a system call.
pub open spec fn syscall_words(n: u64) -> Seq<u32> {
    li_words(A7, n as u32).push(ECALL)
}

/// The words of [`ipc_client`].
pub open spec fn client_words(
    ep_slot: u32,
    msginfo: u32,
    call: u64,
    exit: u64,
    trips: u32,
) -> Seq<u32> {
    let top = li_words(16, trips).len() as int;
    let body = li_words(16, trips) + li_words(A0, ep_slot) + li_words(A1, msginfo) + syscall_words(
        call,
    ) + seq![i_type(-1i32 as u32, 16, 0, 16, 0x13)];
    body.push(b_type(distance(top, body.len() as int) as u32, 0, 16, 1, 0x63)) + syscall_words(exit)
}

/// The words of [`ipc_server`].
pub open spec fn server_words(ep_slot: u32, msginfo: u32, recv: u64, reply_recv: u64) -> Seq<u32> {
    let head = li_words(A0, ep_slot) + syscall_words(recv);
    let body = head + li_words(A0, ep_slot) + li_words(A1, msginfo) + syscall_words(reply_recv);
    body.push(j_type(distance(head.len() as int, body.len() as int) as u32, 0, 0x6f))
}

/// A client that calls `ep_slot` `trips` times, then exits.
///
/// The counter lives in `a6`, which is neither `a0`/`a1` nor one of the message
/// registers `a2..a5`, so it survives every transfer.
pub fn ipc_client(ep_slot: u32, msginfo: u32, call: u64, exit: u64, trips: u32) -> (r: Prog<32>)
    ensures
        r@ == client_words(ep_slot, msginfo, call, exit, trips),
{
    let counter: usize = 16;
    let head = Prog::<32>::new().li(counter, trips);
    let top: usize = head.here();
    let r = head.li(A0, ep_slot).li(A1, msginfo).li(A7, call as u32).ecall().addi(
        counter,
        -1,
    ).bne_back(counter, top).syscall(exit);
    assert(r@ =~= client_words(ep_slot, msginfo, call, exit, trips));
    r
}

/// A server that receives once and then replies-and-receives forever.
pub fn ipc_server(ep_slot: u32, msginfo: u32, recv: u64, reply_recv: u64) -> (r: Prog<32>)
    ensures
        r@ == server_words(ep_slot, msginfo, recv, reply_recv),
{
    let head = Prog::<32>::new().li(A0, ep_slot).syscall(recv);
    let top: usize = head.here();
    let r = head.li(A0, ep_slot).li(A1, msginfo).li(A7, reply_recv as u32).ecall().jump_back(top);
    assert(r@ =~= server_words(ep_slot, msginfo, recv, reply_recv));
    r
}

// --- Loading ---

/// The bytes of a program as they lie in memory.
pub open spec fn program_bytes(words: Seq<u32>) -> Seq<u8> {
    Seq::new(words.len() * 4, |i: int| crate::mm::memory::byte_of(words[i / 4] as u64, i % 4))
}

/// Copy `words` into `frame`, ready to be mapped as user text.
pub fn write_to_frame(frame: PhysAddr, words: &[u32], mem: &mut Memory)
    requires
        words@.len() * 4 <= PAGE_SIZE,
        frame.0 + PAGE_SIZE <= u64::MAX,
    ensures
        final(mem)@ == crate::mm::memory::with_bytes(
            old(mem)@,
            frame.0 as int,
            program_bytes(words@),
        ),
{
    let mut bytes: Vec<u8> = Vec::new();
    let n: usize = words.len();
    let mut i: usize = 0;
    while i < n
        invariant
            i <= n,
            n == words@.len(),
            n * 4 <= PAGE_SIZE,
            bytes@ == program_bytes(words@).take(4 * i),
        decreases n - i,
    {
        let word: u64 = words[i] as u64;
        let mut k: u64 = 0;
        while k < 4
            invariant
                k <= 4,
                i < n,
                n == words@.len(),
                n * 4 <= PAGE_SIZE,
                word == words@[i as int],
                bytes@ == program_bytes(words@).take(4 * i + k),
            decreases 4 - k,
        {
            bytes.push(((word >> (8 * k)) & 0xff) as u8);
            assert(program_bytes(words@).take(4 * i + k + 1) =~= program_bytes(words@).take(
                4 * i + k,
            ).push(program_bytes(words@)[4 * i + k]));
            k = k + 1;
        }
        i = i + 1;
    }
    assert(bytes@ =~= program_bytes(words@));
    let count: usize = bytes.len();
    mem.copy_in(frame.as_usize(), bytes.as_slice(), 0, count);
    assert(bytes@.subrange(0, count as int) =~= bytes@);
}

} // verus!
