//! Physical memory, as the kernel reads and writes it.

use std::collections::HashMap;
use vstd::prelude::*;

verus! {

/// Physical memory: one 64-bit word at every multiple of eight.
///
/// Nothing has to be backed before it is used. A word that was never written
/// reads as zero.
pub struct Memory {
    words: HashMap<u64, u64>,
}

impl View for Memory {
    type V = Map<int, u64>;

    /// What every word holds, by word number (its address divided by eight).
    closed spec fn view(&self) -> Map<int, u64> {
        Map::total(
            |w: int|
                if 0 <= w <= u64::MAX && self.words@.contains_key(w as u64) {
                    self.words@[w as u64]
                } else {
                    0
                },
        )
    }
}

/// The word number of the `index`th word after the address `base`.
pub open spec fn word_number(base: u64, index: int) -> int {
    base as int / 8 + index
}

/// Memory with `count` words from word `first` on set to zero.
pub open spec fn with_zeroes(m: Map<int, u64>, first: int, count: int) -> Map<int, u64> {
    Map::total(
        |w: int|
            if first <= w < first + count {
                0
            } else {
                m[w]
            },
    )
}

/// Memory with the 4 KiB frame at `frame` set to zero.
pub open spec fn with_zero_frame(m: Map<int, u64>, frame: u64) -> Map<int, u64> {
    with_zeroes(m, word_number(frame, 0), 512)
}

/// The byte at address `a`.
pub open spec fn byte_at(m: Map<int, u64>, a: int) -> u8 {
    byte_of(m[a / 8], a % 8)
}

/// Byte `i` of a word, lowest first.
pub open spec fn byte_of(word: u64, i: int) -> u8 {
    ((word >> ((8 * i) as u64)) & 0xff) as u8
}

/// A word with byte `i` replaced, lowest first.
pub open spec fn patched(word: u64, i: int, value: u8) -> u64 {
    (word & !(0xffu64 << ((8 * i) as u64))) | ((value as u64) << ((8 * i) as u64))
}

/// Memory with the byte at address `a` replaced.
pub open spec fn with_byte(m: Map<int, u64>, a: int, value: u8) -> Map<int, u64> {
    m.insert(a / 8, patched(m[a / 8], a % 8, value))
}

/// Memory with `data` at the address `to`.
pub open spec fn with_bytes(m: Map<int, u64>, to: int, data: Seq<u8>) -> Map<int, u64>
    decreases data.len(),
{
    if data.len() == 0 {
        m
    } else {
        with_byte(with_bytes(m, to, data.drop_last()), to + data.len() - 1, data.last())
    }
}

/// Copying puts exactly the bytes copied at exactly the addresses they were
/// copied to.
pub proof fn copying_changes_exactly_its_bytes(m: Map<int, u64>, to: int, data: Seq<u8>, x: int)
    ensures
        byte_at(with_bytes(m, to, data), x) == if to <= x < to + data.len() {
            data[x - to]
        } else {
            byte_at(m, x)
        },
    decreases data.len(),
{
    if data.len() > 0 {
        let a = to + data.len() - 1;
        let held = with_bytes(m, to, data.drop_last());
        copying_changes_exactly_its_bytes(m, to, data.drop_last(), x);
        if x / 8 == a / 8 {
            lemma_patched_byte(held[a / 8], data.last(), (8 * (a % 8)) as u64, (8 * (x % 8)) as u64);
            assert(x == 8 * (x / 8) + x % 8);
            assert(a == 8 * (a / 8) + a % 8);
        }
    }
}

/// The bits of word `w` that clearing `len` bytes from the address `from` on
/// leaves alone, as far as its lowest `n` bytes go.
pub open spec fn kept_bits(w: int, from: int, len: int, n: nat) -> u64
    decreases n,
{
    if n == 0 {
        0
    } else {
        kept_bits(w, from, len, (n - 1) as nat) | if from <= 8 * w + (n - 1) < from + len {
            0u64
        } else {
            0xffu64 << ((8 * (n - 1)) as u64)
        }
    }
}

/// Memory with `len` bytes from the address `from` on set to zero.
pub open spec fn with_zero_bytes(m: Map<int, u64>, from: int, len: int) -> Map<int, u64> {
    Map::total(|w: int| m[w] & kept_bits(w, from, len, 8))
}

/// Clearing leaves a word outside the range alone, and zeroes one inside.
proof fn lemma_kept_bits(w: int, from: int, len: int, v: u64)
    ensures
        from <= 8 * w && 8 * w + 8 <= from + len ==> v & kept_bits(w, from, len, 8) == 0,
        8 * w + 8 <= from || from + len <= 8 * w ==> v & kept_bits(w, from, len, 8) == v,
{
    reveal_with_fuel(kept_bits, 9);
    lemma_all_bytes(v);
}

proof fn lemma_all_bytes(v: u64)
    by (bit_vector)
    ensures
        v & (0u64 | 0 | 0 | 0 | 0 | 0 | 0 | 0 | 0) == 0,
        v & (0u64 | 0xffu64 << 0u64 | 0xffu64 << 8u64 | 0xffu64 << 16u64 | 0xffu64 << 24u64 | 0xffu64
            << 32u64 | 0xffu64 << 40u64 | 0xffu64 << 48u64 | 0xffu64 << 56u64) == v,
{
}

/// Clearing a range of bytes zeroes those bytes and no others.
pub proof fn clearing_zeroes_exactly_its_bytes(m: Map<int, u64>, from: int, len: int, a: int)
    ensures
        byte_at(with_zero_bytes(m, from, len), a) == if from <= a < from + len {
            0
        } else {
            byte_at(m, a)
        },
{
    let w = a / 8;
    reveal_with_fuel(kept_bits, 9);
    let c = |k: int| from <= 8 * w + k < from + len;
    lemma_byte_of_kept(m[w], c(0), c(1), c(2), c(3), c(4), c(5), c(6), c(7));
    assert(a == 8 * w + a % 8);
}

/// The bits of one byte, or none where it is cleared.
spec fn byte_kept(cleared: bool, shift: u64) -> u64 {
    if cleared {
        0
    } else {
        0xffu64 << shift
    }
}

/// The bits of the bytes that are not cleared.
spec fn bytes_kept(
    c0: bool,
    c1: bool,
    c2: bool,
    c3: bool,
    c4: bool,
    c5: bool,
    c6: bool,
    c7: bool,
) -> u64 {
    0u64 | byte_kept(c0, 0) | byte_kept(c1, 8) | byte_kept(c2, 16) | byte_kept(c3, 24) | byte_kept(
        c4,
        32,
    ) | byte_kept(c5, 40) | byte_kept(c6, 48) | byte_kept(c7, 56)
}

proof fn lemma_byte_of_kept(
    v: u64,
    c0: bool,
    c1: bool,
    c2: bool,
    c3: bool,
    c4: bool,
    c5: bool,
    c6: bool,
    c7: bool,
)
    by (bit_vector)
    ensures
        ((v & bytes_kept(c0, c1, c2, c3, c4, c5, c6, c7)) >> 0u64) & 0xff == ((v & byte_kept(c0, 0)) >> 0u64),
        c0 ==> (v & byte_kept(c0, 0)) >> 0u64 == 0,
        !c0 ==> (v & byte_kept(c0, 0)) >> 0u64 == (v >> 0u64) & 0xff,
        ((v & bytes_kept(c0, c1, c2, c3, c4, c5, c6, c7)) >> 8u64) & 0xff == ((v & byte_kept(c1, 8)) >> 8u64),
        c1 ==> (v & byte_kept(c1, 8)) >> 8u64 == 0,
        !c1 ==> (v & byte_kept(c1, 8)) >> 8u64 == (v >> 8u64) & 0xff,
        ((v & bytes_kept(c0, c1, c2, c3, c4, c5, c6, c7)) >> 16u64) & 0xff == ((v & byte_kept(c2, 16)) >> 16u64),
        c2 ==> (v & byte_kept(c2, 16)) >> 16u64 == 0,
        !c2 ==> (v & byte_kept(c2, 16)) >> 16u64 == (v >> 16u64) & 0xff,
        ((v & bytes_kept(c0, c1, c2, c3, c4, c5, c6, c7)) >> 24u64) & 0xff == ((v & byte_kept(c3, 24)) >> 24u64),
        c3 ==> (v & byte_kept(c3, 24)) >> 24u64 == 0,
        !c3 ==> (v & byte_kept(c3, 24)) >> 24u64 == (v >> 24u64) & 0xff,
        ((v & bytes_kept(c0, c1, c2, c3, c4, c5, c6, c7)) >> 32u64) & 0xff == ((v & byte_kept(c4, 32)) >> 32u64),
        c4 ==> (v & byte_kept(c4, 32)) >> 32u64 == 0,
        !c4 ==> (v & byte_kept(c4, 32)) >> 32u64 == (v >> 32u64) & 0xff,
        ((v & bytes_kept(c0, c1, c2, c3, c4, c5, c6, c7)) >> 40u64) & 0xff == ((v & byte_kept(c5, 40)) >> 40u64),
        c5 ==> (v & byte_kept(c5, 40)) >> 40u64 == 0,
        !c5 ==> (v & byte_kept(c5, 40)) >> 40u64 == (v >> 40u64) & 0xff,
        ((v & bytes_kept(c0, c1, c2, c3, c4, c5, c6, c7)) >> 48u64) & 0xff == ((v & byte_kept(c6, 48)) >> 48u64),
        c6 ==> (v & byte_kept(c6, 48)) >> 48u64 == 0,
        !c6 ==> (v & byte_kept(c6, 48)) >> 48u64 == (v >> 48u64) & 0xff,
        ((v & bytes_kept(c0, c1, c2, c3, c4, c5, c6, c7)) >> 56u64) & 0xff == ((v & byte_kept(c7, 56)) >> 56u64),
        c7 ==> (v & byte_kept(c7, 56)) >> 56u64 == 0,
        !c7 ==> (v & byte_kept(c7, 56)) >> 56u64 == (v >> 56u64) & 0xff,
{
}

impl Memory {
    /// Every word of memory has a value.
    pub proof fn is_total(&self)
        ensures
            forall|w: int| #[trigger] self@.dom().contains(w),
    {
    }

    /// Memory that holds nothing but zeroes.
    pub fn new() -> (r: Self)
        ensures
            r@ == Map::total(|w: int| 0u64),
    {
        broadcast use vstd::std_specs::hash::group_hash_axioms;

        let r = Memory { words: HashMap::new() };
        assert(r@ =~= Map::total(|w: int| 0u64));
        r
    }

    /// The `index`th word after `base`.
    pub fn read(&self, base: u64, index: u64) -> (r: u64)
        requires
            base / 8 + index <= u64::MAX,
        ensures
            r == self@[word_number(base, index as int)],
    {
        broadcast use vstd::std_specs::hash::group_hash_axioms;

        let w: u64 = base / 8 + index;
        match self.words.get(&w) {
            Some(v) => *v,
            None => 0,
        }
    }

    /// Set the `index`th word after `base`.
    pub fn write(&mut self, base: u64, index: u64, value: u64)
        requires
            base / 8 + index <= u64::MAX,
        ensures
            final(self)@ == old(self)@.insert(word_number(base, index as int), value),
    {
        broadcast use vstd::std_specs::hash::group_hash_axioms;

        let w: u64 = base / 8 + index;
        self.words.insert(w, value);
        assert(self@ =~= old(self)@.insert(w as int, value));
    }

    /// Set `count` words from `base` on to zero.
    pub fn zero(&mut self, base: u64, count: u64)
        requires
            base / 8 + count <= u64::MAX,
        ensures
            final(self)@ == with_zeroes(old(self)@, word_number(base, 0), count as int),
    {
        let ghost before = self@;
        let mut i: u64 = 0;
        assert(self@ =~= with_zeroes(before, word_number(base, 0), 0));
        while i < count
            invariant
                i <= count,
                base / 8 + count <= u64::MAX,
                self@ == with_zeroes(before, word_number(base, 0), i as int),
            decreases count - i,
        {
            self.write(base, i, 0);
            i = i + 1;
            assert(self@ =~= with_zeroes(before, word_number(base, 0), i as int));
        }
    }

    /// Set `len` bytes from the address `from` on to zero.
    pub fn zero_bytes(&mut self, from: u64, len: u64)
        requires
            from + len <= u64::MAX,
        ensures
            final(self)@ == with_zero_bytes(old(self)@, from as int, len as int),
    {
        let ghost before = self@;
        let end: u64 = from + len;
        let first: u64 = from / 8;
        let mut w: u64 = first;
        proof {
            self.is_total();
            assert forall|x: int| x < w implies #[trigger] before[x] == with_zero_bytes(
                before,
                from as int,
                len as int,
            )[x] by {
                lemma_kept_bits(x, from as int, len as int, before[x]);
            }
        }
        while w < end / 8 + 1
            invariant
                first <= w <= end / 8 + 1,
                first == from / 8,
                end == from + len,
                forall|x: int| #[trigger] self@.dom().contains(x),
                forall|x: int|
                    x < w ==> #[trigger] self@[x] == with_zero_bytes(
                        before,
                        from as int,
                        len as int,
                    )[x],
                forall|x: int| x >= w ==> #[trigger] self@[x] == before[x],
            decreases end / 8 + 1 - w,
        {
            let mut kept: u64 = 0;
            let mut n: u64 = 0;
            while n < 8
                invariant
                    n <= 8,
                    end == from + len,
                    w <= end / 8,
                    kept == kept_bits(w as int, from as int, len as int, n as nat),
                decreases 8 - n,
            {
                let byte: u64 = 0xffu64 << (8 * n);
                // Compare without forming an address past the top.
                let before_range: bool = w < from / 8 || (w == from / 8 && n < from % 8);
                let after_range: bool = w > end / 8 || (w == end / 8 && n >= end % 8);
                if before_range || after_range {
                    kept = kept | byte;
                } else {
                    kept = kept | 0;
                }
                n = n + 1;
            }
            let word: u64 = self.read(0, w);
            self.write(0, w, word & kept);
            w = w + 1;
        }
        proof {
            assert forall|x: int| x >= w implies #[trigger] before[x] == with_zero_bytes(
                before,
                from as int,
                len as int,
            )[x] by {
                lemma_kept_bits(x, from as int, len as int, before[x]);
            }
        }
        assert(self@ =~= with_zero_bytes(before, from as int, len as int));
    }

    /// Set the byte at address `a`.
    pub fn write_byte(&mut self, a: u64, value: u8)
        ensures
            final(self)@ == with_byte(old(self)@, a as int, value),
    {
        let word: u64 = self.read(a, 0);
        let shift: u64 = 8 * (a % 8);
        self.write(a, 0, (word & !(0xffu64 << shift)) | ((value as u64) << shift));
    }

    /// Copy `count` bytes of `data`, starting at `from`, to the address `to`.
    pub fn copy_in(&mut self, to: u64, data: &[u8], from: usize, count: usize)
        requires
            from + count <= data@.len(),
            to + count <= u64::MAX,
        ensures
            final(self)@ == with_bytes(
                old(self)@,
                to as int,
                data@.subrange(from as int, from + count),
            ),
    {
        let ghost before = self@;
        let total: usize = data.len();
        let mut i: usize = 0;
        while i < count
            invariant
                i <= count,
                from + count <= total,
                total == data@.len(),
                to + count <= u64::MAX,
                self@ == with_bytes(before, to as int, data@.subrange(from as int, from + i)),
            decreases count - i,
        {
            let ghost done = data@.subrange(from as int, from + i + 1);
            assert(done.drop_last() =~= data@.subrange(from as int, from + i));
            self.write_byte(to + i as u64, data[from + i]);
            i = i + 1;
        }
    }
}

proof fn lemma_patched_byte(word: u64, value: u8, shift: u64, other: u64)
    by (bit_vector)
    requires
        shift == 0 || shift == 8 || shift == 16 || shift == 24 || shift == 32 || shift == 40
            || shift == 48 || shift == 56,
        other == 0 || other == 8 || other == 16 || other == 24 || other == 32 || other == 40
            || other == 48 || other == 56,
    ensures
        shift == other ==> (((((word & !(0xffu64 << shift)) | ((value as u64) << shift)) >> other)
            & 0xff) as u8) == value,
        shift != other ==> (((word & !(0xffu64 << shift)) | ((value as u64) << shift)) >> other)
            & 0xff == (word >> other) & 0xff,
{
}

} // verus!
