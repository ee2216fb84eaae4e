//! Reading the one kind of ELF file the kernel runs: a static RV64 executable.

use vstd::prelude::*;

verus! {

#[derive(Debug, Clone, Copy, PartialEq, Eq, Structural)]
pub enum ElfError {
    /// Shorter than a header.
    TooSmall,
    BadMagic,
    /// Not a little-endian 64-bit RISC-V image.
    WrongFormat,
    /// Not a fixed-address executable, or nothing in it to load.
    NotExecutable,
    /// Something the file describes lies beyond its end.
    Truncated,
}

/// Bytes in the file header.
pub const HEADER: usize = 64;

/// Bytes in a program header.
pub const PROGRAM_HEADER: u64 = 56;

/// A segment to be loaded.
pub const PT_LOAD: u32 = 1;

/// The number in the two bytes at `off`, lowest first.
pub open spec fn half_at(b: Seq<u8>, off: int) -> u16 {
    (b[off] + 0x100 * b[off + 1]) as u16
}

/// The number in the four bytes at `off`, lowest first.
pub open spec fn word_at(b: Seq<u8>, off: int) -> u32 {
    (half_at(b, off) + 0x1_0000 * half_at(b, off + 2)) as u32
}

/// The number in the eight bytes at `off`, lowest first.
pub open spec fn double_at(b: Seq<u8>, off: int) -> u64 {
    (word_at(b, off) + 0x1_0000_0000 * word_at(b, off + 4)) as u64
}

fn half(b: &[u8], off: usize) -> (r: u16)
    requires
        off + 2 <= b@.len(),
    ensures
        r == half_at(b@, off as int),
{
    b[off] as u16 + 0x100 * (b[off + 1] as u16)
}

fn word(b: &[u8], off: usize) -> (r: u32)
    requires
        off + 4 <= b@.len(),
    ensures
        r == word_at(b@, off as int),
{
    let _len: usize = b.len();
    half(b, off) as u32 + 0x1_0000 * (half(b, off + 2) as u32)
}

fn double(b: &[u8], off: usize) -> (r: u64)
    requires
        off + 8 <= b@.len(),
    ensures
        r == double_at(b@, off as int),
{
    let _len: usize = b.len();
    word(b, off) as u64 + 0x1_0000_0000 * (word(b, off + 4) as u64)
}

/// Where the program headers start.
pub open spec fn table_at(b: Seq<u8>) -> int {
    double_at(b, 32) as int
}

/// How many program headers there are.
pub open spec fn table_len(b: Seq<u8>) -> int {
    half_at(b, 56) as int
}

/// What is wrong with a file, if anything is; checked in this order.
pub open spec fn refused(b: Seq<u8>) -> Option<ElfError> {
    if b.len() < HEADER {
        Some(ElfError::TooSmall)
    } else if b.take(4) != seq![0x7fu8, 0x45u8, 0x4cu8, 0x46u8] {
        Some(ElfError::BadMagic)
    } else if b[4] != 2 || b[5] != 1 || half_at(b, 18) != 243 || half_at(b, 54) != PROGRAM_HEADER {
        Some(ElfError::WrongFormat)
    } else if half_at(b, 16) != 2 {
        Some(ElfError::NotExecutable)
    } else if table_at(b) + table_len(b) * PROGRAM_HEADER > b.len() {
        Some(ElfError::Truncated)
    } else {
        None
    }
}

/// A segment to be loaded, with its bytes as a sequence.
#[verifier::ext_equal]
pub struct SegmentView {
    pub vaddr: u64,
    pub mem_size: u64,
    pub data: Seq<u8>,
    pub flags: u32,
}

impl SegmentView {
    pub open spec fn readable(self) -> bool {
        self.flags & 4 != 0
    }

    pub open spec fn writable(self) -> bool {
        self.flags & 2 != 0
    }

    pub open spec fn executable(self) -> bool {
        self.flags & 1 != 0
    }
}

/// What the program header at `off` describes.
pub open spec fn described(b: Seq<u8>, off: int) -> Result<SegmentView, ElfError> {
    let at = double_at(b, off + 8) as int;
    let len = double_at(b, off + 32) as int;
    let mem_size = double_at(b, off + 40);
    if at + len > b.len() {
        Err(ElfError::Truncated)
    } else if len > mem_size {
        Err(ElfError::WrongFormat)
    } else {
        Ok(
            SegmentView {
                vaddr: double_at(b, off + 16),
                mem_size,
                data: b.subrange(at, at + len),
                flags: word_at(b, off + 4),
            },
        )
    }
}

/// What the first `n` program headers describe that is to be loaded.
pub open spec fn loadable(b: Seq<u8>, n: int) -> Seq<Result<SegmentView, ElfError>>
    decreases n,
{
    if n <= 0 {
        Seq::empty()
    } else {
        let off = table_at(b) + (n - 1) * PROGRAM_HEADER;
        if word_at(b, off) == PT_LOAD {
            loadable(b, n - 1).push(described(b, off))
        } else {
            loadable(b, n - 1)
        }
    }
}

/// One past the last address of a segment, or the top of the address space.
pub open spec fn end_of(s: SegmentView) -> u64 {
    if s.vaddr + s.mem_size > u64::MAX {
        u64::MAX
    } else {
        (s.vaddr + s.mem_size) as u64
    }
}

/// The addresses the first `n` segments span, if there are any, or what is wrong
/// with the first that is malformed.
pub open spec fn spanned(segments: Seq<Result<SegmentView, ElfError>>, n: int) -> Result<
    Option<(u64, u64)>,
    ElfError,
>
    decreases n,
{
    if n <= 0 {
        Ok(None)
    } else {
        match (spanned(segments, n - 1), segments[n - 1]) {
            (Err(e), _) => Err(e),
            (Ok(_), Err(e)) => Err(e),
            (Ok(None), Ok(s)) => Ok(Some((s.vaddr, end_of(s)))),
            (Ok(Some((lo, hi))), Ok(s)) => Ok(
                Some(
                    (
                        if s.vaddr < lo {
                            s.vaddr
                        } else {
                            lo
                        },
                        if end_of(s) > hi {
                            end_of(s)
                        } else {
                            hi
                        },
                    ),
                ),
            ),
        }
    }
}

/// Once a segment is malformed, so is the span of everything that follows.
pub proof fn lemma_spanned_fails(
    segments: Seq<Result<SegmentView, ElfError>>,
    n: int,
    m: int,
)
    requires
        0 <= n <= m,
        spanned(segments, n) is Err,
    ensures
        spanned(segments, m) is Err,
        spanned(segments, m)->Err_0 == spanned(segments, n)->Err_0,
    decreases m - n,
{
    if n < m {
        lemma_spanned_fails(segments, n, m - 1);
    }
}

/// The addresses a file's segments span.
pub open spec fn image_span(b: Seq<u8>) -> Result<(u64, u64), ElfError> {
    let segments = loadable(b, table_len(b));
    match spanned(segments, segments.len() as int) {
        Err(e) => Err(e),
        Ok(None) => Err(ElfError::NotExecutable),
        Ok(Some(range)) => Ok(range),
    }
}

/// One `PT_LOAD` segment.
#[derive(Debug, Clone, Copy)]
pub struct Segment<'a> {
    pub vaddr: u64,
    /// How much memory it takes. What the file has no bytes for is zero.
    pub mem_size: u64,
    pub data: &'a [u8],
    pub flags: u32,
}

impl<'a> View for Segment<'a> {
    type V = SegmentView;

    open spec fn view(&self) -> SegmentView {
        SegmentView {
            vaddr: self.vaddr,
            mem_size: self.mem_size,
            data: self.data@,
            flags: self.flags,
        }
    }
}

impl<'a> Segment<'a> {
    pub fn readable(&self) -> (r: bool)
        ensures
            r == self@.readable(),
    {
        self.flags & 4 != 0
    }

    pub fn writable(&self) -> (r: bool)
        ensures
            r == self@.writable(),
    {
        self.flags & 2 != 0
    }

    pub fn executable(&self) -> (r: bool)
        ensures
            r == self@.executable(),
    {
        self.flags & 1 != 0
    }
}

/// A segment, or what is wrong with it, seen from outside.
pub open spec fn seen(s: Result<Segment, ElfError>) -> Result<SegmentView, ElfError> {
    match s {
        Ok(s) => Ok(s@),
        Err(e) => Err(e),
    }
}

/// Segments, seen from outside.
pub open spec fn all_seen(s: Seq<Result<Segment, ElfError>>) -> Seq<
    Result<SegmentView, ElfError>,
> {
    Seq::new(s.len(), |i: int| seen(s[i]))
}

/// A parsed image.
#[derive(Debug, Clone, Copy)]
pub struct Elf<'a> {
    bytes: &'a [u8],
}

impl<'a> View for Elf<'a> {
    type V = Seq<u8>;

    closed spec fn view(&self) -> Seq<u8> {
        self.bytes@
    }
}

impl<'a> Elf<'a> {
    #[verifier::type_invariant]
    spec fn is_sound(self) -> bool {
        refused(self.bytes@) is None
    }

    /// Check a file's header.
    pub fn parse(bytes: &'a [u8]) -> (r: Result<Self, ElfError>)
        ensures
            match refused(bytes@) {
                Some(e) => r is Err && r->Err_0 == e,
                None => r is Ok && r->Ok_0@ == bytes@,
            },
    {
        let len: usize = bytes.len();
        if len < HEADER {
            return Err(ElfError::TooSmall);
        }
        if bytes[0] != 0x7f || bytes[1] != 0x45 || bytes[2] != 0x4c || bytes[3] != 0x46 {
            proof {
                let magic = seq![0x7fu8, 0x45u8, 0x4cu8, 0x46u8];
                assert(bytes@.take(4)[0] != magic[0] || bytes@.take(4)[1] != magic[1]
                    || bytes@.take(4)[2] != magic[2] || bytes@.take(4)[3] != magic[3]);
            }
            return Err(ElfError::BadMagic);
        }
        assert(bytes@.take(4) =~= seq![0x7fu8, 0x45u8, 0x4cu8, 0x46u8]);
        if bytes[4] != 2 || bytes[5] != 1 || half(bytes, 18) != 243 || half(bytes, 54) as u64
            != PROGRAM_HEADER {
            return Err(ElfError::WrongFormat);
        }
        if half(bytes, 16) != 2 {
            return Err(ElfError::NotExecutable);
        }
        let table: u64 = double(bytes, 32);
        let size: u64 = half(bytes, 56) as u64 * PROGRAM_HEADER;
        if table > len as u64 || size > len as u64 - table {
            return Err(ElfError::Truncated);
        }
        Ok(Elf { bytes })
    }

    /// Where execution starts.
    pub fn entry(&self) -> (r: u64)
        ensures
            r == double_at(self@, 24),
    {
        proof {
            use_type_invariant(self);
        }
        double(self.bytes, 24)
    }

    fn segment(&self, off: usize) -> (r: Result<Segment<'a>, ElfError>)
        requires
            off + PROGRAM_HEADER <= self@.len(),
        ensures
            seen(r) == described(self@, off as int),
    {
        let b: &'a [u8] = self.bytes;
        let len: u64 = b.len() as u64;
        let at: u64 = double(b, off + 8);
        let size: u64 = double(b, off + 32);
        let mem_size: u64 = double(b, off + 40);
        if at > len || size > len - at {
            return Err(ElfError::Truncated);
        }
        if size > mem_size {
            return Err(ElfError::WrongFormat);
        }
        let data: &'a [u8] = vstd::slice::slice_subrange(b, at as usize, (at + size) as usize);
        Ok(Segment { vaddr: double(b, off + 16), mem_size, data, flags: word(b, off + 4) })
    }

    /// The segments to be loaded, in the order the file lists them.
    pub fn segments(&self) -> (r: Vec<Result<Segment<'a>, ElfError>>)
        ensures
            all_seen(r@) == loadable(self@, table_len(self@)),
    {
        proof {
            use_type_invariant(self);
        }
        let mut out: Vec<Result<Segment<'a>, ElfError>> = Vec::new();
        let total: usize = self.bytes.len();
        let table: usize = double(self.bytes, 32) as usize;
        let count: usize = half(self.bytes, 56) as usize;
        let mut i: usize = 0;
        assert(all_seen(out@) =~= loadable(self@, 0));
        while i < count
            invariant
                i <= count,
                count == table_len(self@),
                table == table_at(self@),
                table + count * PROGRAM_HEADER <= total,
                total == self@.len(),
                all_seen(out@) == loadable(self@, i as int),
            decreases count - i,
        {
            assert((i + 1) * PROGRAM_HEADER <= count * PROGRAM_HEADER) by (nonlinear_arith)
                requires
                    i + 1 <= count,
            ;
            let off: usize = table + i * 56;
            if word(self.bytes, off) == PT_LOAD {
                let s: Result<Segment<'a>, ElfError> = self.segment(off);
                out.push(s);
                assert(all_seen(out@) =~= loadable(self@, i as int).push(
                    described(self@, off as int),
                ));
            }
            i = i + 1;
        }
        out
    }

    /// The addresses the segments span.
    pub fn image_range(&self) -> (r: Result<(u64, u64), ElfError>)
        ensures
            r == image_span(self@),
    {
        let segments: Vec<Result<Segment<'a>, ElfError>> = self.segments();
        let ghost all = loadable(self@, table_len(self@));
        let count: usize = segments.len();
        let mut range: Option<(u64, u64)> = None;
        let mut i: usize = 0;
        while i < count
            invariant
                i <= count,
                count == segments@.len(),
                all == all_seen(segments@),
                all == loadable(self@, table_len(self@)),
                spanned(all, i as int) == Ok::<Option<(u64, u64)>, ElfError>(range),
            decreases count - i,
        {
            let s: Segment<'a> = match segments[i] {
                Ok(s) => s,
                Err(e) => {
                    proof {
                        assert(all[i as int] == Err::<SegmentView, ElfError>(e));
                        lemma_spanned_fails(all, i + 1, count as int);
                    }
                    return Err(e);
                },
            };
            assert(all[i as int] == Ok::<SegmentView, ElfError>(s@));
            let end: u64 = if s.mem_size > u64::MAX - s.vaddr {
                u64::MAX
            } else {
                s.vaddr + s.mem_size
            };
            range = match range {
                None => Some((s.vaddr, end)),
                Some((lo, hi)) => Some(
                    (
                        if s.vaddr < lo {
                            s.vaddr
                        } else {
                            lo
                        },
                        if end > hi {
                            end
                        } else {
                            hi
                        },
                    ),
                ),
            };
            i = i + 1;
        }
        match range {
            None => Err(ElfError::NotExecutable),
            Some(r) => Ok(r),
        }
    }
}

/// Every segment that is well-formed lies between the ends of the image, and
/// has no more bytes in the file than it takes in memory.
pub proof fn segments_lie_in_the_image(b: Seq<u8>, k: int)
    requires
        image_span(b) is Ok,
        0 <= k < loadable(b, table_len(b)).len(),
    ensures
        loadable(b, table_len(b))[k] is Ok,
        ({
            let s = loadable(b, table_len(b))[k]->Ok_0;
            let range = image_span(b)->Ok_0;
            &&& range.0 <= s.vaddr
            &&& end_of(s) <= range.1
            &&& s.data.len() <= s.mem_size
        }),
{
    let segments = loadable(b, table_len(b));
    lemma_spanned_covers(segments, segments.len() as int, k);
    lemma_loadable(b, table_len(b), k);
}

proof fn lemma_spanned_covers(segments: Seq<Result<SegmentView, ElfError>>, n: int, k: int)
    requires
        0 <= k < n <= segments.len(),
        spanned(segments, n) is Ok,
    ensures
        spanned(segments, n)->Ok_0 is Some,
        segments[k] is Ok,
        spanned(segments, n)->Ok_0->Some_0.0 <= segments[k]->Ok_0.vaddr,
        end_of(segments[k]->Ok_0) <= spanned(segments, n)->Ok_0->Some_0.1,
    decreases n,
{
    if k < n - 1 {
        lemma_spanned_covers(segments, n - 1, k);
    }
}

pub proof fn lemma_loadable(b: Seq<u8>, n: int, k: int)
    requires
        0 <= k < loadable(b, n).len(),
        loadable(b, n)[k] is Ok,
    ensures
        loadable(b, n)[k]->Ok_0.data.len() <= loadable(b, n)[k]->Ok_0.mem_size,
    decreases n,
{
    if n > 0 {
        if k < loadable(b, n - 1).len() {
            lemma_loadable(b, n - 1, k);
        }
    }
}

/// Where program header `h` of a file starts.
pub open spec fn header_at(b: Seq<u8>, h: int) -> int {
    double_at(b, 32) + 56 * h
}

/// Whether a segment is what the program header at `off` says: where it goes, how
/// much memory it takes, its permissions, and its bytes, taken from the file. A
/// header that points past the end of the file, or has more bytes in the file
/// than in memory, says nothing.
pub open spec fn is_told_by(s: Result<SegmentView, ElfError>, b: Seq<u8>, off: int) -> bool {
    let at = double_at(b, off + 8);
    let len = double_at(b, off + 32);
    let size = double_at(b, off + 40);
    &&& at + len > b.len() || len > size ==> s is Err
    &&& at + len <= b.len() && len <= size ==> {
        &&& s is Ok
        &&& s->Ok_0.vaddr == double_at(b, off + 16)
        &&& s->Ok_0.mem_size == size
        &&& s->Ok_0.flags == word_at(b, off + 4)
        &&& s->Ok_0.data.len() == len
        &&& forall|i: int| 0 <= i < len ==> #[trigger] s->Ok_0.data[i] == b[at + i]
    }
}

/// Every segment is what some header of type one says.
pub proof fn a_segment_is_what_its_header_says(b: Seq<u8>, n: int, j: int) -> (h: int)
    requires
        0 <= j < loadable(b, n).len(),
    ensures
        0 <= h < n,
        word_at(b, header_at(b, h)) == 1,
        is_told_by(loadable(b, n)[j], b, header_at(b, h)),
    decreases n,
{
    if n > 0 && j < loadable(b, n - 1).len() {
        a_segment_is_what_its_header_says(b, n - 1, j)
    } else {
        n - 1
    }
}

/// Every header of type one makes a segment, and a later one a later segment.
pub proof fn a_header_to_load_makes_a_segment(b: Seq<u8>, n: int, h: int) -> (j: int)
    requires
        0 <= h < n,
        word_at(b, header_at(b, h)) == 1,
    ensures
        0 <= j < loadable(b, n).len(),
        is_told_by(loadable(b, n)[j], b, header_at(b, h)),
        j == loadable(b, h).len(),
    decreases n,
{
    if h < n - 1 {
        a_header_to_load_makes_a_segment(b, n - 1, h)
    } else {
        loadable(b, h).len() as int
    }
}

} // verus!
