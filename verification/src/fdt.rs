//! A minimal flattened device tree reader.

use vstd::prelude::*;

verus! {

#[derive(Debug, Clone, Copy, PartialEq, Eq, Structural)]
pub enum FdtError {
    /// Magic number is not 0xd00dfeed, so the blob is not a DTB at all.
    BadMagic,
    /// A read ran off the end of the blob.
    Truncated,
    /// A token we do not recognise: the stream is corrupt or a newer format.
    BadToken(u32),
    /// A string in the blob is not valid UTF-8.
    BadString,
    /// Nesting deeper than we track.
    TooDeep,
}

pub const FDT_MAGIC: u32 = 0xd00d_feed;

pub const FDT_BEGIN_NODE: u32 = 1;

pub const FDT_END_NODE: u32 = 2;

pub const FDT_PROP: u32 = 3;

pub const FDT_NOP: u32 = 4;

pub const FDT_END: u32 = 9;

/// Deepest nesting we track node names for.
pub const MAX_DEPTH: usize = 8;

pub const HEADER_SIZE: usize = 40;

#[derive(Clone, Copy, Debug)]
struct Header {
    total_size: u64,
    off_struct: u64,
    off_strings: u64,
    off_rsvmap: u64,
    size_struct: u64,
}

/// One property of one node.
#[derive(Clone, Copy)]
pub struct Property<'a> {
    /// Depth of the node owning this property; the root is 0.
    pub depth: usize,
    /// Name of the owning node, e.g. `memory@80000000`.
    pub node: &'a [u8],
    /// Name of the owning node's parent, e.g. `reserved-memory`.
    pub parent: &'a [u8],
    /// Property name, e.g. `reg`.
    pub name: &'a [u8],
    /// Raw big-endian value bytes.
    pub value: &'a [u8],
}

/// One property, with its names and its value as sequences of bytes.
pub struct PropertyView {
    pub depth: nat,
    pub node: Seq<u8>,
    pub parent: Seq<u8>,
    pub name: Seq<u8>,
    pub value: Seq<u8>,
}

impl<'a> View for Property<'a> {
    type V = PropertyView;

    open spec fn view(&self) -> PropertyView {
        PropertyView {
            depth: self.depth as nat,
            node: self.node@,
            parent: self.parent@,
            name: self.name@,
            value: self.value@,
        }
    }
}

/// The properties of a list, each by its view.
pub open spec fn views(s: Seq<Property>) -> Seq<PropertyView> {
    Seq::new(s.len(), |i: int| s[i]@)
}

// --- Numbers and strings ---

/// The number four big-endian bytes stand for.
pub open spec fn word_of(b0: u8, b1: u8, b2: u8, b3: u8) -> u32 {
    (b0 * 0x100_0000 + b1 * 0x1_0000 + b2 * 0x100 + b3) as u32
}

/// The big-endian word at `off`, if the blob reaches that far.
pub open spec fn word_at(b: Seq<u8>, off: int) -> Option<u32> {
    if 0 <= off && off + 4 <= b.len() {
        Some(word_of(b[off], b[off + 1], b[off + 2], b[off + 3]))
    } else {
        None
    }
}

/// The big-endian double word at `off`, if the blob reaches that far.
pub open spec fn double_at(b: Seq<u8>, off: int) -> Option<u64> {
    match (word_at(b, off), word_at(b, off + 4)) {
        (Some(hi), Some(lo)) => Some((hi * 0x1_0000_0000 + lo) as u64),
        _ => None,
    }
}

/// The position of the first zero byte at or after `i`.
pub open spec fn zero_from(b: Seq<u8>, i: int) -> Option<int>
    decreases b.len() - i,
{
    if i < 0 || i >= b.len() {
        None
    } else if b[i] == 0 {
        Some(i)
    } else {
        zero_from(b, i + 1)
    }
}

/// The zero-terminated string at `off`.
pub open spec fn string_at(b: Seq<u8>, off: int) -> Result<Seq<u8>, FdtError> {
    if off < 0 || off > b.len() {
        Err(FdtError::Truncated)
    } else {
        match zero_from(b, off) {
            None => Err(FdtError::Truncated),
            Some(end) => if vstd::utf8::valid_utf8(b.subrange(off, end)) {
                Ok(b.subrange(off, end))
            } else {
                Err(FdtError::BadString)
            },
        }
    }
}

/// `n` rounded up to a multiple of four.
pub open spec fn rounded4(n: int) -> int {
    ((n + 3) / 4) * 4
}

/// The number that `cells` big-endian words from `offset` on stand for, keeping
/// the low 64 bits, or nothing if the value is too short.
pub open spec fn cells_at(value: Seq<u8>, offset: int, cells: nat) -> Option<u64>
    decreases cells,
{
    if cells == 0 {
        Some(0)
    } else {
        match (
            cells_at(value, offset, (cells - 1) as nat),
            word_at(value, offset + 4 * (cells - 1)),
        ) {
            (Some(acc), Some(w)) => Some(((acc % 0x1_0000_0000) * 0x1_0000_0000 + w) as u64),
            _ => None,
        }
    }
}

// --- The blocks of the tree ---

/// What walking the reservation block from `off` finds: the reservations up to
/// the terminating pair of zeroes, or up to where the blob ends.
pub open spec fn reservations_from(b: Seq<u8>, off: int) -> (
    Seq<(u64, u64)>,
    Result<(), FdtError>,
)
    decreases b.len() - off,
{
    if off < 0 {
        (Seq::empty(), Err(FdtError::Truncated))
    } else {
        match (double_at(b, off), double_at(b, off + 8)) {
            (Some(addr), Some(size)) => if addr == 0 && size == 0 {
                (Seq::empty(), Ok(()))
            } else {
                let rest = reservations_from(b, off + 16);
                (seq![(addr, size)] + rest.0, rest.1)
            },
            _ => (Seq::empty(), Err(FdtError::Truncated)),
        }
    }
}

/// The innermost open node, or the empty name outside any.
pub open spec fn innermost(open: Seq<Seq<u8>>) -> Seq<u8> {
    if open.len() >= 1 {
        open[open.len() - 1]
    } else {
        Seq::empty()
    }
}

/// The parent of the innermost open node, or the empty name.
pub open spec fn second_innermost(open: Seq<Seq<u8>>) -> Seq<u8> {
    if open.len() >= 2 {
        open[open.len() - 2]
    } else {
        Seq::empty()
    }
}

/// What walking the structure block from `off` to `end` finds, with the nodes
/// of `open` entered and not yet left: the properties met, in order, and
/// whether the walk came to a proper end.
pub open spec fn properties_from(
    b: Seq<u8>,
    strings: int,
    off: int,
    end: int,
    open: Seq<Seq<u8>>,
) -> (Seq<PropertyView>, Result<(), FdtError>)
    decreases
            if off < end {
                end - off
            } else {
                0
            },
{
    if off >= end {
        (Seq::empty(), Ok(()))
    } else {
        match word_at(b, off) {
            None => (Seq::empty(), Err(FdtError::Truncated)),
            Some(token) => if token == FDT_BEGIN_NODE {
                match string_at(b, off + 4) {
                    Err(e) => (Seq::empty(), Err(e)),
                    Ok(name) => if open.len() >= MAX_DEPTH {
                        (Seq::empty(), Err(FdtError::TooDeep))
                    } else {
                        properties_from(
                            b,
                            strings,
                            off + 4 + rounded4(name.len() as int + 1),
                            end,
                            open.push(name),
                        )
                    },
                }
            } else if token == FDT_END_NODE {
                properties_from(
                    b,
                    strings,
                    off + 4,
                    end,
                    if open.len() > 0 {
                        open.drop_last()
                    } else {
                        open
                    },
                )
            } else if token == FDT_PROP {
                match (word_at(b, off + 4), word_at(b, off + 8)) {
                    (Some(len), Some(name_off)) => if off + 12 + len > b.len() {
                        (Seq::empty(), Err(FdtError::Truncated))
                    } else {
                        match string_at(b, strings + name_off) {
                            Err(e) => (Seq::empty(), Err(e)),
                            Ok(name) => {
                                let here = PropertyView {
                                    depth: if open.len() > 0 {
                                        (open.len() - 1) as nat
                                    } else {
                                        0
                                    },
                                    node: innermost(open),
                                    parent: second_innermost(open),
                                    name,
                                    value: b.subrange(off + 12, off + 12 + len),
                                };
                                let rest = properties_from(
                                    b,
                                    strings,
                                    off + 12 + rounded4(len as int),
                                    end,
                                    open,
                                );
                                (seq![here] + rest.0, rest.1)
                            },
                        }
                    },
                    _ => (Seq::empty(), Err(FdtError::Truncated)),
                }
            } else if token == FDT_NOP {
                properties_from(b, strings, off + 4, end, open)
            } else if token == FDT_END {
                (Seq::empty(), Ok(()))
            } else {
                (Seq::empty(), Err(FdtError::BadToken(token)))
            },
        }
    }
}

/// Field `i` of the header, as a number; zero where the blob is too short.
pub open spec fn header_field(b: Seq<u8>, i: int) -> int {
    match word_at(b, 4 * i) {
        Some(w) => w as int,
        None => 0,
    }
}

/// Why `b` is not a device tree, if it is not.
pub open spec fn refused(b: Seq<u8>) -> Option<FdtError> {
    if b.len() < HEADER_SIZE {
        Some(FdtError::Truncated)
    } else if header_field(b, 0) != FDT_MAGIC {
        Some(FdtError::BadMagic)
    } else if header_field(b, 1) < HEADER_SIZE || header_field(b, 1) > b.len() {
        Some(FdtError::Truncated)
    } else if header_field(b, 2) + header_field(b, 9) > header_field(b, 1) || header_field(b, 3)
        > header_field(b, 1) || header_field(b, 4) > header_field(b, 1) {
        Some(FdtError::Truncated)
    } else {
        None
    }
}

/// Every property of the tree `b` holds, and whether the walk came to a proper
/// end.
pub open spec fn properties_of(b: Seq<u8>) -> (Seq<PropertyView>, Result<(), FdtError>) {
    let blob = b.subrange(0, header_field(b, 1));
    properties_from(
        blob,
        header_field(b, 3),
        header_field(b, 2),
        header_field(b, 2) + header_field(b, 9),
        Seq::empty(),
    )
}

/// Every memory reservation of the tree `b` holds, and whether the list came to
/// a proper end.
pub open spec fn reservations_of(b: Seq<u8>) -> (Seq<(u64, u64)>, Result<(), FdtError>) {
    reservations_from(b.subrange(0, header_field(b, 1)), header_field(b, 4))
}

/// A flattened device tree.
pub struct Fdt<'a> {
    blob: &'a [u8],
    header: Header,
}

impl<'a> Fdt<'a> {
    #[verifier::type_invariant]
    spec fn consistent(self) -> bool {
        &&& self.blob@.len() == self.header.total_size
        &&& self.header.total_size <= u32::MAX
        &&& self.header.off_struct + self.header.size_struct <= self.header.total_size
        &&& self.header.off_strings <= self.header.total_size
        &&& self.header.off_rsvmap <= self.header.total_size
    }

    /// The bytes of the tree, all of them and no more.
    pub closed spec fn bytes(&self) -> Seq<u8> {
        self.blob@
    }

    /// The properties met on a walk of the structure block, and its outcome.
    pub closed spec fn found_properties(&self) -> (Seq<PropertyView>, Result<(), FdtError>) {
        properties_from(
            self.blob@,
            self.header.off_strings as int,
            self.header.off_struct as int,
            self.header.off_struct + self.header.size_struct,
            Seq::empty(),
        )
    }

    /// The entries met on a walk of the reservation block, and its outcome.
    pub closed spec fn found_reservations(&self) -> (Seq<(u64, u64)>, Result<(), FdtError>) {
        reservations_from(self.blob@, self.header.off_rsvmap as int)
    }

    /// Interpret the start of `bytes` as a flattened device tree.
    ///
    /// The header says how long the tree is; what follows it is ignored.
    pub fn from_ptr(bytes: &'a [u8]) -> (r: Result<Self, FdtError>)
        ensures
            match refused(bytes@) {
                Some(e) => r is Err && r->Err_0 == e,
                None => r is Ok,
            },
            r matches Ok(fdt) ==> {
                &&& fdt.bytes() == bytes@.subrange(0, header_field(bytes@, 1))
                &&& fdt.found_properties() == properties_of(bytes@)
                &&& fdt.found_reservations() == reservations_of(bytes@)
            },
    {
        let available: usize = bytes.len();
        if available < HEADER_SIZE {
            return Err(FdtError::Truncated);
        }
        let magic: u32 = match be32(bytes, 0) {
            Ok(w) => w,
            Err(e) => {
                return Err(e);
            },
        };
        if magic != FDT_MAGIC {
            return Err(FdtError::BadMagic);
        }
        let total_size: u64 = match be32(bytes, 4) {
            Ok(w) => w as u64,
            Err(e) => {
                return Err(e);
            },
        };
        let off_struct: u64 = match be32(bytes, 8) {
            Ok(w) => w as u64,
            Err(e) => {
                return Err(e);
            },
        };
        let off_strings: u64 = match be32(bytes, 12) {
            Ok(w) => w as u64,
            Err(e) => {
                return Err(e);
            },
        };
        let off_rsvmap: u64 = match be32(bytes, 16) {
            Ok(w) => w as u64,
            Err(e) => {
                return Err(e);
            },
        };
        let size_struct: u64 = match be32(bytes, 36) {
            Ok(w) => w as u64,
            Err(e) => {
                return Err(e);
            },
        };
        if total_size < HEADER_SIZE as u64 || total_size > available as u64 {
            return Err(FdtError::Truncated);
        }
        // Validate the block offsets once, so every later read is against a checked blob.

        if off_struct + size_struct > total_size || off_strings > total_size || off_rsvmap
            > total_size {
            return Err(FdtError::Truncated);
        }
        let blob: &'a [u8] = vstd::slice::slice_subrange(bytes, 0, total_size as usize);
        Ok(
            Fdt {
                blob,
                header: Header { total_size, off_struct, off_strings, off_rsvmap, size_struct },
            },
        )
    }

    pub fn total_size(&self) -> (r: u64)
        ensures
            r == self.bytes().len(),
            r <= u32::MAX,
    {
        proof {
            use_type_invariant(self);
        }
        self.header.total_size
    }

    /// Visit every `(address, size)` pair in the memory reservation block.
    ///
    /// A zero-length entry at address zero terminates the list. Where the blob
    /// ends first, the entries before that are still reported, with the error.
    pub fn for_each_reservation(&self) -> (r: (Vec<(u64, u64)>, Result<(), FdtError>))
        ensures
            r.0@ == self.found_reservations().0,
            r.1 == self.found_reservations().1,
    {
        proof {
            use_type_invariant(self);
        }
        let mut found: Vec<(u64, u64)> = Vec::new();
        let mut off: u64 = self.header.off_rsvmap;
        let ghost whole = reservations_from(self.blob@, off as int);
        loop
            invariant
                self.blob@.len() <= u32::MAX,
                off <= self.blob@.len(),
                whole == self.found_reservations(),
                whole.0 == found@ + reservations_from(self.blob@, off as int).0,
                whole.1 == reservations_from(self.blob@, off as int).1,
            decreases self.blob@.len() - off,
        {
            let ghost here = reservations_from(self.blob@, off as int);
            assert(found@ + Seq::<(u64, u64)>::empty() =~= found@);
            let addr: u64 = match be64(self.blob, off) {
                Ok(v) => v,
                Err(e) => {
                    return (found, Err(e));
                },
            };
            let size: u64 = match be64(self.blob, off + 8) {
                Ok(v) => v,
                Err(e) => {
                    return (found, Err(e));
                },
            };
            if addr == 0 && size == 0 {
                return (found, Ok(()));
            }
            let ghost before = found@;
            found.push((addr, size));
            off = off + 16;
            assert(before + here.0 =~= found@ + reservations_from(self.blob@, off as int).0);
        }
    }

    /// Walk the structure block, visiting every property.
    ///
    /// Where the walk fails, the properties before that are still reported,
    /// with the error.
    pub fn for_each_property(&self) -> (r: (Vec<Property<'a>>, Result<(), FdtError>))
        ensures
            views(r.0@) == self.found_properties().0,
            r.1 == self.found_properties().1,
    {
        proof {
            use_type_invariant(self);
        }
        let mut found: Vec<Property<'a>> = Vec::new();
        let mut names: Vec<&'a [u8]> = Vec::new();
        let mut off: u64 = self.header.off_struct;
        let end: u64 = self.header.off_struct + self.header.size_struct;
        let strings: u64 = self.header.off_strings;
        let blob: &'a [u8] = self.blob;
        let size: u64 = self.header.total_size;
        let ghost whole = properties_from(
            blob@,
            strings as int,
            off as int,
            end as int,
            Seq::empty(),
        );
        assert(name_views(names@) =~= Seq::<Seq<u8>>::empty());
        assert(views(found@) =~= Seq::<PropertyView>::empty());
        assert(Seq::<PropertyView>::empty() + whole.0 =~= whole.0);
        while off < end
            invariant
                blob@.len() == size,
                size <= u32::MAX,
                end <= size,
                strings <= size,
                off <= size + 8,
                names@.len() <= MAX_DEPTH,
                whole == self.found_properties(),
                whole.0 == views(found@) + properties_from(
                    blob@,
                    strings as int,
                    off as int,
                    end as int,
                    name_views(names@),
                ).0,
                whole.1 == properties_from(
                    blob@,
                    strings as int,
                    off as int,
                    end as int,
                    name_views(names@),
                ).1,
            decreases size + 8 - off,
        {
            let ghost open = name_views(names@);
            let ghost here = properties_from(
                blob@,
                strings as int,
                off as int,
                end as int,
                open,
            );
            assert(views(found@) + Seq::<PropertyView>::empty() =~= views(found@));
            let token: u32 = match be32(blob, off) {
                Ok(w) => w,
                Err(e) => {
                    return (found, Err(e));
                },
            };
            off = off + 4;
            if token == FDT_BEGIN_NODE {
                let name: &'a [u8] = match cstr(blob, off) {
                    Ok(n) => n,
                    Err(e) => {
                        return (found, Err(e));
                    },
                };
                if names.len() >= MAX_DEPTH {
                    return (found, Err(FdtError::TooDeep));
                }
                off = off + align4(name.len() as u64 + 1);
                names.push(name);
                assert(name_views(names@) =~= open.push(name@));
            } else if token == FDT_END_NODE {
                // Saturating: a corrupt blob should not take the kernel down.
                if names.len() > 0 {
                    let _ = names.pop();
                    assert(name_views(names@) =~= open.drop_last());
                }
            } else if token == FDT_PROP {
                let len: u64 = match be32(blob, off) {
                    Ok(w) => w as u64,
                    Err(e) => {
                        return (found, Err(e));
                    },
                };
                let name_off: u64 = match be32(blob, off + 4) {
                    Ok(w) => w as u64,
                    Err(e) => {
                        return (found, Err(e));
                    },
                };
                off = off + 8;
                if off + len > size {
                    return (found, Err(FdtError::Truncated));
                }
                let value: &'a [u8] = vstd::slice::slice_subrange(
                    blob,
                    off as usize,
                    (off + len) as usize,
                );
                off = off + align4(len);
                let name: &'a [u8] = match cstr(blob, strings + name_off) {
                    Ok(n) => n,
                    Err(e) => {
                        return (found, Err(e));
                    },
                };
                let depth: usize = names.len();
                let none: &'a [u8] = vstd::slice::slice_subrange(blob, 0, 0);
                let node: &'a [u8] = if depth >= 1 {
                    names[depth - 1]
                } else {
                    none
                };
                let parent: &'a [u8] = if depth >= 2 {
                    names[depth - 2]
                } else {
                    none
                };
                let property: Property<'a> = Property {
                    depth: if depth >= 1 {
                        depth - 1
                    } else {
                        0
                    },
                    node,
                    parent,
                    name,
                    value,
                };
                let ghost before = found@;
                found.push(property);
                proof {
                    assert(none@ =~= Seq::<u8>::empty());
                    assert(node@ == innermost(open));
                    assert(parent@ == second_innermost(open));
                    assert(views(found@) =~= views(before).push(property@));
                    assert(views(before) + here.0 =~= views(found@) + properties_from(
                        blob@,
                        strings as int,
                        off as int,
                        end as int,
                        open,
                    ).0);
                }
            } else if token == FDT_NOP {
            } else if token == FDT_END {
                return (found, Ok(()));
            } else {
                return (found, Err(FdtError::BadToken(token)));
            }
        }
        assert(views(found@) + Seq::<PropertyView>::empty() =~= views(found@));
        (found, Ok(()))
    }
}

/// Names of nodes, each by its view.
spec fn name_views(s: Seq<&[u8]>) -> Seq<Seq<u8>> {
    Seq::new(s.len(), |i: int| s[i]@)
}

/// Read `cells` consecutive 4-byte big-endian cells as one number.
pub fn read_cells(value: &[u8], offset: u64, cells: u64) -> (r: Result<u64, FdtError>)
    ensures
        match cells_at(value@, offset as int, cells as nat) {
            Some(v) => r == Ok::<u64, FdtError>(v),
            None => r == Err::<u64, FdtError>(FdtError::Truncated),
        },
{
    let mut acc: u64 = 0;
    let mut at: u64 = offset;
    let mut i: u64 = 0;
    while i < cells
        invariant
            i <= cells,
            at == offset + 4 * i,
            cells_at(value@, offset as int, i as nat) == Some(acc),
            i > 0 ==> at <= value@.len(),
        decreases cells - i,
    {
        match be32(value, at) {
            Ok(w) => {
                proof {
                    lemma_shift_in(acc, w);
                }
                acc = (acc << 32) | w as u64;
                at = at + 4;
                i = i + 1;
            },
            Err(e) => {
                proof {
                    lemma_short_cells(value@, offset as int, i as nat, cells as nat);
                }
                return Err(e);
            },
        }
    }
    Ok(acc)
}

proof fn lemma_short_cells(value: Seq<u8>, offset: int, i: nat, cells: nat)
    requires
        i < cells,
        word_at(value, offset + 4 * i) is None,
    ensures
        cells_at(value, offset, cells) is None,
    decreases cells - i,
{
    if i + 1 < cells {
        lemma_short_cells(value, offset, i, (cells - 1) as nat);
    }
}

proof fn lemma_shift_in(acc: u64, w: u32)
    by (bit_vector)
    ensures
        (acc << 32) | w as u64 == (acc % 0x1_0000_0000) * 0x1_0000_0000 + w,
{
}

proof fn lemma_bytes_to_word(b0: u8, b1: u8, b2: u8, b3: u8)
    by (bit_vector)
    ensures
        ((b0 as u32) << 24) | ((b1 as u32) << 16) | ((b2 as u32) << 8) | (b3 as u32) == b0
            * 0x100_0000 + b1 * 0x1_0000 + b2 * 0x100 + b3,
{
}

fn align4(n: u64) -> (r: u64)
    requires
        n <= 0x2_0000_0000,
    ensures
        r == rounded4(n as int),
        n <= r < n + 4,
{
    ((n + 3) / 4) * 4
}

fn be32(b: &[u8], off: u64) -> (r: Result<u32, FdtError>)
    ensures
        match word_at(b@, off as int) {
            Some(w) => r == Ok::<u32, FdtError>(w) && off + 4 <= b@.len() <= u64::MAX,
            None => r == Err::<u32, FdtError>(FdtError::Truncated),
        },
{
    let len: u64 = b.len() as u64;
    if off > len || len - off < 4 {
        return Err(FdtError::Truncated);
    }
    let i: usize = off as usize;
    proof {
        lemma_bytes_to_word(b@[i as int], b@[i + 1], b@[i + 2], b@[i + 3]);
    }
    Ok(
        ((b[i] as u32) << 24) | ((b[i + 1] as u32) << 16) | ((b[i + 2] as u32) << 8) | (b[i
            + 3] as u32),
    )
}

fn be64(b: &[u8], off: u64) -> (r: Result<u64, FdtError>)
    requires
        off <= u64::MAX - 8,
    ensures
        match double_at(b@, off as int) {
            Some(v) => r == Ok::<u64, FdtError>(v) && off + 8 <= b@.len(),
            None => r == Err::<u64, FdtError>(FdtError::Truncated),
        },
{
    match (be32(b, off), be32(b, off + 4)) {
        (Ok(hi), Ok(lo)) => {
            proof {
                lemma_shift_in(hi as u64, lo);
            }
            Ok(((hi as u64) << 32) | lo as u64)
        },
        _ => Err(FdtError::Truncated),
    }
}

fn cstr<'a>(b: &'a [u8], off: u64) -> (r: Result<&'a [u8], FdtError>)
    ensures
        match string_at(b@, off as int) {
            Ok(name) => r is Ok && r->Ok_0@ == name && off + name.len() < b@.len(),
            Err(e) => r is Err && r->Err_0 == e,
        },
{
    let len: usize = b.len();
    if off > len as u64 {
        return Err(FdtError::Truncated);
    }
    let start: usize = off as usize;
    let mut i: usize = start;
    while i < len
        invariant
            start <= i <= len,
            len == b@.len(),
            start == off,
            zero_from(b@, off as int) == zero_from(b@, i as int),
        decreases len - i,
    {
        if b[i] == 0 {
            let name: &'a [u8] = vstd::slice::slice_subrange(b, start, i);
            return if crate::text::decoded(name).is_some() {
                Ok(name)
            } else {
                Err(FdtError::BadString)
            };
        }
        i = i + 1;
    }
    Err(FdtError::Truncated)
}

/// One cell is four bytes, highest first, and two cells are eight.
pub proof fn cells_are_read_highest_first(value: Seq<u8>, offset: int)
    requires
        0 <= offset,
        offset + 8 <= value.len(),
    ensures
        cells_at(value, offset, 1) == Some(
            (0x100_0000 * value[offset] + 0x1_0000 * value[offset + 1] + 0x100 * value[offset + 2]
                + value[offset + 3]) as u64,
        ),
        cells_at(value, offset, 2) == Some(
            (0x1_0000_0000 * (0x100_0000 * value[offset] + 0x1_0000 * value[offset + 1] + 0x100
                * value[offset + 2] + value[offset + 3]) + 0x100_0000 * value[offset + 4] + 0x1_0000
                * value[offset + 5] + 0x100 * value[offset + 6] + value[offset + 7]) as u64,
        ),
{
    reveal_with_fuel(cells_at, 3);
}

} // verus!
