//! The platform-level interrupt controller.

use crate::fdt::{read_cells, Fdt, Property};
use crate::mm::addr::{PhysAddr, VirtAddr};
use crate::mm::region::Region;
use vstd::prelude::*;

verus! {

/// Per-source priority, one 32-bit word each. Source 0 does not exist.
pub const PRIORITY: u64 = 0x0000;

/// Per-context enable bits, 0x80 bytes (1024 sources) per context.
pub const ENABLE: u64 = 0x2000;

pub const ENABLE_STRIDE: u64 = 0x80;

/// Per-context threshold, then claim/complete, 0x1000 bytes per context.
pub const THRESHOLD: u64 = 0x20_0000;

pub const CONTEXT_STRIDE: u64 = 0x1000;

pub const CLAIM: u64 = 0x20_0004;

/// The S-mode external interrupt cause, which is how a hart's supervisor
/// context is recognised in the controller's `interrupts-extended` list.
pub const CAUSE_S_EXTERNAL: u64 = 9;

/// The longest node name the controller may have.
pub const MAX_NODE_NAME: usize = 64;

#[derive(Debug, Clone, Copy, PartialEq, Eq, Structural)]
pub struct PlicInfo {
    pub region: Region,
    /// Highest source number the controller implements.
    pub ndev: u64,
    /// Which of the controller's contexts is this hart's supervisor mode.
    pub context: u64,
}

// --- Finding the controller ---

/// Whether a property says that its node is an interrupt controller.
pub open spec fn names_controller(p: crate::fdt::PropertyView) -> bool {
    &&& p.name == crate::text::bytes_of("compatible"@)
    &&& crate::text::occurs(p.value, crate::text::bytes_of("plic"@))
    &&& p.node.len() <= MAX_NODE_NAME
}

/// The name of the controller's node: that of the last node that says it is one.
pub open spec fn controller_node(props: Seq<crate::fdt::PropertyView>) -> Seq<u8>
    decreases props.len(),
{
    if props.len() == 0 {
        Seq::empty()
    } else if names_controller(props.last()) {
        props.last().node
    } else {
        controller_node(props.drop_last())
    }
}

/// Whether `p` is the property `name` of `node`.
pub open spec fn is_property(
    p: crate::fdt::PropertyView,
    node: Seq<u8>,
    name: Seq<char>,
) -> bool {
    p.node == node && p.name == crate::text::bytes_of(name)
}

/// How many sources the controller has; zero where it does not say.
pub open spec fn source_count(props: Seq<crate::fdt::PropertyView>, node: Seq<u8>) -> u64
    decreases props.len(),
{
    if props.len() == 0 {
        0
    } else if is_property(props.last(), node, "riscv,ndev"@) {
        match crate::fdt::cells_at(props.last().value, 0, 1) {
            Some(n) => n,
            None => 0,
        }
    } else {
        source_count(props.drop_last(), node)
    }
}

/// The base and size a `reg` property gives, as two cells each.
pub open spec fn wide_reg(value: Seq<u8>) -> Option<(u64, u64)> {
    match (crate::fdt::cells_at(value, 0, 2), crate::fdt::cells_at(value, 8, 2)) {
        (Some(base), Some(size)) => Some((base, size)),
        _ => None,
    }
}

/// Where the controller's registers are.
pub open spec fn registers(props: Seq<crate::fdt::PropertyView>, node: Seq<u8>) -> Option<Region>
    decreases props.len(),
{
    if props.len() == 0 {
        None
    } else if is_property(props.last(), node, "reg"@) && wide_reg(props.last().value) is Some {
        let (base, size) = wide_reg(props.last().value)->0;
        Some(Region { start: PhysAddr(base), end: PhysAddr((base + size) as u64) })
    } else {
        registers(props.drop_last(), node)
    }
}

/// The first pair, from pair `i` on, whose second cell is the supervisor cause.
pub open spec fn supervisor_pair(value: Seq<u8>, i: int) -> Option<u64>
    decreases value.len() - 8 * i,
{
    if i < 0 || 8 * i + 8 > value.len() {
        None
    } else if crate::fdt::word_at(value, 8 * i + 4) == Some(CAUSE_S_EXTERNAL as u32) {
        Some(i as u64)
    } else {
        supervisor_pair(value, i + 1)
    }
}

/// Which context is this hart's supervisor mode: the first that says so.
pub open spec fn supervisor_context(
    props: Seq<crate::fdt::PropertyView>,
    node: Seq<u8>,
) -> Option<u64>
    decreases props.len(),
{
    if props.len() == 0 {
        None
    } else {
        match supervisor_context(props.drop_last(), node) {
            Some(c) => Some(c),
            None => if is_property(props.last(), node, "interrupts-extended"@) {
                supervisor_pair(props.last().value, 0)
            } else {
                None
            },
        }
    }
}

/// The controller the device tree describes, if it describes one in full.
pub open spec fn controller(props: Seq<crate::fdt::PropertyView>) -> Option<PlicInfo> {
    let node = controller_node(props);
    if node.len() == 0 {
        None
    } else {
        match (registers(props, node), supervisor_context(props, node)) {
            (Some(region), Some(context)) => Some(
                PlicInfo { region, ndev: source_count(props, node), context },
            ),
            _ => None,
        }
    }
}

/// Whether every `reg` property of the controller's node, read as two cells
/// each, stays inside the address space.
pub open spec fn wide_regs_fit(props: Seq<crate::fdt::PropertyView>) -> bool {
    forall|i: int|
        0 <= i < props.len() && is_property(
            #[trigger] props[i],
            controller_node(props),
            "reg"@,
        ) ==> (wide_reg(props[i].value) matches Some(r) ==> r.0 + r.1 <= u64::MAX)
}

/// The supervisor context among the pairs of an `interrupts-extended` value.
fn find_context(value: &[u8]) -> (r: Option<u64>)
    ensures
        r == supervisor_pair(value@, 0),
{
    let total: u64 = value.len() as u64;
    let mut i: u64 = 0;
    while 8 * i + 8 <= total
        invariant
            total == value@.len(),
            8 * i <= total,
            total <= usize::MAX,
            i <= 0x1fff_ffff_ffff_fffe,
            supervisor_pair(value@, 0) == supervisor_pair(value@, i as int),
        decreases total - 8 * i,
    {
        proof {
            reveal_with_fuel(crate::fdt::cells_at, 2);
        }
        match read_cells(value, 8 * i + 4, 1) {
            Ok(cause) => {
                if cause == CAUSE_S_EXTERNAL {
                    return Some(i);
                }
            },
            Err(_) => {},
        }
        if total - (8 * i + 8) < 8 {
            assert(supervisor_pair(value@, i + 1) is None);
            return None;
        }
        i = i + 1;
    }
    None
}

/// The name of the node that says it is the controller; empty if none does.
fn find_node<'a>(props: &Vec<Property<'a>>) -> (r: Option<&'a [u8]>)
    ensures
        match r {
            Some(n) => n@ == controller_node(crate::fdt::views(props@)),
            None => controller_node(crate::fdt::views(props@)).len() == 0,
        },
{
    let ghost seen = crate::fdt::views(props@);
    let count: usize = props.len();
    let mut node: Option<&[u8]> = None;
    let mut i: usize = 0;
    while i < count
        invariant
            i <= count,
            count == props@.len(),
            seen == crate::fdt::views(props@),
            match node {
                Some(n) => n@ == controller_node(seen.take(i as int)),
                None => controller_node(seen.take(i as int)).len() == 0,
            },
        decreases count - i,
    {
        let p: Property = props[i];
        assert(seen.take(i + 1).drop_last() =~= seen.take(i as int));
        assert(seen[i as int] == p@);
        if crate::text::is(p.name, "compatible") && crate::text::contains(p.value, "plic")
            && p.node.len() <= MAX_NODE_NAME {
            node = Some(p.node);
        }
        i = i + 1;
    }
    assert(seen.take(count as int) =~= seen);
    node
}

/// Whether the controller's registers stay inside the address space.
pub(crate) fn registers_fit(props: &Vec<Property>) -> (r: bool)
    ensures
        r == wide_regs_fit(crate::fdt::views(props@)),
{
    let ghost seen = crate::fdt::views(props@);
    let empty: [u8; 0] = [];
    let node: &[u8] = match find_node(props) {
        Some(n) => n,
        None => vstd::array::array_as_slice(&empty),
    };
    assert(node@ =~= controller_node(seen));
    let count: usize = props.len();
    let mut i: usize = 0;
    while i < count
        invariant
            i <= count,
            count == props@.len(),
            seen == crate::fdt::views(props@),
            node@ == controller_node(seen),
            forall|k: int|
                0 <= k < i && is_property(#[trigger] seen[k], controller_node(seen), "reg"@) ==> (
                wide_reg(seen[k].value) matches Some(r) ==> r.0 + r.1 <= u64::MAX),
        decreases count - i,
    {
        let p: Property = props[i];
        assert(seen[i as int] == p@);
        if crate::text::same(p.node, node) && crate::text::is(p.name, "reg") {
            match (read_cells(p.value, 0, 2), read_cells(p.value, 8, 2)) {
                (Ok(base), Ok(size)) => {
                    assert(wide_reg(seen[i as int].value) == Some((base, size)));
                    if base.checked_add(size).is_none() {
                        return false;
                    }
                },
                _ => {},
            }
        }
        i = i + 1;
    }
    true
}

/// Find the controller in the device tree.
pub fn find(fdt: &Fdt) -> (r: Option<PlicInfo>)
    requires
        wide_regs_fit(fdt.found_properties().0),
    ensures
        r == controller(fdt.found_properties().0),
{
    let (props, _outcome) = fdt.for_each_property();
    let ghost seen = crate::fdt::views(props@);
    let count: usize = props.len();
    let node: &[u8] = match find_node(&props) {
        Some(n) => n,
        None => {
            return None;
        },
    };
    if node.len() == 0 {
        return None;
    }
    let mut ndev: u64 = 0;
    let mut region: Option<Region> = None;
    let mut context: Option<u64> = None;
    let mut i: usize = 0;
    while i < count
        invariant
            i <= count,
            count == props@.len(),
            seen == crate::fdt::views(props@),
            wide_regs_fit(seen),
            node@ == controller_node(seen),
            ndev == source_count(seen.take(i as int), node@),
            region == registers(seen.take(i as int), node@),
            context == supervisor_context(seen.take(i as int), node@),
        decreases count - i,
    {
        let p: Property = props[i];
        proof {
            assert(seen.take(i + 1).drop_last() =~= seen.take(i as int));
            assert(seen[i as int] == p@);
            lemma_names_differ();
        }
        if crate::text::same(p.node, node) {
            if crate::text::is(p.name, "riscv,ndev") {
                ndev =
                match read_cells(p.value, 0, 1) {
                    Ok(n) => n,
                    Err(_) => 0,
                };
            } else if crate::text::is(p.name, "reg") {
                match (read_cells(p.value, 0, 2), read_cells(p.value, 8, 2)) {
                    (Ok(base), Ok(size)) => {
                        assert(wide_reg(seen[i as int].value) == Some((base, size)));
                        region = Some(Region::from_start_len(PhysAddr(base), size));
                    },
                    _ => {},
                }
            } else if crate::text::is(p.name, "interrupts-extended") {
                // Pairs of (interrupt parent, cause).
                if context.is_none() {
                    context = find_context(p.value);
                }
            }
        }
        i = i + 1;
    }
    assert(seen.take(count as int) =~= seen);
    match (region, context) {
        (Some(region), Some(context)) => Some(PlicInfo { region, ndev, context }),
        _ => None,
    }
}

/// The three properties the controller is read from have three different names.
proof fn lemma_names_differ()
    ensures
        crate::text::bytes_of("riscv,ndev"@) != crate::text::bytes_of("reg"@),
        crate::text::bytes_of("riscv,ndev"@) != crate::text::bytes_of("interrupts-extended"@),
        crate::text::bytes_of("reg"@) != crate::text::bytes_of("interrupts-extended"@),
{
    reveal_strlit("riscv,ndev");
    reveal_strlit("reg");
    reveal_strlit("interrupts-extended");
    vstd::utf8::encode_utf8_decode_utf8("riscv,ndev"@);
    vstd::utf8::encode_utf8_decode_utf8("reg"@);
    vstd::utf8::encode_utf8_decode_utf8("interrupts-extended"@);
    assert("riscv,ndev"@.len() != "reg"@.len());
    assert("riscv,ndev"@.len() != "interrupts-extended"@.len());
    assert("reg"@.len() != "interrupts-extended"@.len());
}

// --- Driving the controller ---

/// One access to a 32-bit register, at an offset from the controller's base.
#[derive(Debug, Clone, Copy, PartialEq, Eq, Structural)]
pub enum RegOp {
    /// Store a value.
    Write { offset: u64, value: u32 },
    /// Read the register, set these bits, and store it back.
    SetBits { offset: u64, bits: u32 },
    /// Read the register, clear these bits, and store it back.
    ClearBits { offset: u64, bits: u32 },
}

impl RegOp {
    /// The register the access is to.
    pub open spec fn register(self) -> u64 {
        match self {
            RegOp::Write { offset, .. } => offset,
            RegOp::SetBits { offset, .. } => offset,
            RegOp::ClearBits { offset, .. } => offset,
        }
    }

    /// What the register holds afterwards, if it held `current` before.
    pub open spec fn result(self, current: u32) -> u32 {
        match self {
            RegOp::Write { value, .. } => value,
            RegOp::SetBits { bits, .. } => current | bits,
            RegOp::ClearBits { bits, .. } => current & !bits,
        }
    }

    /// The register the access is to.
    pub fn offset(self) -> (r: u64)
        ensures
            r == self.register(),
    {
        match self {
            RegOp::Write { offset, .. } => offset,
            RegOp::SetBits { offset, .. } => offset,
            RegOp::ClearBits { offset, .. } => offset,
        }
    }

    /// The value to store, if the register holds `current`.
    pub fn apply(self, current: u32) -> (r: u32)
        ensures
            r == self.result(current),
    {
        match self {
            RegOp::Write { value, .. } => value,
            RegOp::SetBits { bits, .. } => current | bits,
            RegOp::ClearBits { bits, .. } => current & !bits,
        }
    }
}

/// The bit that stands for a source in its enable word.
pub open spec fn source_bit(irq: u64) -> u32 {
    1u32 << ((irq % 32) as u32)
}

/// The enable word of a source, for one context.
pub open spec fn enable_register(context: u64, irq: u64) -> int {
    ENABLE + context * ENABLE_STRIDE + (irq / 32) * 4
}

/// The accesses that bring up a controller: for each source in turn, a
/// deliverable priority and a cleared enable bit; then the threshold.
pub open spec fn bring_up(info: PlicInfo, sources: nat) -> Seq<RegOp>
    decreases sources,
{
    if sources == 0 {
        Seq::empty()
    } else {
        bring_up(info, (sources - 1) as nat) + seq![
            RegOp::Write { offset: (PRIORITY + sources * 4) as u64, value: 1 },
            RegOp::ClearBits {
                offset: enable_register(info.context, sources as u64) as u64,
                bits: source_bit(sources as u64),
            },
        ]
    }
}

/// The driver: which controller there is, and where it is mapped.
#[derive(Clone, Copy)]
pub struct Plic {
    pub info: Option<PlicInfo>,
    /// Virtual address of the registers; zero before the driver is armed.
    pub base: u64,
}

impl Plic {
    /// The context in use; zero before the driver is armed.
    pub open spec fn context(self) -> u64 {
        match self.info {
            Some(i) => i.context,
            None => 0,
        }
    }

    /// What lets a source be delivered.
    pub open spec fn unmasking(self, irq: u64) -> RegOp {
        RegOp::SetBits {
            offset: enable_register(self.context(), irq) as u64,
            bits: source_bit(irq),
        }
    }

    /// What stops a source from being delivered.
    pub open spec fn masking(self, irq: u64) -> RegOp {
        RegOp::ClearBits {
            offset: enable_register(self.context(), irq) as u64,
            bits: source_bit(irq),
        }
    }

    pub fn new() -> (r: Self)
        ensures
            r.info is None,
            r.base == 0,
    {
        Plic { info: None, base: 0 }
    }

    /// Arm the driver against a controller the kernel address space already
    /// maps, and say which registers to access to bring it up.
    pub fn init(&mut self, info: PlicInfo, at: VirtAddr) -> (r: Vec<RegOp>)
        requires
            info.ndev <= u32::MAX,
            info.context <= u32::MAX,
        ensures
            final(self).info == Some(info),
            final(self).base == at.0,
            r@ == bring_up(info, info.ndev as nat).push(
                RegOp::Write {
                    offset: (THRESHOLD + info.context * CONTEXT_STRIDE) as u64,
                    value: 0,
                },
            ),
    {
        self.base = at.as_usize();
        self.info = Some(info);
        let mut ops: Vec<RegOp> = Vec::new();
        // Every source starts at priority 1, above the threshold so it can be
        // delivered, and disabled so nothing arrives until someone claims it.
        let mut irq: u64 = 1;
        while irq <= info.ndev
            invariant
                1 <= irq <= info.ndev + 1,
                info.ndev <= u32::MAX,
                info.context <= u32::MAX,
                self.info == Some(info),
                self.base == at.0,
                ops@ == bring_up(info, (irq - 1) as nat),
            decreases info.ndev + 1 - irq,
        {
            let ghost before = ops@;
            ops.push(RegOp::Write { offset: PRIORITY + irq * 4, value: 1 });
            ops.push(self.disable(irq));
            assert(ops@ =~= bring_up(info, irq as nat));
            irq = irq + 1;
        }
        // Threshold 0: accept any priority above zero.
        ops.push(RegOp::Write { offset: THRESHOLD + info.context * CONTEXT_STRIDE, value: 0 });
        ops
    }

    pub fn info(&self) -> (r: Option<PlicInfo>)
        ensures
            r == self.info,
    {
        self.info
    }

    pub fn is_ready(&self) -> (r: bool)
        ensures
            r == (self.base != 0),
    {
        self.base != 0
    }

    fn active_context(&self) -> (r: u64)
        ensures
            r == self.context(),
    {
        match self.info {
            Some(i) => i.context,
            None => 0,
        }
    }

    fn enable_word(&self, irq: u64) -> (r: u64)
        requires
            self.context() <= u32::MAX,
        ensures
            r == enable_register(self.context(), irq),
    {
        ENABLE + self.active_context() * ENABLE_STRIDE + (irq / 32) * 4
    }

    /// Let `irq` be delivered.
    pub fn enable(&self, irq: u64) -> (r: RegOp)
        requires
            self.context() <= u32::MAX,
        ensures
            r == self.unmasking(irq),
    {
        RegOp::SetBits { offset: self.enable_word(irq), bits: 1u32 << ((irq % 32) as u32) }
    }

    /// Mask `irq`.
    pub fn disable(&self, irq: u64) -> (r: RegOp)
        requires
            self.context() <= u32::MAX,
        ensures
            r == self.masking(irq),
    {
        RegOp::ClearBits { offset: self.enable_word(irq), bits: 1u32 << ((irq % 32) as u32) }
    }

    /// Whether `irq` can be delivered, given what its enable word holds.
    pub fn is_enabled(&self, irq: u64, word: u32) -> (r: bool)
        ensures
            r == (word & source_bit(irq) != 0),
    {
        word & (1u32 << ((irq % 32) as u32)) != 0
    }

    /// Where the controller says which source is pending, and is told that it
    /// was served.
    pub fn claim_register(&self) -> (r: u64)
        requires
            self.context() <= u32::MAX,
        ensures
            r == CLAIM + self.context() * CONTEXT_STRIDE,
    {
        CLAIM + self.active_context() * CONTEXT_STRIDE
    }

    /// The source the claim register names, if any. Zero means none.
    pub fn claim(&self, word: u32) -> (r: Option<u64>)
        ensures
            r == if word == 0 {
                None::<u64>
            } else {
                Some(word as u64)
            },
    {
        if word == 0 {
            None
        } else {
            Some(word as u64)
        }
    }

    /// Tell the controller this hart is finished with `irq`.
    /// Must happen while the source is still enabled, or it is ignored.
    pub fn complete(&self, irq: u32) -> (r: RegOp)
        requires
            self.context() <= u32::MAX,
        ensures
            r == (RegOp::Write {
                offset: (CLAIM + self.context() * CONTEXT_STRIDE) as u64,
                value: irq,
            }),
    {
        RegOp::Write { offset: self.claim_register(), value: irq }
    }
}

/// Enabling a source makes it deliverable and masking it stops that, whatever
/// the enable word held; every other source in the word stays as it was.
pub proof fn masking_affects_one_source(plic: Plic, irq: u64, other: u64, word: u32)
    requires
        plic.context() <= u32::MAX,
        irq % 32 != other % 32,
    ensures
        ({
            let on = plic.unmasking(irq);
            let off = plic.masking(irq);
            &&& on.result(word) & source_bit(irq) != 0
            &&& off.result(word) & source_bit(irq) == 0
            &&& on.result(word) & source_bit(other) == word & source_bit(other)
            &&& off.result(word) & source_bit(other) == word & source_bit(other)
        }),
{
    lemma_bits((irq % 32) as u32, (other % 32) as u32, word);
}

/// A source is masked and unmasked in its own enable word: 0x2000 bytes into the
/// controller, 0x80 bytes for each context, 32 sources to a word. Completing goes
/// to the claim register of the context.
pub proof fn every_source_has_its_own_bit(plic: Plic, irq: u64, other: u64, word: u32)
    requires
        plic.context() <= u32::MAX,
        irq < 1024,
        other < 1024,
        irq != other,
    ensures
        plic.masking(irq).register() == 0x2000 + 0x80 * plic.context() + 4 * (irq / 32),
        plic.unmasking(irq).register() == 0x2000 + 0x80 * plic.context() + 4 * (irq / 32),
        plic.unmasking(irq).register() == plic.unmasking(other).register()
            ==> plic.unmasking(irq).result(word) & source_bit(other) == word & source_bit(other)
            && plic.masking(irq).result(word) & source_bit(other) == word & source_bit(other),
        source_bit(irq) == 1u32 << ((irq % 32) as u32),
{
    if irq / 32 == other / 32 {
        masking_affects_one_source(plic, irq, other, word);
    }
}

/// Bringing a controller up leaves every source it has deliverable in principle,
/// at priority one, and masked until somebody wants it; and it lets nothing
/// through that has no priority. Nothing is unmasked.
pub proof fn bringing_up_masks_every_source(info: PlicInfo, sources: nat, irq: u64)
    requires
        info.context <= u32::MAX,
        1 <= irq <= sources <= u32::MAX,
    ensures
        ({
            let ops = bring_up(info, sources);
            &&& ops.len() == 2 * sources
            &&& ops[2 * irq - 2] == RegOp::Write { offset: (4 * irq) as u64, value: 1 }
            &&& ops[2 * irq - 1] == RegOp::ClearBits {
                offset: (0x2000 + 0x80 * info.context + 4 * (irq / 32)) as u64,
                bits: 1u32 << ((irq % 32) as u32),
            }
        }),
    decreases sources,
{
    let ops = bring_up(info, sources);
    let before = bring_up(info, (sources - 1) as nat);
    if irq < sources {
        bringing_up_masks_every_source(info, (sources - 1) as nat, irq);
        assert(ops[2 * irq - 2] == before[2 * irq - 2]);
        assert(ops[2 * irq - 1] == before[2 * irq - 1]);
    } else if sources > 1 {
        bringing_up_masks_every_source(info, (sources - 1) as nat, (sources - 1) as u64);
    }
}

proof fn lemma_bits(i: u32, j: u32, w: u32)
    by (bit_vector)
    requires
        i < 32,
        j < 32,
        i != j,
    ensures
        (w | (1u32 << i)) & (1u32 << i) != 0,
        (w & !(1u32 << i)) & (1u32 << i) == 0,
        (w | (1u32 << i)) & (1u32 << j) == w & (1u32 << j),
        (w & !(1u32 << i)) & (1u32 << j) == w & (1u32 << j),
{
}

} // verus!
