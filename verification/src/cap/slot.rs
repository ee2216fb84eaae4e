//! Capability slots and the derivation tree they are threaded onto.

use crate::cap::RawCap;
use crate::mm::tlb::Flush;
use vstd::prelude::*;

verus! {

/// A reference to another slot, by its physical address.
pub type SlotRef = Option<u64>;

/// One capability, plus its position in the derivation tree.
#[derive(Clone, Copy, PartialEq, Eq, Structural, Debug)]
pub struct Slot {
    pub cap: RawCap,
    pub parent: SlotRef,
    pub first_child: SlotRef,
    pub next_sib: SlotRef,
    pub prev_sib: SlotRef,
}

impl Slot {
    /// A slot that holds nothing and is linked to nothing.
    pub open spec fn empty_spec() -> Slot {
        Slot {
            cap: RawCap::null_spec(),
            parent: None,
            first_child: None,
            next_sib: None,
            prev_sib: None,
        }
    }

    /// A slot that holds nothing and is linked to nothing.
    pub fn empty() -> (r: Slot)
        ensures
            r == Slot::empty_spec(),
    {
        Slot {
            cap: RawCap::null(),
            parent: None,
            first_child: None,
            next_sib: None,
            prev_sib: None,
        }
    }

    pub fn is_empty(&self) -> (r: bool)
        ensures
            r == (self.cap.kind is Null),
    {
        self.cap.is_null()
    }

    pub fn has_children(&self) -> (r: bool)
        ensures
            r == (self.first_child is Some),
    {
        self.first_child.is_some()
    }

    pub fn parent(&self) -> (r: SlotRef)
        ensures
            r == self.parent,
    {
        self.parent
    }

    pub fn first_child(&self) -> (r: SlotRef)
        ensures
            r == self.first_child,
    {
        self.first_child
    }

    pub fn next_sibling(&self) -> (r: SlotRef)
        ensures
            r == self.next_sib,
    {
        self.next_sib
    }
}

// --- The derivation tree, seen from outside ---

/// What every slot holds, and which slot each one was derived from.
#[verifier::ext_equal]
pub struct Derivation {
    /// The capability in every slot.
    pub caps: Map<u64, RawCap>,
    /// The slot each slot was derived from.
    pub parent: Map<u64, Option<u64>>,
    /// The slots derived from each slot, the latest first.
    pub kids: Map<u64, Seq<u64>>,
}

/// The slot `n` derivations above `a`.
pub open spec fn above(parent: Map<u64, Option<u64>>, a: u64, n: nat) -> Option<u64>
    decreases n,
{
    if n == 0 {
        Some(a)
    } else {
        match parent[a] {
            Some(p) => above(parent, p, (n - 1) as nat),
            None => None,
        }
    }
}

/// A list without one of its elements.
pub open spec fn without(s: Seq<u64>, a: u64) -> Seq<u64> {
    s.remove(s.index_of(a))
}

impl Derivation {
    /// Whether slot `a` is linked to no other slot.
    pub open spec fn detached(self, a: u64) -> bool {
        self.parent[a] is None && self.kids[a].len() == 0
    }

    /// Whether the capability in `c` was derived, in one step or several, from
    /// the one in `root`.
    pub open spec fn descends(self, c: u64, root: u64) -> bool {
        exists|n: nat| n >= 1 && #[trigger] above(self.parent, c, n) == Some(root)
    }

    /// Every slot derived from `root`, at any depth.
    pub open spec fn descendants(self, root: u64) -> Set<u64> {
        Set::new(|c: u64| self.descends(c, root))
    }

    /// Every slot that was derived from another.
    pub open spec fn derived(self) -> Set<u64> {
        Set::new(|c: u64| self.parent[c] is Some)
    }

    /// Whether the two directions of the relation agree, each capability is
    /// sound, and an empty slot is derived from nothing and has nothing derived
    /// from it.
    pub open spec fn is_consistent(self) -> bool {
        &&& forall|a: u64| #[trigger] self.caps.dom().contains(a)
        &&& forall|a: u64| #[trigger] self.parent.dom().contains(a)
        &&& forall|a: u64| #[trigger] self.kids.dom().contains(a)
        &&& forall|a: u64| (#[trigger] self.kids[a]).no_duplicates()
        &&& forall|p: u64, i: int|
            0 <= i < self.kids[p].len() ==> self.parent[#[trigger] self.kids[p][i]] == Some(p)
        &&& forall|a: u64|
            (#[trigger] self.parent[a]) is Some ==> self.kids[self.parent[a]->0].contains(a)
        &&& forall|a: u64| (#[trigger] self.caps[a]).kind is Null ==> self.detached(a)
        &&& forall|a: u64| (#[trigger] self.caps[a]).is_sound()
        &&& self.derived().finite()
    }

    /// The same tree with another capability in slot `a`.
    pub open spec fn with_cap(self, a: u64, cap: RawCap) -> Derivation {
        Derivation { caps: self.caps.insert(a, cap), ..self }
    }

    /// The same slots, with `child` derived from `parent`.
    pub open spec fn linked(self, parent: u64, child: u64) -> Derivation {
        Derivation {
            parent: self.parent.insert(child, Some(parent)),
            kids: self.kids.insert(parent, seq![child] + self.kids[parent]),
            ..self
        }
    }

    /// The same slots, with `a` derived from nothing.
    pub open spec fn unlinked(self, a: u64) -> Derivation {
        match self.parent[a] {
            None => self,
            Some(p) => Derivation {
                parent: self.parent.insert(a, None),
                kids: self.kids.insert(p, without(self.kids[p], a)),
                ..self
            },
        }
    }

    /// The same slots, with slot `a` empty and linked to nothing.
    pub open spec fn wiped(self, a: u64) -> Derivation {
        let freed = Derivation {
            caps: self.caps,
            parent: Map::total(
                |c: u64|
                    if self.parent[c] == Some(a) {
                        None
                    } else {
                        self.parent[c]
                    },
            ),
            kids: self.kids.insert(a, Seq::empty()),
        };
        freed.unlinked(a).with_cap(a, RawCap::null_spec())
    }

    /// The same slots, with `n` slots from the address `base` on empty and
    /// linked to nothing.
    pub open spec fn wiped_range(self, base: u64, n: nat) -> Derivation
        decreases n,
    {
        if n == 0 {
            self
        } else {
            self.wiped_range(base, (n - 1) as nat).wiped(slot_address(base, n - 1))
        }
    }

    /// The same slots, with everything derived from `root` gone. Untyped memory
    /// can then be handed out again from the start.
    pub open spec fn revoked(self, root: u64) -> Derivation {
        Derivation {
            caps: Map::total(
                |a: u64|
                    if self.descends(a, root) {
                        RawCap::null_spec()
                    } else if a == root && self.caps[a].kind.untyped() {
                        RawCap { w0: 0, ..self.caps[a] }
                    } else {
                        self.caps[a]
                    },
            ),
            parent: Map::total(
                |a: u64|
                    if self.descends(a, root) {
                        None
                    } else {
                        self.parent[a]
                    },
            ),
            kids: Map::total(
                |a: u64|
                    if a == root || self.descends(a, root) {
                        Seq::empty()
                    } else {
                        self.kids[a]
                    },
            ),
        }
    }

    /// The same slots, with `a` and everything derived from it gone.
    pub open spec fn deleted(self, a: u64) -> Derivation {
        self.revoked(a).unlinked(a).with_cap(a, RawCap::null_spec())
    }

    /// Whether `order` lists everything derived from `root`, each slot once and
    /// after everything derived from it.
    pub open spec fn is_teardown(self, root: u64, order: Seq<u64>) -> bool {
        &&& order.no_duplicates()
        &&& forall|c: u64| #[trigger] order.contains(c) <==> self.descends(c, root)
        &&& forall|i: int, c: u64|
            0 <= i < order.len() && #[trigger] self.parent[c] == Some(#[trigger] order[i])
                ==> order.take(i).contains(c)
    }
}

/// Address of slot `index` of the CNode at `base`.
pub open spec fn slot_address(base: u64, index: int) -> u64 {
    (base + index * 128) as u64
}

/// Memory, and the invalidations that are due.
#[verifier::ext_equal]
pub struct Mappings {
    pub mem: Map<int, u64>,
    pub flushes: Seq<Flush>,
}

/// What is left of the mappings once those of one capability are removed.
pub open spec fn without_mapping(cap: RawCap, v: Mappings) -> Mappings {
    Mappings {
        mem: crate::cap::vspace::cap_unmapped(cap, v.mem).mem,
        flushes: crate::cap::vspace::unmap_flushes(cap, v.mem, v.flushes),
    }
}

/// What is left of the mappings once those of every listed slot are removed.
pub open spec fn without_mappings(caps: Map<u64, RawCap>, order: Seq<u64>, v: Mappings) -> Mappings
    decreases order.len(),
{
    if order.len() == 0 {
        v
    } else {
        without_mapping(caps[order.last()], without_mappings(caps, order.drop_last(), v))
    }
}

// --- Walking up the tree ---

/// One step more up the tree.
pub proof fn lemma_above_step(parent: Map<u64, Option<u64>>, a: u64, n: nat)
    ensures
        above(parent, a, n + 1) == match above(parent, a, n) {
            Some(b) => parent[b],
            None => None,
        },
    decreases n,
{
    if n > 0 {
        match parent[a] {
            Some(p) => {
                lemma_above_step(parent, p, (n - 1) as nat);
                assert(above(parent, a, n + 1) == above(parent, p, n));
            },
            None => {},
        }
    } else {
        reveal_with_fuel(above, 2);
    }
}

/// What is derived directly from `root`, or from something derived from it, is
/// derived from it.
pub proof fn lemma_descends_step(d: Derivation, c: u64, root: u64)
    requires
        d.parent[c] is Some,
        d.parent[c]->0 == root || d.descends(d.parent[c]->0, root),
    ensures
        d.descends(c, root),
{
    let p = d.parent[c]->0;
    if p == root {
        reveal_with_fuel(above, 2);
        assert(above(d.parent, c, 1) == Some(root));
    } else {
        let n = choose|n: nat| n >= 1 && #[trigger] above(d.parent, p, n) == Some(root);
        assert(above(d.parent, c, n + 1) == Some(root));
    }
}

/// A derivative of `root` comes directly from `root` or from another derivative
/// of it.
pub proof fn lemma_descends_from(d: Derivation, c: u64, root: u64)
    requires
        d.descends(c, root),
    ensures
        d.parent[c] is Some,
        d.parent[c]->0 == root || d.descends(d.parent[c]->0, root),
{
    let n = choose|n: nat| n >= 1 && #[trigger] above(d.parent, c, n) == Some(root);
    let p = d.parent[c]->0;
    assert(above(d.parent, p, (n - 1) as nat) == Some(root));
}

/// If `root` has derivatives, some of them are direct.
pub proof fn lemma_descends_means_kids(d: Derivation, c: u64, root: u64)
    requires
        d.is_consistent(),
        d.descends(c, root),
    ensures
        d.kids[root].len() > 0,
{
    let n = choose|n: nat| n >= 1 && #[trigger] above(d.parent, c, n) == Some(root);
    lemma_above_step(d.parent, c, (n - 1) as nat);
    let y = above(d.parent, c, (n - 1) as nat)->0;
    assert(d.parent[y] == Some(root));
    assert(d.kids[root].contains(y));
}

/// A chain that survives in a tree with links removed was there before.
proof fn lemma_above_in_more(now: Map<u64, Option<u64>>, was: Map<u64, Option<u64>>, c: u64, n: nat)
    requires
        forall|x: u64| (#[trigger] now[x]) is Some ==> now[x] == was[x],
        above(now, c, n) is Some,
    ensures
        above(was, c, n) == above(now, c, n),
    decreases n,
{
    if n > 0 {
        assert(now[c] is Some);
        lemma_above_in_more(now, was, now[c]->0, (n - 1) as nat);
    }
}

/// What descends from `root` in a tree with links removed did so before.
pub proof fn lemma_descends_in_more(now: Derivation, was: Derivation, c: u64, root: u64)
    requires
        forall|x: u64| (#[trigger] now.parent[x]) is Some ==> now.parent[x] == was.parent[x],
        now.descends(c, root),
    ensures
        was.descends(c, root),
{
    let n = choose|n: nat| n >= 1 && #[trigger] above(now.parent, c, n) == Some(root);
    lemma_above_in_more(now.parent, was.parent, c, n);
    assert(above(was.parent, c, n) == Some(root));
}

/// A slot that was left in the tree still descends from `root`, because nothing
/// above it can have been removed before it.
pub proof fn lemma_left_in_tree(was: Derivation, now: Derivation, order: Seq<u64>, c: u64, n: nat, root: u64)
    requires
        forall|x: u64| !order.contains(x) ==> #[trigger] now.parent[x] == was.parent[x],
        forall|i: int, x: u64|
            0 <= i < order.len() && #[trigger] was.parent[x] == Some(#[trigger] order[i])
                ==> order.take(i).contains(x),
        !order.contains(c),
        above(was.parent, c, n) == Some(root),
    ensures
        above(now.parent, c, n) == Some(root),
    decreases n,
{
    if n > 0 {
        let p = was.parent[c]->0;
        assert(now.parent[c] == was.parent[c]);
        if order.contains(p) {
            let i = order.index_of(p);
            assert(was.parent[c] == Some(order[i]));
            assert(order.take(i).contains(c));
            let j = order.take(i).index_of(c);
            assert(order[j] == c);
        }
        lemma_left_in_tree(was, now, order, p, (n - 1) as nat, root);
    }
}

/// Derivation is transitive: a copy of a copy is derived from the original.
pub proof fn derivation_is_transitive(d: Derivation, a: u64, b: u64, c: u64)
    requires
        d.descends(a, b),
        d.descends(b, c),
    ensures
        d.descends(a, c),
{
    let n = choose|n: nat| n >= 1 && #[trigger] above(d.parent, a, n) == Some(b);
    lemma_derived_chain(d, a, b, c, n);
}

proof fn lemma_derived_chain(d: Derivation, a: u64, b: u64, c: u64, n: nat)
    requires
        n >= 1,
        above(d.parent, a, n) == Some(b),
        d.descends(b, c),
    ensures
        d.descends(a, c),
    decreases n,
{
    let p = d.parent[a]->0;
    if n == 1 {
        assert(above(d.parent, p, 0) == Some(b));
    } else {
        lemma_derived_chain(d, p, b, c, (n - 1) as nat);
    }
    lemma_descends_step(d, a, c);
}

/// After a revocation nothing is derived from the slot any more, everything
/// that was is empty, and nothing else has changed.
pub proof fn revocation_reaches_exactly_the_derivatives(d: Derivation, root: u64, c: u64)
    ensures
        !d.revoked(root).descends(c, root),
        d.descends(c, root) ==> d.revoked(root).caps[c] == RawCap::null_spec(),
        !d.descends(c, root) && c != root ==> {
            &&& d.revoked(root).caps[c] == d.caps[c]
            &&& d.revoked(root).parent[c] == d.parent[c]
            &&& d.revoked(root).kids[c] == d.kids[c]
        },
        d.revoked(root).caps[root].rights == d.caps[root].rights || d.descends(root, root),
{
    let after = d.revoked(root);
    if after.descends(c, root) {
        assert forall|x: u64| (#[trigger] after.parent[x]) is Some implies after.parent[x]
            == d.parent[x] by {
        }
        lemma_descends_in_more(after, d, c, root);
        lemma_descends_from(after, c, root);
    }
}

/// Revoking an untyped region makes all of it available again.
pub proof fn revocation_gives_memory_back(d: Derivation, root: u64)
    requires
        d.caps[root].kind.untyped(),
        !d.descends(root, root),
    ensures
        d.revoked(root).caps[root].watermark_spec() == 0,
        d.revoked(root).caps[root].kind == d.caps[root].kind,
        d.revoked(root).caps[root].paddr == d.caps[root].paddr,
        d.revoked(root).caps[root].size_bits == d.caps[root].size_bits,
{
}

} // verus!
