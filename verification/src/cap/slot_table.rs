//! Every capability slot, and the links between them.

use crate::cap::slot::{Derivation, Mappings, Slot, SlotRef};
use crate::cap::vspace::unmap;
use crate::cap::RawCap;
use crate::mm::memory::Memory;
use crate::mm::tlb::Tlb;
use std::collections::HashMap;
use vstd::prelude::*;

verus! {

/// The shape of the derivation tree: what is derived from each slot, and how
/// deep each slot lies. A slot is always deeper than the one it derives from.
pub struct Shape {
    pub kids: Map<u64, Seq<u64>>,
    pub depth: Map<u64, nat>,
    pub bottom: nat,
}

/// The slots of every CNode, by physical address. A slot that was never written
/// is empty.
pub struct SlotTable {
    slots: HashMap<u64, Slot>,
    shape: Ghost<Shape>,
}

/// The sibling before position `i`.
spec fn before(s: Seq<u64>, i: int) -> SlotRef {
    if i <= 0 {
        None
    } else {
        Some(s[i - 1])
    }
}

/// The sibling after position `i`.
spec fn after(s: Seq<u64>, i: int) -> SlotRef {
    if i + 1 >= s.len() {
        None
    } else {
        Some(s[i + 1])
    }
}

/// The first of a list.
spec fn head(s: Seq<u64>) -> SlotRef {
    if s.len() == 0 {
        None
    } else {
        Some(s[0])
    }
}

/// Whether the links of the `i`th child of `p` spell out its position.
spec fn placed(slots: Map<u64, Slot>, kids: Map<u64, Seq<u64>>, p: u64, i: int) -> bool {
    let c = slots[kids[p][i]];
    &&& c.parent == Some(p)
    &&& c.prev_sib == before(kids[p], i)
    &&& c.next_sib == after(kids[p], i)
}

/// Whether the links stored in the slots spell out the shape.
spec fn threaded(slots: Map<u64, Slot>, kids: Map<u64, Seq<u64>>) -> bool {
    &&& forall|a: u64| #[trigger] slots.dom().contains(a)
    &&& forall|a: u64| #[trigger] kids.dom().contains(a)
    &&& forall|a: u64| (#[trigger] kids[a]).no_duplicates()
    &&& forall|a: u64| (#[trigger] slots[a]).first_child == head(kids[a])
    &&& forall|p: u64, i: int| 0 <= i < kids[p].len() ==> #[trigger] placed(slots, kids, p, i)
    &&& forall|a: u64|
        (#[trigger] slots[a]).parent is Some ==> kids[slots[a].parent->0].contains(a)
    &&& forall|a: u64|
        (#[trigger] slots[a]).parent is None ==> slots[a].prev_sib is None && slots[a].next_sib is None
}

/// Whether every slot lies deeper than the one it derives from.
spec fn layered(kids: Map<u64, Seq<u64>>, depth: Map<u64, nat>, bottom: nat) -> bool {
    &&& forall|a: u64| #[trigger] depth.dom().contains(a)
    &&& forall|a: u64| #[trigger] depth[a] <= bottom
    &&& forall|p: u64, i: int|
        0 <= i < kids[p].len() ==> depth[p] < depth[#[trigger] kids[p][i]]
}

impl SlotTable {
    /// What is stored at every address.
    closed spec fn at(self) -> Map<u64, Slot> {
        Map::total(
            |a: u64|
                if self.slots@.contains_key(a) {
                    self.slots@[a]
                } else {
                    Slot::empty_spec()
                },
        )
    }

    /// Whether the stored links form a forest, and every capability is sound.
    pub closed spec fn wf(self) -> bool {
        &&& threaded(self.at(), self.shape@.kids)
        &&& layered(self.shape@.kids, self.shape@.depth, self.shape@.bottom)
        &&& forall|a: u64|
            (#[trigger] self.at()[a]).cap.kind is Null ==> self.at()[a].parent is None
                && self.shape@.kids[a].len() == 0
        &&& forall|a: u64| (#[trigger] self.at()[a]).cap.is_sound()
    }
}

impl View for SlotTable {
    type V = Derivation;

    closed spec fn view(&self) -> Derivation {
        Derivation {
            caps: Map::total(|a: u64| self.at()[a].cap),
            parent: Map::total(|a: u64| self.at()[a].parent),
            kids: self.shape@.kids,
        }
    }
}

impl SlotTable {
    /// A table of empty slots.
    pub fn new() -> (r: Self)
        ensures
            r.wf(),
            r@ == (Derivation {
                caps: Map::total(|a: u64| RawCap::null_spec()),
                parent: Map::total(|a: u64| None),
                kids: Map::total(|a: u64| Seq::empty()),
            }),
    {
        broadcast use vstd::std_specs::hash::group_hash_axioms;

        let r = SlotTable {
            slots: HashMap::new(),
            shape: Ghost(
                Shape {
                    kids: Map::total(|a: u64| Seq::empty()),
                    depth: Map::total(|a: u64| 0nat),
                    bottom: 0,
                },
            ),
        };
        assert(r@.caps =~= Map::total(|a: u64| RawCap::null_spec()));
        assert(r@.parent =~= Map::total(|a: u64| None));
        r
    }

    /// The links and capabilities of a table that is well formed agree with each
    /// other.
    pub proof fn is_consistent(&self)
        requires
            self.wf(),
        ensures
            self@.is_consistent(),
    {
        assert forall|a: u64| (#[trigger] self@.parent[a]) is Some implies self@.kids[self@.parent[a]->0].contains(
            a,
        ) by {
            assert(self.at()[a].parent == self@.parent[a]);
        }
        assert forall|p: u64, i: int| 0 <= i < self@.kids[p].len() implies self@.parent[
        #[trigger] self@.kids[p][i]] == Some(p) by {
            assert(placed(self.at(), self@.kids, p, i));
        }
        assert forall|a: u64| (#[trigger] self@.caps[a]).kind is Null implies self@.detached(a) by {
            assert(self.at()[a].cap.kind is Null);
        }
        assert forall|a: u64| (#[trigger] self@.caps[a]).is_sound() by {
            assert(self.at()[a].cap.is_sound());
        }
        self.lemma_derived_is_finite();
    }

    /// Only slots that were written are derived from anything.
    proof fn lemma_derived_is_finite(&self)
        ensures
            self@.derived().subset_of(self.slots@.dom()),
            self@.derived().finite(),
    {
        assert forall|c: u64| self@.derived().contains(c) implies self.slots@.dom().contains(c) by {
            assert(self.at()[c].parent == self@.parent[c]);
        }
        vstd::set_lib::lemma_len_subset(self@.derived(), self.slots@.dom());
    }

    /// The slot at an address.
    pub fn get(&self, a: u64) -> (r: Slot)
        requires
            self.wf(),
        ensures
            r.cap == self@.caps[a],
            r.parent == self@.parent[a],
            r.first_child == if self@.kids[a].len() == 0 {
                None
            } else {
                Some(self@.kids[a][0])
            },
            r.cap.is_sound(),
    {
        self.load(a)
    }

    fn load(&self, a: u64) -> (r: Slot)
        ensures
            r == self.at()[a],
    {
        broadcast use vstd::std_specs::hash::group_hash_axioms;

        match self.slots.get(&a) {
            Some(s) => *s,
            None => Slot::empty(),
        }
    }

    fn store(&mut self, a: u64, slot: Slot)
        ensures
            final(self).at() == old(self).at().insert(a, slot),
            final(self).shape == old(self).shape,
    {
        broadcast use vstd::std_specs::hash::group_hash_axioms;

        self.slots.insert(a, slot);
        assert(self.at() =~= old(self).at().insert(a, slot));
    }

    /// The capability in the slot at an address.
    pub fn cap(&self, a: u64) -> (r: RawCap)
        requires
            self.wf(),
        ensures
            r == self@.caps[a],
            r.is_sound(),
    {
        self.load(a).cap
    }

    /// Put a capability in a slot, leaving its links alone.
    pub fn set_cap(&mut self, a: u64, cap: RawCap)
        requires
            old(self).wf(),
            cap.is_sound(),
            cap.kind is Null ==> old(self)@.detached(a),
        ensures
            final(self).wf(),
            final(self)@ == old(self)@.with_cap(a, cap),
    {
        let mut slot: Slot = self.load(a);
        slot.cap = cap;
        let ghost was = self.at();
        self.store(a, slot);
        proof {
            let now = self.at();
            assert forall|x: u64| #![trigger now[x]]
                now[x].parent == was[x].parent && now[x].first_child == was[x].first_child
                    && now[x].prev_sib == was[x].prev_sib && now[x].next_sib == was[x].next_sib by {
            }
            lemma_same_links(was, now, self.shape@.kids);
            assert(self@.caps =~= old(self)@.caps.insert(a, cap));
            assert(self@.parent =~= old(self)@.parent);
            assert forall|x: u64| (#[trigger] self.at()[x]).cap.kind is Null implies self.at()[x].parent is None
                && self.shape@.kids[x].len() == 0 by {
                assert(was[x].parent == now[x].parent);
                if x == a {
                    assert(old(self)@.detached(a));
                    assert(old(self)@.parent[a] == was[a].parent);
                }
            }
        }
    }

    /// Make `child` a derivative of `parent`, at the front of its child list.
    pub fn link(&mut self, parent: u64, child: u64)
        requires
            old(self).wf(),
            parent != child,
            old(self)@.detached(child),
            !(old(self)@.caps[parent].kind is Null),
            !(old(self)@.caps[child].kind is Null),
        ensures
            final(self).wf(),
            final(self)@ == old(self)@.linked(parent, child),
    {
        let ghost was = self.at();
        let ghost kids = self.shape@.kids;
        let ghost depth = self.shape@.depth;
        let mut p: Slot = self.load(parent);
        let mut c: Slot = self.load(child);
        let next: SlotRef = p.first_child;
        c.parent = Some(parent);
        c.prev_sib = None;
        c.next_sib = next;
        self.store(child, c);
        match next {
            Some(h) => {
                let mut first: Slot = self.load(h);
                first.prev_sib = Some(child);
                self.store(h, first);
            },
            None => {},
        }
        p = self.load(parent);
        p.first_child = Some(child);
        self.store(parent, p);
        let ghost deeper = depth[parent] + 1;
        self.shape = Ghost(
            Shape {
                kids: kids.insert(parent, seq![child] + kids[parent]),
                depth: depth.insert(child, deeper),
                bottom: if deeper > self.shape@.bottom {
                    deeper
                } else {
                    self.shape@.bottom
                },
            },
        );
        proof {
            assert(was[child].parent is None);
            lemma_link(was, kids, parent, child, self.at());
            lemma_link_depth(
                kids,
                depth,
                old(self).shape@.bottom,
                parent,
                child,
                self.shape@.bottom,
                was,
            );
            assert(self@.caps =~= old(self)@.caps);
            assert(self@.parent =~= old(self)@.parent.insert(child, Some(parent)));
            assert forall|x: u64| (#[trigger] self.at()[x]).cap.kind is Null implies self.at()[x].parent is None
                && self.shape@.kids[x].len() == 0 by {
                assert(was[x].cap == self.at()[x].cap);
                assert(old(self)@.caps[x] == was[x].cap);
            }
        }
    }

    /// Take `slot` out of its parent's child list.
    pub fn unlink(&mut self, a: u64)
        requires
            old(self).wf(),
        ensures
            final(self).wf(),
            final(self)@ == old(self)@.unlinked(a),
    {
        let ghost was = self.at();
        let ghost kids = self.shape@.kids;
        let mut slot: Slot = self.load(a);
        let prev: SlotRef = slot.prev_sib;
        let next: SlotRef = slot.next_sib;
        let parent: SlotRef = slot.parent;
        proof {
            lemma_neighbours(was, kids, a);
        }
        match prev {
            Some(b) => {
                let mut left: Slot = self.load(b);
                left.next_sib = next;
                self.store(b, left);
            },
            // No previous sibling means this slot was the parent's first child.
            None => match parent {
                Some(p) => {
                    let mut up: Slot = self.load(p);
                    up.first_child = next;
                    self.store(p, up);
                },
                None => {},
            },
        }
        match next {
            Some(b) => {
                let mut right: Slot = self.load(b);
                right.prev_sib = prev;
                self.store(b, right);
            },
            None => {},
        }
        slot = self.load(a);
        slot.parent = None;
        slot.prev_sib = None;
        slot.next_sib = None;
        self.store(a, slot);
        self.shape = Ghost(
            Shape {
                kids: match parent {
                    Some(p) => kids.insert(p, crate::cap::slot::without(kids[p], a)),
                    None => kids,
                },
                ..self.shape@
            },
        );
        proof {
            lemma_unlink(was, kids, a, self.at());
            assert(self@.caps =~= old(self)@.caps);
            assert(self@.parent =~= old(self)@.unlinked(a).parent);
            assert forall|x: u64| (#[trigger] self.at()[x]).cap.kind is Null implies self.at()[x].parent is None
                && self.shape@.kids[x].len() == 0 by {
                assert(was[x].cap == self.at()[x].cap);
            }
            if parent is Some {
                let p = parent->0;
                let i = kids[p].index_of(a);
                assert(kids[p].contains(a));
                assert forall|q: u64, j: int| 0 <= j < self.shape@.kids[q].len() implies self.shape@.depth[q]
                    < self.shape@.depth[#[trigger] self.shape@.kids[q][j]] by {
                    if q == p && j >= i {
                        assert(self.shape@.kids[q][j] == kids[q][j + 1]);
                    } else {
                        assert(self.shape@.kids[q][j] == kids[q][j]);
                    }
                }
            }
        }
    }
}

impl SlotTable {
    /// A slot lies at least as much deeper as the number of derivations.
    proof fn lemma_depth_above(&self, c: u64, n: nat)
        requires
            self.wf(),
            crate::cap::slot::above(self@.parent, c, n) is Some,
        ensures
            self.shape@.depth[c] >= self.shape@.depth[crate::cap::slot::above(
                self@.parent,
                c,
                n,
            )->0] + n,
        decreases n,
    {
        if n > 0 {
            let p = self@.parent[c]->0;
            assert(self.at()[c].parent == Some(p));
            let i = self.shape@.kids[p].index_of(c);
            assert(self.shape@.kids[p].contains(c));
            assert(self.shape@.kids[p][i] == c);
            self.lemma_depth_above(p, (n - 1) as nat);
        }
    }

    /// Nothing descends from itself.
    pub proof fn is_acyclic(&self, a: u64)
        requires
            self.wf(),
        ensures
            !self@.descends(a, a),
    {
        if self@.descends(a, a) {
            let n = choose|n: nat|
                n >= 1 && #[trigger] crate::cap::slot::above(self@.parent, a, n) == Some(a);
            self.lemma_depth_above(a, n);
        }
    }

    /// No slot of a table that is well formed descends from itself.
    pub proof fn is_forest(&self)
        requires
            self.wf(),
        ensures
            self@.is_forest(),
    {
        assert forall|a: u64| !#[trigger] self@.descends(a, a) by {
            self.is_acyclic(a);
        }
    }

    /// The first leaf below a slot, following first children.
    fn first_leaf(&self, from: u64, root: Ghost<u64>) -> (leaf: u64)
        requires
            self.wf(),
            self@.descends(from, root@),
        ensures
            self@.kids[leaf].len() == 0,
            self@.descends(leaf, root@),
            exists|n: nat| #[trigger]
                crate::cap::teardown::down(self@.kids, from, n) == Some(leaf),
    {
        let mut cursor: u64 = from;
        let ghost mut steps: nat = 0;
        loop
            invariant
                self.wf(),
                self@.descends(cursor, root@),
                crate::cap::teardown::down(self@.kids, from, steps) == Some(cursor),
            decreases self.shape@.bottom - self.shape@.depth[cursor],
        {
            match self.load(cursor).first_child {
                Some(child) => {
                    proof {
                        let kids = self.shape@.kids[cursor];
                        assert(self.at()[cursor].first_child == head(kids));
                        assert(kids[0] == child);
                        assert(placed(self.at(), self.shape@.kids, cursor, 0));
                        assert(self@.parent[child] == self.at()[child].parent);
                        crate::cap::slot::lemma_descends_step(self@, child, root@);
                        assert(self.shape@.depth[child] <= self.shape@.bottom);
                        crate::cap::teardown::lemma_down_step(self@.kids, from, steps);
                        steps = steps + 1;
                    }
                    cursor = child;
                },
                None => {
                    assert(self.at()[cursor].first_child == head(self.shape@.kids[cursor]));
                    return cursor;
                },
            }
        }
    }

    /// How many slots can be derived from others is bounded by how many there
    /// are.
    fn written(&self) -> (r: usize)
        requires
            self.wf(),
        ensures
            self@.derived().len() <= r,
            forall|root: u64| (#[trigger] self@.kids[root]).len() > 0 ==> self@.derived().len() < r
                || self@.derived().contains(root),
    {
        broadcast use vstd::std_specs::hash::group_hash_axioms;

        proof {
            self.lemma_derived_is_finite();
            let derived = self@.derived();
            let dom = self.slots@.dom();
            vstd::set_lib::lemma_len_subset(derived, dom);
            assert forall|root: u64| (#[trigger] self@.kids[root]).len() > 0 implies derived.len()
                < dom.len() || derived.contains(root) by {
                assert(self.at()[root].first_child == head(self.shape@.kids[root]));
                assert(dom.contains(root));
                if !derived.contains(root) {
                    assert(derived.insert(root).subset_of(dom));
                    vstd::set_lib::lemma_len_subset(derived.insert(root), dom);
                }
            }
        }
        self.slots.len()
    }

    /// Destroy every capability derived from `root`, leaving `root` itself alone.
    pub fn revoke(&mut self, root: u64, mem: &mut Memory, tlb: &mut Tlb) -> (removed: usize)
        requires
            old(self).wf(),
        ensures
            final(self).wf(),
            final(self)@ == old(self)@.revoked(root),
            removed == old(self)@.descendants(root).len(),
            removed < usize::MAX,
            old(self)@.is_teardown(root, old(self)@.teardown(root)),
            (Mappings { mem: final(mem)@, flushes: final(tlb)@ })
                == crate::cap::slot::without_mappings(
                old(self)@.caps,
                old(self)@.teardown(root),
                Mappings { mem: old(mem)@, flushes: old(tlb)@ },
            ),
    {
        let ghost was = self@;
        let ghost held = Mappings { mem: mem@, flushes: tlb@ };
        let ghost mut order: Seq<u64> = Seq::empty();
        let ghost all = was.teardown(root);
        let room: usize = self.written();
        let mut removed: usize = 0;
        proof {
            self.is_consistent();
            self.is_acyclic(root);
            assert(order + all =~= all);
        }
        loop
            invariant
                self.wf(),
                was == old(self)@,
                was.is_consistent(),
                !was.descends(root, root),
                held == (Mappings { mem: old(mem)@, flushes: old(tlb)@ }),
                torn(was, self@, root, order),
                all == was.teardown(root),
                all == order + crate::cap::teardown::listed(
                    self@.kids,
                    root,
                    was.derived().len(),
                ),
                self@.derived().subset_of(was.derived()),
                removed == order.len(),
                order.len() == 0 || order.len() < room,
                was.derived().len() <= room,
                was.kids[root].len() > 0 ==> was.derived().len() < room || was.derived().contains(
                    root,
                ),
                (Mappings { mem: mem@, flushes: tlb@ }) == crate::cap::slot::without_mappings(
                    was.caps,
                    order,
                    held,
                ),
            ensures
                self@.kids[root].len() == 0,
            decreases self@.derived().len(),
        {
            let first: u64 = match self.load(root).first_child {
                Some(c) => c,
                None => {
                    assert(self.at()[root].first_child == head(self.shape@.kids[root]));
                    break ;
                },
            };
            proof {
                assert(self.at()[root].first_child == head(self.shape@.kids[root]));
                assert(placed(self.at(), self.shape@.kids, root, 0));
                assert(self@.parent[first] == self.at()[first].parent);
                crate::cap::slot::lemma_descends_step(self@, first, root);
            }
            // Descend to a leaf: a slot goes only after everything derived from it.
            let leaf: u64 = self.first_leaf(first, Ghost(root));
            let ghost now = self@;
            proof {
                self.is_consistent();
                self.is_forest();
                let n = choose|n: nat| #[trigger]
                    crate::cap::teardown::down(now.kids, first, n) == Some(leaf);
                assert(crate::cap::teardown::down(now.kids, root, n + 1) == Some(leaf));
                crate::cap::teardown::lemma_down_is_short(now, root, n + 1);
                vstd::set_lib::lemma_len_subset(now.derived(), was.derived());
                crate::cap::teardown::lemma_leaf_listed(now, root, n + 1, was.derived().len());
                lemma_torn_leaf(was, now, root, order, leaf);
                lemma_torn_room(was, root, order.push(leaf), room);
            }
            let mut cap: RawCap = self.cap(leaf);
            self.unlink(leaf);
            // Destroying a capability that is still mapped would leave the
            // holder reading memory it no longer has any right to.
            let _ = unmap(&mut cap, mem, tlb);
            self.set_cap(leaf, RawCap::null());
            removed = removed + 1;
            proof {
                assert(order.push(leaf).drop_last() =~= order);
                assert(order + (seq![leaf] + crate::cap::teardown::listed(
                    self@.kids,
                    root,
                    was.derived().len(),
                )) =~= order.push(leaf) + crate::cap::teardown::listed(
                    self@.kids,
                    root,
                    was.derived().len(),
                ));
                order = order.push(leaf);
                lemma_derived_shrinks(now, self@, leaf);
            }
        }
        proof {
            self.is_consistent();
            assert(order + Seq::<u64>::empty() =~= order);
            assert(order == all);
            lemma_torn_down(was, self@, root, order);
            lemma_teardown_count(was, root, order);
        }
        // With every derivative gone, an untyped region can be handed out again.
        let mut cap: RawCap = self.cap(root);
        if cap.kind.is_untyped() {
            cap.set_watermark(0);
            self.set_cap(root, cap);
        }
        proof {
            self.is_consistent();
            let want = was.revoked(root);
            assert forall|a: u64| #[trigger] self@.kids[a] == want.kids[a] by {
                assert(order.contains(a) <==> was.descends(a, root));
                if a == root || was.descends(a, root) {
                    assert(self@.kids[a] =~= Seq::empty());
                }
            }
            assert forall|a: u64| #[trigger] self@.caps[a] == want.caps[a] by {
                assert(order.contains(a) <==> was.descends(a, root));
            }
            assert forall|a: u64| #[trigger] self@.parent[a] == want.parent[a] by {
                assert(order.contains(a) <==> was.descends(a, root));
            }
            assert(self@.kids =~= want.kids);
            assert(self@.caps =~= want.caps);
            assert(self@.parent =~= want.parent);
        }
        removed
    }
}

impl SlotTable {
    /// Revoke everything under a slot, then empty the slot itself.
    pub fn delete(&mut self, a: u64, mem: &mut Memory, tlb: &mut Tlb) -> (removed: usize)
        requires
            old(self).wf(),
        ensures
            final(self).wf(),
            final(self)@ == old(self)@.deleted(a),
            removed == old(self)@.descendants(a).len() + 1,
            old(self)@.is_teardown(a, old(self)@.teardown(a)),
            (Mappings { mem: final(mem)@, flushes: final(tlb)@ })
                == crate::cap::slot::without_mapping(
                old(self)@.revoked(a).caps[a],
                crate::cap::slot::without_mappings(
                    old(self)@.caps,
                    old(self)@.teardown(a),
                    Mappings { mem: old(mem)@, flushes: old(tlb)@ },
                ),
            ),
    {
        let removed: usize = self.revoke(a, mem, tlb);
        let mut cap: RawCap = self.cap(a);
        proof {
            self.is_consistent();
            assert(self@.kids[a].len() == 0);
            assert(self@.parent[a] is Some ==> self@.kids[self@.parent[a]->0].contains(a));
        }
        self.unlink(a);
        let _ = unmap(&mut cap, mem, tlb);
        self.set_cap(a, RawCap::null());
        removed + 1
    }

    /// Append the slots derived directly from `a`.
    fn push_children(&self, a: u64, out: &mut Vec<u64>)
        requires
            self.wf(),
        ensures
            final(out)@ == old(out)@ + self@.kids[a],
    {
        let ghost kids = self@.kids[a];
        let ghost held = out@;
        let mut cursor: SlotRef = self.load(a).first_child;
        let ghost mut i: int = 0;
        assert(self.at()[a].first_child == head(kids));
        assert(held + kids.take(0) =~= held);
        loop
            invariant
                self.wf(),
                kids == self@.kids[a],
                kids == self.shape@.kids[a],
                0 <= i <= kids.len(),
                cursor == if i < kids.len() {
                    Some(kids[i])
                } else {
                    None
                },
                out@ == held + kids.take(i),
            ensures
                i == kids.len(),
            decreases kids.len() - i,
        {
            match cursor {
                None => {
                    break ;
                },
                Some(c) => {
                    out.push(c);
                    proof {
                        assert(placed(self.at(), self.shape@.kids, a, i));
                        assert(held + kids.take(i + 1) =~= (held + kids.take(i)).push(c));
                        i = i + 1;
                    }
                    cursor = self.load(c).next_sib;
                },
            }
        }
        assert(kids.take(kids.len() as int) =~= kids);
    }

    /// How many capabilities descend from this one, at any depth.
    pub fn descendants(&self, root: u64) -> (n: usize)
        requires
            self.wf(),
        ensures
            n == self@.descendants(root).len(),
            self@.descendants(root).finite(),
    {
        let room: usize = self.written();
        let ghost d = self@;
        let ghost mut seen: Seq<u64> = Seq::empty();
        let mut pending: Vec<u64> = Vec::new();
        let mut n: usize = 0;
        proof {
            self.is_consistent();
            self.is_acyclic(root);
        }
        self.push_children(root, &mut pending);
        proof {
            assert(pending@ =~= d.kids[root]);
            lemma_walk_start(d, root);
        }
        loop
            invariant
                self.wf(),
                d == self@,
                d.is_consistent(),
                !d.descends(root, root),
                walked(d, root, seen, pending@),
                n == seen.len(),
                n <= room,
                d.derived().len() <= room,
            ensures
                pending@.len() == 0,
            decreases d.derived().len() - seen.len(),
        {
            let ghost todo = pending@;
            match pending.pop() {
                None => {
                    break ;
                },
                Some(a) => {
                    let ghost rest = pending@;
                    proof {
                        assert(rest.push(a) =~= todo);
                        lemma_walk_room(d, root, seen, rest.push(a));
                        lemma_walk_on(d, root, seen, rest, a);
                    }
                    self.push_children(a, &mut pending);
                    n = n + 1;
                    proof {
                        seen = seen.push(a);
                        lemma_walk_room(d, root, seen, pending@);
                    }
                },
            }
        }
        proof {
            lemma_walk_done(d, root, seen, pending@);
        }
        n
    }

    /// Empty a slot, and unlink it from every other.
    pub fn wipe(&mut self, a: u64)
        requires
            old(self).wf(),
        ensures
            final(self).wf(),
            final(self)@ == old(self)@.wiped(a),
    {
        let ghost was = self@;
        let ghost kids = was.kids[a];
        let ghost mut j: int = 0;
        proof {
            self.is_consistent();
            self.is_acyclic(a);
            assert(kids.skip(0) =~= kids);
        }
        loop
            invariant
                self.wf(),
                was.is_consistent(),
                !was.descends(a, a),
                kids == was.kids[a],
                0 <= j <= kids.len(),
                self@.caps == was.caps,
                self@.kids == was.kids.insert(a, kids.skip(j)),
                forall|c: u64|
                    #[trigger] self@.parent[c] == if kids.take(j).contains(c) {
                        None
                    } else {
                        was.parent[c]
                    },
            ensures
                j == kids.len(),
            decreases kids.len() - j,
        {
            match self.load(a).first_child {
                None => {
                    assert(self.at()[a].first_child == head(self@.kids[a]));
                    break ;
                },
                Some(c) => {
                    let ghost now = self@;
                    proof {
                        self.is_consistent();
                        assert(self.at()[a].first_child == head(self@.kids[a]));
                        assert(now.kids[a][0] == c);
                        assert(now.parent[now.kids[a][0]] == Some(a));
                        assert(now.kids[a].contains(c));
                        let k = now.kids[a].index_of(c);
                        assert(now.kids[a][k] == now.kids[a][0]);
                        assert(k == 0);
                        assert(crate::cap::slot::without(now.kids[a], c) =~= kids.skip(j + 1));
                        assert(kids.take(j + 1) =~= kids.take(j).push(c));
                        assert forall|x: u64| #[trigger]
                            kids.take(j + 1).contains(x) == (kids.take(j).contains(x) || x == c) by {
                            if kids.take(j).contains(x) {
                                let i = kids.take(j).index_of(x);
                                assert(kids.take(j + 1)[i] == x);
                            }
                            assert(kids.take(j + 1)[j] == c);
                        }
                    }
                    self.unlink(c);
                    proof {
                        assert forall|x: u64|
                            #[trigger] self@.parent[x] == if kids.take(j + 1).contains(x) {
                                None
                            } else {
                                was.parent[x]
                            } by {
                            assert(now.parent[x] == if kids.take(j).contains(x) {
                                None
                            } else {
                                was.parent[x]
                            });
                        }
                        assert(self@.kids =~= was.kids.insert(a, kids.skip(j + 1)));
                        j = j + 1;
                    }
                },
            }
        }
        let ghost freed = Derivation {
            caps: was.caps,
            parent: Map::total(
                |c: u64|
                    if was.parent[c] == Some(a) {
                        None
                    } else {
                        was.parent[c]
                    },
            ),
            kids: was.kids.insert(a, Seq::empty()),
        };
        proof {
            self.is_consistent();
            assert(kids.take(j) =~= kids);
            assert(kids.skip(j) =~= Seq::empty());
            assert forall|c: u64| kids.contains(c) == (was.parent[c] == Some(a)) by {
                if kids.contains(c) {
                    let i = kids.index_of(c);
                    assert(was.parent[was.kids[a][i]] == Some(a));
                }
            }
            assert(self@.parent =~= freed.parent);
            assert(self@.kids =~= freed.kids);
            assert(self@.parent[a] is Some ==> self@.kids[self@.parent[a]->0].contains(a));
        }
        self.unlink(a);
        self.set_cap(a, RawCap::null());
    }

    /// Empty `n` slots from the address `base` on.
    pub fn wipe_range(&mut self, base: u64, n: u64)
        requires
            old(self).wf(),
            base + n * 128 <= u64::MAX,
        ensures
            final(self).wf(),
            final(self)@ == old(self)@.wiped_range(base, n as nat),
    {
        let mut i: u64 = 0;
        while i < n
            invariant
                self.wf(),
                i <= n,
                base + n * 128 <= u64::MAX,
                self@ == old(self)@.wiped_range(base, i as nat),
            decreases n - i,
        {
            self.wipe(base + i * 128);
            i = i + 1;
        }
    }
}

// --- Counting a tree ---

/// Whether `seen` has been counted and `pending` is what to count next: together
/// they hold everything derived directly from `root` or from something counted.
spec fn walked(d: Derivation, root: u64, seen: Seq<u64>, pending: Seq<u64>) -> bool {
    let all = seen + pending;
    &&& all.no_duplicates()
    &&& forall|c: u64| #[trigger] all.contains(c) ==> d.descends(c, root)
    &&& forall|c: u64| #[trigger]
        all.contains(c) ==> d.parent[c] == Some(root) || (d.parent[c] is Some && seen.contains(
            d.parent[c]->0,
        ))
    &&& forall|c: u64|
        (#[trigger] d.parent[c]) is Some && (d.parent[c]->0 == root || seen.contains(
            d.parent[c]->0,
        )) ==> all.contains(c)
}

proof fn lemma_walk_start(d: Derivation, root: u64)
    requires
        d.is_consistent(),
    ensures
        walked(d, root, Seq::empty(), d.kids[root]),
{
    let kids = d.kids[root];
    assert(Seq::empty() + kids =~= kids);
    assert(kids.no_duplicates());
    assert forall|c: u64| #[trigger] kids.contains(c) implies d.parent[c] == Some(root)
        && d.descends(c, root) by {
        let i = kids.index_of(c);
        assert(d.parent[d.kids[root][i]] == Some(root));
        crate::cap::slot::lemma_descends_step(d, c, root);
    }
    assert forall|c: u64| (#[trigger] d.parent[c]) is Some && d.parent[c]->0 == root implies kids.contains(
        c,
    ) by {
    }
}

proof fn lemma_walk_room(d: Derivation, root: u64, seen: Seq<u64>, pending: Seq<u64>)
    requires
        d.is_consistent(),
        walked(d, root, seen, pending),
    ensures
        seen.len() + pending.len() <= d.derived().len(),
{
    let all = seen + pending;
    all.unique_seq_to_set();
    assert forall|c: u64| all.to_set().contains(c) implies d.derived().contains(c) by {
        assert(all.contains(c));
        crate::cap::slot::lemma_descends_from(d, c, root);
    }
    vstd::set_lib::lemma_len_subset(all.to_set(), d.derived());
}

proof fn lemma_walk_on(d: Derivation, root: u64, seen: Seq<u64>, rest: Seq<u64>, a: u64)
    requires
        d.is_consistent(),
        !d.descends(root, root),
        walked(d, root, seen, rest.push(a)),
    ensures
        walked(d, root, seen.push(a), rest + d.kids[a]),
{
    let all = seen + rest.push(a);
    let kids = d.kids[a];
    let next = seen.push(a) + (rest + kids);
    let n = seen.len() as int;
    let r = rest.len() as int;
    assert(all[n + r] == a);
    assert(all.contains(a));
    assert forall|i: int| 0 <= i < n implies seen[i] != a by {
        assert(all[i] == seen[i]);
        assert(all[i] != all[n + r]);
    }
    assert(!seen.contains(a));
    assert(a != root);
    assert(kids.no_duplicates());
    // What is derived from `a` was not there yet.
    assert forall|i: int| 0 <= i < kids.len() implies !all.contains(#[trigger] kids[i]) by {
        assert(d.parent[kids[i]] == Some(a));
    }
    assert forall|c: u64| #[trigger] next.contains(c) == (all.contains(c) || kids.contains(c)) by {
        if all.contains(c) {
            let i = all.index_of(c);
            if i < n {
                assert(next[i] == c);
            } else if i < n + r {
                assert(next[i + 1] == c);
            } else {
                assert(next[n] == c);
            }
        }
        if kids.contains(c) {
            let i = kids.index_of(c);
            assert(next[n + 1 + r + i] == c);
        }
        if next.contains(c) {
            let i = next.index_of(c);
            if i < n {
                assert(all[i] == c);
            } else if i == n {
            } else if i < n + 1 + r {
                assert(all[i - 1] == c);
            } else {
                assert(kids[i - (n + 1 + r)] == c);
            }
        }
    }
    assert forall|i: int, j: int| 0 <= i < j < next.len() implies next[i] != next[j] by {
        if j >= n + 1 + r {
            let kj = j - (n + 1 + r);
            assert(next[j] == kids[kj]);
            assert(!all.contains(kids[kj]));
            if i >= n + 1 + r {
                assert(next[i] == kids[i - (n + 1 + r)]);
            } else if i == n {
                assert(next[i] == a);
            } else if i < n {
                assert(next[i] == all[i]);
            } else {
                assert(next[i] == all[i - 1]);
            }
        } else {
            let i2 = if i < n {
                i
            } else if i == n {
                n + r
            } else {
                i - 1
            };
            let j2 = if j < n {
                j
            } else if j == n {
                n + r
            } else {
                j - 1
            };
            assert(next[i] == all[i2]);
            assert(next[j] == all[j2]);
            assert(i2 != j2);
            assert(all[i2] != all[j2]);
        }
    }
    assert forall|c: u64| #[trigger] next.contains(c) implies d.descends(c, root) by {
        if !all.contains(c) {
            let i = kids.index_of(c);
            assert(d.parent[d.kids[a][i]] == Some(a));
            crate::cap::slot::lemma_descends_step(d, c, root);
        }
    }
    assert forall|c: u64| seen.contains(c) implies #[trigger] seen.push(a).contains(c) by {
        assert(seen.push(a)[seen.index_of(c)] == c);
    }
    assert(seen.push(a)[n] == a);
    assert forall|c: u64| #[trigger] next.contains(c) implies d.parent[c] == Some(root) || (
    d.parent[c] is Some && seen.push(a).contains(d.parent[c]->0)) by {
        if !all.contains(c) {
            let i = kids.index_of(c);
            assert(d.parent[d.kids[a][i]] == Some(a));
        }
    }
    assert forall|c: u64|
        (#[trigger] d.parent[c]) is Some && (d.parent[c]->0 == root || seen.push(a).contains(
            d.parent[c]->0,
        )) implies next.contains(c) by {
        let p = d.parent[c]->0;
        if p == a {
            assert(kids.contains(c));
        } else if p != root {
            let i = seen.push(a).index_of(p);
            assert(seen[i] == p);
            assert(seen.contains(p));
        }
    }
}

proof fn lemma_walk_done(d: Derivation, root: u64, seen: Seq<u64>, pending: Seq<u64>)
    requires
        d.is_consistent(),
        walked(d, root, seen, pending),
        pending.len() == 0,
    ensures
        seen.len() == d.descendants(root).len(),
        d.descendants(root).finite(),
{
    assert(seen + pending =~= seen);
    assert forall|c: u64| d.descends(c, root) implies #[trigger] seen.contains(c) by {
        let n = choose|n: nat|
            n >= 1 && #[trigger] crate::cap::slot::above(d.parent, c, n) == Some(root);
        lemma_walk_reaches(d, root, seen, c, n);
    }
    seen.unique_seq_to_set();
    assert(seen.to_set() =~= d.descendants(root));
}

proof fn lemma_walk_reaches(d: Derivation, root: u64, seen: Seq<u64>, c: u64, n: nat)
    requires
        walked(d, root, seen, Seq::empty()),
        n >= 1,
        crate::cap::slot::above(d.parent, c, n) == Some(root),
    ensures
        seen.contains(c),
    decreases n,
{
    assert(seen + Seq::empty() =~= seen);
    let p = d.parent[c]->0;
    if n == 1 {
        assert(crate::cap::slot::above(d.parent, p, 0) == Some(root));
    } else {
        lemma_walk_reaches(d, root, seen, p, (n - 1) as nat);
    }
}

// --- What is left while a tree is being torn down ---

/// Whether `now` is what is left of `was` once the slots of `order`, which all
/// derive from `root`, have been removed in that order.
spec fn torn(was: Derivation, now: Derivation, root: u64, order: Seq<u64>) -> bool {
    &&& order.no_duplicates()
    &&& forall|c: u64| #[trigger] order.contains(c) ==> was.descends(c, root)
    &&& forall|a: u64|
        #[trigger] now.caps[a] == if order.contains(a) {
            RawCap::null_spec()
        } else {
            was.caps[a]
        }
    &&& forall|a: u64|
        #[trigger] now.parent[a] == if order.contains(a) {
            None
        } else {
            was.parent[a]
        }
    &&& forall|a: u64|
        a != root && !was.descends(a, root) ==> #[trigger] now.kids[a] == was.kids[a]
    &&& forall|i: int, c: u64|
        0 <= i < order.len() && #[trigger] was.parent[c] == Some(#[trigger] order[i])
            ==> order.take(i).contains(c)
}

/// Removing one more leaf.
proof fn lemma_torn_leaf(was: Derivation, now: Derivation, root: u64, order: Seq<u64>, leaf: u64)
    requires
        torn(was, now, root, order),
        now.is_consistent(),
        now.descends(leaf, root),
        now.kids[leaf].len() == 0,
    ensures
        now.caps[leaf] == was.caps[leaf],
        now.unlinked(leaf).kids[leaf].len() == 0,
        now.unlinked(leaf).parent[leaf] is None,
        torn(
            was,
            now.unlinked(leaf).with_cap(leaf, RawCap::null_spec()),
            root,
            order.push(leaf),
        ),
{
    let order2 = order.push(leaf);
    let then = now.unlinked(leaf).with_cap(leaf, RawCap::null_spec());
    crate::cap::slot::lemma_descends_from(now, leaf, root);
    let p = now.parent[leaf]->0;
    assert(now.kids[p].contains(leaf));
    assert(p != leaf);
    assert(!order.contains(leaf)) by {
        assert(now.parent[leaf] is Some);
    }
    assert forall|x: u64| (#[trigger] now.parent[x]) is Some implies now.parent[x] == was.parent[x] by {
    }
    crate::cap::slot::lemma_descends_in_more(now, was, leaf, root);
    assert forall|c: u64| #[trigger] order2.contains(c) implies was.descends(c, root) by {
        let i = order2.index_of(c);
        if i < order.len() {
            assert(order[i] == c);
            assert(order.contains(c));
        }
    }
    assert forall|c: u64| #[trigger] order2.contains(c) == (order.contains(c) || c == leaf) by {
        if order.contains(c) {
            assert(order2[order.index_of(c)] == c);
        }
        if c == leaf {
            assert(order2[order.len() as int] == leaf);
        }
    }
    assert forall|i: int, j: int| 0 <= i < j < order2.len() implies order2[i] != order2[j] by {
        if j == order.len() {
            assert(order.contains(order2[i]));
        }
    }
    assert forall|i: int, c: u64|
        0 <= i < order2.len() && #[trigger] was.parent[c] == Some(
            #[trigger] order2[i],
        ) implies order2.take(i).contains(c) by {
        if i < order.len() {
            assert(order2[i] == order[i]);
            assert(order2.take(i) =~= order.take(i));
        } else {
            assert(order2.take(i) =~= order);
            if !order.contains(c) {
                assert(now.parent[c] == Some(leaf));
                assert(now.kids[leaf].contains(c));
            }
        }
    }
    assert forall|a: u64| a != root && !was.descends(a, root) implies #[trigger] then.kids[a]
        == was.kids[a] by {
        if a == p {
            crate::cap::slot::lemma_descends_from(was, leaf, root);
        }
        assert(now.kids[a] == was.kids[a]);
    }
    assert forall|a: u64|
        #[trigger] then.parent[a] == if order2.contains(a) {
            None
        } else {
            was.parent[a]
        } by {
        assert(now.parent[a] == if order.contains(a) {
            None
        } else {
            was.parent[a]
        });
    }
    assert forall|a: u64|
        #[trigger] then.caps[a] == if order2.contains(a) {
            RawCap::null_spec()
        } else {
            was.caps[a]
        } by {
        assert(now.caps[a] == if order.contains(a) {
            RawCap::null_spec()
        } else {
            was.caps[a]
        });
    }
}

/// There are fewer slots below `root` than slots that were ever written.
proof fn lemma_torn_room(was: Derivation, root: u64, order: Seq<u64>, room: usize)
    requires
        was.is_consistent(),
        !was.descends(root, root),
        order.no_duplicates(),
        order.len() > 0,
        forall|c: u64| #[trigger] order.contains(c) ==> was.descends(c, root),
        was.derived().len() <= room,
        was.kids[root].len() > 0 ==> was.derived().len() < room || was.derived().contains(root),
    ensures
        order.len() < room,
{
    let derived = was.derived();
    let below = order.to_set();
    order.unique_seq_to_set();
    assert(order.contains(order[0]));
    crate::cap::slot::lemma_descends_means_kids(was, order[0], root);
    assert forall|c: u64| below.contains(c) implies derived.contains(c) && c != root by {
        assert(order.contains(c));
        crate::cap::slot::lemma_descends_from(was, c, root);
    }
    if derived.contains(root) {
        assert(below.subset_of(derived.remove(root)));
        vstd::set_lib::lemma_len_subset(below, derived.remove(root));
    } else {
        assert(below.subset_of(derived));
        vstd::set_lib::lemma_len_subset(below, derived);
    }
}

/// Removing a slot from the tree leaves one derived slot fewer.
proof fn lemma_derived_shrinks(now: Derivation, then: Derivation, leaf: u64)
    requires
        now.is_consistent(),
        now.parent[leaf] is Some,
        then == now.unlinked(leaf).with_cap(leaf, RawCap::null_spec()),
    ensures
        then.derived().len() < now.derived().len(),
        then.derived().subset_of(now.derived()),
{
    assert(then.derived() =~= now.derived().remove(leaf));
}

/// Once `root` has no children, everything derived from it is gone.
proof fn lemma_torn_down(was: Derivation, now: Derivation, root: u64, order: Seq<u64>)
    requires
        torn(was, now, root, order),
        now.is_consistent(),
        now.kids[root].len() == 0,
    ensures
        was.is_teardown(root, order),
        forall|a: u64| #[trigger] order.contains(a) ==> now.kids[a].len() == 0,
{
    assert forall|c: u64| was.descends(c, root) implies #[trigger] order.contains(c) by {
        if !order.contains(c) {
            let n = choose|n: nat|
                n >= 1 && #[trigger] crate::cap::slot::above(was.parent, c, n) == Some(root);
            crate::cap::slot::lemma_left_in_tree(was, now, order, c, n, root);
            assert(now.descends(c, root));
            crate::cap::slot::lemma_descends_means_kids(now, c, root);
        }
    }
    assert forall|a: u64| #[trigger] order.contains(a) implies now.kids[a].len() == 0 by {
        assert(now.caps[a].kind is Null);
        assert(now.detached(a));
    }
}

/// A teardown lists as many slots as there are derivatives.
proof fn lemma_teardown_count(was: Derivation, root: u64, order: Seq<u64>)
    requires
        was.is_teardown(root, order),
    ensures
        order.len() == was.descendants(root).len(),
{
    order.unique_seq_to_set();
    assert(order.to_set() =~= was.descendants(root));
}

// --- What the links say before and after a change ---

proof fn lemma_same_links(was: Map<u64, Slot>, now: Map<u64, Slot>, kids: Map<u64, Seq<u64>>)
    requires
        threaded(was, kids),
        forall|a: u64| #[trigger] now.dom().contains(a),
        forall|x: u64|
            #![trigger now[x]]
            now[x].parent == was[x].parent && now[x].first_child == was[x].first_child
                && now[x].prev_sib == was[x].prev_sib && now[x].next_sib == was[x].next_sib,
    ensures
        threaded(now, kids),
{
    assert forall|p: u64, i: int| 0 <= i < kids[p].len() implies #[trigger] placed(
        now,
        kids,
        p,
        i,
    ) by {
        assert(placed(was, kids, p, i));
    }
    assert forall|a: u64| (#[trigger] now[a]).parent is Some implies kids[now[a].parent->0].contains(
        a,
    ) by {
        assert(was[a].parent is Some);
    }
    assert forall|a: u64| (#[trigger] now[a]).parent is None implies now[a].prev_sib is None
        && now[a].next_sib is None by {
        assert(was[a].parent is None);
    }
    assert forall|a: u64| (#[trigger] now[a]).first_child == head(kids[a]) by {
        assert(was[a].first_child == head(kids[a]));
    }
}

/// The links of `was` after `child` has been put at the front of `parent`'s
/// children.
spec fn link_result(was: Map<u64, Slot>, parent: u64, child: u64) -> Map<u64, Slot> {
    let next = was[parent].first_child;
    let one = was.insert(
        child,
        Slot { parent: Some(parent), prev_sib: None, next_sib: next, ..was[child] },
    );
    let two = match next {
        Some(h) => one.insert(h, Slot { prev_sib: Some(child), ..one[h] }),
        None => one,
    };
    two.insert(parent, Slot { first_child: Some(child), ..two[parent] })
}

proof fn lemma_link(
    was: Map<u64, Slot>,
    kids: Map<u64, Seq<u64>>,
    parent: u64,
    child: u64,
    now: Map<u64, Slot>,
)
    requires
        threaded(was, kids),
        parent != child,
        was[child].parent is None,
        kids[child].len() == 0,
        now == link_result(was, parent, child),
    ensures
        threaded(now, kids.insert(parent, seq![child] + kids[parent])),
        forall|a: u64| (#[trigger] now[a]).cap == was[a].cap,
        forall|a: u64|
            (#[trigger] now[a]).parent == if a == child {
                Some(parent)
            } else {
                was[a].parent
            },
{
    let kids2 = kids.insert(parent, seq![child] + kids[parent]);
    let h = was[parent].first_child;
    // The child is in no list yet.
    assert forall|q: u64| !(#[trigger] kids[q]).contains(child) by {
        if kids[q].contains(child) {
            let i = kids[q].index_of(child);
            assert(kids[q][i] == child);
            assert(placed(was, kids, q, i));
        }
    }
    assert(h is Some ==> kids[parent].len() > 0 && h->0 == kids[parent][0]);
    if h is Some {
        assert(placed(was, kids, parent, 0));
        assert(h->0 != child);
    }
    assert forall|a: u64| (#[trigger] kids2[a]).no_duplicates() by {
        if a == parent {
            assert(!kids[parent].contains(child));
            assert forall|i: int, j: int| 0 <= i < j < kids2[a].len() implies kids2[a][i]
                != kids2[a][j] by {
                if i == 0 {
                    assert(kids2[a][j] == kids[parent][j - 1]);
                } else {
                    assert(kids[parent].no_duplicates());
                    assert(kids2[a][i] == kids[parent][i - 1]);
                    assert(kids2[a][j] == kids[parent][j - 1]);
                }
            }
        } else {
            assert(kids[a].no_duplicates());
        }
    }
    assert forall|a: u64| (#[trigger] now[a]).first_child == head(kids2[a]) by {
        assert(was[a].first_child == head(kids[a]));
    }
    assert forall|q: u64, i: int| 0 <= i < kids2[q].len() implies #[trigger] placed(
        now,
        kids2,
        q,
        i,
    ) by {
        if q == parent {
            if i == 0 {
                assert(kids2[q][0] == child);
            } else {
                let c = kids[parent][i - 1];
                assert(kids2[q][i] == c);
                assert(placed(was, kids, parent, i - 1));
                assert(c != child) by {
                    assert(kids[parent].contains(c));
                }
                if i > 1 {
                    assert(kids[parent][i - 2] == kids2[q][i - 1]);
                    if h is Some {
                        assert(kids[parent].no_duplicates());
                        assert(kids[parent][0] != kids[parent][i - 1]);
                    }
                }
            }
        } else {
            let c = kids[q][i];
            assert(placed(was, kids, q, i));
            assert(c != child) by {
                assert(kids[q].contains(c));
            }
            if h is Some {
                assert(placed(was, kids, parent, 0));
                assert(c != h->0);
            }
        }
    }
    assert forall|a: u64| (#[trigger] now[a]).parent is Some implies kids2[now[a].parent->0].contains(
        a,
    ) by {
        if a == child {
            assert(kids2[parent][0] == child);
        } else {
            assert(was[a].parent is Some);
            let q = was[a].parent->0;
            assert(kids[q].contains(a));
            let i = kids[q].index_of(a);
            if q == parent {
                assert(kids2[q][i + 1] == a);
            }
        }
    }
    assert forall|a: u64| (#[trigger] now[a]).parent is None implies now[a].prev_sib is None
        && now[a].next_sib is None by {
        assert(was[a].parent is None);
        if h is Some {
            assert(placed(was, kids, parent, 0));
        }
    }
}

proof fn lemma_link_depth(
    kids: Map<u64, Seq<u64>>,
    depth: Map<u64, nat>,
    bottom: nat,
    parent: u64,
    child: u64,
    deeper: nat,
    was: Map<u64, Slot>,
)
    requires
        threaded(was, kids),
        layered(kids, depth, bottom),
        was[child].parent is None,
        kids[child].len() == 0,
        parent != child,
        bottom <= deeper,
        depth[parent] + 1 <= deeper,
    ensures
        layered(
            kids.insert(parent, seq![child] + kids[parent]),
            depth.insert(child, depth[parent] + 1),
            deeper,
        ),
{
    let kids2 = kids.insert(parent, seq![child] + kids[parent]);
    let depth2 = depth.insert(child, depth[parent] + 1);
    assert forall|a: u64| #[trigger] depth2[a] <= deeper by {
        assert(depth[a] <= bottom);
    }
    assert forall|q: u64, i: int| 0 <= i < kids2[q].len() implies depth2[q] < depth2[
    #[trigger] kids2[q][i]] by {
        if q == parent && i == 0 {
        } else {
            let j = if q == parent {
                i - 1
            } else {
                i
            };
            assert(kids2[q][i] == kids[q][j]);
            assert(depth[q] < depth[kids[q][j]]);
            assert(placed(was, kids, q, j));
        }
    }
}

/// The neighbours of a slot in its parent's list.
proof fn lemma_neighbours(slots: Map<u64, Slot>, kids: Map<u64, Seq<u64>>, a: u64)
    requires
        threaded(slots, kids),
    ensures
        slots[a].parent matches Some(p) ==> {
            let i = kids[p].index_of(a);
            &&& 0 <= i < kids[p].len()
            &&& kids[p][i] == a
            &&& slots[a].prev_sib == before(kids[p], i)
            &&& slots[a].next_sib == after(kids[p], i)
        },
{
    if slots[a].parent is Some {
        let p = slots[a].parent->0;
        assert(kids[p].contains(a));
        let i = kids[p].index_of(a);
        assert(placed(slots, kids, p, i));
    }
}

/// The links of `was` after `a` has been taken out of its parent's children.
spec fn unlink_result(was: Map<u64, Slot>, a: u64) -> Map<u64, Slot> {
    let prev = was[a].prev_sib;
    let next = was[a].next_sib;
    let one = match prev {
        Some(b) => was.insert(b, Slot { next_sib: next, ..was[b] }),
        None => match was[a].parent {
            Some(p) => was.insert(p, Slot { first_child: next, ..was[p] }),
            None => was,
        },
    };
    let two = match next {
        Some(b) => one.insert(b, Slot { prev_sib: prev, ..one[b] }),
        None => one,
    };
    two.insert(a, Slot { parent: None, prev_sib: None, next_sib: None, ..two[a] })
}

/// Slot `x` after `a` has been taken out of its parent's children.
spec fn unlinked_slot(was: Map<u64, Slot>, a: u64, x: u64) -> Slot {
    Slot {
        cap: was[x].cap,
        parent: if x == a {
            None
        } else {
            was[x].parent
        },
        first_child: if was[a].prev_sib is None && was[a].parent == Some(x) {
            was[a].next_sib
        } else {
            was[x].first_child
        },
        prev_sib: if x == a {
            None
        } else if was[a].next_sib == Some(x) {
            was[a].prev_sib
        } else {
            was[x].prev_sib
        },
        next_sib: if x == a {
            None
        } else if was[a].prev_sib == Some(x) {
            was[a].next_sib
        } else {
            was[x].next_sib
        },
    }
}

proof fn lemma_unlink_result(was: Map<u64, Slot>, a: u64)
    requires
        forall|x: u64| #[trigger] was.dom().contains(x),
        was[a].prev_sib != Some(a),
        was[a].next_sib != Some(a),
    ensures
        forall|x: u64| #[trigger] unlink_result(was, a)[x] == unlinked_slot(was, a, x),
        forall|x: u64| #[trigger] unlink_result(was, a).dom().contains(x),
{
}

#[verifier::spinoff_prover]
#[verifier::rlimit(40)]
proof fn lemma_unlink_threads(
    was: Map<u64, Slot>,
    kids: Map<u64, Seq<u64>>,
    a: u64,
    now: Map<u64, Slot>,
    p: u64,
    k: int,
)
    requires
        threaded(was, kids),
        forall|x: u64| #[trigger] now.dom().contains(x),
        forall|x: u64| #[trigger] now[x] == unlinked_slot(was, a, x),
        was[a].parent == Some(p),
        0 <= k < kids[p].len(),
        kids[p][k] == a,
        was[a].prev_sib == before(kids[p], k),
        was[a].next_sib == after(kids[p], k),
    ensures
        threaded(now, kids.insert(p, kids[p].remove(k))),
{
    let old_kids = kids[p];
    let new_kids = old_kids.remove(k);
    let kids2 = kids.insert(p, new_kids);
    assert(old_kids.no_duplicates());
    assert forall|x: u64| (#[trigger] kids2[x]).no_duplicates() by {
        if x == p {
            assert forall|i: int, j: int| 0 <= i < j < new_kids.len() implies new_kids[i]
                != new_kids[j] by {
                let i2 = if i < k {
                    i
                } else {
                    i + 1
                };
                let j2 = if j < k {
                    j
                } else {
                    j + 1
                };
                assert(old_kids[i2] != old_kids[j2]);
            }
        } else {
            assert(kids[x].no_duplicates());
        }
    }
    assert forall|x: u64| (#[trigger] now[x]).first_child == head(kids2[x]) by {
        assert(was[x].first_child == head(kids[x]));
    }
    assert forall|q: u64, j: int| 0 <= j < kids2[q].len() implies #[trigger] placed(
        now,
        kids2,
        q,
        j,
    ) by {
        if q == p {
            let i = if j < k {
                j
            } else {
                j + 1
            };
            let c = old_kids[i];
            assert(new_kids[j] == c);
            assert(placed(was, kids, p, i));
            assert(c != a) by {
                assert(old_kids[i] != old_kids[k]);
            }
            if k > 0 && i != k - 1 {
                assert(old_kids[i] != old_kids[k - 1]);
            }
            if k + 1 < old_kids.len() && i != k + 1 {
                assert(old_kids[i] != old_kids[k + 1]);
            }
        } else {
            assert(kids2[q] == kids[q]);
            let c = kids[q][j];
            assert(placed(was, kids, q, j));
            if k > 0 {
                assert(placed(was, kids, p, k - 1));
            }
            if k + 1 < old_kids.len() {
                assert(placed(was, kids, p, k + 1));
            }
        }
    }
    assert forall|x: u64| (#[trigger] now[x]).parent is Some implies kids2[now[x].parent->0].contains(
        x,
    ) by {
        assert(was[x].parent is Some);
        let q = was[x].parent->0;
        assert(kids[q].contains(x));
        let i = kids[q].index_of(x);
        assert(kids[q][i] == x);
        if q == p {
            if i < k {
                assert(new_kids[i] == x);
            } else {
                assert(new_kids[i - 1] == x);
            }
        }
    }
    assert forall|x: u64| (#[trigger] now[x]).parent is None implies now[x].prev_sib is None
        && now[x].next_sib is None by {
        if x != a {
            assert(was[x].parent is None);
            if k > 0 {
                assert(placed(was, kids, p, k - 1));
            }
            if k + 1 < old_kids.len() {
                assert(placed(was, kids, p, k + 1));
            }
        }
    }
}

proof fn lemma_unlink(was: Map<u64, Slot>, kids: Map<u64, Seq<u64>>, a: u64, now: Map<u64, Slot>)
    requires
        threaded(was, kids),
        now == unlink_result(was, a),
    ensures
        threaded(
            now,
            match was[a].parent {
                Some(p) => kids.insert(p, crate::cap::slot::without(kids[p], a)),
                None => kids,
            },
        ),
        forall|x: u64| (#[trigger] now[x]).cap == was[x].cap,
        forall|x: u64|
            (#[trigger] now[x]).parent == if x == a {
                None
            } else {
                was[x].parent
            },
{
    lemma_neighbours(was, kids, a);
    if was[a].parent is None {
        assert(was[a].prev_sib is None && was[a].next_sib is None);
        assert(now =~= was);
        return ;
    }
    let p = was[a].parent->0;
    let k = kids[p].index_of(a);
    assert(kids[p].no_duplicates());
    if k > 0 {
        assert(kids[p][k - 1] != kids[p][k]);
    }
    if k + 1 < kids[p].len() {
        assert(kids[p][k + 1] != kids[p][k]);
    }
    lemma_unlink_result(was, a);
    lemma_unlink_threads(was, kids, a, now, p, k);
}

} // verus!
