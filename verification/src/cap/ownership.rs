//! Who has which memory: what an untyped region has yet to hand out belongs to
//! nobody else, whatever is retyped, copied, revoked or deleted.

use crate::abi::object::ObjectType;
use crate::abi::rights::{ALL, WRITE};
use crate::cap::slot::Derivation;
use crate::cap::{RawCap, ResolveError};
use crate::objects::ObjectsView;
use vstd::prelude::*;

verus! {

// --- What is kept ---

/// Whether memory can be handed out through a capability.
pub open spec fn can_hand_out(cap: RawCap) -> bool {
    cap.kind.untyped() && cap.rights & WRITE != 0
}

/// Whether a capability stands for memory of its own: an object, or a region
/// that can hand some out.
pub open spec fn has_memory(cap: RawCap) -> bool {
    match cap.kind {
        ObjectType::Untyped | ObjectType::DeviceUntyped => can_hand_out(cap),
        ObjectType::Null | ObjectType::Reply | ObjectType::IrqControl | ObjectType::IrqHandler => false,
        _ => true,
    }
}

/// The first address beyond a capability's memory.
pub open spec fn end_of(cap: RawCap) -> int {
    cap.paddr.0 + cap.size_spec()
}

/// The first address that a region has yet to hand out.
pub open spec fn mark_of(cap: RawCap) -> int {
    cap.paddr.0 + cap.w0
}

/// Whether two capabilities' memory has nothing in common.
pub open spec fn are_disjoint(a: RawCap, b: RawCap) -> bool {
    end_of(a) <= b.paddr.0 || end_of(b) <= a.paddr.0
}

/// Whether what is in slot `t` came out of the region in slot `s`, and the
/// region has counted it.
pub open spec fn came_from(d: Derivation, t: u64, s: u64) -> bool {
    d.descends(t, s) && end_of(d.caps[t]) <= mark_of(d.caps[s])
}

/// Whether it is settled which memory is the region's in slot `s` and which is
/// that of slot `t`.
pub open spec fn is_settled(d: Derivation, s: u64, t: u64) -> bool {
    ||| are_disjoint(d.caps[s], d.caps[t])
    ||| came_from(d, t, s)
    ||| can_hand_out(d.caps[t]) && came_from(d, s, t)
}

/// Whether what any region has yet to hand out is nobody else's, but for the
/// regions it came out of.
pub open spec fn memory_is_owned(d: Derivation) -> bool {
    forall|s: u64, t: u64|
        #![trigger can_hand_out(d.caps[s]), has_memory(d.caps[t])]
        s != t && can_hand_out(d.caps[s]) && has_memory(d.caps[t]) ==> is_settled(d, s, t)
}

// --- Chains of derivation ---

/// Derivations that were there are there when no link is taken away.
proof fn lemma_links_kept(d: Derivation, d2: Derivation)
    requires
        forall|x: u64| (#[trigger] d.parent[x]) is Some ==> d2.parent[x] == d.parent[x],
    ensures
        forall|c: u64, r: u64| #[trigger] d.descends(c, r) ==> d2.descends(c, r),
{
    assert forall|c: u64, r: u64| #[trigger] d.descends(c, r) implies d2.descends(c, r) by {
        crate::cap::slot::lemma_descends_in_more(d, d2, c, r);
    }
}

/// A chain that does not lead through `root` is kept when everything derived
/// from `root` is cut off.
proof fn lemma_chain_kept(d: Derivation, d2: Derivation, root: u64, c: u64, n: nat, r: u64)
    requires
        !d.descends(c, root),
        c != root,
        forall|x: u64|
            x != root && !d.descends(x, root) ==> #[trigger] d2.parent[x] == d.parent[x],
        crate::cap::slot::above(d.parent, c, n) == Some(r),
    ensures
        crate::cap::slot::above(d2.parent, c, n) == Some(r),
        r != root,
        !d.descends(r, root),
    decreases n,
{
    if n > 0 {
        let p = d.parent[c]->0;
        if p == root || d.descends(p, root) {
            crate::cap::slot::lemma_descends_step(d, c, root);
        }
        assert(d2.parent[c] == d.parent[c]);
        lemma_chain_kept(d, d2, root, p, (n - 1) as nat, r);
    }
}

/// Whether a slot is neither `root` nor derived from it.
spec fn is_clear_of(d: Derivation, root: u64, c: u64) -> bool {
    c != root && !d.descends(c, root)
}

proof fn lemma_descent_kept(d: Derivation, d2: Derivation, root: u64, c: u64, r: u64)
    requires
        is_clear_of(d, root, c),
        d.descends(c, r),
        forall|x: u64|
            x != root && !d.descends(x, root) ==> #[trigger] d2.parent[x] == d.parent[x],
    ensures
        d2.descends(c, r),
{
    let n = choose|n: nat| n >= 1 && #[trigger] crate::cap::slot::above(d.parent, c, n) == Some(r);
    lemma_chain_kept(d, d2, root, c, n, r);
}

// --- Revoking and deleting ---

/// Taking away everything derived from a capability, so that its region can hand
/// out all of its memory again, takes nobody else's memory.
pub proof fn revoking_keeps_memory_owned(d: Derivation, root: u64)
    requires
        memory_is_owned(d),
    ensures
        memory_is_owned(d.revoked(root)),
{
    let d2 = d.revoked(root);
    assert forall|s: u64, t: u64|
        #![trigger can_hand_out(d2.caps[s]), has_memory(d2.caps[t])]
        s != t && can_hand_out(d2.caps[s]) && has_memory(d2.caps[t]) implies is_settled(
        d2,
        s,
        t,
    ) by {
        assert(!d.descends(s, root) && !d.descends(t, root));
        assert(can_hand_out(d.caps[s]) && has_memory(d.caps[t]));
        assert(is_settled(d, s, t));
        if came_from(d, t, s) {
            lemma_revoked_descent(d, root, t, s);
            assert(s != root);
        }
        if came_from(d, s, t) {
            lemma_revoked_descent(d, root, s, t);
            assert(t != root);
        }
    }
}

proof fn lemma_revoked_descent(d: Derivation, root: u64, c: u64, r: u64)
    requires
        !d.descends(c, root),
        d.descends(c, r),
    ensures
        d.revoked(root).descends(c, r),
{
    let d2 = d.revoked(root);
    if c == root {
        crate::cap::slot::lemma_descends_from(d, c, r);
        let p = d.parent[c]->0;
        if p == root || d.descends(p, root) {
            crate::cap::slot::lemma_descends_step(d, c, root);
        }
        assert(d2.parent[c] == d.parent[c]);
        if p != r {
            lemma_descent_kept(d, d2, root, p, r);
        }
        crate::cap::slot::lemma_descends_step(d2, c, r);
    } else {
        lemma_descent_kept(d, d2, root, c, r);
    }
}

/// Taking a capability away with everything derived from it takes nobody's
/// memory.
pub proof fn deleting_keeps_memory_owned(d: Derivation, root: u64)
    requires
        memory_is_owned(d),
    ensures
        memory_is_owned(d.deleted(root)),
{
    let d2 = d.deleted(root);
    assert forall|x: u64| x != root && !d.descends(x, root) implies #[trigger] d2.parent[x]
        == d.parent[x] by {}
    assert forall|s: u64, t: u64|
        #![trigger can_hand_out(d2.caps[s]), has_memory(d2.caps[t])]
        s != t && can_hand_out(d2.caps[s]) && has_memory(d2.caps[t]) implies is_settled(
        d2,
        s,
        t,
    ) by {
        assert(is_clear_of(d, root, s) && is_clear_of(d, root, t));
        assert(can_hand_out(d.caps[s]) && has_memory(d.caps[t]));
        assert(is_settled(d, s, t));
        if d.descends(t, s) {
            lemma_descent_kept(d, d2, root, t, s);
        }
        if d.descends(s, t) {
            lemma_descent_kept(d, d2, root, s, t);
        }
    }
}

// --- Copying ---

/// Whether an empty slot is derived from nothing.
pub open spec fn empty_slots_are_loose(d: Derivation) -> bool {
    forall|a: u64| (#[trigger] d.caps[a]).kind is Null ==> d.parent[a] is None
}

/// Deriving a copy of a capability takes nobody's memory.
pub(crate) proof fn lemma_copied(d: Derivation, a: u64, source: u64, copy: RawCap)
    requires
        empty_slots_are_loose(d),
        memory_is_owned(d),
        d.caps[a].kind is Null,
        !(d.caps[source].kind is Null),
        copy.kind == d.caps[source].kind,
        copy.paddr == d.caps[source].paddr,
        copy.size_bits == d.caps[source].size_bits,
        copy.copyable(),
    ensures
        memory_is_owned(crate::cap::cspace::filled(d, a, copy, Some(source))),
        empty_slots_are_loose(crate::cap::cspace::filled(d, a, copy, Some(source))),
{
    let d2 = crate::cap::cspace::filled(d, a, copy, Some(source));
    assert(d.parent[a] is None);
    assert(d2.parent == d.parent.insert(a, Some(source)));
    lemma_links_kept(d, d2);
    assert forall|s: u64, t: u64|
        #![trigger can_hand_out(d2.caps[s]), has_memory(d2.caps[t])]
        s != t && can_hand_out(d2.caps[s]) && has_memory(d2.caps[t]) implies is_settled(
        d2,
        s,
        t,
    ) by {
        assert(s != a);
        assert(can_hand_out(d.caps[s]));
        if t != a {
            assert(has_memory(d.caps[t]));
            assert(is_settled(d, s, t));
        } else {
            assert(has_memory(d.caps[source]));
            assert(s != source);
            assert(is_settled(d, s, source));
            if came_from(d, source, s) {
                crate::cap::slot::lemma_descends_step(d2, a, s);
            }
        }
    }
}

/// Minting takes nobody's memory.
pub proof fn minting_keeps_memory_owned(
    d: Derivation,
    from: RawCap,
    src: (u64, u8),
    to: RawCap,
    dst: (u64, u8),
    rights: u8,
    badge: u64,
)
    requires
        empty_slots_are_loose(d),
        memory_is_owned(d),
    ensures
        memory_is_owned(crate::cap::cspace::minted(d, from, src, to, dst, rights, badge).0),
{
    if let Ok(source) = crate::cap::cspace::located(d.caps, from, src.0, src.1) {
        if let Ok(copy) = crate::cap::cspace::minted_cap(d.caps[source], rights, badge) {
            if let Ok(a) = crate::cap::cspace::located(d.caps, to, dst.0, dst.1) {
                if d.caps[a].kind is Null {
                    lemma_copied(d, a, source, copy);
                }
            }
        }
    }
}

// --- Retyping ---

/// Wiping slots that nothing is derived from leaves the links of all others.
proof fn lemma_wiped_links(d: Derivation, base: u64, n: nat)
    requires
        forall|c: u64, x: int|
            0 <= x < n ==> #[trigger] d.parent[c] != Some(
                #[trigger] crate::cap::slot::slot_address(base, x),
            ),
    ensures
        forall|c: u64|
            (forall|x: int| 0 <= x < n ==> #[trigger] crate::cap::slot::slot_address(base, x) != c)
                ==> #[trigger] d.wiped_range(base, n).parent[c] == d.parent[c],
        forall|c: u64|
            d.parent[c] is None ==> (#[trigger] d.wiped_range(base, n).parent[c]) is None,
        forall|c: u64|
            d.caps[c].kind is Null ==> (#[trigger] d.wiped_range(base, n).caps[c]).kind is Null,
    decreases n,
{
    if n > 0 {
        let before = d.wiped_range(base, (n - 1) as nat);
        let a = crate::cap::slot::slot_address(base, n - 1);
        lemma_wiped_links(d, base, (n - 1) as nat);
        lemma_wiped_parents(d, base, (n - 1) as nat);
        assert forall|c: u64| #[trigger] before.parent[c] != Some(a) by {
            assert(d.parent[c] != Some(crate::cap::slot::slot_address(base, n - 1)));
        }
        assert(d.wiped_range(base, n) == before.wiped(a));
        assert forall|c: u64|
            (forall|x: int| 0 <= x < n ==> #[trigger] crate::cap::slot::slot_address(base, x) != c)
                implies #[trigger] d.wiped_range(base, n).parent[c] == d.parent[c] by {
            assert(crate::cap::slot::slot_address(base, n - 1) != c);
            assert(before.parent[c] == d.parent[c]);
        }
    }
}

/// Wiping makes no links.
proof fn lemma_wiped_parents(d: Derivation, base: u64, n: nat)
    ensures
        forall|c: u64|
            (#[trigger] d.wiped_range(base, n).parent[c]) is Some ==> d.wiped_range(
                base,
                n,
            ).parent[c] == d.parent[c],
    decreases n,
{
    if n > 0 {
        lemma_wiped_parents(d, base, (n - 1) as nat);
    }
}

/// Whether one of the first `k` objects of a retype goes to a slot.
spec fn is_filled(v: ObjectsView, root: RawCap, dst: (u64, u8), k: nat, a: u64) -> bool {
    exists|i: int|
        0 <= i < k && #[trigger] crate::cap::cspace::destination(v, root, dst, i) == Ok::<
            u64,
            ResolveError,
        >(a)
}

/// Whether the first `k` objects of a retype are in place, and nothing else has
/// changed.
spec fn is_installed(
    v: ObjectsView,
    d2: Derivation,
    root: RawCap,
    source: u64,
    made: Seq<RawCap>,
    dst: (u64, u8),
    k: nat,
) -> bool {
    let d = v.slots;
    &&& forall|a: u64|
        !((#[trigger] d.caps[a]).kind is Null) ==> d2.caps[a] == d.caps[a] && d2.parent[a]
            == d.parent[a]
    &&& forall|i: int|
        0 <= i < k ==> {
            let a = (#[trigger] crate::cap::cspace::destination(v, root, dst, i))->Ok_0;
            d2.caps[a] == made[i] && d2.parent[a] == Some(source)
        }
    &&& forall|a: u64|
        d.caps[a].kind is Null && !is_filled(v, root, dst, k, a) ==> (
        #[trigger] d2.caps[a]).kind is Null && d2.parent[a] is None
}

/// Laying out an object of an orderly retype changes nothing but slots that are
/// empty.
proof fn lemma_laid_out(
    v: ObjectsView,
    w: ObjectsView,
    root: RawCap,
    source: u64,
    made: Seq<RawCap>,
    dst: (u64, u8),
    n: nat,
    k: nat,
)
    requires
        v.slots.is_consistent(),
        crate::cap::cspace::is_orderly(v, root, dst, made, n),
        is_installed(v, w.slots, root, source, made, dst, k),
        !(v.slots.caps[source].kind is Null),
        forall|i: int|
            0 <= i < n ==> (#[trigger] crate::cap::cspace::destination(v, root, dst, i)) is Ok
                && v.slots.caps[crate::cap::cspace::destination(v, root, dst, i)->Ok_0].kind is Null,
        k < n == made.len(),
    ensures
        is_installed(
            v,
            crate::cap::cspace::laid_out(w, made[k as int]).slots,
            root,
            source,
            made,
            dst,
            k,
        ),
{
    let cap = made[k as int];
    let d = v.slots;
    let d2 = crate::cap::cspace::laid_out(w, cap).slots;
    if cap.kind is CNode {
        let base = cap.paddr.0;
        let count = crate::cap::cspace::slots_in(cap.size_bits);
        assert forall|x: int| 0 <= x < count implies d.caps[#[trigger] crate::cap::slot::slot_address(
            base,
            x,
        )].kind is Null by {
            assert(made[k as int] == cap);
        }
        assert forall|c: u64, x: int| 0 <= x < count implies #[trigger] w.slots.parent[c] != Some(
            #[trigger] crate::cap::slot::slot_address(base, x),
        ) by {
            let p = crate::cap::slot::slot_address(base, x);
            if w.slots.parent[c] == Some(p) {
                assert(d.detached(p));
                if d.caps[c].kind is Null {
                    assert(is_filled(v, root, dst, k, c)) by {
                        if !is_filled(v, root, dst, k, c) {
                            assert(w.slots.caps[c].kind is Null);
                        }
                    }
                    let i = choose|i: int|
                        0 <= i < k && #[trigger] crate::cap::cspace::destination(v, root, dst, i)
                            == Ok::<u64, ResolveError>(c);
                    assert(w.slots.parent[c] == Some(source));
                } else {
                    assert(d.parent[c] == Some(p));
                    assert(d.kids[p].contains(c));
                }
            }
        }
        lemma_wiped_links(w.slots, base, count);
        assert forall|a: u64| !((#[trigger] d.caps[a]).kind is Null) implies d2.caps[a] == d.caps[a]
            && d2.parent[a] == d.parent[a] by {
            crate::cap::cspace::lemma_laid_out_slots(v, w, root, dst, made, n, k as int, a);
            assert forall|x: int| 0 <= x < count implies #[trigger]
                crate::cap::slot::slot_address(base, x) != a by {}
            assert(w.slots.parent[a] == d.parent[a]);
        }
        assert forall|i: int| 0 <= i < k implies ({
            let a = (#[trigger] crate::cap::cspace::destination(v, root, dst, i))->Ok_0;
            d2.caps[a] == made[i] && d2.parent[a] == Some(source)
        }) by {
            let a = crate::cap::cspace::destination(v, root, dst, i)->Ok_0;
            assert(crate::cap::cspace::destination(v, root, dst, i) == Ok::<u64, ResolveError>(a));
            crate::cap::cspace::lemma_laid_out_slots(v, w, root, dst, made, n, k as int, a);
            assert forall|x: int| 0 <= x < count implies #[trigger]
                crate::cap::slot::slot_address(base, x) != a by {
                assert(made[k as int] == cap);
            }
        }
        assert forall|a: u64|
            d.caps[a].kind is Null && !is_filled(v, root, dst, k, a) implies (
        #[trigger] d2.caps[a]).kind is Null && d2.parent[a] is None by {
            assert(w.slots.caps[a].kind is Null && w.slots.parent[a] is None);
        }
    }
}

proof fn lemma_installed(
    v: ObjectsView,
    root: RawCap,
    source: u64,
    made: Seq<RawCap>,
    dst: (u64, u8),
    n: nat,
    k: nat,
)
    requires
        v.slots.is_consistent(),
        crate::cap::cspace::is_orderly(v, root, dst, made, n),
        crate::cap::cspace::all_free(v.slots.caps, root, dst, n) is Ok,
        k <= n == made.len(),
        !(v.slots.caps[source].kind is Null),
        forall|i: int| 0 <= i < n ==> !((#[trigger] made[i]).kind is Null),
    ensures
        ({
            let (w, r) = crate::cap::cspace::installed(v, root, source, made, dst, k);
            r is Ok && is_installed(v, w.slots, root, source, made, dst, k)
        }),
    decreases k,
{
    let d = v.slots;
    assert forall|i: int| 0 <= i < n implies (#[trigger] crate::cap::cspace::destination(
        v,
        root,
        dst,
        i,
    )) is Ok && d.caps[crate::cap::cspace::destination(v, root, dst, i)->Ok_0].kind is Null by {
        crate::cap::cspace::lemma_free_one(d.caps, root, dst, n, i);
    }
    if k > 0 {
        let j = (k - 1) as nat;
        lemma_installed(v, root, source, made, dst, n, j);
        let before = crate::cap::cspace::installed(v, root, source, made, dst, j).0;
        let ready = crate::cap::cspace::laid_out(before, made[j as int]);
        lemma_laid_out(v, before, root, source, made, dst, n, j);
        let a = crate::cap::cspace::destination(v, root, dst, j as int)->Ok_0;
        crate::cap::cspace::lemma_resolved_still(
            d.caps,
            ready.slots.caps,
            root,
            crate::cap::cspace::cptr_after(dst.0, j as int),
            dst.1 as nat,
        );
        assert(!is_filled(v, root, dst, j, a)) by {
            if is_filled(v, root, dst, j, a) {
                let i = choose|i: int|
                    0 <= i < j && #[trigger] crate::cap::cspace::destination(v, root, dst, i)
                        == Ok::<u64, ResolveError>(a);
                assert(crate::cap::cspace::destination(v, root, dst, i)
                    != crate::cap::cspace::destination(v, root, dst, j as int));
            }
        }
        assert(ready.slots.caps[a].kind is Null && ready.slots.parent[a] is None);
        let d2 = crate::cap::cspace::installed(v, root, source, made, dst, k).0.slots;
        assert(d2 == crate::cap::cspace::filled(ready.slots, a, made[j as int], Some(source)));
        assert(ready.slots.caps[source] == d.caps[source]);
        assert(d2.caps == ready.slots.caps.insert(a, made[j as int]));
        assert(d2.parent == ready.slots.parent.insert(a, Some(source)));
        assert forall|i: int| 0 <= i < k implies ({
            let b = (#[trigger] crate::cap::cspace::destination(v, root, dst, i))->Ok_0;
            d2.caps[b] == made[i] && d2.parent[b] == Some(source)
        }) by {
            let b = crate::cap::cspace::destination(v, root, dst, i)->Ok_0;
            if i < j {
                assert(is_filled(v, root, dst, j, b)) by {
                    assert(crate::cap::cspace::destination(v, root, dst, i) == Ok::<
                        u64,
                        ResolveError,
                    >(b));
                }
                assert(b != a);
            }
        }
        assert forall|b: u64| d.caps[b].kind is Null && !is_filled(v, root, dst, k, b) implies (
        #[trigger] d2.caps[b]).kind is Null && d2.parent[b] is None by {
            assert(crate::cap::cspace::destination(v, root, dst, j as int) == Ok::<
                u64,
                ResolveError,
            >(a));
            assert(b != a);
            assert(!is_filled(v, root, dst, j, b)) by {
                if is_filled(v, root, dst, j, b) {
                    let i = choose|i: int|
                        0 <= i < j && #[trigger] crate::cap::cspace::destination(v, root, dst, i)
                            == Ok::<u64, ResolveError>(b);
                    assert(0 <= i < k);
                }
            }
            assert(ready.slots.caps[b].kind is Null);
        }
    } else {
        assert forall|a: u64|
            d.caps[a].kind is Null && !is_filled(v, root, dst, 0, a) implies (
        #[trigger] d.caps[a]).kind is Null && d.parent[a] is None by {
            assert(d.detached(a));
        }
    }
}

/// Whether the memory a retype gives to its objects holds no slot in use.
pub open spec fn retypes_in_order(
    v: ObjectsView,
    root: RawCap,
    src: (u64, u8),
    target: ObjectType,
    size_bits: u8,
    dst: (u64, u8),
    n: nat,
) -> bool {
    crate::cap::cspace::located(v.slots.caps, root, src.0, src.1) matches Ok(source)
        ==> crate::cap::untyped::retype_plan(v.slots.caps[source], target, size_bits, n) matches Ok(
        plan,
    ) ==> crate::cap::cspace::spares_slots(v, root, dst, plan.0, n)
}

/// What a retype that is granted leaves in the slots.
pub(crate) proof fn lemma_retyped(
    v: ObjectsView,
    root: RawCap,
    src: (u64, u8),
    target: ObjectType,
    size_bits: u8,
    dst: (u64, u8),
    n: nat,
)
    requires
        v.slots.is_consistent(),
        retypes_in_order(v, root, src, target, size_bits, dst, n),
        crate::cap::cspace::retyped(v, root, src, target, size_bits, dst, n).1 is Ok,
        !(target is Null),
    ensures
        ({
            let d = v.slots;
            let d2 = crate::cap::cspace::retyped(v, root, src, target, size_bits, dst, n).0.slots;
            let source = crate::cap::cspace::located(d.caps, root, src.0, src.1)->Ok_0;
            let region = d.caps[source];
            let plan = crate::cap::untyped::retype_plan(region, target, size_bits, n)->Ok_0;
            let bits = crate::cap::untyped::retype_bits(region.kind, target, size_bits)->Ok_0;
            &&& can_hand_out(region)
            &&& plan.0.len() == n
            &&& crate::cap::untyped::is_laid_out(region, plan.0, bits, plan.1)
            &&& forall|i: int|
                0 <= i < n ==> (#[trigger] plan.0[i]).kind == target && plan.0[i].size_bits == bits
            &&& forall|i: int|
                0 <= i < n ==> #[trigger] plan.0[i] == RawCap::plain(
                    target,
                    ALL,
                    bits,
                    plan.0[i].paddr,
                )
            &&& forall|i: int|
                0 <= i < n ==> {
                    let a = (#[trigger] crate::cap::cspace::destination(v, root, dst, i))->Ok_0;
                    &&& d.caps[a].kind is Null
                    &&& d2.caps[a] == plan.0[i]
                    &&& d2.parent[a] == Some(source)
                }
            &&& d2.caps[source] == (RawCap { w0: plan.1, ..region })
            &&& d2.parent[source] == d.parent[source]
            &&& forall|a: u64|
                !((#[trigger] d.caps[a]).kind is Null) && a != source ==> d2.caps[a] == d.caps[a]
                    && d2.parent[a] == d.parent[a]
            &&& forall|a: u64|
                d.caps[a].kind is Null && !((#[trigger] d2.caps[a]).kind is Null) ==> d2.parent[a]
                    == Some(source) && exists|i: int| 0 <= i < n && d2.caps[a] == #[trigger] plan.0[i]
            &&& forall|a: u64|
                d.caps[a].kind is Null && !((#[trigger] d2.caps[a]).kind is Null) ==> exists|i: int|
                    0 <= i < n && #[trigger] crate::cap::cspace::destination(v, root, dst, i)
                        == Ok::<u64, ResolveError>(a)
            &&& forall|a: u64, b: u64|
                #![trigger d2.caps[a], d2.caps[b]]
                a != b && d.caps[a].kind is Null && d.caps[b].kind is Null && !(
                d2.caps[a].kind is Null) && !(d2.caps[b].kind is Null) ==> are_disjoint(
                    d2.caps[a],
                    d2.caps[b],
                )
        }),
{
    let d = v.slots;
    let source = crate::cap::cspace::located(d.caps, root, src.0, src.1)->Ok_0;
    let region = d.caps[source];
    let plan = crate::cap::untyped::retype_plan(region, target, size_bits, n)->Ok_0;
    let bits = crate::cap::untyped::retype_bits(region.kind, target, size_bits)->Ok_0;
    let clean = ObjectsView {
        mem: crate::cap::untyped::retyped_memory(v.mem, region.kind, plan.0),
        ..v
    };
    assert(region.is_sound());
    assert(WRITE == 2);
    crate::cap::untyped::retyped_objects_are_disjoint(region, target, bits, n);
    crate::cap::cspace::lemma_orderly(v, clean, root, dst, plan.0, n);
    lemma_installed(clean, root, source, plan.0, dst, n, n);
    let w = crate::cap::cspace::installed(clean, root, source, plan.0, dst, n).0;
    let d2 = crate::cap::cspace::retyped(v, root, src, target, size_bits, dst, n).0.slots;
    assert(w.slots.caps[source] == region);
    assert forall|i: int| 0 <= i < n implies ({
        let a = (#[trigger] crate::cap::cspace::destination(v, root, dst, i))->Ok_0;
        &&& d.caps[a].kind is Null
        &&& d2.caps[a] == plan.0[i]
        &&& d2.parent[a] == Some(source)
    }) by {
        crate::cap::cspace::lemma_free_one(d.caps, root, dst, n, i);
        assert(crate::cap::cspace::destination(clean, root, dst, i)
            == crate::cap::cspace::destination(v, root, dst, i));
    }
    assert(d2 == w.slots.with_cap(source, RawCap { w0: plan.1, ..region }));
    assert forall|a: u64| d.caps[a].kind is Null && !((#[trigger] d2.caps[a]).kind is Null) implies
        is_filled(clean, root, dst, n, a) && d2.caps[a] == w.slots.caps[a] && d2.parent[a]
        == Some(source) by {
        assert(a != source);
        assert(d2.caps[a] == w.slots.caps[a]);
        let i = choose|i: int|
            0 <= i < n && #[trigger] crate::cap::cspace::destination(clean, root, dst, i) == Ok::<
                u64,
                ResolveError,
            >(a);
        assert(w.slots.parent[a] == Some(source));
    }
    assert forall|a: u64| d.caps[a].kind is Null && !((#[trigger] d2.caps[a]).kind is Null) implies
        exists|i: int|
        0 <= i < n && #[trigger] crate::cap::cspace::destination(v, root, dst, i) == Ok::<
            u64,
            ResolveError,
        >(a) by {
        let i = choose|i: int|
            0 <= i < n && #[trigger] crate::cap::cspace::destination(clean, root, dst, i) == Ok::<
                u64,
                ResolveError,
            >(a);
        assert(crate::cap::cspace::destination(v, root, dst, i) == Ok::<u64, ResolveError>(a));
    }
    assert forall|a: u64| d.caps[a].kind is Null && !((#[trigger] d2.caps[a]).kind is Null) implies
        d2.parent[a] == Some(source) && exists|i: int|
        0 <= i < n && d2.caps[a] == #[trigger] plan.0[i] by {
        let i = choose|i: int|
            0 <= i < n && #[trigger] crate::cap::cspace::destination(clean, root, dst, i) == Ok::<
                u64,
                ResolveError,
            >(a);
        assert(d2.caps[a] == plan.0[i]);
    }
    assert forall|a: u64, b: u64|
        #![trigger d2.caps[a], d2.caps[b]]
        a != b && d.caps[a].kind is Null && d.caps[b].kind is Null && !(d2.caps[a].kind is Null)
            && !(d2.caps[b].kind is Null) implies are_disjoint(d2.caps[a], d2.caps[b]) by {
        let i = choose|i: int|
            0 <= i < n && #[trigger] crate::cap::cspace::destination(clean, root, dst, i) == Ok::<
                u64,
                ResolveError,
            >(a);
        let j = choose|j: int|
            0 <= j < n && #[trigger] crate::cap::cspace::destination(clean, root, dst, j) == Ok::<
                u64,
                ResolveError,
            >(b);
        assert(i != j);
        assert(d2.caps[a] == plan.0[i] && d2.caps[b] == plan.0[j]);
    }
}

/// Retyping takes memory out of what the region had yet to hand out, and nobody
/// else's.
pub proof fn retyping_keeps_memory_owned(
    v: ObjectsView,
    root: RawCap,
    src: (u64, u8),
    target: ObjectType,
    size_bits: u8,
    dst: (u64, u8),
    n: nat,
)
    requires
        v.slots.is_consistent(),
        memory_is_owned(v.slots),
        retypes_in_order(v, root, src, target, size_bits, dst, n),
        !(target is Null),
    ensures
        memory_is_owned(
            crate::cap::cspace::retyped(v, root, src, target, size_bits, dst, n).0.slots,
        ),
{
    let done = crate::cap::cspace::retyped(v, root, src, target, size_bits, dst, n);
    if crate::cap::cspace::located(v.slots.caps, root, src.0, src.1) is Err {
    } else if done.1 is Err {
        crate::cap::cspace::a_refused_retype_changes_nothing(
            v,
            root,
            src,
            target,
            size_bits,
            dst,
            n,
        );
    } else {
        let d = v.slots;
        let d2 = done.0.slots;
        let source = crate::cap::cspace::located(d.caps, root, src.0, src.1)->Ok_0;
        let region = d.caps[source];
        let plan = crate::cap::untyped::retype_plan(region, target, size_bits, n)->Ok_0;
        let bits = crate::cap::untyped::retype_bits(region.kind, target, size_bits)->Ok_0;
        lemma_retyped(v, root, src, target, size_bits, dst, n);
        assert(region.is_sound());
        assert forall|x: u64| (#[trigger] d.parent[x]) is Some implies d2.parent[x]
            == d.parent[x] by {
            if d.caps[x].kind is Null {
                assert(d.detached(x));
            }
        }
        lemma_links_kept(d, d2);
        assert forall|a: u64|
            d.caps[a].kind is Null && !((#[trigger] d2.caps[a]).kind is Null) implies mark_of(region)
            <= d2.caps[a].paddr.0 && end_of(d2.caps[a]) <= mark_of(d2.caps[source])
            && mark_of(d2.caps[source]) <= end_of(region) && d2.descends(a, source) by {
            crate::cap::slot::lemma_descends_step(d2, a, source);
            let i = choose|i: int| 0 <= i < n && d2.caps[a] == #[trigger] plan.0[i];
            assert(plan.0[i].size_bits == bits);
        }
        assert forall|s: u64, t: u64|
            #![trigger can_hand_out(d2.caps[s]), has_memory(d2.caps[t])]
            s != t && can_hand_out(d2.caps[s]) && has_memory(d2.caps[t]) implies is_settled(
            d2,
            s,
            t,
        ) by {
            lemma_still_settled(d, d2, source, s, t);
        }
    }
}

/// How two slots stand to each other after a retype.
proof fn lemma_still_settled(d: Derivation, d2: Derivation, source: u64, s: u64, t: u64)
    requires
        memory_is_owned(d),
        can_hand_out(d.caps[source]),
        d2.caps[source] == (RawCap { w0: d2.caps[source].w0, ..d.caps[source] }),
        mark_of(d.caps[source]) <= mark_of(d2.caps[source]),
        forall|c: u64, r: u64| #[trigger] d.descends(c, r) ==> d2.descends(c, r),
        forall|a: u64|
            !((#[trigger] d.caps[a]).kind is Null) && a != source ==> d2.caps[a] == d.caps[a],
        forall|a: u64|
            d.caps[a].kind is Null && !((#[trigger] d2.caps[a]).kind is Null) ==> mark_of(
                d.caps[source],
            ) <= d2.caps[a].paddr.0 && end_of(d2.caps[a]) <= mark_of(d2.caps[source]) && mark_of(
                d2.caps[source],
            ) <= end_of(d.caps[source]) && d2.descends(a, source),
        forall|a: u64, b: u64|
            #![trigger d2.caps[a], d2.caps[b]]
            a != b && d.caps[a].kind is Null && d.caps[b].kind is Null && !(d2.caps[a].kind is Null)
                && !(d2.caps[b].kind is Null) ==> are_disjoint(d2.caps[a], d2.caps[b]),
        s != t,
        can_hand_out(d2.caps[s]),
        has_memory(d2.caps[t]),
    ensures
        is_settled(d2, s, t),
{
    let is_new_s = d.caps[s].kind is Null;
    let is_new_t = d.caps[t].kind is Null;
    assert(has_memory(d.caps[source]));
    if is_new_s && is_new_t {
    } else if !is_new_s && !is_new_t {
        assert(can_hand_out(d.caps[s]) && has_memory(d.caps[t]));
        assert(is_settled(d, s, t));
    } else if is_new_t {
        if s != source {
            assert(can_hand_out(d.caps[s]) && has_memory(d.caps[source]));
            assert(is_settled(d, s, source));
            if came_from(d, source, s) {
                crate::cap::slot::derivation_is_transitive(d2, t, source, s);
            }
        }
    } else {
        if t != source {
            assert(can_hand_out(d.caps[source]) && has_memory(d.caps[t]));
            assert(is_settled(d, source, t));
            if came_from(d, source, t) && can_hand_out(d.caps[t]) {
                crate::cap::slot::derivation_is_transitive(d2, s, source, t);
            }
        }
    }
}

/// What a retype makes lies in the part of its region that was not handed out
/// yet, and overlaps nobody's memory but that of the regions it came out of.
pub proof fn new_objects_take_nobodys_memory(
    v: ObjectsView,
    root: RawCap,
    src: (u64, u8),
    target: ObjectType,
    size_bits: u8,
    dst: (u64, u8),
    n: nat,
    a: u64,
    t: u64,
)
    requires
        v.slots.is_consistent(),
        memory_is_owned(v.slots),
        retypes_in_order(v, root, src, target, size_bits, dst, n),
        !(target is Null),
        crate::cap::cspace::retyped(v, root, src, target, size_bits, dst, n).1 is Ok,
        ({
            let d2 = crate::cap::cspace::retyped(v, root, src, target, size_bits, dst, n).0.slots;
            v.slots.caps[a].kind is Null && !(d2.caps[a].kind is Null)
        }),
        has_memory(v.slots.caps[t]),
    ensures
        ({
            let d = v.slots;
            let made = crate::cap::cspace::retyped(
                v,
                root,
                src,
                target,
                size_bits,
                dst,
                n,
            ).0.slots.caps[a];
            let source = crate::cap::cspace::located(d.caps, root, src.0, src.1)->Ok_0;
            &&& mark_of(d.caps[source]) <= made.paddr.0
            &&& end_of(made) <= end_of(d.caps[source])
            &&& are_disjoint(made, d.caps[t]) || t == source || (can_hand_out(d.caps[t])
                && d.descends(source, t))
        }),
{
    let d = v.slots;
    let d2 = crate::cap::cspace::retyped(v, root, src, target, size_bits, dst, n).0.slots;
    let source = crate::cap::cspace::located(d.caps, root, src.0, src.1)->Ok_0;
    let region = d.caps[source];
    let plan = crate::cap::untyped::retype_plan(region, target, size_bits, n)->Ok_0;
    let bits = crate::cap::untyped::retype_bits(region.kind, target, size_bits)->Ok_0;
    lemma_retyped(v, root, src, target, size_bits, dst, n);
    let i = choose|i: int| 0 <= i < n && d2.caps[a] == #[trigger] plan.0[i];
    assert(plan.0[i].size_bits == bits);
    if t != source {
        assert(can_hand_out(d.caps[source]) && has_memory(d.caps[t]));
        assert(is_settled(d, source, t));
    }
}

} // verus!
