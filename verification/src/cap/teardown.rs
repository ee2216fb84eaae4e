//! The order in which a derivation tree is torn down.

use crate::cap::slot::Derivation;
use crate::cap::RawCap;
use vstd::prelude::*;

verus! {

/// Everything below `a`, down to `depth` derivations: each slot after everything
/// derived from it, and after its siblings to the left with everything derived
/// from those.
pub open spec fn listed(kids: Map<u64, Seq<u64>>, a: u64, depth: nat) -> Seq<u64>
    decreases depth, 0nat,
{
    if depth == 0 {
        Seq::empty()
    } else {
        listed_all(kids, kids[a], (depth - 1) as nat)
    }
}

/// The slots of a list from left to right, each after everything below it, down
/// to `depth` derivations.
pub open spec fn listed_all(kids: Map<u64, Seq<u64>>, list: Seq<u64>, depth: nat) -> Seq<u64>
    decreases depth, list.len() + 1,
{
    if list.len() == 0 {
        Seq::empty()
    } else {
        listed(kids, list[0], depth).push(list[0]) + listed_all(kids, list.drop_first(), depth)
    }
}

/// The slot `n` first children below `a`.
pub open spec fn down(kids: Map<u64, Seq<u64>>, a: u64, n: nat) -> Option<u64>
    decreases n,
{
    if n == 0 {
        Some(a)
    } else if kids[a].len() == 0 {
        None
    } else {
        down(kids, kids[a][0], (n - 1) as nat)
    }
}

impl Derivation {
    /// The order in which what is derived from `root` is destroyed: always the
    /// first child's deepest leaf next. No chain of derivations is longer than
    /// there are derived slots.
    pub open spec fn teardown(self, root: u64) -> Seq<u64> {
        listed(self.kids, root, self.derived().len())
    }

    /// Whether nothing descends from itself.
    pub open spec fn is_forest(self) -> bool {
        forall|a: u64| !#[trigger] self.descends(a, a)
    }
}

// --- Up and down the tree ---

proof fn lemma_above_add(parent: Map<u64, Option<u64>>, a: u64, m: nat, n: nat)
    requires
        crate::cap::slot::above(parent, a, m) is Some,
    ensures
        crate::cap::slot::above(parent, a, m + n) == crate::cap::slot::above(
            parent,
            crate::cap::slot::above(parent, a, m)->0,
            n,
        ),
    decreases m,
{
    if m > 0 {
        let p = parent[a]->0;
        lemma_above_add(parent, p, (m - 1) as nat, n);
        assert(crate::cap::slot::above(parent, a, m + n) == crate::cap::slot::above(
            parent,
            p,
            (m - 1 + n) as nat,
        ));
    }
}

/// One step more down the tree.
pub(crate) proof fn lemma_down_step(kids: Map<u64, Seq<u64>>, a: u64, n: nat)
    requires
        down(kids, a, n) is Some,
        kids[down(kids, a, n)->0].len() > 0,
    ensures
        down(kids, a, n + 1) == Some(kids[down(kids, a, n)->0][0]),
    decreases n,
{
    if n > 0 {
        lemma_down_step(kids, kids[a][0], (n - 1) as nat);
        assert(down(kids, a, n + 1) == down(kids, kids[a][0], n));
    } else {
        reveal_with_fuel(down, 2);
    }
}

/// What lies first children below a slot descends from it.
proof fn lemma_down_is_above(d: Derivation, a: u64, n: nat)
    requires
        d.is_consistent(),
        down(d.kids, a, n) is Some,
    ensures
        crate::cap::slot::above(d.parent, down(d.kids, a, n)->0, n) == Some(a),
    decreases n,
{
    if n > 0 {
        let c = d.kids[a][0];
        let l = down(d.kids, a, n)->0;
        lemma_down_is_above(d, c, (n - 1) as nat);
        assert(d.parent[c] == Some(a));
        crate::cap::slot::lemma_above_step(d.parent, l, (n - 1) as nat);
    }
}

/// No chain of first children is longer than there are derived slots.
pub(crate) proof fn lemma_down_is_short(d: Derivation, a: u64, n: nat)
    requires
        d.is_consistent(),
        d.is_forest(),
        down(d.kids, a, n) is Some,
    ensures
        n <= d.derived().len(),
{
    let path = Seq::new(n, |i: int| down(d.kids, a, (i + 1) as nat)->0);
    assert forall|i: int, j: int| 0 <= i < j < n implies path[i] != path[j] by {
        lemma_down_prefix(d.kids, a, (j + 1) as nat, n);
        lemma_down_prefix(d.kids, a, (i + 1) as nat, (j + 1) as nat);
        lemma_down_is_above(d, path[i], (j - i) as nat);
        if path[i] == path[j] {
            assert(d.descends(path[i], path[i]));
        }
    }
    path.unique_seq_to_set();
    assert forall|c: u64| path.to_set().contains(c) implies d.derived().contains(c) by {
        let i = path.index_of(c);
        lemma_down_prefix(d.kids, a, (i + 1) as nat, n);
        lemma_down_is_above(d, a, (i + 1) as nat);
    }
    vstd::set_lib::lemma_len_subset(path.to_set(), d.derived());
}

proof fn lemma_down_prefix(kids: Map<u64, Seq<u64>>, a: u64, m: nat, n: nat)
    requires
        m <= n,
        down(kids, a, n) is Some,
    ensures
        down(kids, a, m) is Some,
        down(kids, a, n) == down(kids, down(kids, a, m)->0, (n - m) as nat),
    decreases m,
{
    if m > 0 {
        lemma_down_prefix(kids, kids[a][0], (m - 1) as nat, (n - 1) as nat);
    }
}

/// Two children of one slot have nothing below them in common.
proof fn lemma_siblings_apart(d: Derivation, a: u64, x: u64, y: u64, c: u64, m: nat, n: nat)
    requires
        d.is_forest(),
        d.parent[x] == Some(a),
        d.parent[y] == Some(a),
        m <= n,
        crate::cap::slot::above(d.parent, c, m) == Some(x),
        crate::cap::slot::above(d.parent, c, n) == Some(y),
    ensures
        x == y,
{
    lemma_above_add(d.parent, c, m, (n - m) as nat);
    let k = (n - m) as nat;
    assert(crate::cap::slot::above(d.parent, x, k) == Some(y));
    if k > 0 {
        assert(crate::cap::slot::above(d.parent, a, (k - 1) as nat) == Some(y));
        assert(crate::cap::slot::above(d.parent, y, k) == Some(y));
        assert(d.descends(y, y));
    }
}

// --- What a change below one slot means for the list of another ---

/// A slot's list does not depend on the children of a slot that is not below it.
proof fn lemma_list_unchanged(d: Derivation, p: u64, list: Seq<u64>, a: u64, depth: nat)
    requires
        d.is_consistent(),
        a != p,
        !d.descends(p, a),
    ensures
        listed(d.kids.insert(p, list), a, depth) == listed(d.kids, a, depth),
    decreases depth, 0nat,
{
    if depth > 0 {
        let kids = d.kids[a];
        assert forall|i: int| 0 <= i < kids.len() implies #[trigger] kids[i] != p && !d.descends(
            p,
            kids[i],
        ) by {
            assert(d.parent[kids[i]] == Some(a));
            crate::cap::slot::lemma_descends_step(d, kids[i], a);
            if d.descends(p, kids[i]) {
                crate::cap::slot::derivation_is_transitive(d, p, kids[i], a);
            }
        }
        lemma_lists_unchanged(d, p, list, kids, (depth - 1) as nat);
    }
}

proof fn lemma_lists_unchanged(d: Derivation, p: u64, list: Seq<u64>, s: Seq<u64>, depth: nat)
    requires
        d.is_consistent(),
        forall|i: int| 0 <= i < s.len() ==> #[trigger] s[i] != p && !d.descends(p, s[i]),
    ensures
        listed_all(d.kids.insert(p, list), s, depth) == listed_all(d.kids, s, depth),
    decreases depth, s.len() + 1,
{
    if s.len() > 0 {
        let rest = s.drop_first();
        lemma_list_unchanged(d, p, list, s[0], depth);
        assert forall|i: int| 0 <= i < rest.len() implies #[trigger] rest[i] != p && !d.descends(
            p,
            rest[i],
        ) by {
            assert(rest[i] == s[i + 1]);
        }
        lemma_lists_unchanged(d, p, list, rest, depth);
    }
}

/// Removing the first leaf below a slot takes the first entry off its list.
proof fn lemma_first_leaf(d: Derivation, a: u64, n: nat, depth: nat)
    requires
        d.is_consistent(),
        d.is_forest(),
        1 <= n <= depth,
        down(d.kids, a, n) is Some,
        d.kids[down(d.kids, a, n)->0].len() == 0,
    ensures
        ({
            let leaf = down(d.kids, a, n)->0;
            let p = d.parent[leaf]->0;
            let then = d.kids.insert(p, d.kids[p].drop_first());
            &&& d.parent[leaf] is Some
            &&& d.kids[p].len() > 0
            &&& d.kids[p][0] == leaf
            &&& listed(d.kids, a, depth) == seq![leaf] + listed(then, a, depth)
        }),
    decreases n,
{
    let c = d.kids[a][0];
    let leaf = down(d.kids, a, n)->0;
    let rest = d.kids[a].drop_first();
    let less = (depth - 1) as nat;
    assert(d.parent[c] == Some(a));
    if n == 1 {
        reveal_with_fuel(down, 2);
        assert(leaf == c);
    } else {
        lemma_first_leaf(d, c, (n - 1) as nat, less);
    }
    let p = d.parent[leaf]->0;
    let then = d.kids.insert(p, d.kids[p].drop_first());
    lemma_down_is_above(d, c, (n - 1) as nat);
    assert forall|i: int| 0 <= i < rest.len() implies #[trigger] rest[i] != p && !d.descends(
        p,
        rest[i],
    ) by {
        let x = rest[i];
        assert(x == d.kids[a][i + 1]);
        assert(x != c);
        assert(d.parent[x] == Some(a));
        if n == 1 {
            assert(p == a);
            crate::cap::slot::lemma_descends_step(d, x, a);
            if d.descends(a, x) {
                crate::cap::slot::derivation_is_transitive(d, a, x, a);
            }
        } else {
            let m = (n - 2) as nat;
            assert(crate::cap::slot::above(d.parent, p, m) == Some(c));
            if p == x || d.descends(p, x) {
                let k: nat = if p == x {
                    0
                } else {
                    choose|k: nat|
                        k >= 1 && #[trigger] crate::cap::slot::above(d.parent, p, k) == Some(x)
                };
                assert(crate::cap::slot::above(d.parent, p, k) == Some(x));
                if m <= k {
                    lemma_siblings_apart(d, a, c, x, p, m, k);
                } else {
                    lemma_siblings_apart(d, a, x, c, p, k, m);
                }
            }
        }
    }
    lemma_lists_unchanged(d, p, d.kids[p].drop_first(), rest, less);
    if n == 1 {
        assert(listed(d.kids, c, less) =~= Seq::<u64>::empty());
        assert(listed(d.kids, a, depth) =~= seq![leaf] + listed(then, a, depth));
    } else {
        assert(p != a) by {
            if p == a {
                assert(crate::cap::slot::above(d.parent, a, (n - 2) as nat) == Some(c));
                assert(crate::cap::slot::above(d.parent, c, (n - 1) as nat) == Some(c));
                assert(d.descends(c, c));
            }
        }
        assert(then[a] == d.kids[a]);
        assert(listed(d.kids, a, depth) =~= seq![leaf] + listed(then, a, depth));
    }
}

/// Destroying the first leaf below `root` takes the first entry off the list of
/// what is still to be destroyed.
pub(crate) proof fn lemma_leaf_listed(d: Derivation, root: u64, n: nat, depth: nat)
    requires
        d.is_consistent(),
        d.is_forest(),
        1 <= n <= depth,
        down(d.kids, root, n) is Some,
        d.kids[down(d.kids, root, n)->0].len() == 0,
    ensures
        ({
            let leaf = down(d.kids, root, n)->0;
            let then = d.unlinked(leaf).with_cap(leaf, RawCap::null_spec());
            listed(d.kids, root, depth) == seq![leaf] + listed(then.kids, root, depth)
        }),
{
    let leaf = down(d.kids, root, n)->0;
    lemma_first_leaf(d, root, n, depth);
    let p = d.parent[leaf]->0;
    let at = d.kids[p].index_of(leaf);
    assert(d.kids[p].contains(leaf));
    assert(at == 0);
    assert(crate::cap::slot::without(d.kids[p], leaf) =~= d.kids[p].drop_first());
}

// --- What a teardown reaches ---

/// No chain of derivations is longer than there are derived slots.
proof fn lemma_chain_is_short(d: Derivation, c: u64, n: nat)
    requires
        d.is_consistent(),
        d.is_forest(),
        crate::cap::slot::above(d.parent, c, n) is Some,
    ensures
        n <= d.derived().len(),
{
    let chain = Seq::new(n, |i: int| crate::cap::slot::above(d.parent, c, i as nat)->0);
    assert forall|i: int, j: int| 0 <= i < j < n implies chain[i] != chain[j] by {
        lemma_above_prefix(d.parent, c, j as nat, n);
        lemma_above_prefix(d.parent, c, i as nat, j as nat);
        lemma_above_add(d.parent, c, i as nat, (j - i) as nat);
        if chain[i] == chain[j] {
            assert(d.descends(chain[i], chain[i]));
        }
    }
    chain.unique_seq_to_set();
    assert forall|x: u64| chain.to_set().contains(x) implies d.derived().contains(x) by {
        let i = chain.index_of(x);
        lemma_above_prefix(d.parent, c, (i + 1) as nat, n);
        crate::cap::slot::lemma_above_step(d.parent, c, i as nat);
        lemma_above_prefix(d.parent, c, i as nat, n);
    }
    vstd::set_lib::lemma_len_subset(chain.to_set(), d.derived());
}

proof fn lemma_above_prefix(parent: Map<u64, Option<u64>>, a: u64, m: nat, n: nat)
    requires
        m <= n,
        crate::cap::slot::above(parent, a, n) is Some,
    ensures
        crate::cap::slot::above(parent, a, m) is Some,
    decreases m,
{
    if m > 0 {
        lemma_above_prefix(parent, parent[a]->0, (m - 1) as nat, (n - 1) as nat);
    }
}

/// A list of slots holds its slots and what is listed below each.
proof fn lemma_all_listed(kids: Map<u64, Seq<u64>>, list: Seq<u64>, i: int, depth: nat)
    requires
        0 <= i < list.len(),
    ensures
        listed_all(kids, list, depth).contains(list[i]),
        forall|c: u64| #[trigger]
            listed(kids, list[i], depth).contains(c) ==> listed_all(kids, list, depth).contains(c),
    decreases list.len(),
{
    let head = listed(kids, list[0], depth);
    let rest = listed_all(kids, list.drop_first(), depth);
    let all = listed_all(kids, list, depth);
    assert(all == head.push(list[0]) + rest);
    if i == 0 {
        assert(all[head.len() as int] == list[0]);
        assert forall|c: u64| #[trigger] head.contains(c) implies all.contains(c) by {
            let j = head.index_of(c);
            assert(all[j] == c);
        }
    } else {
        assert(list.drop_first()[i - 1] == list[i]);
        lemma_all_listed(kids, list.drop_first(), i - 1, depth);
        assert forall|c: u64| #[trigger] rest.contains(c) implies all.contains(c) by {
            let j = rest.index_of(c);
            assert(all[head.len() + 1 + j] == c);
        }
        assert(rest.contains(list[i]));
    }
}

proof fn lemma_listed_below(d: Derivation, c: u64, a: u64, n: nat, depth: nat)
    requires
        d.is_consistent(),
        1 <= n <= depth,
        crate::cap::slot::above(d.parent, c, n) == Some(a),
    ensures
        listed(d.kids, a, depth).contains(c),
    decreases n,
{
    lemma_above_prefix(d.parent, c, (n - 1) as nat, n);
    crate::cap::slot::lemma_above_step(d.parent, c, (n - 1) as nat);
    let x = crate::cap::slot::above(d.parent, c, (n - 1) as nat)->0;
    assert(d.parent[x] == Some(a));
    let i = d.kids[a].index_of(x);
    lemma_all_listed(d.kids, d.kids[a], i, (depth - 1) as nat);
    if n > 1 {
        lemma_listed_below(d, c, x, (n - 1) as nat, (depth - 1) as nat);
    }
}

proof fn lemma_listed_descends(d: Derivation, a: u64, c: u64, depth: nat)
    requires
        d.is_consistent(),
        listed(d.kids, a, depth).contains(c),
    ensures
        d.descends(c, a),
    decreases depth, 0nat,
{
    assert forall|i: int| 0 <= i < d.kids[a].len() implies d.parent[#[trigger] d.kids[a][i]]
        == Some(a) by {
    }
    lemma_all_descend(d, a, d.kids[a], c, (depth - 1) as nat);
}

proof fn lemma_all_descend(d: Derivation, a: u64, list: Seq<u64>, c: u64, depth: nat)
    requires
        d.is_consistent(),
        forall|i: int| 0 <= i < list.len() ==> d.parent[#[trigger] list[i]] == Some(a),
        listed_all(d.kids, list, depth).contains(c),
    ensures
        d.descends(c, a),
    decreases depth, list.len() + 1,
{
    let head = listed(d.kids, list[0], depth);
    let rest = listed_all(d.kids, list.drop_first(), depth);
    let i = listed_all(d.kids, list, depth).index_of(c);
    crate::cap::slot::lemma_descends_step(d, list[0], a);
    if i < head.len() {
        assert(head[i] == c);
        lemma_listed_descends(d, list[0], c, depth);
        crate::cap::slot::derivation_is_transitive(d, c, list[0], a);
    } else if i > head.len() {
        assert(rest[i - head.len() - 1] == c);
        assert forall|j: int| 0 <= j < list.drop_first().len() implies d.parent[
            #[trigger] list.drop_first()[j]] == Some(a) by {
            assert(list.drop_first()[j] == list[j + 1]);
        }
        lemma_all_descend(d, a, list.drop_first(), c, depth);
    }
}

/// A teardown reaches exactly what is derived from the slot it starts at.
pub proof fn a_teardown_reaches_exactly_the_derivatives(d: Derivation, root: u64, c: u64)
    requires
        d.is_consistent(),
        d.is_forest(),
    ensures
        d.teardown(root).contains(c) <==> d.descends(c, root),
{
    if d.descends(c, root) {
        let n = choose|n: nat|
            n >= 1 && #[trigger] crate::cap::slot::above(d.parent, c, n) == Some(root);
        lemma_chain_is_short(d, c, n);
        lemma_listed_below(d, c, root, n, d.derived().len());
    }
    if d.teardown(root).contains(c) {
        lemma_listed_descends(d, root, c, d.derived().len());
    }
}

} // verus!
