//! What a memory map says of a machine: which memory there is, which of it is
//! set aside, that all the rest is free, and which devices are handed out.

use crate::fdt::PropertyView;
use crate::mm::addr::PhysAddr;
use crate::mm::discover::BankKind;
use crate::mm::region::Region;
use crate::mm::MAX_REGIONS;
use vstd::prelude::*;

verus! {

// --- Sorted, merged forms ---

/// A region merged into a sorted, merged list.
proof fn lemma_merged_in(n: Seq<Region>, r: Region, bound: int) -> (out: Seq<Region>)
    requires
        !r.empty(),
        r.end.0 < bound,
        crate::mm::region::none_empty(n),
        crate::mm::region::separated(n),
        forall|i: int| 0 <= i < n.len() ==> (#[trigger] n[i]).end.0 < bound,
    ensures
        crate::mm::region::none_empty(out),
        crate::mm::region::separated(out),
        forall|i: int| 0 <= i < out.len() ==> (#[trigger] out[i]).end.0 < bound,
        forall|a: int| #[trigger]
            crate::mm::region::covered(out, a) == (crate::mm::region::covered(n, a) || r.covers(a)),
    decreases n.len(),
{
    if n.len() == 0 || n.last().end.0 < r.start.0 {
        let out = n.push(r);
        assert forall|a: int| #[trigger]
            crate::mm::region::covered(out, a) == (crate::mm::region::covered(n, a) || r.covers(
            a,
        )) by {
            crate::mm::region::lemma_covered_push(n, r, a);
        }
        assert forall|i: int, j: int| 0 <= i < j < out.len() implies (#[trigger] out[i]).end.0 < (
        #[trigger] out[j]).start.0 by {
            if j == n.len() && i < n.len() - 1 {
                assert(n[i].end.0 < n[n.len() - 1].start.0);
                assert(!n[n.len() - 1].empty());
            }
        }
        out
    } else {
        let last = n.last();
        let init = n.drop_last();
        assert(n =~= init.push(last));
        assert(!n[n.len() - 1].empty());
        if r.end.0 < last.start.0 {
            assert forall|i: int| 0 <= i < init.len() implies (#[trigger] init[i]).end.0
                < last.start.0 by {
                assert(n[i].end.0 < n[n.len() - 1].start.0);
            }
            let inner = lemma_merged_in(init, r, last.start.0 as int);
            let out = inner.push(last);
            assert forall|a: int| #[trigger]
                crate::mm::region::covered(out, a) == (crate::mm::region::covered(n, a)
                || r.covers(a)) by {
                crate::mm::region::lemma_covered_push(inner, last, a);
                crate::mm::region::lemma_covered_push(init, last, a);
                assert(crate::mm::region::covered(inner, a) == (crate::mm::region::covered(init, a)
                    || r.covers(a)));
            }
            assert(n[n.len() - 1].end.0 < bound);
            out
        } else {
            let both = Region {
                start: if r.start.0 < last.start.0 {
                    r.start
                } else {
                    last.start
                },
                end: if r.end.0 > last.end.0 {
                    r.end
                } else {
                    last.end
                },
            };
            assert(n[n.len() - 1].end.0 < bound);
            let out = lemma_merged_in(init, both, bound);
            assert forall|a: int| #[trigger]
                crate::mm::region::covered(out, a) == (crate::mm::region::covered(n, a)
                || r.covers(a)) by {
                crate::mm::region::lemma_covered_push(init, last, a);
                assert(both.covers(a) == (last.covers(a) || r.covers(a)));
            }
            out
        }
    }
}

proof fn lemma_merged(s: Seq<Region>) -> (n: Seq<Region>)
    requires
        crate::mm::region::none_empty(s),
    ensures
        crate::mm::region::is_normal_form(s, n),
    decreases s.len(),
{
    if s.len() == 0 {
        s
    } else {
        let before = lemma_merged(s.drop_last());
        assert(!s[s.len() - 1].empty());
        assert(s =~= s.drop_last().push(s.last()));
        let n = lemma_merged_in(before, s.last(), u64::MAX + 1);
        assert forall|a: int| #[trigger]
            crate::mm::region::covered(n, a) == crate::mm::region::covered(s, a) by {
            crate::mm::region::lemma_covered_push(s.drop_last(), s.last(), a);
            assert(crate::mm::region::covered(before, a) == crate::mm::region::covered(
                s.drop_last(),
                a,
            ));
        }
        assert forall|i: int, j: int| 0 <= i <= j < n.len() implies (#[trigger] n[i]).start.0 <= (
        #[trigger] n[j]).start.0 by {
            assert(!n[i].empty());
        }
        n
    }
}

/// Every list without empty regions has a sorted, merged form.
proof fn lemma_has_normal_form(s: Seq<Region>)
    requires
        crate::mm::region::none_empty(s),
    ensures
        crate::mm::region::is_normal_form(s, crate::mm::region::normal_form(s)),
{
    let n = lemma_merged(s);
    assert(crate::mm::region::is_normal_form(s, n));
}

proof fn lemma_covered_without_empty(s: Seq<Region>, a: int)
    ensures
        crate::mm::region::covered(crate::mm::region::without_empty(s), a)
            == crate::mm::region::covered(s, a),
        crate::mm::region::none_empty(crate::mm::region::without_empty(s)),
    decreases s.len(),
{
    if s.len() > 0 {
        let init = s.drop_last();
        lemma_covered_without_empty(init, a);
        assert(s =~= init.push(s.last()));
        crate::mm::region::lemma_covered_push(init, s.last(), a);
        crate::mm::region::lemma_covered_push(
            crate::mm::region::without_empty(init),
            s.last(),
            a,
        );
    }
}

// --- What is free ---

/// What is left of a region ends where the region ends or where a cut begins.
proof fn lemma_piece_ends(cursor: u64, end: u64, cuts: Seq<Region>, i: int)
    requires
        0 <= i < crate::mm::region::remainder(cursor, end, cuts).len(),
    ensures
        ({
            let e = crate::mm::region::remainder(cursor, end, cuts)[i].end;
            e.0 == end || exists|c: int| 0 <= c < cuts.len() && (#[trigger] cuts[c]).start == e
        }),
    decreases cuts.len(),
{
    if cursor < end && cuts.len() > 0 && !(cuts[0].end.0 > cursor && cuts[0].start.0 >= end) {
        let rest = cuts.drop_first();
        let whole = crate::mm::region::remainder(cursor, end, cuts);
        let e = whole[i].end;
        if cuts[0].end.0 <= cursor {
            lemma_piece_ends(cursor, end, rest, i);
        } else if cuts[0].start.0 > cursor {
            if i == 0 {
                assert(cuts[0].start == e);
            } else {
                assert(whole[i] == crate::mm::region::remainder(cuts[0].end.0, end, rest)[i - 1]);
                lemma_piece_ends(cuts[0].end.0, end, rest, i - 1);
            }
        } else {
            lemma_piece_ends(cuts[0].end.0, end, rest, i);
        }
        if e.0 != end && !(cuts[0].start == e) {
            let c = choose|c: int| 0 <= c < rest.len() && (#[trigger] rest[c]).start == e;
            assert(cuts[c + 1].start == e);
        }
    }
}

proof fn lemma_pieces_end(s: Seq<Region>, cuts: Seq<Region>, i: int)
    requires
        0 <= i < crate::mm::region::remainders(s, cuts).len(),
    ensures
        ({
            let e = crate::mm::region::remainders(s, cuts)[i].end;
            ||| exists|k: int| 0 <= k < s.len() && (#[trigger] s[k]).end == e
            ||| exists|c: int| 0 <= c < cuts.len() && (#[trigger] cuts[c]).start == e
        }),
    decreases s.len(),
{
    let init = s.drop_last();
    let before = crate::mm::region::remainders(init, cuts);
    let whole = crate::mm::region::remainders(s, cuts);
    let e = whole[i].end;
    if i < before.len() {
        assert(whole[i] == before[i]);
        lemma_pieces_end(init, cuts, i);
        if exists|k: int| 0 <= k < init.len() && (#[trigger] init[k]).end == e {
            let k = choose|k: int| 0 <= k < init.len() && (#[trigger] init[k]).end == e;
            assert(s[k].end == e);
        }
    } else {
        let last = s.last();
        let pieces = crate::mm::region::remainder(last.start.0, last.end.0, cuts);
        assert(whole[i] == pieces[i - before.len()]);
        lemma_piece_ends(last.start.0, last.end.0, cuts, i - before.len());
        if e.0 == last.end.0 {
            assert(s[s.len() - 1].end == e);
        }
    }
}

/// A page of memory of which nothing is set aside is left whole.
proof fn lemma_page_left(ram: Seq<Region>, reserved: Seq<Region>, p: int) -> (i: int)
    requires
        crate::mm::region::none_empty(ram),
        crate::mm::region::separated(ram),
        crate::mm::region::none_empty(reserved),
        crate::mm::region::separated(reserved),
        crate::mm::region::ordered(reserved),
        forall|a: int|
            p <= a < p + 4096 ==> #[trigger] crate::mm::region::covered(ram, a)
                && !crate::mm::region::covered(reserved, a),
    ensures
        0 <= i < crate::mm::region::remainders(ram, reserved).len(),
        crate::mm::region::remainders(ram, reserved)[i].start.0 <= p,
        p + 4096 <= crate::mm::region::remainders(ram, reserved)[i].end.0,
{
    let left = crate::mm::region::remainders(ram, reserved);
    crate::mm::region::lemma_remainders(ram, reserved);
    assert(crate::mm::region::covered(ram, p));
    assert(crate::mm::region::covered(left, p));
    let i = choose|i: int| 0 <= i < left.len() && (#[trigger] left[i]).covers(p);
    let e = left[i].end;
    if e.0 < p + 4096 {
        assert(crate::mm::region::covered(ram, e.0 as int));
        let m = choose|m: int| 0 <= m < ram.len() && (#[trigger] ram[m]).covers(e.0 as int);
        lemma_pieces_end(ram, reserved, i);
        if exists|k: int| 0 <= k < ram.len() && (#[trigger] ram[k]).end == e {
            let k = choose|k: int| 0 <= k < ram.len() && (#[trigger] ram[k]).end == e;
            assert(k != m);
            assert(!ram[k].empty() && !ram[m].empty());
            assert(ram[k].end.0 < ram[m].start.0 || ram[m].end.0 < ram[k].start.0);
        } else {
            let c = choose|c: int|
                0 <= c < reserved.len() && (#[trigger] reserved[c]).start == e;
            assert(!reserved[c].empty());
            assert(reserved[c].covers(e.0 as int));
            assert(crate::mm::region::covered(reserved, e.0 as int));
        }
        assert(false);
    }
    i
}

proof fn lemma_page_free(ram: Seq<Region>, reserved: Seq<Region>, p: int, a: int)
    requires
        crate::mm::region::none_empty(ram),
        crate::mm::region::separated(ram),
        crate::mm::region::none_empty(reserved),
        crate::mm::region::separated(reserved),
        crate::mm::region::ordered(reserved),
        p % 4096 == 0,
        p <= a < p + 4096,
        forall|b: int|
            p <= b < p + 4096 ==> #[trigger] crate::mm::region::covered(ram, b)
                && !crate::mm::region::covered(reserved, b),
    ensures
        crate::mm::region::covered(
            crate::mm::region::without_empty(
                crate::mm::discover::trimmed(crate::mm::region::remainders(ram, reserved)),
            ),
            a,
        ),
{
    let left = crate::mm::region::remainders(ram, reserved);
    let i = lemma_page_left(ram, reserved, p);
    let inner = crate::mm::discover::trimmed(left);
    assert(inner[i] == left[i].inner_pages());
    assert(inner[i].covers(a));
    lemma_covered_without_empty(inner, a);
}

/// The RAM and the reserved memory of a map, as the lists they are merged from.
proof fn lemma_settled(bytes: Seq<u8>, dtb: PhysAddr, kernel: Region)
    requires
        crate::mm::discover::discovered(bytes, dtb, kernel) is Ok,
    ensures
        ({
            let view = crate::mm::discover::discovered(bytes, dtb, kernel)->Ok_0;
            let props = crate::fdt::properties_of(bytes).0;
            let ac = crate::mm::discover::root_cells(props, "#address-cells"@);
            let sc = crate::mm::discover::root_cells(props, "#size-cells"@);
            let ram = crate::mm::discover::banks(props, ac, sc, BankKind::Ram);
            let reserved = crate::mm::discover::banks(props, ac, sc, BankKind::Reserved);
            let devices = crate::mm::discover::banks(props, ac, sc, BankKind::Device);
            let entries = crate::fdt::reservations_of(bytes).0;
            let listed = crate::mm::discover::with_reservations(
                crate::mm::region::without_empty(reserved),
                entries,
            );
            let blob = Region {
                start: dtb,
                end: PhysAddr((dtb.0 + crate::fdt::header_field(bytes, 1)) as u64),
            };
            &&& forall|a: int| #[trigger]
                crate::mm::region::covered(view.ram, a) == crate::mm::region::covered(ram, a)
            &&& crate::mm::region::none_empty(view.ram)
            &&& crate::mm::region::separated(view.ram)
            &&& forall|a: int| #[trigger]
                crate::mm::region::covered(view.reserved, a) == (crate::mm::region::covered(
                    listed,
                    a,
                ) || kernel.covers(a) || blob.covers(a))
            &&& crate::mm::region::none_empty(view.reserved)
            &&& crate::mm::region::separated(view.reserved)
            &&& crate::mm::region::ordered(view.reserved)
            &&& !kernel.empty() ==> listed.len() < MAX_REGIONS
            &&& view.free == crate::mm::region::without_empty(
                crate::mm::discover::trimmed(
                    crate::mm::region::remainders(view.ram, view.reserved),
                ),
            )
            &&& view.devices == crate::mm::discover::handed_out(
                crate::mm::region::without_empty(devices),
                view.ram,
                view.plic,
            )
            &&& view.plic == crate::plic::controller(props)
            &&& view.fdt == blob
        }),
{
    let view = crate::mm::discover::discovered(bytes, dtb, kernel)->Ok_0;
    let props = crate::fdt::properties_of(bytes).0;
    let ac = crate::mm::discover::root_cells(props, "#address-cells"@);
    let sc = crate::mm::discover::root_cells(props, "#size-cells"@);
    let ram = crate::mm::discover::banks(props, ac, sc, BankKind::Ram);
    let reserved = crate::mm::discover::banks(props, ac, sc, BankKind::Reserved);
    let entries = crate::fdt::reservations_of(bytes).0;
    let blob = Region {
        start: dtb,
        end: PhysAddr((dtb.0 + crate::fdt::header_field(bytes, 1)) as u64),
    };
    lemma_covered_without_empty(ram, 0);
    lemma_covered_without_empty(reserved, 0);
    lemma_has_normal_form(crate::mm::region::without_empty(ram));
    let some = crate::mm::region::without_empty(reserved);
    let listed = crate::mm::discover::with_reservations(some, entries);
    crate::mm::discover::lemma_with_reservations(some, entries);
    let with_kernel = crate::mm::discover::appended(listed, kernel)->Some_0;
    let all = crate::mm::discover::appended(with_kernel, blob)->Some_0;
    assert(crate::mm::region::none_empty(with_kernel));
    assert(crate::mm::region::none_empty(all));
    lemma_has_normal_form(all);
    assert forall|a: int| #[trigger]
        crate::mm::region::covered(view.ram, a) == crate::mm::region::covered(ram, a) by {
        lemma_covered_without_empty(ram, a);
    }
    assert forall|a: int| #[trigger]
        crate::mm::region::covered(view.reserved, a) == (crate::mm::region::covered(listed, a)
        || kernel.covers(a) || blob.covers(a)) by {
        crate::mm::region::lemma_covered_push(listed, kernel, a);
        crate::mm::region::lemma_covered_push(with_kernel, blob, a);
        assert(crate::mm::region::covered(view.reserved, a) == crate::mm::region::covered(all, a));
    }
}

/// Every page of RAM of which nothing is set aside is free, all of it: no memory
/// is lost.
pub proof fn every_unreserved_page_is_free(
    bytes: Seq<u8>,
    dtb: PhysAddr,
    kernel: Region,
    p: int,
    a: int,
)
    requires
        crate::mm::discover::discovered(bytes, dtb, kernel) is Ok,
        p % 4096 == 0,
        p <= a < p + 4096,
        ({
            let view = crate::mm::discover::discovered(bytes, dtb, kernel)->Ok_0;
            forall|b: int|
                p <= b < p + 4096 ==> #[trigger] crate::mm::region::covered(view.ram, b)
                    && !crate::mm::region::covered(view.reserved, b)
        }),
    ensures
        crate::mm::region::covered(
            crate::mm::discover::discovered(bytes, dtb, kernel)->Ok_0.free,
            a,
        ),
{
    let view = crate::mm::discover::discovered(bytes, dtb, kernel)->Ok_0;
    lemma_settled(bytes, dtb, kernel);
    lemma_page_free(view.ram, view.reserved, p, a);
}

// --- What there is ---

/// Whether the address `a` lies in a bank of memory, given by where it starts
/// and how long it is.
pub open spec fn within(bank: (u64, u64), a: int) -> bool {
    bank.0 <= a < bank.0 + bank.1
}

/// Whether the address `a` lies in one of the banks a property lists.
pub open spec fn lists(p: PropertyView, address_cells: u64, size_cells: u64, a: int) -> bool {
    exists|n: int|
        0 <= n < crate::mm::discover::pairs_from(p.value, address_cells, size_cells, 0).len()
            && within(
            #[trigger] crate::mm::discover::pairs_from(p.value, address_cells, size_cells, 0)[n],
            a,
        )
}

/// Whether a property says where RAM is: the `reg` of a `memory` node.
pub open spec fn tells_memory(p: PropertyView) -> bool {
    &&& p.name == crate::text::bytes_of("reg"@)
    &&& p.depth == 1
    &&& p.node == crate::text::bytes_of("memory"@) || crate::text::begins(
        p.node,
        crate::text::bytes_of("memory@"@),
    )
}

/// Whether a property says which memory is set aside: the `reg` of a child of
/// `reserved-memory`.
pub open spec fn tells_reserved(p: PropertyView) -> bool {
    &&& p.name == crate::text::bytes_of("reg"@)
    &&& p.depth == 2
    &&& p.parent == crate::text::bytes_of("reserved-memory"@)
}

proof fn lemma_bank_covers(
    p: PropertyView,
    address_cells: u64,
    size_cells: u64,
    kind: BankKind,
    a: int,
)
    requires
        kind is Ram || kind is Reserved,
        p.name == crate::text::bytes_of("reg"@) && crate::mm::discover::bank_kind(p) is Some
            ==> crate::mm::discover::pairs_fit(p.value, address_cells, size_cells),
    ensures
        crate::mm::region::covered(
            crate::mm::discover::banks_in(p, address_cells, size_cells, kind),
            a,
        ) <==> p.name == crate::text::bytes_of("reg"@) && crate::mm::discover::bank_kind(p) == Some(
            kind,
        ) && lists(p, address_cells, size_cells, a),
{
    let here = crate::mm::discover::banks_in(p, address_cells, size_cells, kind);
    let pairs = crate::mm::discover::pairs_from(p.value, address_cells, size_cells, 0);
    if p.name == crate::text::bytes_of("reg"@) && crate::mm::discover::bank_kind(p) == Some(kind) {
        if crate::mm::region::covered(here, a) {
            let n = choose|n: int| 0 <= n < here.len() && (#[trigger] here[n]).covers(a);
            assert(pairs[n].0 + pairs[n].1 <= u64::MAX);
            assert(within(pairs[n], a));
        }
        if lists(p, address_cells, size_cells, a) {
            let n = choose|n: int| 0 <= n < pairs.len() && within(#[trigger] pairs[n], a);
            assert(pairs[n].0 + pairs[n].1 <= u64::MAX);
            assert(here[n].covers(a));
        }
    }
}

proof fn lemma_banks_cover(
    props: Seq<PropertyView>,
    address_cells: u64,
    size_cells: u64,
    kind: BankKind,
    a: int,
)
    requires
        kind is Ram || kind is Reserved,
        crate::mm::discover::banks_fit(props, address_cells, size_cells),
    ensures
        crate::mm::region::covered(
            crate::mm::discover::banks(props, address_cells, size_cells, kind),
            a,
        ) <==> exists|i: int|
            0 <= i < props.len() && (#[trigger] props[i]).name == crate::text::bytes_of("reg"@)
                && crate::mm::discover::bank_kind(props[i]) == Some(kind) && lists(
                props[i],
                address_cells,
                size_cells,
                a,
            ),
    decreases props.len(),
{
    if props.len() > 0 {
        let init = props.drop_last();
        let last = props.len() - 1;
        assert forall|i: int|
            0 <= i < init.len() && (#[trigger] init[i]).name == crate::text::bytes_of("reg"@)
                && crate::mm::discover::bank_kind(init[i]) is Some implies crate::mm::discover::pairs_fit(
        init[i].value, address_cells, size_cells) by {
            assert(props[i] == init[i]);
        }
        lemma_banks_cover(init, address_cells, size_cells, kind, a);
        assert(props[last] == props.last());
        lemma_bank_covers(props.last(), address_cells, size_cells, kind, a);
        crate::mm::region::lemma_covered_add(
            crate::mm::discover::banks(init, address_cells, size_cells, kind),
            crate::mm::discover::banks_in(props.last(), address_cells, size_cells, kind),
            a,
        );
        if crate::mm::region::covered(
            crate::mm::discover::banks(init, address_cells, size_cells, kind),
            a,
        ) {
            let i = choose|i: int|
                0 <= i < init.len() && (#[trigger] init[i]).name == crate::text::bytes_of("reg"@)
                    && crate::mm::discover::bank_kind(init[i]) == Some(kind) && lists(
                    init[i],
                    address_cells,
                    size_cells,
                    a,
                );
            assert(props[i] == init[i]);
        }
        assert forall|i: int|
            0 <= i < last && (#[trigger] props[i]).name == crate::text::bytes_of("reg"@)
                && crate::mm::discover::bank_kind(props[i]) == Some(kind) && lists(
                props[i],
                address_cells,
                size_cells,
                a,
            ) implies crate::mm::region::covered(
            crate::mm::discover::banks(init, address_cells, size_cells, kind),
            a,
        ) by {
            assert(init[i] == props[i]);
        }
    }
}

/// RAM is where the device tree's memory nodes say, and nowhere else.
pub proof fn memory_is_where_the_tree_says(
    bytes: Seq<u8>,
    dtb: PhysAddr,
    kernel: Region,
    a: int,
)
    requires
        crate::mm::discover::addressable(bytes, dtb),
        crate::mm::discover::discovered(bytes, dtb, kernel) is Ok,
    ensures
        ({
            let props = crate::fdt::properties_of(bytes).0;
            let ac = crate::mm::discover::root_cells(props, "#address-cells"@);
            let sc = crate::mm::discover::root_cells(props, "#size-cells"@);
            crate::mm::region::covered(
                crate::mm::discover::discovered(bytes, dtb, kernel)->Ok_0.ram,
                a,
            ) <==> exists|i: int|
                0 <= i < props.len() && tells_memory(#[trigger] props[i]) && lists(
                    props[i],
                    ac,
                    sc,
                    a,
                )
        }),
{
    let props = crate::fdt::properties_of(bytes).0;
    let ac = crate::mm::discover::root_cells(props, "#address-cells"@);
    let sc = crate::mm::discover::root_cells(props, "#size-cells"@);
    lemma_settled(bytes, dtb, kernel);
    lemma_banks_cover(props, ac, sc, BankKind::Ram, a);
}

// --- What is set aside ---

/// While there is room, every entry of the reservation block is listed.
proof fn lemma_reservations_cover(list: Seq<Region>, more: Seq<(u64, u64)>, a: int)
    requires
        crate::mm::discover::with_reservations(list, more).len() < MAX_REGIONS,
        forall|i: int| 0 <= i < more.len() ==> (#[trigger] more[i]).0 + more[i].1 <= u64::MAX,
    ensures
        crate::mm::region::covered(crate::mm::discover::with_reservations(list, more), a) <==> (
        crate::mm::region::covered(list, a) || exists|i: int|
            0 <= i < more.len() && within(#[trigger] more[i], a)),
    decreases more.len(),
{
    if more.len() > 0 {
        let init = more.drop_last();
        let last = more.len() - 1;
        let before = crate::mm::discover::with_reservations(list, init);
        let r = Region {
            start: PhysAddr(more.last().0),
            end: PhysAddr((more.last().0 + more.last().1) as u64),
        };
        assert forall|i: int| 0 <= i < init.len() implies (#[trigger] init[i]).0 + init[i].1
            <= u64::MAX by {
            assert(more[i] == init[i]);
        }
        lemma_reservations_cover(list, init, a);
        crate::mm::region::lemma_covered_push(before, r, a);
        assert(more[last] == more.last());
        assert(r.covers(a) == within(more[last], a));
        if exists|i: int| 0 <= i < init.len() && within(#[trigger] init[i], a) {
            let i = choose|i: int| 0 <= i < init.len() && within(#[trigger] init[i], a);
            assert(within(more[i], a));
        }
        assert forall|i: int| 0 <= i < last && within(#[trigger] more[i], a) implies within(
            init[i],
            a,
        ) by {}
    }
}

/// What is set aside is the kernel, the device tree, what the tree reserves in
/// its nodes and what it reserves in its reservation block: all of that, and
/// nothing else.
pub proof fn what_is_set_aside_is_reserved(bytes: Seq<u8>, dtb: PhysAddr, kernel: Region, a: int)
    requires
        crate::mm::discover::addressable(bytes, dtb),
        crate::mm::discover::discovered(bytes, dtb, kernel) is Ok,
        kernel.start.0 < kernel.end.0,
    ensures
        ({
            let props = crate::fdt::properties_of(bytes).0;
            let ac = crate::mm::discover::root_cells(props, "#address-cells"@);
            let sc = crate::mm::discover::root_cells(props, "#size-cells"@);
            let entries = crate::fdt::reservations_of(bytes).0;
            crate::mm::region::covered(
                crate::mm::discover::discovered(bytes, dtb, kernel)->Ok_0.reserved,
                a,
            ) <==> {
                ||| kernel.start.0 <= a < kernel.end.0
                ||| dtb.0 <= a < dtb.0 + crate::fdt::header_field(bytes, 1)
                ||| exists|i: int|
                    0 <= i < props.len() && tells_reserved(#[trigger] props[i]) && lists(
                        props[i],
                        ac,
                        sc,
                        a,
                    )
                ||| exists|i: int| 0 <= i < entries.len() && within(#[trigger] entries[i], a)
            }
        }),
{
    let props = crate::fdt::properties_of(bytes).0;
    let ac = crate::mm::discover::root_cells(props, "#address-cells"@);
    let sc = crate::mm::discover::root_cells(props, "#size-cells"@);
    let reserved = crate::mm::discover::banks(props, ac, sc, BankKind::Reserved);
    let entries = crate::fdt::reservations_of(bytes).0;
    lemma_settled(bytes, dtb, kernel);
    lemma_banks_cover(props, ac, sc, BankKind::Reserved, a);
    lemma_covered_without_empty(reserved, a);
    lemma_reservations_cover(crate::mm::region::without_empty(reserved), entries, a);
}

// --- Devices ---

proof fn lemma_handed_out_contains(
    devices: Seq<Region>,
    ram: Seq<Region>,
    plic: Option<crate::plic::PlicInfo>,
    d: Region,
)
    ensures
        crate::mm::discover::handed_out(
            crate::mm::region::without_empty(devices),
            ram,
            plic,
        ).contains(d) <==> devices.contains(d) && !d.empty() && crate::mm::discover::may_hand_out(
            d,
            ram,
            plic,
        ),
    decreases devices.len(),
{
    if devices.len() > 0 {
        let init = devices.drop_last();
        lemma_handed_out_contains(init, ram, plic, d);
        let some = crate::mm::region::without_empty(devices);
        let fewer = crate::mm::region::without_empty(init);
        let before = crate::mm::discover::handed_out(fewer, ram, plic);
        let after = crate::mm::discover::handed_out(some, ram, plic);
        assert(devices =~= init.push(devices.last()));
        assert(devices.contains(d) <==> init.contains(d) || d == devices.last()) by {
            if init.contains(d) {
                let i = choose|i: int| 0 <= i < init.len() && init[i] == d;
                assert(devices[i] == d);
            }
            if d == devices.last() {
                assert(devices[devices.len() - 1] == d);
            }
            if devices.contains(d) {
                let i = choose|i: int| 0 <= i < devices.len() && devices[i] == d;
                if i < init.len() {
                    assert(init[i] == d);
                }
            }
        }
        if !devices.last().empty() {
            assert(some.drop_last() =~= fewer);
            assert(some.last() == devices.last());
            if crate::mm::discover::may_hand_out(devices.last(), ram, plic) {
                assert(after == before.push(devices.last()));
                assert(after.contains(d) <==> before.contains(d) || d == devices.last()) by {
                    if before.contains(d) {
                        let i = choose|i: int| 0 <= i < before.len() && before[i] == d;
                        assert(after[i] == d);
                    }
                    if d == devices.last() {
                        assert(after[before.len() as int] == d);
                    }
                }
            }
        }
    }
}

/// Whether a property says where a device is: the `reg` of a child of `soc`, or
/// of a node beside it that has a unit address and is no memory.
pub open spec fn tells_device(p: PropertyView) -> bool {
    &&& p.name == crate::text::bytes_of("reg"@)
    &&& (p.depth == 2 && p.parent == crate::text::bytes_of("soc"@)) || (p.depth == 1
        && p.node.contains(0x40u8) && !tells_memory(p))
}

/// Whether a region is the whole pages that a bank touches.
pub open spec fn holds(d: Region, bank: (u64, u64)) -> bool {
    &&& d.start.0 % 4096 == 0
    &&& d.start.0 <= bank.0 < d.start.0 + 4096
    &&& d.end.0 % 4096 == 0
    &&& d.end.0 - 4096 < bank.0 + bank.1 <= d.end.0
}

/// Whether a region is the whole pages that one of a property's banks touches.
pub open spec fn lists_pages(
    p: PropertyView,
    address_cells: u64,
    size_cells: u64,
    d: Region,
) -> bool {
    exists|n: int|
        0 <= n < crate::mm::discover::pairs_from(p.value, address_cells, size_cells, 0).len()
            && holds(
            d,
            #[trigger] crate::mm::discover::pairs_from(p.value, address_cells, size_cells, 0)[n],
        )
}

proof fn lemma_device_pages(pair: (u64, u64), d: Region)
    requires
        pair.0 + pair.1 <= u64::MAX,
        d.end.0 < 0xffff_ffff_ffff_f000,
    ensures
        crate::mm::discover::bank(pair, BankKind::Device) == d <==> holds(d, pair),
{
}

proof fn lemma_names_differ()
    ensures
        crate::text::bytes_of("soc"@) != crate::text::bytes_of("reserved-memory"@),
{
    reveal_strlit("soc");
    reveal_strlit("reserved-memory");
    vstd::utf8::encode_utf8_decode_utf8("soc"@);
    vstd::utf8::encode_utf8_decode_utf8("reserved-memory"@);
    assert("soc"@.len() != "reserved-memory"@.len());
}

proof fn lemma_device_bank(
    p: PropertyView,
    address_cells: u64,
    size_cells: u64,
    d: Region,
)
    requires
        d.end.0 < 0xffff_ffff_ffff_f000,
        tells_device(p) ==> crate::mm::discover::pairs_fit(p.value, address_cells, size_cells),
    ensures
        crate::mm::discover::banks_in(p, address_cells, size_cells, BankKind::Device).contains(d)
            <==> tells_device(p) && lists_pages(p, address_cells, size_cells, d),
{
    lemma_names_differ();
    let here = crate::mm::discover::banks_in(p, address_cells, size_cells, BankKind::Device);
    let pairs = crate::mm::discover::pairs_from(p.value, address_cells, size_cells, 0);
    if here.contains(d) {
        let n = choose|n: int| 0 <= n < here.len() && here[n] == d;
        assert(pairs[n].0 + pairs[n].1 <= u64::MAX);
        lemma_device_pages(pairs[n], d);
        assert(holds(d, pairs[n]));
    }
    if tells_device(p) && lists_pages(p, address_cells, size_cells, d) {
        let n = choose|n: int| 0 <= n < pairs.len() && holds(d, #[trigger] pairs[n]);
        assert(pairs[n].0 + pairs[n].1 <= u64::MAX);
        lemma_device_pages(pairs[n], d);
        assert(here[n] == d);
    }
}

proof fn lemma_device_banks(
    props: Seq<PropertyView>,
    address_cells: u64,
    size_cells: u64,
    d: Region,
)
    requires
        d.end.0 < 0xffff_ffff_ffff_f000,
        crate::mm::discover::banks_fit(props, address_cells, size_cells),
    ensures
        crate::mm::discover::banks(props, address_cells, size_cells, BankKind::Device).contains(d)
            <==> exists|i: int|
            0 <= i < props.len() && tells_device(#[trigger] props[i]) && lists_pages(
                props[i],
                address_cells,
                size_cells,
                d,
            ),
    decreases props.len(),
{
    if props.len() > 0 {
        let init = props.drop_last();
        let last = props.len() - 1;
        assert forall|i: int|
            0 <= i < init.len() && (#[trigger] init[i]).name == crate::text::bytes_of("reg"@)
                && crate::mm::discover::bank_kind(init[i]) is Some implies crate::mm::discover::pairs_fit(
        init[i].value, address_cells, size_cells) by {
            assert(props[i] == init[i]);
        }
        lemma_device_banks(init, address_cells, size_cells, d);
        assert(props[last] == props.last());
        lemma_device_bank(props.last(), address_cells, size_cells, d);
        let before = crate::mm::discover::banks(init, address_cells, size_cells, BankKind::Device);
        let here = crate::mm::discover::banks_in(
            props.last(),
            address_cells,
            size_cells,
            BankKind::Device,
        );
        assert((before + here).contains(d) <==> before.contains(d) || here.contains(d)) by {
            if before.contains(d) {
                let i = choose|i: int| 0 <= i < before.len() && before[i] == d;
                assert((before + here)[i] == d);
            }
            if here.contains(d) {
                let i = choose|i: int| 0 <= i < here.len() && here[i] == d;
                assert((before + here)[before.len() + i] == d);
            }
        }
        if before.contains(d) {
            let i = choose|i: int|
                0 <= i < init.len() && tells_device(#[trigger] init[i]) && lists_pages(
                    init[i],
                    address_cells,
                    size_cells,
                    d,
                );
            assert(props[i] == init[i]);
        }
        assert forall|i: int|
            0 <= i < last && tells_device(#[trigger] props[i]) && lists_pages(
                props[i],
                address_cells,
                size_cells,
                d,
            ) implies before.contains(d) by {
            assert(init[i] == props[i]);
        }
    }
}

/// A device is handed out, in whole pages, unless it overlaps RAM or is one the
/// kernel drives: the console, the shutdown register or the interrupt controller.
pub proof fn devices_the_kernel_does_not_drive_are_handed_out(
    bytes: Seq<u8>,
    dtb: PhysAddr,
    kernel: Region,
    d: Region,
)
    requires
        crate::mm::discover::addressable(bytes, dtb),
        crate::mm::discover::discovered(bytes, dtb, kernel) is Ok,
        d.start.0 < d.end.0 < 0xffff_ffff_ffff_f000,
    ensures
        ({
            let view = crate::mm::discover::discovered(bytes, dtb, kernel)->Ok_0;
            let props = crate::fdt::properties_of(bytes).0;
            let ac = crate::mm::discover::root_cells(props, "#address-cells"@);
            let sc = crate::mm::discover::root_cells(props, "#size-cells"@);
            view.devices.contains(d) <==> {
                &&& exists|i: int|
                    0 <= i < props.len() && tells_device(#[trigger] props[i]) && lists_pages(
                        props[i],
                        ac,
                        sc,
                        d,
                    )
                &&& forall|a: int|
                    d.start.0 <= a < d.end.0 ==> !(#[trigger] crate::mm::region::covered(
                        view.ram,
                        a,
                    ))
                &&& !(d.start.0 <= 0x1000_0000 < d.end.0)
                &&& !(d.start.0 <= 0x10_0000 < d.end.0)
                &&& crate::plic::controller(props) matches Some(plic)
                    ==> d.end.0 <= plic.region.start.0 || plic.region.end.0 <= d.start.0
            }
        }),
{
    let view = crate::mm::discover::discovered(bytes, dtb, kernel)->Ok_0;
    let props = crate::fdt::properties_of(bytes).0;
    let ac = crate::mm::discover::root_cells(props, "#address-cells"@);
    let sc = crate::mm::discover::root_cells(props, "#size-cells"@);
    let devices = crate::mm::discover::banks(props, ac, sc, BankKind::Device);
    lemma_settled(bytes, dtb, kernel);
    lemma_device_banks(props, ac, sc, d);
    lemma_handed_out_contains(devices, view.ram, view.plic, d);
    if crate::mm::discover::may_hand_out(d, view.ram, view.plic) {
        assert forall|a: int| d.start.0 <= a < d.end.0 implies !(
        #[trigger] crate::mm::region::covered(view.ram, a)) by {
            if crate::mm::region::covered(view.ram, a) {
                let i = choose|i: int| 0 <= i < view.ram.len() && (#[trigger] view.ram[i]).covers(a);
                assert(view.ram[i].meets(d));
            }
        }
    }
    if forall|a: int|
        d.start.0 <= a < d.end.0 ==> !(#[trigger] crate::mm::region::covered(view.ram, a)) {
        assert forall|i: int| 0 <= i < view.ram.len() implies !(#[trigger] view.ram[i]).meets(d) by {
            let r = view.ram[i];
            assert(!r.empty());
            if r.meets(d) {
                let a = if r.start.0 < d.start.0 {
                    d.start.0 as int
                } else {
                    r.start.0 as int
                };
                assert(r.covers(a));
                assert(crate::mm::region::covered(view.ram, a));
            }
        }
    }
}

} // verus!
