//! Which zones enclose which, and the parent of every zone.

use crate::country_finder::{holds_index, row_of};
use crate::geometry_index::{entry_meets, entry_well_formed, payloads, GeometryIndex, IndexEntry};
use crate::zone::{index_of, rows, views, Zone, ZoneIndex, ZoneView};
use vstd::prelude::*;

verus! {

/// The surface of the zone at `k`; 0 where there is no such zone or it has
/// no boundary.
pub open spec fn area_of(zones: Seq<ZoneView>, k: int) -> int {
    if 0 <= k < zones.len() && zones[k].footprint is Some {
        zones[k].footprint.unwrap().area as int
    } else {
        0
    }
}

/// The administrative level of the zone at `k`; -1 where there is no such
/// zone or it has no level.
pub open spec fn level_of(zones: Seq<ZoneView>, k: int) -> int {
    if 0 <= k < zones.len() && zones[k].admin_level is Some {
        zones[k].admin_level.unwrap() as int
    } else {
        -1
    }
}

/// Zone `a` comes before zone `b` in a list of enclosing zones: it is the
/// smaller one, or as large and earlier in the collection.
pub open spec fn precedes(zones: Seq<ZoneView>, a: int, b: int) -> bool {
    area_of(zones, a) < area_of(zones, b) || (area_of(zones, a) == area_of(zones, b) && a < b)
}

/// Zone `p` stands above zone `c`: it is the larger one, or as large and
/// earlier in the collection. Only a zone that stands above another can be
/// its parent, so that no zone is ever its own ancestor.
pub open spec fn outranks(zones: Seq<ZoneView>, p: int, c: int) -> bool {
    area_of(zones, p) > area_of(zones, c) || (area_of(zones, p) == area_of(zones, c) && p < c)
}

/// Zone `a` is a tighter parent than zone `b`: it is the smaller one; or as
/// large and of a higher administrative level; or as large, of the same
/// level, and earlier in the collection.
pub open spec fn tighter(zones: Seq<ZoneView>, a: int, b: int) -> bool {
    ||| area_of(zones, a) < area_of(zones, b)
    ||| (area_of(zones, a) == area_of(zones, b) && level_of(zones, a) > level_of(zones, b))
    ||| (area_of(zones, a) == area_of(zones, b) && level_of(zones, a) == level_of(zones, b) && a
        < b)
}

/// The zone has a boundary.
pub open spec fn has_footprint() -> spec_fn(ZoneView) -> bool {
    |z: ZoneView| z.footprint is Some
}

/// The boxes of the zones that have a boundary, each with the zone's
/// identity, in the order of the zones.
pub open spec fn zone_entries(zones: Seq<ZoneView>) -> Seq<IndexEntry> {
    let kept = zones.filter(has_footprint());
    Seq::new(
        kept.len(),
        |i: int| IndexEntry { bbox: kept[i].footprint.unwrap().bbox, payload: kept[i].id },
    )
}

/// The boxes that the index over `zones` holds.
pub open spec fn zone_boxes(zones: Seq<ZoneView>) -> Seq<IndexEntry> {
    zone_entries(zones).filter(entry_well_formed())
}

/// Whether a candidate encloses the zone `me`: it is another zone, it has a
/// boundary, and it stands in `row`, the zones whose boundary was found to
/// cover the one of `me`.
pub open spec fn encloses(zones: Seq<ZoneView>, row: Seq<ZoneIndex>, me: usize) -> spec_fn(
    usize,
) -> bool {
    |c: usize|
        c != me && c < zones.len() && zones[c as int].footprint is Some && row.contains(
            ZoneIndex { index: c },
        )
}

/// Where `c` goes into `list`: before the first zone that it precedes,
/// looking from position `from` on.
pub open spec fn insertion_point(zones: Seq<ZoneView>, list: Seq<ZoneIndex>, c: usize, from: int) -> int
    decreases list.len() - from,
{
    if from < 0 || from >= list.len() {
        list.len() as int
    } else if precedes(zones, c as int, list[from].index as int) {
        from
    } else {
        insertion_point(zones, list, c, from + 1)
    }
}

/// The first `upto` zones of `kept`, smallest first.
pub open spec fn sorted_upto(zones: Seq<ZoneView>, kept: Seq<usize>, upto: int) -> Seq<ZoneIndex>
    decreases upto,
{
    if upto <= 0 {
        Seq::empty()
    } else {
        let before = sorted_upto(zones, kept, upto - 1);
        before.insert(
            insertion_point(zones, before, kept[upto - 1], 0),
            ZoneIndex { index: kept[upto - 1] },
        )
    }
}

/// The zones that enclose zone `i`, smallest first. They are looked for
/// among the zones whose box meets the box of zone `i`; a zone without a
/// boundary is enclosed by none.
pub open spec fn inclusions_of(
    zones: Seq<ZoneView>,
    enclosing: Seq<Seq<ZoneIndex>>,
    i: int,
) -> Seq<ZoneIndex> {
    match zones[i].footprint {
        None => Seq::empty(),
        Some(f) => {
            let kept = payloads(zone_boxes(zones).filter(entry_meets(f.bbox))).filter(
                encloses(zones, row_of(enclosing, zones[i].id), zones[i].id),
            );
            sorted_upto(zones, kept, kept.len() as int)
        },
    }
}

/// For every zone, the zones that enclose it.
pub open spec fn all_inclusions(zones: Seq<ZoneView>, enclosing: Seq<Seq<ZoneIndex>>) -> Seq<
    Seq<ZoneIndex>,
> {
    Seq::new(zones.len(), |i: int| inclusions_of(zones, enclosing, i))
}

/// Where `c` goes into a list, it comes after the zones before that place
/// or is as they are, and before the zone at that place.
proof fn lemma_insertion_point(zones: Seq<ZoneView>, list: Seq<ZoneIndex>, c: usize, from: int)
    requires
        0 <= from <= list.len(),
    ensures
        from <= insertion_point(zones, list, c, from) <= list.len(),
        forall|k: int|
            from <= k < insertion_point(zones, list, c, from) ==> !precedes(
                zones,
                c as int,
                (#[trigger] list[k]).index as int,
            ),
        insertion_point(zones, list, c, from) < list.len() ==> precedes(
            zones,
            c as int,
            list[insertion_point(zones, list, c, from)].index as int,
        ),
    decreases list.len() - from,
{
    if from < list.len() && !precedes(zones, c as int, list[from].index as int) {
        lemma_insertion_point(zones, list, c, from + 1);
    }
}

/// A list of enclosing zones is in order: no zone of it precedes one that
/// stands earlier in it, so that the smallest zones come first.
pub open spec fn smallest_first(zones: Seq<ZoneView>, list: Seq<ZoneIndex>) -> bool {
    forall|a: int, b: int|
        0 <= a < b < list.len() ==> !precedes(
            zones,
            (#[trigger] list[b]).index as int,
            (#[trigger] list[a]).index as int,
        )
}

/// The sorted list holds the first `upto` zones of `kept` and no other, as
/// many as there are, and the smallest come first.
pub proof fn lemma_sorted_upto(zones: Seq<ZoneView>, kept: Seq<usize>, upto: int)
    requires
        0 <= upto <= kept.len(),
    ensures
        sorted_upto(zones, kept, upto).len() == upto,
        smallest_first(zones, sorted_upto(zones, kept, upto)),
        forall|c: usize|
            sorted_upto(zones, kept, upto).contains(ZoneIndex { index: c }) <==> kept.take(
                upto,
            ).contains(c),
    decreases upto,
{
    let list = sorted_upto(zones, kept, upto);
    if upto > 0 {
        let before = sorted_upto(zones, kept, upto - 1);
        let c = kept[upto - 1];
        let p = insertion_point(zones, before, c, 0);
        lemma_sorted_upto(zones, kept, upto - 1);
        lemma_insertion_point(zones, before, c, 0);
        assert(list == before.insert(p, ZoneIndex { index: c }));
        assert forall|a: int, b: int| 0 <= a < b < list.len() implies !precedes(
            zones,
            (#[trigger] list[b]).index as int,
            (#[trigger] list[a]).index as int,
        ) by {
            if a < p && b > p {
                assert(list[a] == before[a]);
                assert(list[b] == before[b - 1]);
                if b - 1 > p {
                    assert(!precedes(zones, before[b - 1].index as int, before[p].index as int));
                }
            } else if a < p && b < p {
                assert(list[a] == before[a] && list[b] == before[b]);
            } else if a > p {
                assert(list[a] == before[a - 1] && list[b] == before[b - 1]);
            } else if a == p {
                assert(list[b] == before[b - 1]);
                if b - 1 > p {
                    assert(!precedes(zones, before[b - 1].index as int, before[p].index as int));
                }
            } else {
                assert(b == p);
                assert(list[a] == before[a]);
            }
        }
        assert forall|x: usize|
            list.contains(ZoneIndex { index: x }) <==> kept.take(upto).contains(x) by {
            let zx = ZoneIndex { index: x };
            if list.contains(zx) {
                let k = choose|k: int| 0 <= k < list.len() && list[k] == zx;
                if k == p {
                    assert(kept.take(upto)[upto - 1] == x);
                } else {
                    let k0 = if k < p {
                        k
                    } else {
                        k - 1
                    };
                    assert(before[k0] == zx);
                    assert(before.contains(zx));
                    assert(kept.take(upto - 1).contains(x));
                    let shorter = kept.take(upto - 1);
                    let j = choose|j: int| 0 <= j < shorter.len() && shorter[j] == x;
                    assert(kept.take(upto)[j] == x);
                }
            }
            if kept.take(upto).contains(x) {
                let longer = kept.take(upto);
                let j = choose|j: int| 0 <= j < longer.len() && longer[j] == x;
                if j == upto - 1 {
                    assert(list[p] == zx);
                } else {
                    assert(kept.take(upto - 1)[j] == x);
                    assert(kept.take(upto - 1).contains(x));
                    assert(before.contains(zx));
                    let k0 = choose|k0: int| 0 <= k0 < before.len() && before[k0] == zx;
                    if k0 < p {
                        assert(list[k0] == zx);
                    } else {
                        assert(list[k0 + 1] == zx);
                    }
                }
            }
        }
    } else {
        assert(kept.take(0) =~= Seq::<usize>::empty());
    }
}

/// The surface of the zone at `k`.
fn zone_area(zones: &Vec<Zone>, k: usize) -> (r: u64)
    ensures
        r == area_of(views(zones@), k as int),
{
    if k < zones.len() {
        match zones[k].footprint {
            Some(f) => f.area,
            None => 0,
        }
    } else {
        0
    }
}

/// The administrative level of the zone at `k`.
fn zone_level(zones: &Vec<Zone>, k: usize) -> (r: i64)
    ensures
        r == level_of(views(zones@), k as int),
{
    if k < zones.len() {
        match zones[k].admin_level {
            Some(l) => l as i64,
            None => -1,
        }
    } else {
        -1
    }
}

/// Whether zone `a` comes before zone `b` in a list of enclosing zones.
fn zone_precedes(zones: &Vec<Zone>, a: usize, b: usize) -> (r: bool)
    ensures
        r == precedes(views(zones@), a as int, b as int),
{
    let area_a = zone_area(zones, a);
    let area_b = zone_area(zones, b);
    area_a < area_b || (area_a == area_b && a < b)
}

/// Whether zone `p` stands above zone `c`.
fn zone_outranks(zones: &Vec<Zone>, p: usize, c: usize) -> (r: bool)
    ensures
        r == outranks(views(zones@), p as int, c as int),
{
    let area_p = zone_area(zones, p);
    let area_c = zone_area(zones, c);
    area_p > area_c || (area_p == area_c && p < c)
}

/// Whether zone `a` is a tighter parent than zone `b`.
pub(crate) fn zone_tighter(zones: &Vec<Zone>, a: usize, b: usize) -> (r: bool)
    ensures
        r == tighter(views(zones@), a as int, b as int),
{
    let area_a = zone_area(zones, a);
    let area_b = zone_area(zones, b);
    let level_a = zone_level(zones, a);
    let level_b = zone_level(zones, b);
    area_a < area_b || (area_a == area_b && level_a > level_b) || (area_a == area_b && level_a
        == level_b && a < b)
}

/// The index over the boxes of the zones that have a boundary.
pub fn zones_tree(zones: &Vec<Zone>) -> (r: GeometryIndex)
    ensures
        r@ == zone_boxes(views(zones@)),
{
    let ghost vs = views(zones@);
    let mut items: Vec<IndexEntry> = Vec::new();
    let mut i: usize = 0;
    proof {
        reveal(Seq::filter);
        assert(vs.take(0) =~= Seq::<ZoneView>::empty());
        assert(items@ =~= zone_entries(vs.take(0)));
    }
    while i < zones.len()
        invariant
            i <= zones.len(),
            vs == views(zones@),
            items@ == zone_entries(vs.take(i as int)),
        decreases zones.len() - i,
    {
        let z = &zones[i];
        proof {
            assert(vs.take(i + 1) =~= vs.take(i as int).push(z@));
            vs.take(i as int).lemma_filter_push(z@, has_footprint());
        }
        match z.footprint {
            Some(f) => {
                items.push(IndexEntry { bbox: f.bbox, payload: z.id.index });
                assert(items@ =~= zone_entries(vs.take(i + 1)));
            },
            None => {},
        }
        i += 1;
    }
    proof {
        assert(vs.take(zones.len() as int) =~= vs);
    }
    GeometryIndex::new(&items)
}

/// The zones that enclose `zone`, smallest first.
fn zone_inclusions(
    zones: &Vec<Zone>,
    enclosing: &Vec<Vec<ZoneIndex>>,
    tree: &GeometryIndex,
    i: usize,
) -> (r: Vec<ZoneIndex>)
    requires
        i < zones.len(),
        tree@ == zone_boxes(views(zones@)),
    ensures
        r@ == inclusions_of(views(zones@), rows(enclosing@), i as int),
{
    let ghost vs = views(zones@);
    let z = &zones[i];
    let bbox = match z.footprint {
        Some(f) => f.bbox,
        None => {
            return Vec::new();
        },
    };
    let me = z.id.index;
    let no_zone: Vec<ZoneIndex> = Vec::new();
    let row: &Vec<ZoneIndex> = if me < enclosing.len() {
        &enclosing[me]
    } else {
        &no_zone
    };
    let candidates = tree.query(&bbox);
    let ghost pred = encloses(vs, row@, me);
    let mut kept: Vec<usize> = Vec::new();
    let mut k: usize = 0;
    proof {
        reveal(Seq::filter);
        assert(candidates@.take(0) =~= Seq::<usize>::empty());
    }
    while k < candidates.len()
        invariant
            k <= candidates.len(),
            vs == views(zones@),
            pred == encloses(vs, row@, me),
            kept@ == candidates@.take(k as int).filter(pred),
        decreases candidates.len() - k,
    {
        let c = candidates[k];
        proof {
            assert(candidates@.take(k + 1) =~= candidates@.take(k as int).push(c));
            candidates@.take(k as int).lemma_filter_push(c, pred);
        }
        if c != me && c < zones.len() && zones[c].footprint.is_some() && holds_index(row, c) {
            kept.push(c);
        }
        k += 1;
    }
    proof {
        assert(candidates@.take(candidates.len() as int) =~= candidates@);
    }
    let mut list: Vec<ZoneIndex> = Vec::new();
    let mut n: usize = 0;
    while n < kept.len()
        invariant
            n <= kept.len(),
            vs == views(zones@),
            list@ == sorted_upto(vs, kept@, n as int),
            list.len() == n,
        decreases kept.len() - n,
    {
        let c = kept[n];
        let mut p: usize = 0;
        while p < list.len() && !zone_precedes(zones, c, list[p].index)
            invariant
                p <= list.len(),
                vs == views(zones@),
                insertion_point(vs, list@, c, 0) == insertion_point(vs, list@, c, p as int),
            decreases list.len() - p,
        {
            p += 1;
        }
        list.insert(p, ZoneIndex { index: c });
        n += 1;
    }
    list
}

/// For every zone, the zones that enclose it, smallest first; and the index
/// over the zones' boxes that served to find them. `enclosing[i]` names the
/// zones whose boundary was found to cover the boundary of zone `i`.
pub fn find_inclusions(zones: &Vec<Zone>, enclosing: &Vec<Vec<ZoneIndex>>) -> (r: (
    Vec<Vec<ZoneIndex>>,
    GeometryIndex,
))
    ensures
        r.0.len() == zones.len(),
        rows(r.0@) == all_inclusions(views(zones@), rows(enclosing@)),
        r.1@ == zone_boxes(views(zones@)),
{
    let tree = zones_tree(zones);
    let mut result: Vec<Vec<ZoneIndex>> = Vec::new();
    let mut i: usize = 0;
    while i < zones.len()
        invariant
            i <= zones.len(),
            result.len() == i,
            tree@ == zone_boxes(views(zones@)),
            forall|j: int|
                0 <= j < i ==> (#[trigger] result[j])@ == inclusions_of(
                    views(zones@),
                    rows(enclosing@),
                    j,
                ),
        decreases zones.len() - i,
    {
        let list = zone_inclusions(zones, enclosing, &tree, i);
        result.push(list);
        i += 1;
    }
    proof {
        assert(rows(result@) =~= all_inclusions(views(zones@), rows(enclosing@)));
    }
    (result, tree)
}

/// Whether zone `p` can be the parent of zone `c`.
pub open spec fn can_be_parent(zones: Seq<ZoneView>, p: int, c: int) -> bool {
    0 <= p < zones.len() && outranks(zones, p, c)
}

/// The parent of zone `child` among the first `upto` zones of `list`: the
/// tightest of those that can be its parent.
pub open spec fn best_parent(zones: Seq<ZoneView>, list: Seq<ZoneIndex>, child: int, upto: int) -> Option<
    usize,
>
    decreases upto,
{
    if upto <= 0 {
        None
    } else {
        let before = best_parent(zones, list, child, upto - 1);
        let c = list[upto - 1].index;
        if can_be_parent(zones, c as int, child) && (before is None || tighter(
            zones,
            c as int,
            before.unwrap() as int,
        )) {
            Some(c)
        } else {
            before
        }
    }
}

/// The parent of zone `i`, from the zones that enclose it; none where
/// `inclusions` has no line for it.
pub open spec fn parent_of(zones: Seq<ZoneView>, inclusions: Seq<Seq<ZoneIndex>>, i: int) -> Option<
    usize,
> {
    if 0 <= i < inclusions.len() {
        best_parent(zones, inclusions[i], i, inclusions[i].len() as int)
    } else {
        None
    }
}

/// The zones once their parents are set.
pub open spec fn with_parents(zones: Seq<ZoneView>, inclusions: Seq<Seq<ZoneIndex>>) -> Seq<
    ZoneView,
> {
    Seq::new(
        zones.len(),
        |i: int|
            if i < inclusions.len() {
                ZoneView { parent: parent_of(zones, inclusions, i), ..zones[i] }
            } else {
                zones[i]
            },
    )
}

/// The best parent is one of the zones looked at; it can be the zone's
/// parent; and none of the zones looked at that can be its parent is
/// tighter. Where there is none, no zone looked at can be the parent.
pub proof fn lemma_best_parent(zones: Seq<ZoneView>, list: Seq<ZoneIndex>, child: int, upto: int)
    requires
        0 <= upto <= list.len(),
    ensures
        match best_parent(zones, list, child, upto) {
            Some(p) => {
                &&& exists|k: int| 0 <= k < upto && list[k].index == p
                &&& can_be_parent(zones, p as int, child)
                &&& forall|k: int|
                    0 <= k < upto && can_be_parent(zones, (#[trigger] list[k]).index as int, child)
                        ==> !tighter(zones, list[k].index as int, p as int)
            },
            None => forall|k: int|
                0 <= k < upto ==> !can_be_parent(zones, (#[trigger] list[k]).index as int, child),
        },
    decreases upto,
{
    if upto > 0 {
        lemma_best_parent(zones, list, child, upto - 1);
        let before = best_parent(zones, list, child, upto - 1);
        let c = list[upto - 1].index;
        match best_parent(zones, list, child, upto) {
            Some(p) => {
                if before is Some && before.unwrap() == p && !(can_be_parent(zones, c as int, child)
                    && tighter(zones, c as int, p as int)) {
                    let k = choose|k: int| 0 <= k < upto - 1 && list[k].index == p;
                    assert(0 <= k < upto && list[k].index == p);
                } else {
                    assert(list[upto - 1].index == p);
                }
            },
            None => {},
        }
    }
}

/// The parent of each zone, from the zones that enclose it.
pub fn find_parents(zones: &Vec<Zone>, inclusions: &Vec<Vec<ZoneIndex>>) -> (r: Vec<
    Option<ZoneIndex>,
>)
    ensures
        r.len() == zones.len(),
        forall|i: int|
            0 <= i < zones.len() ==> index_of(#[trigger] r[i]) == parent_of(
                views(zones@),
                rows(inclusions@),
                i,
            ),
{
    let ghost vs = views(zones@);
    let mut parents: Vec<Option<ZoneIndex>> = Vec::new();
    let mut i: usize = 0;
    while i < zones.len()
        invariant
            i <= zones.len(),
            parents.len() == i,
            vs == views(zones@),
            forall|j: int|
                0 <= j < i ==> index_of(#[trigger] parents[j]) == parent_of(
                    vs,
                    rows(inclusions@),
                    j,
                ),
        decreases zones.len() - i,
    {
        let mut best: Option<ZoneIndex> = None;
        if i < inclusions.len() {
            let list = &inclusions[i];
            let mut k: usize = 0;
            while k < list.len()
                invariant
                    k <= list.len(),
                    i < zones.len(),
                    vs == views(zones@),
                    index_of(best) == best_parent(vs, list@, i as int, k as int),
                decreases list.len() - k,
            {
                let c = list[k].index;
                if c < zones.len() && zone_outranks(zones, c, i) {
                    let better = match best {
                        None => true,
                        Some(b) => zone_tighter(zones, c, b.index),
                    };
                    if better {
                        best = Some(ZoneIndex { index: c });
                    }
                }
                k += 1;
            }
        }
        parents.push(best);
        i += 1;
    }
    parents
}

/// Gives every zone its parent: the tightest of the zones that enclose it
/// and can be its parent. A zone that none of them can be parent of is a
/// root. Zones for which `inclusions` has no line are left as they were.
pub fn build_hierarchy(zones: &mut Vec<Zone>, inclusions: &Vec<Vec<ZoneIndex>>)
    ensures
        views(final(zones)@) == with_parents(views(old(zones)@), rows(inclusions@)),
{
    let parents = find_parents(zones, inclusions);
    let n = zones.len();
    let mut i: usize = 0;
    while i < n
        invariant
            i <= n,
            n == zones.len(),
            n == old(zones).len(),
            parents.len() == n,
            forall|j: int|
                0 <= j < n ==> index_of(#[trigger] parents[j]) == parent_of(
                    views(old(zones)@),
                    rows(inclusions@),
                    j,
                ),
            forall|j: int|
                0 <= j < i ==> (#[trigger] zones@[j])@ == with_parents(
                    views(old(zones)@),
                    rows(inclusions@),
                )[j],
            forall|j: int| i <= j < n ==> #[trigger] zones@[j] == old(zones)@[j],
        decreases n - i,
    {
        if i < inclusions.len() {
            zones[i].parent = parents[i];
        }
        i += 1;
    }
    proof {
        assert(views(zones@) =~= with_parents(views(old(zones)@), rows(inclusions@)));
    }
}

/// Every zone that encloses zone `i` is another zone with a boundary, and
/// its boundary was found to cover the one of zone `i`.
pub proof fn lemma_inclusions_enclose(
    zones: Seq<ZoneView>,
    enclosing: Seq<Seq<ZoneIndex>>,
    i: int,
    c: usize,
)
    requires
        0 <= i < zones.len(),
        inclusions_of(zones, enclosing, i).contains(ZoneIndex { index: c }),
    ensures
        c != zones[i].id,
        c < zones.len(),
        zones[c as int].footprint is Some,
        row_of(enclosing, zones[i].id).contains(ZoneIndex { index: c }),
        smallest_first(zones, inclusions_of(zones, enclosing, i)),
{
    match zones[i].footprint {
        None => {
            let none = Seq::<ZoneIndex>::empty();
            assert(none.contains(ZoneIndex { index: c }));
            let k = choose|k: int| 0 <= k < none.len() && none[k] == (ZoneIndex { index: c });
            assert(false);
        },
        Some(f) => {
            let candidates = payloads(zone_boxes(zones).filter(entry_meets(f.bbox)));
            let pred = encloses(zones, row_of(enclosing, zones[i].id), zones[i].id);
            let kept = candidates.filter(pred);
            lemma_sorted_upto(zones, kept, kept.len() as int);
            assert(kept.take(kept.len() as int) =~= kept);
            assert(kept.contains(c));
            candidates.lemma_filter_contains_rev(pred, c);
        },
    }
}

/// The zone that is reached from zone `i` by going to the parent `steps`
/// times; none where the way ends before.
pub open spec fn ancestor(zones: Seq<ZoneView>, i: int, steps: nat) -> Option<int>
    decreases steps,
{
    if steps == 0 {
        if 0 <= i < zones.len() {
            Some(i)
        } else {
            None
        }
    } else {
        match ancestor(zones, i, (steps - 1) as nat) {
            Some(a) => if 0 <= a < zones.len() {
                match zones[a].parent {
                    Some(p) => Some(p as int),
                    None => None,
                }
            } else {
                None
            },
            None => None,
        }
    }
}

/// Every parent is a zone of the collection that stands above its child.
pub open spec fn climbing(zones: Seq<ZoneView>) -> bool {
    forall|i: int|
        0 <= i < zones.len() ==> match (#[trigger] zones[i]).parent {
            Some(p) => can_be_parent(zones, p as int, i),
            None => true,
        }
}

/// Where every parent stands above its child, so does every ancestor: the
/// way up from a zone never comes back to it, and the parents form a
/// forest.
pub proof fn lemma_no_cycle(zones: Seq<ZoneView>, i: int, steps: nat)
    requires
        climbing(zones),
        0 <= i < zones.len(),
        steps >= 1,
    ensures
        match ancestor(zones, i, steps) {
            Some(a) => a != i && can_be_parent(zones, a, i),
            None => true,
        },
    decreases steps,
{
    let before = ancestor(zones, i, (steps - 1) as nat);
    if steps > 1 {
        lemma_no_cycle(zones, i, (steps - 1) as nat);
    } else {
        assert(before == Some(i));
    }
    match before {
        Some(b) => {
            if 0 <= b < zones.len() {
                match zones[b].parent {
                    Some(p) => {
                        assert(can_be_parent(zones, p as int, b));
                        assert(ancestor(zones, i, steps) == Some(p as int));
                    },
                    None => {},
                }
            }
        },
        None => {},
    }
}

/// Once the hierarchy is built, the parent of a zone is one of the zones
/// that enclose it and another zone than itself, every parent stands above
/// its child, and no way up from a zone comes back to it.
pub proof fn lemma_hierarchy_is_forest(
    zones: Seq<ZoneView>,
    inclusions: Seq<Seq<ZoneIndex>>,
    i: int,
    steps: nat,
)
    requires
        inclusions.len() >= zones.len(),
        0 <= i < zones.len(),
        steps >= 1,
    ensures
        climbing(with_parents(zones, inclusions)),
        match with_parents(zones, inclusions)[i].parent {
            Some(p) => p != i && inclusions[i].contains(ZoneIndex { index: p }),
            None => true,
        },
        ancestor(with_parents(zones, inclusions), i, steps) != Some(i),
{
    let built = with_parents(zones, inclusions);
    assert forall|j: int| 0 <= j < built.len() implies match (#[trigger] built[j]).parent {
        Some(p) => can_be_parent(built, p as int, j),
        None => true,
    } by {
        lemma_best_parent(zones, inclusions[j], j, inclusions[j].len() as int);
        match built[j].parent {
            Some(p) => {
                assert(can_be_parent(zones, p as int, j));
                assert(area_of(built, p as int) == area_of(zones, p as int));
                assert(area_of(built, j) == area_of(zones, j));
            },
            None => {},
        }
    }
    lemma_best_parent(zones, inclusions[i], i, inclusions[i].len() as int);
    match built[i].parent {
        Some(p) => {
            let k = choose|k: int| 0 <= k < inclusions[i].len() && inclusions[i][k].index == p;
            assert(inclusions[i][k] == (ZoneIndex { index: p }));
        },
        None => {},
    }
    lemma_no_cycle(built, i, steps);
}

} // verus!
