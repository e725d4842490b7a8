//! A read-only index over bounding boxes: which boxes meet a box, which hold
//! a point, and which lies nearest to a point.

use crate::zone::{BoundingBox, Coord};
use vstd::prelude::*;

verus! {

/// How far `x` lies outside the interval from `lo` to `hi`; 0 inside it.
pub open spec fn gap(lo: int, hi: int, x: int) -> int {
    if x < lo {
        lo - x
    } else if x > hi {
        x - hi
    } else {
        0
    }
}

impl BoundingBox {
    /// A box is well formed when its lower left corner is not beyond its
    /// upper right one. A box that is not well formed is empty.
    pub open spec fn well_formed(self) -> bool {
        self.min.lon <= self.max.lon && self.min.lat <= self.max.lat
    }

    /// Two boxes meet when they share at least one point.
    pub open spec fn meets(self, other: BoundingBox) -> bool {
        &&& self.min.lon <= other.max.lon
        &&& other.min.lon <= self.max.lon
        &&& self.min.lat <= other.max.lat
        &&& other.min.lat <= self.max.lat
    }

    /// The box holds the point `p`, its border included.
    pub open spec fn holds(self, p: Coord) -> bool {
        &&& self.min.lon <= p.lon <= self.max.lon
        &&& self.min.lat <= p.lat <= self.max.lat
    }

    /// The square of the distance from `p` to the box; 0 where the box
    /// holds `p`.
    pub open spec fn distance2(self, p: Coord) -> int {
        let dx = gap(self.min.lon as int, self.max.lon as int, p.lon as int);
        let dy = gap(self.min.lat as int, self.max.lat as int, p.lat as int);
        dx * dx + dy * dy
    }

    /// The box that holds `p` and nothing else.
    pub fn around(p: Coord) -> (r: BoundingBox)
        ensures
            r == (BoundingBox { min: p, max: p }),
            r.well_formed(),
    {
        BoundingBox { min: p, max: p }
    }

    /// Whether the box is well formed.
    pub fn is_well_formed(&self) -> (r: bool)
        ensures
            r == self.well_formed(),
    {
        self.min.lon <= self.max.lon && self.min.lat <= self.max.lat
    }

    /// Whether the box meets `other`.
    pub fn intersects(&self, other: &BoundingBox) -> (r: bool)
        ensures
            r == self.meets(*other),
    {
        self.min.lon <= other.max.lon && other.min.lon <= self.max.lon && self.min.lat
            <= other.max.lat && other.min.lat <= self.max.lat
    }

    /// Whether the box holds `p`.
    pub fn contains(&self, p: Coord) -> (r: bool)
        ensures
            r == self.holds(p),
    {
        self.min.lon <= p.lon && p.lon <= self.max.lon && self.min.lat <= p.lat && p.lat
            <= self.max.lat
    }

    /// The square of the distance from `p` to the box.
    pub fn squared_distance(&self, p: Coord) -> (r: u128)
        ensures
            r == self.distance2(p),
    {
        let dx: u64 = axis_gap(self.min.lon, self.max.lon, p.lon);
        let dy: u64 = axis_gap(self.min.lat, self.max.lat, p.lat);
        assert(0 <= dx * dx <= 0x1_0000_0000 * 0x1_0000_0000) by (nonlinear_arith)
            requires
                0 <= dx <= 0x1_0000_0000,
        ;
        assert(0 <= dy * dy <= 0x1_0000_0000 * 0x1_0000_0000) by (nonlinear_arith)
            requires
                0 <= dy <= 0x1_0000_0000,
        ;
        (dx as u128) * (dx as u128) + (dy as u128) * (dy as u128)
    }
}

/// How far `x` lies outside the interval from `lo` to `hi`.
fn axis_gap(lo: i32, hi: i32, x: i32) -> (r: u64)
    ensures
        r == gap(lo as int, hi as int, x as int),
        r <= 0x1_0000_0000,
{
    if x < lo {
        (lo as i64 - x as i64) as u64
    } else if x > hi {
        (x as i64 - hi as i64) as u64
    } else {
        0
    }
}

/// One box of the index and what it stands for.
#[derive(Clone, Copy, Debug, PartialEq, Eq, Structural)]
pub struct IndexEntry {
    pub bbox: BoundingBox,
    pub payload: usize,
}

/// Whether an entry's box is well formed.
pub open spec fn entry_well_formed() -> spec_fn(IndexEntry) -> bool {
    |e: IndexEntry| e.bbox.well_formed()
}

/// Whether an entry's box meets `area`.
pub open spec fn entry_meets(area: BoundingBox) -> spec_fn(IndexEntry) -> bool {
    |e: IndexEntry| e.bbox.meets(area)
}

/// Whether an entry's box holds `p`.
pub open spec fn entry_holds(p: Coord) -> spec_fn(IndexEntry) -> bool {
    |e: IndexEntry| e.bbox.holds(p)
}

/// What the entries stand for, in order.
pub open spec fn payloads(entries: Seq<IndexEntry>) -> Seq<usize> {
    Seq::new(entries.len(), |i: int| entries[i].payload)
}

/// Among the first `upto` entries, the position of the one nearest to `p`,
/// the earliest of them where several are equally near; -1 where `upto` is
/// not positive.
pub open spec fn nearest_position(entries: Seq<IndexEntry>, p: Coord, upto: int) -> int
    decreases upto,
{
    if upto <= 0 {
        -1
    } else {
        let best = nearest_position(entries, p, upto - 1);
        if best < 0 || entries[upto - 1].bbox.distance2(p) < entries[best].bbox.distance2(p) {
            upto - 1
        } else {
            best
        }
    }
}

/// The nearest position is a position among those looked at, no entry
/// looked at lies nearer, and every earlier entry lies farther.
pub proof fn lemma_nearest_position(entries: Seq<IndexEntry>, p: Coord, upto: int)
    requires
        0 < upto <= entries.len(),
    ensures
        0 <= nearest_position(entries, p, upto) < upto,
        forall|j: int|
            0 <= j < upto ==> entries[nearest_position(entries, p, upto)].bbox.distance2(p)
                <= (#[trigger] entries[j]).bbox.distance2(p),
        forall|j: int|
            0 <= j < nearest_position(entries, p, upto) ==> entries[nearest_position(
                entries,
                p,
                upto,
            )].bbox.distance2(p) < (#[trigger] entries[j]).bbox.distance2(p),
    decreases upto,
{
    let best = nearest_position(entries, p, upto - 1);
    let here = nearest_position(entries, p, upto);
    if upto > 1 {
        lemma_nearest_position(entries, p, upto - 1);
        assert(0 <= best < upto - 1);
    } else {
        assert(best == -1);
    }
    assert(here == upto - 1 || here == best);
    assert forall|j: int| 0 <= j < upto implies entries[here].bbox.distance2(p) <= (
    #[trigger] entries[j]).bbox.distance2(p) by {
        if j < upto - 1 {
            assert(entries[best].bbox.distance2(p) <= entries[j].bbox.distance2(p));
        }
    }
    assert forall|j: int| 0 <= j < here implies entries[here].bbox.distance2(p) < (
    #[trigger] entries[j]).bbox.distance2(p) by {
        if here == best {
        } else {
            assert(upto > 1 ==> entries[best].bbox.distance2(p) <= entries[j].bbox.distance2(p));
        }
    }
}

/// Entry `a` lies nearer to `p` than entry `b`, or as near and earlier.
pub open spec fn nearer(entries: Seq<IndexEntry>, p: Coord, a: int, b: int) -> bool {
    entries[a].bbox.distance2(p) < entries[b].bbox.distance2(p) || (entries[a].bbox.distance2(p)
        == entries[b].bbox.distance2(p) && a < b)
}

/// Where entry `c` goes into `order`: before the first entry that it is
/// nearer than, looking from position `from` on.
pub open spec fn slot_from(
    entries: Seq<IndexEntry>,
    p: Coord,
    order: Seq<usize>,
    c: int,
    from: int,
) -> int
    decreases order.len() - from,
{
    if from < 0 || from >= order.len() {
        order.len() as int
    } else if nearer(entries, p, c, order[from] as int) {
        from
    } else {
        slot_from(entries, p, order, c, from + 1)
    }
}

/// The positions of the `k` entries nearest to `p` among the first `upto`,
/// nearest first; all of them where there are fewer than `k`.
pub open spec fn nearest_k(entries: Seq<IndexEntry>, p: Coord, k: nat, upto: int) -> Seq<usize>
    decreases upto,
{
    if upto <= 0 {
        Seq::empty()
    } else {
        let before = nearest_k(entries, p, k, upto - 1);
        let grown = before.insert(
            slot_from(entries, p, before, upto - 1, 0),
            (upto - 1) as usize,
        );
        if grown.len() > k {
            grown.take(k as int)
        } else {
            grown
        }
    }
}

/// The entries at the positions `order`.
pub open spec fn entries_at(entries: Seq<IndexEntry>, order: Seq<usize>) -> Seq<IndexEntry> {
    Seq::new(order.len(), |i: int| entries[order[i] as int])
}

/// Where an entry goes into an order, it is nearer than the entry at that
/// place and than none of those before it.
proof fn lemma_slot(entries: Seq<IndexEntry>, p: Coord, order: Seq<usize>, c: int, from: int)
    requires
        0 <= from <= order.len(),
    ensures
        from <= slot_from(entries, p, order, c, from) <= order.len(),
        forall|x: int|
            from <= x < slot_from(entries, p, order, c, from) ==> !nearer(
                entries,
                p,
                c,
                (#[trigger] order[x]) as int,
            ),
        slot_from(entries, p, order, c, from) < order.len() ==> nearer(
            entries,
            p,
            c,
            order[slot_from(entries, p, order, c, from)] as int,
        ),
    decreases order.len() - from,
{
    if from < order.len() && !nearer(entries, p, c, order[from] as int) {
        lemma_slot(entries, p, order, c, from + 1);
    }
}

/// The nearest `k` are as many as asked for, or all the entries looked at
/// where these are fewer; they come nearest first; and every entry looked at
/// that is not among them lies farther than each of them, or as far and
/// later.
pub proof fn lemma_nearest_k(entries: Seq<IndexEntry>, p: Coord, k: nat, upto: int)
    requires
        0 <= upto <= entries.len(),
        upto <= usize::MAX,
    ensures
        nearest_k(entries, p, k, upto).len() == if upto <= k {
            upto
        } else {
            k as int
        },
        forall|a: int|
            0 <= a < nearest_k(entries, p, k, upto).len() ==> 0 <= (#[trigger] nearest_k(
                entries,
                p,
                k,
                upto,
            )[a]) < upto,
        forall|a: int, b: int|
            0 <= a < b < nearest_k(entries, p, k, upto).len() ==> nearer(
                entries,
                p,
                (#[trigger] nearest_k(entries, p, k, upto)[a]) as int,
                (#[trigger] nearest_k(entries, p, k, upto)[b]) as int,
            ),
        forall|j: usize, a: int|
            j < upto && 0 <= a < nearest_k(entries, p, k, upto).len() && !(#[trigger] nearest_k(
                entries,
                p,
                k,
                upto,
            ).contains(j)) ==> nearer(
                entries,
                p,
                (#[trigger] nearest_k(entries, p, k, upto)[a]) as int,
                j as int,
            ),
        forall|j: usize|
            j < upto && upto <= k ==> #[trigger] nearest_k(entries, p, k, upto).contains(j),
    decreases upto,
{
    if upto > 0 {
        let c = upto - 1;
        let before = nearest_k(entries, p, k, c);
        let q = slot_from(entries, p, before, c, 0);
        let grown = before.insert(q, c as usize);
        let after = nearest_k(entries, p, k, upto);
        lemma_nearest_k(entries, p, k, c);
        lemma_slot(entries, p, before, c, 0);
        // the grown list is in order
        assert forall|a: int, b: int| 0 <= a < b < grown.len() implies nearer(
            entries,
            p,
            (#[trigger] grown[a]) as int,
            (#[trigger] grown[b]) as int,
        ) by {
            if b < q {
                assert(grown[a] == before[a] && grown[b] == before[b]);
            } else if a < q && b == q {
                assert(grown[a] == before[a]);
                assert(!nearer(entries, p, c, before[a] as int));
                assert(before[a] < c);
            } else if a < q && b > q {
                assert(grown[a] == before[a] && grown[b] == before[b - 1]);
            } else if a == q {
                assert(grown[b] == before[b - 1]);
                assert(nearer(entries, p, c, before[q] as int));
                if b - 1 > q {
                    assert(nearer(entries, p, before[q] as int, before[b - 1] as int));
                }
            } else {
                assert(grown[a] == before[a - 1] && grown[b] == before[b - 1]);
            }
        }
        assert forall|a: int| 0 <= a < grown.len() implies 0 <= (#[trigger] grown[a]) < upto by {
            if a < q {
                assert(grown[a] == before[a]);
            } else if a > q {
                assert(grown[a] == before[a - 1]);
            }
        }
        assert(grown[q] == c as usize);
        assert forall|j: usize| j < c && before.contains(j) implies #[trigger] grown.contains(
            j,
        ) by {
            let x = choose|x: int| 0 <= x < before.len() && before[x] == j;
            if x < q {
                assert(grown[x] == j);
            } else {
                assert(grown[x + 1] == j);
            }
        }
        assert forall|a: int| 0 <= a < after.len() implies after[a] == grown[a] by {}
        assert forall|j: usize, a: int|
            j < upto && 0 <= a < after.len() && !(#[trigger] after.contains(j)) implies nearer(
            entries,
            p,
            (#[trigger] after[a]) as int,
            j as int,
        ) by {
            if grown.contains(j) {
                // it was cut off at the end
                let x = choose|x: int| 0 <= x < grown.len() && grown[x] == j;
                if x < after.len() {
                    assert(after[x] == j);
                    assert(false);
                }
                assert(nearer(entries, p, grown[a] as int, grown[x] as int));
            } else {
                // it was left out before, and the list was full
                assert(j != c);
                assert(!before.contains(j));
                assert(before.len() == k) by {
                    if c <= k {
                        assert(before.contains(j));
                    }
                }
                if a == q {
                    assert(q < before.len());
                    assert(nearer(entries, p, c, before[q] as int));
                    assert(nearer(entries, p, before[q] as int, j as int));
                } else if a < q {
                    assert(grown[a] == before[a]);
                    assert(nearer(entries, p, before[a] as int, j as int));
                } else {
                    assert(grown[a] == before[a - 1]);
                    assert(nearer(entries, p, before[a - 1] as int, j as int));
                }
            }
        }
        assert forall|j: usize| j < upto && upto <= k implies #[trigger] after.contains(j) by {
            assert(after == grown);
            if j < c {
                assert(before.contains(j));
            }
        }
    }
}

/// A spatial index, fixed once it is built. Entries whose box is empty are
/// left out when it is built.
#[derive(Debug)]
pub struct GeometryIndex {
    entries: Vec<IndexEntry>,
}

impl View for GeometryIndex {
    type V = Seq<IndexEntry>;

    closed spec fn view(&self) -> Seq<IndexEntry> {
        self.entries@
    }
}

impl GeometryIndex {
    /// An index over the entries of `items` whose box is well formed, in
    /// their order.
    pub fn new(items: &Vec<IndexEntry>) -> (r: GeometryIndex)
        ensures
            r@ == items@.filter(entry_well_formed()),
    {
        let mut entries: Vec<IndexEntry> = Vec::new();
        let mut i: usize = 0;
        proof {
            assert(items@.take(0) =~= Seq::<IndexEntry>::empty());
            reveal(Seq::filter);
        }
        while i < items.len()
            invariant
                i <= items.len(),
                entries@ == items@.take(i as int).filter(entry_well_formed()),
            decreases items.len() - i,
        {
            let e = items[i];
            proof {
                assert(items@.take(i + 1) =~= items@.take(i as int).push(e));
                items@.take(i as int).lemma_filter_push(e, entry_well_formed());
            }
            if e.bbox.is_well_formed() {
                entries.push(e);
            }
            i += 1;
        }
        proof {
            assert(items@.take(items.len() as int) =~= items@);
        }
        GeometryIndex { entries }
    }

    /// How many entries the index holds.
    pub fn len(&self) -> (r: usize)
        ensures
            r == self@.len(),
    {
        self.entries.len()
    }

    /// What stands behind the entries whose box meets `area`, in the order
    /// of the index.
    pub fn query(&self, area: &BoundingBox) -> (r: Vec<usize>)
        ensures
            r@ == payloads(self@.filter(entry_meets(*area))),
    {
        let mut found: Vec<usize> = Vec::new();
        let mut i: usize = 0;
        proof {
            assert(self@.take(0) =~= Seq::<IndexEntry>::empty());
            reveal(Seq::filter);
            assert(found@ =~= payloads(self@.take(0).filter(entry_meets(*area))));
        }
        while i < self.entries.len()
            invariant
                i <= self.entries.len(),
                found@ == payloads(self@.take(i as int).filter(entry_meets(*area))),
            decreases self.entries.len() - i,
        {
            let e = self.entries[i];
            proof {
                assert(self@.take(i + 1) =~= self@.take(i as int).push(e));
                self@.take(i as int).lemma_filter_push(e, entry_meets(*area));
            }
            if e.bbox.intersects(area) {
                found.push(e.payload);
                assert(found@ =~= payloads(self@.take(i + 1).filter(entry_meets(*area))));
            }
            i += 1;
        }
        proof {
            assert(self@.take(self.entries.len() as int) =~= self@);
        }
        found
    }

    /// What stands behind the entries whose box holds `p`, in the order of
    /// the index.
    pub fn locate(&self, p: Coord) -> (r: Vec<usize>)
        ensures
            r@ == payloads(self@.filter(entry_holds(p))),
    {
        let mut found: Vec<usize> = Vec::new();
        let mut i: usize = 0;
        proof {
            assert(self@.take(0) =~= Seq::<IndexEntry>::empty());
            reveal(Seq::filter);
            assert(found@ =~= payloads(self@.take(0).filter(entry_holds(p))));
        }
        while i < self.entries.len()
            invariant
                i <= self.entries.len(),
                found@ == payloads(self@.take(i as int).filter(entry_holds(p))),
            decreases self.entries.len() - i,
        {
            let e = self.entries[i];
            proof {
                assert(self@.take(i + 1) =~= self@.take(i as int).push(e));
                self@.take(i as int).lemma_filter_push(e, entry_holds(p));
            }
            if e.bbox.contains(p) {
                found.push(e.payload);
                assert(found@ =~= payloads(self@.take(i + 1).filter(entry_holds(p))));
            }
            i += 1;
        }
        proof {
            assert(self@.take(self.entries.len() as int) =~= self@);
        }
        found
    }

    /// The entry nearest to `p`, the earliest of them where several are
    /// equally near; `None` where the index is empty.
    pub fn nearest(&self, p: Coord) -> (r: Option<IndexEntry>)
        ensures
            r == (if self@.len() == 0 {
                None
            } else {
                Some(self@[nearest_position(self@, p, self@.len() as int)])
            }),
    {
        if self.entries.len() == 0 {
            return None;
        }
        let mut best: usize = 0;
        let mut best_distance: u128 = self.entries[0].bbox.squared_distance(p);
        let mut i: usize = 1;
        assert(nearest_position(self@, p, 1) == 0) by {
            assert(nearest_position(self@, p, 0) == -1);
        }
        while i < self.entries.len()
            invariant
                1 <= i <= self.entries.len(),
                best < i,
                best == nearest_position(self@, p, i as int),
                best_distance == self@[best as int].bbox.distance2(p),
            decreases self.entries.len() - i,
        {
            let d = self.entries[i].bbox.squared_distance(p);
            if d < best_distance {
                best = i;
                best_distance = d;
            }
            i += 1;
        }
        Some(self.entries[best])
    }

    /// The `k` entries nearest to `p`, nearest first and, where two are
    /// equally near, the earlier first; all the entries where the index
    /// holds fewer than `k`.
    pub fn nearest_neighbors(&self, p: Coord, k: usize) -> (r: Vec<IndexEntry>)
        ensures
            r@ == entries_at(self@, nearest_k(self@, p, k as nat, self@.len() as int)),
    {
        let mut order: Vec<usize> = Vec::new();
        let mut i: usize = 0;
        while i < self.entries.len()
            invariant
                i <= self.entries.len(),
                order@ == nearest_k(self@, p, k as nat, i as int),
                order.len() <= k,
                forall|a: int| 0 <= a < order.len() ==> (#[trigger] order@[a]) < i,
            decreases self.entries.len() - i,
        {
            let d = self.entries[i].bbox.squared_distance(p);
            let mut q: usize = 0;
            while q < order.len() && !(d < self.entries[order[q]].bbox.squared_distance(p))
                invariant
                    q <= order.len(),
                    i < self.entries.len(),
                    d == self@[i as int].bbox.distance2(p),
                    forall|a: int| 0 <= a < order.len() ==> (#[trigger] order@[a]) < i,
                    slot_from(self@, p, order@, i as int, 0) == slot_from(
                        self@,
                        p,
                        order@,
                        i as int,
                        q as int,
                    ),
                decreases order.len() - q,
            {
                q += 1;
            }
            let ghost before = order@;
            order.insert(q, i);
            proof {
                assert forall|a: int| 0 <= a < order.len() implies (#[trigger] order@[a]) < i + 1 by {
                    if a < q {
                        assert(order@[a] == before[a]);
                    } else if a > q {
                        assert(order@[a] == before[a - 1]);
                    }
                }
            }
            if order.len() > k {
                let ghost grown = order@;
                order.pop();
                assert(order@ =~= grown.take(k as int));
            }
            i += 1;
        }
        let mut found: Vec<IndexEntry> = Vec::new();
        let mut n: usize = 0;
        while n < order.len()
            invariant
                n <= order.len(),
                found.len() == n,
                forall|a: int| 0 <= a < order.len() ==> (#[trigger] order@[a]) < self.entries.len(),
                forall|a: int| 0 <= a < n ==> #[trigger] found@[a] == self@[order@[a] as int],
            decreases order.len() - n,
        {
            found.push(self.entries[order[n]]);
            n += 1;
        }
        proof {
            assert(found@ =~= entries_at(self@, order@));
        }
        found
    }
}

} // verus!
