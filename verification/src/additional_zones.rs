//! Places that no administrative zone stands for: each becomes a zone of
//! its own under the administrative zone around it.

use crate::country_finder::holds_index;
use crate::geometry_index::{
    entry_holds, entry_well_formed, nearest_position, payloads, GeometryIndex, IndexEntry,
};
use crate::hierarchy_builder::{
    area_of, can_be_parent, climbing, has_footprint, tighter, zone_boxes, zone_entries,
};
use crate::zone::{
    text_of, texts_of, views, well_indexed, BoundingBox, Coord, Footprint, LocalizedText, Zone,
    ZoneIndex, ZoneType, ZoneView,
};
use vstd::prelude::*;

verus! {

/// A named place, known by a point only. `covered_by` names the zones whose
/// boundary was found to cover that point.
#[derive(Debug)]
pub struct Place {
    pub osm_id: String,
    pub name: String,
    pub international_names: Vec<LocalizedText>,
    pub position: Coord,
    pub covered_by: Vec<ZoneIndex>,
}

/// The mathematical value of a [`Place`].
pub struct PlaceView {
    pub osm_id: Seq<char>,
    pub name: Seq<char>,
    pub international_names: Seq<(Seq<char>, Seq<char>)>,
    pub position: Coord,
    pub covered_by: Seq<ZoneIndex>,
}

impl View for Place {
    type V = PlaceView;

    open spec fn view(&self) -> PlaceView {
        PlaceView {
            osm_id: self.osm_id@,
            name: self.name@,
            international_names: texts_of(self.international_names@),
            position: self.position,
            covered_by: self.covered_by@,
        }
    }
}

/// The views of a list of places, in order.
pub open spec fn place_views(places: Seq<Place>) -> Seq<PlaceView> {
    Seq::new(places.len(), |i: int| places[i]@)
}

/// Where a place was attached: the zone made for it, its parent, and the
/// seed whose cell of the tessellation holds it.
#[derive(Clone, Copy, Debug, PartialEq, Eq, Structural)]
pub struct Attribution {
    pub place: usize,
    pub zone: ZoneIndex,
    pub parent: ZoneIndex,
    pub cell: Option<ZoneIndex>,
}

/// The tessellation that served to attach the places: its seeds, and for
/// each place attached the seed whose cell holds it.
#[derive(Debug)]
pub struct Tessellation {
    pub seeds: Vec<ZoneIndex>,
    pub attributions: Vec<Attribution>,
}

/// Some zone is the parent of the zone at `k`.
pub open spec fn has_child(zones: Seq<ZoneView>, k: int) -> bool {
    exists|j: int| 0 <= j < zones.len() && (#[trigger] zones[j]).parent == Some(k as usize)
}

/// The seeds of the tessellation are the finest administrative zones:
/// those that have a boundary and are the parent of no zone.
pub open spec fn is_seed(zones: Seq<ZoneView>, k: int) -> bool {
    &&& 0 <= k < zones.len()
    &&& zones[k].is_admin()
    &&& zones[k].footprint is Some
    &&& !has_child(zones, k)
}

/// The representative points of the seeds among the first `upto` zones,
/// each with the seed's position in the collection.
pub open spec fn seed_entries(zones: Seq<ZoneView>, upto: int) -> Seq<IndexEntry>
    decreases upto,
{
    if upto <= 0 {
        Seq::empty()
    } else if is_seed(zones, upto - 1) {
        let c = zones[upto - 1].footprint.unwrap().center;
        seed_entries(zones, upto - 1).push(
            IndexEntry { bbox: BoundingBox { min: c, max: c }, payload: (upto - 1) as usize },
        )
    } else {
        seed_entries(zones, upto - 1)
    }
}

/// The seeds among `zones`, in the order of the zones.
pub open spec fn seeds_of(zones: Seq<ZoneView>) -> Seq<ZoneIndex> {
    let entries = seed_entries(zones, zones.len() as int);
    Seq::new(entries.len(), |i: int| ZoneIndex { index: entries[i].payload })
}

/// The seed nearest to `p`, the earliest of them where several are equally
/// near: `p` lies in its cell of the tessellation.
pub open spec fn cell_of(zones: Seq<ZoneView>, p: Coord) -> Option<usize> {
    let seeds = seed_entries(zones, zones.len() as int).filter(entry_well_formed());
    if seeds.len() == 0 {
        None
    } else {
        Some(seeds[nearest_position(seeds, p, seeds.len() as int)].payload)
    }
}

/// Whether the zone at `c` can stand around a place: it is an
/// administrative zone, and its boundary was found to cover the place.
pub open spec fn can_hold(zones: Seq<ZoneView>, covered_by: Seq<ZoneIndex>, c: usize) -> bool {
    c < zones.len() && zones[c as int].is_admin() && covered_by.contains(ZoneIndex { index: c })
}

/// The tightest of the first `upto` candidates that can stand around a
/// place.
pub open spec fn best_holder(
    zones: Seq<ZoneView>,
    candidates: Seq<usize>,
    covered_by: Seq<ZoneIndex>,
    upto: int,
) -> Option<usize>
    decreases upto,
{
    if upto <= 0 {
        None
    } else {
        let before = best_holder(zones, candidates, covered_by, upto - 1);
        let c = candidates[upto - 1];
        if can_hold(zones, covered_by, c) && (before is None || tighter(
            zones,
            c as int,
            before.unwrap() as int,
        )) {
            Some(c)
        } else {
            before
        }
    }
}

/// Some zone has the source identifier `osm_id`.
pub open spec fn represented(zones: Seq<ZoneView>, osm_id: Seq<char>) -> bool {
    exists|j: int| 0 <= j < zones.len() && (#[trigger] zones[j]).osm_id == osm_id
}

/// The administrative zone around a place: the tightest of the zones whose
/// box holds the place and whose boundary was found to cover it. A place
/// without a name has none, nor one that a zone stands for already.
pub open spec fn holder_of(zones: Seq<ZoneView>, boxes: Seq<IndexEntry>, place: PlaceView) -> Option<
    usize,
> {
    if place.name.len() == 0 || represented(zones, place.osm_id) {
        None
    } else {
        let candidates = payloads(boxes.filter(entry_holds(place.position)));
        best_holder(zones, candidates, place.covered_by, candidates.len() as int)
    }
}

/// The zone that is made for a place.
pub open spec fn place_zone(id: usize, place: PlaceView, parent: usize, zones: Seq<ZoneView>) -> ZoneView {
    ZoneView {
        id,
        osm_id: place.osm_id,
        admin_level: None,
        zone_type: Some(ZoneType::NonAdministrative),
        name: place.name,
        label: Seq::empty(),
        international_labels: Seq::empty(),
        international_names: place.international_names,
        footprint: Some(
            Footprint {
                bbox: BoundingBox { min: place.position, max: place.position },
                center: place.position,
                area: 0,
            },
        ),
        parent: Some(parent),
        is_generated: true,
        country_code: zones[parent as int].country_code,
    }
}

/// Where the first `upto` places were attached: one attribution for each
/// place that has an administrative zone around it, in the order of the
/// places. The zones made for them follow those that were there.
pub open spec fn attributions(
    zones: Seq<ZoneView>,
    boxes: Seq<IndexEntry>,
    places: Seq<PlaceView>,
    upto: int,
) -> Seq<Attribution>
    decreases upto,
{
    if upto <= 0 {
        Seq::empty()
    } else {
        let before = attributions(zones, boxes, places, upto - 1);
        match holder_of(zones, boxes, places[upto - 1]) {
            Some(parent) => before.push(
                Attribution {
                    place: (upto - 1) as usize,
                    zone: ZoneIndex { index: (zones.len() + before.len()) as usize },
                    parent: ZoneIndex { index: parent },
                    cell: match cell_of(zones, places[upto - 1].position) {
                        Some(s) => Some(ZoneIndex { index: s }),
                        None => None,
                    },
                },
            ),
            None => before,
        }
    }
}

/// The zones that are made for the attributions `found`.
pub open spec fn place_zones(zones: Seq<ZoneView>, places: Seq<PlaceView>, found: Seq<Attribution>) -> Seq<
    ZoneView,
> {
    Seq::new(
        found.len(),
        |j: int|
            place_zone(found[j].zone.index, places[found[j].place as int], found[j].parent.index, zones),
    )
}

/// The zones once the places are attached: those that were there, then one
/// zone for each attribution.
pub open spec fn with_places(zones: Seq<ZoneView>, boxes: Seq<IndexEntry>, places: Seq<PlaceView>) -> Seq<
    ZoneView,
> {
    zones + place_zones(zones, places, attributions(zones, boxes, places, places.len() as int))
}

/// Each attribution names a place looked at, the administrative zone
/// around it, which was there before and whose boundary was found to cover
/// the place, and the position that the zone made for it takes.
pub proof fn lemma_attributions(
    zones: Seq<ZoneView>,
    boxes: Seq<IndexEntry>,
    places: Seq<PlaceView>,
    upto: int,
)
    requires
        0 <= upto <= places.len(),
        zones.len() + upto <= usize::MAX,
    ensures
        attributions(zones, boxes, places, upto).len() <= upto,
        forall|j: int|
            0 <= j < attributions(zones, boxes, places, upto).len() ==> {
                let a = #[trigger] attributions(zones, boxes, places, upto)[j];
                &&& a.zone.index == zones.len() + j
                &&& 0 <= a.place < upto
                &&& holder_of(zones, boxes, places[a.place as int]) == Some(a.parent.index)
                &&& can_hold(zones, places[a.place as int].covered_by, a.parent.index)
            },
    decreases upto,
{
    if upto > 0 {
        lemma_attributions(zones, boxes, places, upto - 1);
        let place = places[upto - 1];
        let noted = attributions(zones, boxes, places, upto - 1);
        let notes = attributions(zones, boxes, places, upto);
        match holder_of(zones, boxes, place) {
            Some(parent) => {
                let candidates = payloads(boxes.filter(entry_holds(place.position)));
                lemma_best_holder(zones, candidates, place.covered_by, candidates.len() as int);
                assert forall|j: int| 0 <= j < notes.len() implies {
                    let a = #[trigger] notes[j];
                    &&& a.zone.index == zones.len() + j
                    &&& 0 <= a.place < upto
                    &&& holder_of(zones, boxes, places[a.place as int]) == Some(a.parent.index)
                    &&& can_hold(zones, places[a.place as int].covered_by, a.parent.index)
                } by {
                    if j < noted.len() {
                        assert(notes[j] == noted[j]);
                    }
                }
            },
            None => {},
        }
    }
}

/// The best holder can stand around the place, and no candidate that can is
/// tighter.
pub proof fn lemma_best_holder(
    zones: Seq<ZoneView>,
    candidates: Seq<usize>,
    covered_by: Seq<ZoneIndex>,
    upto: int,
)
    requires
        0 <= upto <= candidates.len(),
    ensures
        match best_holder(zones, candidates, covered_by, upto) {
            Some(p) => {
                &&& exists|k: int| 0 <= k < upto && candidates[k] == p
                &&& can_hold(zones, covered_by, p)
                &&& forall|k: int|
                    0 <= k < upto && can_hold(zones, covered_by, #[trigger] candidates[k])
                        ==> !tighter(zones, candidates[k] as int, p as int)
            },
            None => forall|k: int|
                0 <= k < upto ==> !can_hold(zones, covered_by, #[trigger] candidates[k]),
        },
    decreases upto,
{
    if upto > 0 {
        lemma_best_holder(zones, candidates, covered_by, upto - 1);
        match best_holder(zones, candidates, covered_by, upto) {
            Some(p) => {
                if candidates[upto - 1] != p {
                    let k = choose|k: int| 0 <= k < upto - 1 && candidates[k] == p;
                    assert(0 <= k < upto && candidates[k] == p);
                }
            },
            None => {},
        }
    }
}

/// Some of the first `upto` zones is the parent of the zone at `k`.
pub open spec fn has_child_before(zones: Seq<ZoneView>, k: int, upto: int) -> bool {
    exists|j: int| 0 <= j < upto && (#[trigger] zones[j]).parent == Some(k as usize)
}

/// For each zone, whether some zone is its child.
fn child_marks(zones: &Vec<Zone>) -> (r: Vec<bool>)
    ensures
        r.len() == zones.len(),
        forall|k: int| 0 <= k < zones.len() ==> #[trigger] r[k] == has_child(views(zones@), k),
{
    let ghost vs = views(zones@);
    let n = zones.len();
    let mut marks: Vec<bool> = Vec::new();
    let mut i: usize = 0;
    while i < n
        invariant
            i <= n,
            marks.len() == i,
            forall|k: int| 0 <= k < i ==> !(#[trigger] marks[k]),
        decreases n - i,
    {
        marks.push(false);
        i += 1;
    }
    let mut j: usize = 0;
    while j < n
        invariant
            j <= n,
            n == zones.len(),
            marks.len() == n,
            vs == views(zones@),
            forall|k: int| 0 <= k < n ==> #[trigger] marks[k] == has_child_before(vs, k, j as int),
        decreases n - j,
    {
        let ghost before = marks@;
        match zones[j].parent {
            Some(p) => {
                if p.index < n {
                    marks.set(p.index, true);
                }
            },
            None => {},
        }
        proof {
            assert forall|k: int| 0 <= k < n implies #[trigger] marks[k] == has_child_before(
                vs,
                k,
                j + 1,
            ) by {
                if has_child_before(vs, k, j as int) {
                    let w = choose|w: int| 0 <= w < j && (#[trigger] vs[w]).parent == Some(k as usize);
                    assert(0 <= w < j + 1 && vs[w].parent == Some(k as usize));
                }
                if vs[j as int].parent == Some(k as usize) {
                    assert(has_child_before(vs, k, j + 1));
                }
                if has_child_before(vs, k, j + 1) && !has_child_before(vs, k, j as int) {
                    let w = choose|w: int|
                        0 <= w < j + 1 && (#[trigger] vs[w]).parent == Some(k as usize);
                    assert(w == j);
                }
            }
        }
        j += 1;
    }
    marks
}

/// The seeds, and the index over their representative points.
fn seeds_tree(zones: &Vec<Zone>) -> (r: (Vec<ZoneIndex>, GeometryIndex))
    ensures
        r.0@ == seeds_of(views(zones@)),
        r.1@ == seed_entries(views(zones@), zones.len() as int).filter(entry_well_formed()),
{
    let ghost vs = views(zones@);
    let marks = child_marks(zones);
    let mut items: Vec<IndexEntry> = Vec::new();
    let mut seeds: Vec<ZoneIndex> = Vec::new();
    let mut k: usize = 0;
    while k < zones.len()
        invariant
            k <= zones.len(),
            marks.len() == zones.len(),
            vs == views(zones@),
            forall|q: int| 0 <= q < zones.len() ==> #[trigger] marks[q] == has_child(vs, q),
            items@ == seed_entries(vs, k as int),
            seeds.len() == items.len(),
            forall|q: int|
                0 <= q < seeds.len() ==> (#[trigger] seeds@[q]).index == items@[q].payload,
        decreases zones.len() - k,
    {
        let z = &zones[k];
        if z.is_admin() && !marks[k] {
            match z.footprint {
                Some(f) => {
                    items.push(IndexEntry { bbox: BoundingBox::around(f.center), payload: k });
                    seeds.push(ZoneIndex { index: k });
                },
                None => {},
            }
        }
        k += 1;
    }
    proof {
        assert(seeds@ =~= seeds_of(vs));
    }
    (seeds, GeometryIndex::new(&items))
}

/// Whether some zone has the source identifier `osm_id`.
fn is_represented(zones: &Vec<Zone>, osm_id: &String) -> (r: bool)
    ensures
        r == represented(views(zones@), osm_id@),
{
    let mut j: usize = 0;
    while j < zones.len()
        invariant
            j <= zones.len(),
            forall|q: int| 0 <= q < j ==> (#[trigger] views(zones@)[q]).osm_id != osm_id@,
        decreases zones.len() - j,
    {
        if zones[j].osm_id == *osm_id {
            assert(views(zones@)[j as int].osm_id == osm_id@);
            return true;
        }
        j += 1;
    }
    false
}

/// The administrative zone around `place`.
fn find_holder(zones: &Vec<Zone>, tree: &GeometryIndex, place: &Place) -> (r: Option<usize>)
    ensures
        r == holder_of(views(zones@), tree@, place@),
{
    let ghost vs = views(zones@);
    if place.name.as_str().unicode_len() == 0 || is_represented(zones, &place.osm_id) {
        return None;
    }
    let candidates = tree.locate(place.position);
    let mut best: Option<usize> = None;
    let mut k: usize = 0;
    while k < candidates.len()
        invariant
            k <= candidates.len(),
            vs == views(zones@),
            best == best_holder(vs, candidates@, place.covered_by@, k as int),
        decreases candidates.len() - k,
    {
        let c = candidates[k];
        if c < zones.len() && zones[c].is_admin() && holds_index(&place.covered_by, c) {
            let better = match best {
                None => true,
                Some(b) => crate::hierarchy_builder::zone_tighter(zones, c, b),
            };
            if better {
                best = Some(c);
            }
        }
        k += 1;
    }
    best
}

/// Attaches each place that has an administrative zone around it: a
/// generated, non-administrative zone is added for it at the end of
/// `zones`, with that zone as its parent. `tree` is the index over the
/// zones' boxes. The result names the seeds of the tessellation and says,
/// for each zone added, which place it stands for and which seed's cell
/// holds it.
pub fn compute_additional_places(zones: &mut Vec<Zone>, places: &Vec<Place>, tree: &GeometryIndex) -> (r:
    Tessellation)
    requires
        old(zones).len() + places.len() <= usize::MAX,
    ensures
        r.seeds@ == seeds_of(views(old(zones)@)),
        r.attributions@ == attributions(
            views(old(zones)@),
            tree@,
            place_views(places@),
            places.len() as int,
        ),
        views(final(zones)@) == with_places(views(old(zones)@), tree@, place_views(places@)),
{
    let ghost vs = views(zones@);
    let ghost pvs = place_views(places@);
    let n = zones.len();
    let (seed_list, seeds) = seeds_tree(zones);
    let mut found: Vec<Attribution> = Vec::new();
    let mut i: usize = 0;
    while i < places.len()
        invariant
            i <= places.len(),
            n == zones.len(),
            n + places.len() <= usize::MAX,
            vs == views(zones@),
            pvs == place_views(places@),
            seeds@ == seed_entries(vs, n as int).filter(entry_well_formed()),
            found@ == attributions(vs, tree@, pvs, i as int),
            found.len() <= i,
        decreases places.len() - i,
    {
        match find_holder(zones, tree, &places[i]) {
            Some(parent) => {
                let cell = match seeds.nearest(places[i].position) {
                    Some(e) => Some(ZoneIndex { index: e.payload }),
                    None => None,
                };
                found.push(
                    Attribution {
                        place: i,
                        zone: ZoneIndex { index: n + found.len() },
                        parent: ZoneIndex { index: parent },
                        cell,
                    },
                );
            },
            None => {},
        }
        i += 1;
    }
    proof {
        lemma_attributions(vs, tree@, pvs, places.len() as int);
    }
    let mut k: usize = 0;
    while k < found.len()
        invariant
            k <= found.len(),
            zones.len() == n + k,
            vs == views(old(zones)@),
            pvs == place_views(places@),
            vs.len() == n,
            found@ == attributions(vs, tree@, pvs, places.len() as int),
            forall|j: int|
                0 <= j < found.len() ==> {
                    let a = #[trigger] found@[j];
                    &&& a.zone.index == n + j
                    &&& 0 <= a.place < places.len()
                    &&& a.parent.index < n
                },
            forall|j: int| 0 <= j < n ==> (#[trigger] zones@[j]) == old(zones)@[j],
            forall|j: int|
                0 <= j < k ==> (#[trigger] zones@[n + j])@ == place_zones(vs, pvs, found@)[j],
        decreases found.len() - k,
    {
        let a = found[k];
        let place = &places[a.place];
        let country_code = match &zones[a.parent.index].country_code {
            Some(c) => Some(c.clone()),
            None => None,
        };
        let zone = Zone {
            id: a.zone,
            osm_id: place.osm_id.clone(),
            admin_level: None,
            zone_type: Some(ZoneType::NonAdministrative),
            name: place.name.clone(),
            label: String::new(),
            international_labels: Vec::new(),
            international_names: crate::zone::clone_texts(&place.international_names),
            footprint: Some(
                Footprint {
                    bbox: BoundingBox::around(place.position),
                    center: place.position,
                    area: 0,
                },
            ),
            parent: Some(a.parent),
            is_generated: true,
            country_code,
        };
        proof {
            assert(zone@.international_labels =~= Seq::empty());
            assert(zone@.label =~= Seq::empty());
            assert(vs[a.parent.index as int] == old(zones)@[a.parent.index as int]@);
            assert(zone@ == place_zones(vs, pvs, found@)[k as int]);
        }
        zones.push(zone);
        k += 1;
    }
    proof {
        assert(views(zones@) =~= with_places(vs, tree@, pvs));
    }
    Tessellation { seeds: seed_list, attributions: found }
}

/// Attaching places keeps a forest a forest: the zones that were there keep
/// their parents, and each zone made for a place stands under a zone that
/// was there before.
pub proof fn lemma_places_keep_forest(
    zones: Seq<ZoneView>,
    boxes: Seq<IndexEntry>,
    places: Seq<PlaceView>,
)
    requires
        climbing(zones),
        zones.len() + places.len() <= usize::MAX,
    ensures
        climbing(with_places(zones, boxes, places)),
{
    let found = attributions(zones, boxes, places, places.len() as int);
    let extended = with_places(zones, boxes, places);
    lemma_attributions(zones, boxes, places, places.len() as int);
    assert forall|i: int| 0 <= i < extended.len() implies match (#[trigger] extended[i]).parent {
        Some(p) => can_be_parent(extended, p as int, i),
        None => true,
    } by {
        if i < zones.len() {
            assert(extended[i] == zones[i]);
            match zones[i].parent {
                Some(p) => {
                    assert(can_be_parent(zones, p as int, i));
                    assert(extended[p as int] == zones[p as int]);
                },
                None => {},
            }
        } else {
            let a = found[i - zones.len()];
            assert(extended[i] == place_zone(a.zone.index, places[a.place as int], a.parent.index, zones));
            assert(extended[a.parent.index as int] == zones[a.parent.index as int]);
            assert(area_of(extended, i) == 0);
        }
    }
}

/// Where the index holds the boxes of the zones themselves, and every
/// zone's identity is its position, the zone made for a place lies within
/// its parent: the parent is an administrative zone with a boundary, its
/// box holds the place, and its boundary was found to cover the place.
pub proof fn lemma_place_within_parent(zones: Seq<ZoneView>, places: Seq<PlaceView>, j: int)
    requires
        well_indexed(zones),
        zones.len() + places.len() <= usize::MAX,
        0 <= j < attributions(zones, zone_boxes(zones), places, places.len() as int).len(),
    ensures
        ({
            let a = attributions(zones, zone_boxes(zones), places, places.len() as int)[j];
            let parent = zones[a.parent.index as int];
            let place = places[a.place as int];
            &&& 0 <= a.place < places.len()
            &&& a.parent.index < zones.len()
            &&& parent.is_admin()
            &&& parent.footprint is Some
            &&& parent.footprint.unwrap().bbox.holds(place.position)
            &&& place.covered_by.contains(a.parent)
        }),
{
    let boxes = zone_boxes(zones);
    lemma_attributions(zones, boxes, places, places.len() as int);
    let a = attributions(zones, boxes, places, places.len() as int)[j];
    let place = places[a.place as int];
    let p = a.parent.index;
    let near = boxes.filter(entry_holds(place.position));
    let candidates = payloads(near);
    lemma_best_holder(zones, candidates, place.covered_by, candidates.len() as int);
    let k = choose|k: int| 0 <= k < candidates.len() && candidates[k] == p;
    let e = near[k];
    assert(e.payload == p);
    boxes.lemma_filter_pred(entry_holds(place.position), k);
    assert(near.contains(e));
    boxes.lemma_filter_contains_rev(entry_holds(place.position), e);
    zone_entries(zones).lemma_filter_contains_rev(entry_well_formed(), e);
    let entries = zone_entries(zones);
    let m = choose|m: int| 0 <= m < entries.len() && entries[m] == e;
    let kept = zones.filter(has_footprint());
    zones.lemma_filter_pred(has_footprint(), m);
    assert(kept.contains(kept[m]));
    zones.lemma_filter_contains_rev(has_footprint(), kept[m]);
    let i = choose|i: int| 0 <= i < zones.len() && zones[i] == kept[m];
    assert(zones[i].id == i);
}

} // verus!
