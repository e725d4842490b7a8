//! Builds a geographic ontology out of administrative zones: every zone is
//! typed from its country's rules, attached to the tightest zone that
//! encloses it, and labelled from the chain of its parents.

pub mod additional_zones;
pub mod country_finder;
pub mod geometry_index;
pub mod hierarchy_builder;
pub mod labels;
pub mod osm;
pub mod stats;
pub mod typing;
pub mod zone;
pub mod zone_typer;

use crate::additional_zones::{
    attributions, compute_additional_places, lemma_places_keep_forest, place_views, seeds_of,
    with_places, Attribution, Place, PlaceView, Tessellation,
};
use crate::country_finder::finder_of;
use crate::hierarchy_builder::{
    all_inclusions, ancestor, build_hierarchy, climbing, find_inclusions,
    lemma_hierarchy_is_forest, lemma_no_cycle, with_parents, zone_boxes,
};
use crate::labels::{compute_labels, lemma_labels_keep_forest, with_labels};
use crate::osm::{parse_zone_type, tag_value, OsmObj};
use crate::stats::CosmogonyStats;
use crate::typing::{
    count, merged, outcomes_of, type_zones, typed, without_country, without_level, without_rules,
    OntologyError, OutcomeView,
};
use crate::zone::{
    rows, text_of, views, well_indexed, Coverage, Zone, ZoneIndex, ZoneType, ZoneView,
};
use crate::zone_typer::{CountryRulesView, ZoneTyper};
use vstd::prelude::*;
use vstd::string::StringExecFns;

verus! {

/// Whether `obj` is an administrative relation.
pub fn is_admin(obj: &OsmObj) -> (r: bool)
    ensures
        r == obj.is_admin_relation(),
{
    match obj {
        OsmObj::Relation(rel) => {
            let administrative = String::from_str("administrative");
            let boundary = match tag_value(&rel.tags, "boundary") {
                Some(v) => *v == administrative,
                None => false,
            };
            boundary && tag_value(&rel.tags, "admin_level").is_some()
        },
        _ => false,
    }
}

/// Whether `obj` is a place: a node that names a city or a suburb.
pub fn is_place(obj: &OsmObj) -> (r: bool)
    ensures
        r == obj.is_place_node(),
{
    match obj {
        OsmObj::Node(node) => match tag_value(&node.tags, "place") {
            Some(v) => match parse_zone_type(v.as_str()) {
                Some(ZoneType::City) => true,
                Some(ZoneType::Suburb) => true,
                _ => false,
            },
            None => false,
        },
        _ => false,
    }
}

/// An object of the map and the zone that was read from it, if any. The
/// zone has a footprint where a boundary could be built for it.
#[derive(Debug)]
pub struct Candidate {
    pub object: OsmObj,
    pub zone: Option<Zone>,
}

/// A candidate gives a zone where its object is an administrative
/// relation from which a zone with a boundary was read.
pub open spec fn gives_zone() -> spec_fn(Candidate) -> bool {
    |c: Candidate|
        c.object.is_admin_relation() && c.zone is Some && c.zone.unwrap().footprint is Some
}

/// The zones that `candidates` give, in their order, each with its
/// position as its identity.
pub open spec fn zones_given(candidates: Seq<Candidate>) -> Seq<ZoneView> {
    let kept = candidates.filter(gives_zone());
    Seq::new(kept.len(), |i: int| ZoneView { id: i as usize, ..kept[i].zone.unwrap()@ })
}

/// The zones of the administrative relations among `candidates` that have
/// a boundary, and statistics in which nothing is counted yet.
pub fn get_zones_and_stats(candidates: &Vec<Candidate>) -> (r: Result<
    (Vec<Zone>, CosmogonyStats),
    OntologyError,
>)
    ensures
        r is Ok,
        views(r.unwrap().0@) == zones_given(candidates@),
        well_indexed(views(r.unwrap().0@)),
        r.unwrap().1.counted() == 0,
        r.unwrap().1.zone_without_country == 0,
        forall|c: Seq<char>| (#[trigger] r.unwrap().1.unknown_country(c)) == 0,
        forall|c: Seq<char>, l: u32| (#[trigger] r.unwrap().1.unhandled_level(c, l)) == 0,
{
    let stats = CosmogonyStats::new();
    let mut zones: Vec<Zone> = Vec::new();
    let mut i: usize = 0;
    proof {
        reveal(Seq::filter);
        assert(candidates@.take(0) =~= Seq::<Candidate>::empty());
        assert(views(zones@) =~= zones_given(candidates@.take(0)));
    }
    while i < candidates.len()
        invariant
            i <= candidates.len(),
            zones.len() <= i,
            views(zones@) == zones_given(candidates@.take(i as int)),
        decreases candidates.len() - i,
    {
        let c = &candidates[i];
        proof {
            assert(candidates@.take(i + 1) =~= candidates@.take(i as int).push(*c));
            candidates@.take(i as int).lemma_filter_push(*c, gives_zone());
        }
        if is_admin(&c.object) {
            match &c.zone {
                Some(z) => {
                    if z.footprint.is_some() {
                        let ghost before = zones@;
                        let mut zone = z.duplicate();
                        zone.id = ZoneIndex { index: zones.len() };
                        zones.push(zone);
                        proof {
                            let kept = candidates@.take(i as int).filter(gives_zone());
                            let longer = candidates@.take(i + 1).filter(gives_zone());
                            assert(longer == kept.push(*c));
                            assert(views(before).len() == kept.len());
                            assert(c.zone.unwrap() == *z);
                            assert forall|j: int| 0 <= j < zones.len() implies views(zones@)[j]
                                == zones_given(candidates@.take(i + 1))[j] by {
                                if j < before.len() {
                                    assert(zones@[j] == before[j]);
                                    assert(views(before)[j] == zones_given(
                                        candidates@.take(i as int),
                                    )[j]);
                                    assert(longer[j] == kept[j]);
                                }
                            }
                            assert(views(zones@) =~= zones_given(candidates@.take(i + 1)));
                        }
                    }
                },
                None => {},
            }
        }
        i += 1;
    }
    proof {
        assert(candidates@.take(candidates.len() as int) =~= candidates@);
    }
    Ok((zones, stats))
}

/// The zone has a type.
pub open spec fn is_typed() -> spec_fn(ZoneView) -> bool {
    |z: ZoneView| z.zone_type is Some
}

/// Removes the zones that have no type and keeps the others in their
/// order. The zones keep their identities and their parents, which no
/// longer say where a zone stands in the collection.
pub fn clean_untagged_zones(zones: &mut Vec<Zone>)
    ensures
        views(final(zones)@) == views(old(zones)@).filter(is_typed()),
{
    let ghost vs = views(zones@);
    let n = zones.len();
    let mut reversed: Vec<Zone> = Vec::new();
    while zones.len() > 0
        invariant
            zones.len() + reversed.len() == n,
            n == old(zones).len(),
            forall|j: int| 0 <= j < zones.len() ==> #[trigger] zones@[j] == old(zones)@[j],
            forall|j: int| 0 <= j < reversed.len() ==> #[trigger] reversed@[j] == old(zones)@[n - 1 - j],
        decreases zones.len(),
    {
        let z = zones.pop().unwrap();
        reversed.push(z);
    }
    let mut i: usize = 0;
    proof {
        reveal(Seq::filter);
        assert(vs.take(0) =~= Seq::<ZoneView>::empty());
        assert(views(zones@) =~= vs.take(0).filter(is_typed()));
    }
    while reversed.len() > 0
        invariant
            i + reversed.len() == n,
            n == old(zones).len(),
            vs == views(old(zones)@),
            forall|j: int| 0 <= j < reversed.len() ==> #[trigger] reversed@[j] == old(zones)@[n - 1 - j],
            views(zones@) == vs.take(i as int).filter(is_typed()),
        decreases reversed.len(),
    {
        let z = reversed.pop().unwrap();
        proof {
            assert(z == old(zones)@[i as int]);
            assert(vs.take(i + 1) =~= vs.take(i as int).push(z@));
            vs.take(i as int).lemma_filter_push(z@, is_typed());
        }
        if z.zone_type.is_some() {
            let ghost before = zones@;
            zones.push(z);
            proof {
                assert(views(zones@) =~= views(before).push(z@));
            }
        }
        i += 1;
    }
    proof {
        assert(vs.take(n as int) =~= vs);
    }
}

/// The outcome of typing every zone of a collection, from the zones that
/// enclose each.
pub open spec fn typing_outcomes(
    zones: Seq<ZoneView>,
    tables: Seq<CountryRulesView>,
    country_code: Option<Seq<char>>,
    coverage: Coverage,
) -> Seq<OutcomeView> {
    outcomes_of(
        finder_of(zones, tables, rows(coverage.around_center@)),
        tables,
        zones,
        country_code,
        all_inclusions(zones, rows(coverage.enclosing@)),
    )
}

/// The ontology before the zones without a type are removed: the zones
/// typed, then given their parents, then extended by the zones made for
/// the places unless `disable_voronoi` holds, and at last labelled.
pub open spec fn ontology_before_cleaning(
    zones: Seq<ZoneView>,
    tables: Seq<CountryRulesView>,
    country_code: Option<Seq<char>>,
    disable_voronoi: bool,
    places: Seq<PlaceView>,
    coverage: Coverage,
    langs: Seq<String>,
) -> Seq<ZoneView> {
    let outcomes = typing_outcomes(zones, tables, country_code, coverage);
    let typed = Seq::new(zones.len(), |i: int| merged(zones[i], outcomes[i]));
    let built = with_parents(typed, all_inclusions(zones, rows(coverage.enclosing@)));
    let extended = if disable_voronoi {
        built
    } else {
        with_places(built, zone_boxes(zones), places)
    };
    with_labels(extended, langs)
}

/// The ontology: what is left of it once the zones without a type are
/// removed.
pub open spec fn ontology_of(
    zones: Seq<ZoneView>,
    tables: Seq<CountryRulesView>,
    country_code: Option<Seq<char>>,
    disable_voronoi: bool,
    places: Seq<PlaceView>,
    coverage: Coverage,
    langs: Seq<String>,
) -> Seq<ZoneView> {
    ontology_before_cleaning(
        zones,
        tables,
        country_code,
        disable_voronoi,
        places,
        coverage,
        langs,
    ).filter(is_typed())
}

/// The zones typed and given their parents: what the places are attached
/// to.
pub open spec fn hierarchy_of(
    zones: Seq<ZoneView>,
    tables: Seq<CountryRulesView>,
    country_code: Option<Seq<char>>,
    coverage: Coverage,
) -> Seq<ZoneView> {
    let outcomes = typing_outcomes(zones, tables, country_code, coverage);
    let typed = Seq::new(zones.len(), |i: int| merged(zones[i], outcomes[i]));
    with_parents(typed, all_inclusions(zones, rows(coverage.enclosing@)))
}

/// The seeds of the tessellation; none if `disable_voronoi` holds.
pub open spec fn seeds_used(
    zones: Seq<ZoneView>,
    tables: Seq<CountryRulesView>,
    country_code: Option<Seq<char>>,
    disable_voronoi: bool,
    coverage: Coverage,
) -> Seq<ZoneIndex> {
    if disable_voronoi {
        Seq::empty()
    } else {
        seeds_of(hierarchy_of(zones, tables, country_code, coverage))
    }
}

/// Where the places were attached; nowhere if `disable_voronoi` holds.
pub open spec fn places_attached(
    zones: Seq<ZoneView>,
    tables: Seq<CountryRulesView>,
    country_code: Option<Seq<char>>,
    disable_voronoi: bool,
    places: Seq<PlaceView>,
    coverage: Coverage,
) -> Seq<Attribution> {
    if disable_voronoi {
        Seq::empty()
    } else {
        attributions(
            hierarchy_of(zones, tables, country_code, coverage),
            zone_boxes(zones),
            places,
            places.len() as int,
        )
    }
}

/// No country is given for the run and no zone stands for a country: no
/// zone can be typed.
pub open spec fn no_country_source(
    zones: Seq<ZoneView>,
    tables: Seq<CountryRulesView>,
    country_code: Option<Seq<char>>,
    coverage: Coverage,
) -> bool {
    country_code is None && finder_of(zones, tables, rows(coverage.around_center@)).countries.len()
        == 0
}

/// Turns a collection of zones into an ontology. The zones that enclose
/// each zone are found; every zone is typed; every zone gets its parent;
/// unless `disable_voronoi` holds, each place gets a zone of its own under
/// the administrative zone around it; every zone is labelled; and at last
/// the zones without a type are removed.
///
/// Fails, and changes nothing, only where no country is given for the run
/// and no zone stands for a country. Every other trouble with a zone is
/// counted in `stats`. The result names the seeds of the tessellation and
/// says where the places were attached.
pub fn create_ontology(
    zones: &mut Vec<Zone>,
    stats: &mut CosmogonyStats,
    country_code: Option<String>,
    disable_voronoi: bool,
    places: &Vec<Place>,
    coverage: &Coverage,
    zone_typer: &ZoneTyper,
    filter_langs: &Vec<String>,
) -> (r: Result<Tessellation, OntologyError>)
    requires
        well_indexed(views(old(zones)@)),
        old(stats).counted() + old(zones).len() <= usize::MAX,
        old(zones).len() + places.len() <= usize::MAX,
    ensures
        r is Err <==> no_country_source(
            views(old(zones)@),
            zone_typer@,
            text_of(country_code),
            *coverage,
        ),
        r is Err ==> *final(zones) == *old(zones) && *final(stats) == *old(stats),
        r is Ok ==> ({
            let outcomes = typing_outcomes(
                views(old(zones)@),
                zone_typer@,
                text_of(country_code),
                *coverage,
            );
            &&& views(final(zones)@) == ontology_of(
                views(old(zones)@),
                zone_typer@,
                text_of(country_code),
                disable_voronoi,
                place_views(places@),
                *coverage,
                filter_langs@,
            )
            &&& r.unwrap().seeds@ == seeds_used(
                views(old(zones)@),
                zone_typer@,
                text_of(country_code),
                disable_voronoi,
                *coverage,
            )
            &&& r.unwrap().attributions@ == places_attached(
                views(old(zones)@),
                zone_typer@,
                text_of(country_code),
                disable_voronoi,
                place_views(places@),
                *coverage,
            )
            &&& forall|i: int|
                0 <= i < final(zones).len() ==> (#[trigger] final(zones)@[i]).zone_type is Some
            &&& final(stats).zone_without_country == old(stats).zone_without_country + count(
                outcomes,
                without_country(),
            )
            &&& forall|c: Seq<char>|
                (#[trigger] final(stats).unknown_country(c)) == old(stats).unknown_country(c)
                    + count(outcomes, without_rules(c))
            &&& forall|c: Seq<char>, l: u32|
                (#[trigger] final(stats).unhandled_level(c, l)) == old(stats).unhandled_level(c, l)
                    + count(outcomes, without_level(c, l))
            &&& final(stats).counted() + count(outcomes, typed()) == old(stats).counted() + old(
                zones,
            ).len()
        }),
{
    let ghost v0 = views(zones@);
    let ghost pvs = place_views(places@);
    let (inclusions, ztree) = find_inclusions(zones, &coverage.enclosing);
    proof {
        assert(rows(inclusions@).len() == zones.len());
        assert forall|i: int| 0 <= i < zones.len() implies (#[trigger] zones[i]).id.index
            < inclusions.len() by {
            assert(v0[i].id == i);
        }
    }
    match type_zones(zones, stats, country_code, &inclusions, zone_typer, &coverage.around_center) {
        Err(e) => {
            return Err(e);
        },
        Ok(()) => {},
    }
    let ghost outcomes = typing_outcomes(v0, zone_typer@, text_of(country_code), *coverage);
    let ghost typed_views = Seq::new(v0.len(), |i: int| merged(v0[i], outcomes[i]));
    proof {
        assert(views(zones@) =~= typed_views);
    }
    build_hierarchy(zones, &inclusions);
    proof {
        assert(views(zones@).len() == v0.len());
        assert(zones.len() == old(zones).len());
    }
    let found = if !disable_voronoi {
        compute_additional_places(zones, places, &ztree)
    } else {
        Tessellation { seeds: Vec::new(), attributions: Vec::new() }
    };
    compute_labels(zones, filter_langs);
    let ghost before = views(zones@);
    clean_untagged_zones(zones);
    proof {
        assert forall|i: int| 0 <= i < zones.len() implies (#[trigger] zones@[i]).zone_type is Some by {
            before.lemma_filter_pred(is_typed(), i);
            assert(views(zones@)[i] == zones@[i]@);
        }
    }
    Ok(found)
}

/// What is known of the extract that an ontology was built from.
#[derive(Debug)]
pub struct CosmogonyMetadata {
    pub osm_filename: String,
    pub stats: CosmogonyStats,
}

/// An ontology and what is known of its making.
#[derive(Debug)]
pub struct Cosmogony {
    pub zones: Vec<Zone>,
    pub meta: CosmogonyMetadata,
}

/// The name under which an extract is recorded: its own, or a fixed text
/// where it has none that can be read.
pub open spec fn recorded_name(osm_filename: Option<Seq<char>>) -> Seq<char> {
    match osm_filename {
        Some(name) => name,
        None => "invalid file name"@,
    }
}

/// Builds the ontology of an extract: the zones are read from
/// `candidates`, and the ontology is made of them as `create_ontology`
/// does, with statistics that start from nothing. `coverage` speaks of the
/// zones that `get_zones_and_stats` reads from `candidates`. The result
/// holds the ontology, names the seeds of the tessellation and says where
/// the places were attached.
///
/// Fails only where no country is given for the run and no zone stands
/// for a country.
pub fn build_cosmogony(
    osm_filename: Option<String>,
    candidates: &Vec<Candidate>,
    country_code: Option<String>,
    disable_voronoi: bool,
    places: &Vec<Place>,
    coverage: &Coverage,
    zone_typer: &ZoneTyper,
    filter_langs: &Vec<String>,
) -> (r: Result<(Cosmogony, Tessellation), OntologyError>)
    requires
        candidates.len() + places.len() <= usize::MAX,
    ensures
        r is Err <==> no_country_source(
            zones_given(candidates@),
            zone_typer@,
            text_of(country_code),
            *coverage,
        ),
        r is Ok ==> ({
            let start = zones_given(candidates@);
            let outcomes = typing_outcomes(start, zone_typer@, text_of(country_code), *coverage);
            let cosmogony = r.unwrap().0;
            &&& views(cosmogony.zones@) == ontology_of(
                start,
                zone_typer@,
                text_of(country_code),
                disable_voronoi,
                place_views(places@),
                *coverage,
                filter_langs@,
            )
            &&& r.unwrap().1.seeds@ == seeds_used(
                start,
                zone_typer@,
                text_of(country_code),
                disable_voronoi,
                *coverage,
            )
            &&& r.unwrap().1.attributions@ == places_attached(
                start,
                zone_typer@,
                text_of(country_code),
                disable_voronoi,
                place_views(places@),
                *coverage,
            )
            &&& cosmogony.meta.osm_filename@ == recorded_name(text_of(osm_filename))
            &&& cosmogony.meta.stats.zone_without_country == count(outcomes, without_country())
            &&& forall|c: Seq<char>|
                (#[trigger] cosmogony.meta.stats.unknown_country(c)) == count(
                    outcomes,
                    without_rules(c),
                )
            &&& forall|c: Seq<char>, l: u32|
                (#[trigger] cosmogony.meta.stats.unhandled_level(c, l)) == count(
                    outcomes,
                    without_level(c, l),
                )
            &&& cosmogony.meta.stats.counted() + count(outcomes, typed()) == start.len()
        }),
{
    let (mut zones, mut stats) = match get_zones_and_stats(candidates) {
        Ok(pair) => pair,
        Err(e) => {
            return Err(e);
        },
    };
    proof {
        candidates@.lemma_filter_len(gives_zone());
        assert(views(zones@).len() == zones.len());
        assert(zones.len() <= candidates.len());
    }
    let found = match create_ontology(
        &mut zones,
        &mut stats,
        country_code,
        disable_voronoi,
        places,
        coverage,
        zone_typer,
        filter_langs,
    ) {
        Ok(found) => found,
        Err(e) => {
            return Err(e);
        },
    };
    let osm_filename = match osm_filename {
        Some(name) => name,
        None => String::from_str("invalid file name"),
    };
    Ok((Cosmogony { zones, meta: CosmogonyMetadata { osm_filename, stats } }, found))
}

/// Before the zones without a type are removed, the parents of the
/// ontology form a forest: every parent is a zone of the ontology that
/// stands above its child, and no way up from a zone comes back to it.
pub proof fn lemma_ontology_is_forest(
    zones: Seq<ZoneView>,
    tables: Seq<CountryRulesView>,
    country_code: Option<Seq<char>>,
    disable_voronoi: bool,
    places: Seq<PlaceView>,
    coverage: Coverage,
    langs: Seq<String>,
    i: int,
    steps: nat,
)
    requires
        zones.len() + places.len() <= usize::MAX,
        0 <= i < ontology_before_cleaning(
            zones,
            tables,
            country_code,
            disable_voronoi,
            places,
            coverage,
            langs,
        ).len(),
        steps >= 1,
    ensures
        climbing(
            ontology_before_cleaning(
                zones,
                tables,
                country_code,
                disable_voronoi,
                places,
                coverage,
                langs,
            ),
        ),
        ancestor(
            ontology_before_cleaning(
                zones,
                tables,
                country_code,
                disable_voronoi,
                places,
                coverage,
                langs,
            ),
            i,
            steps,
        ) != Some(i),
{
    let outcomes = typing_outcomes(zones, tables, country_code, coverage);
    let typed = Seq::new(zones.len(), |k: int| merged(zones[k], outcomes[k]));
    let inclusions = all_inclusions(zones, rows(coverage.enclosing@));
    let built = with_parents(typed, inclusions);
    if zones.len() > 0 {
        lemma_hierarchy_is_forest(typed, inclusions, 0, 1);
    }
    assert(climbing(built));
    let extended = if disable_voronoi {
        built
    } else {
        with_places(built, zone_boxes(zones), places)
    };
    if !disable_voronoi {
        lemma_places_keep_forest(built, zone_boxes(zones), places);
    }
    lemma_labels_keep_forest(extended, langs);
    lemma_no_cycle(with_labels(extended, langs), i, steps);
}

} // verus!
