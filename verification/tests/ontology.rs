use cosmogony_builder::additional_zones::Place;
use cosmogony_builder::stats::CosmogonyStats;
use cosmogony_builder::typing::OntologyError;
use cosmogony_builder::zone::{
    BoundingBox, Coord, Coverage, Footprint, LocalizedText, Zone, ZoneIndex, ZoneType,
};
use cosmogony_builder::zone_typer::{CountryRules, LevelRule, ZoneTyper};
use cosmogony_builder::{
    build_cosmogony, clean_untagged_zones, create_ontology, get_zones_and_stats, Candidate,
};
use cosmogony_builder::osm::{OsmObj, Relation, Tag};

fn square(min: i32, max: i32) -> Footprint {
    let side = (max - min) as u64;
    Footprint {
        bbox: BoundingBox { min: Coord { lon: min, lat: min }, max: Coord { lon: max, lat: max } },
        center: Coord { lon: (min + max) / 2, lat: (min + max) / 2 },
        area: side * side,
    }
}

fn zone(index: usize, name: &str, level: Option<u32>, footprint: Option<Footprint>, country: Option<&str>) -> Zone {
    Zone {
        id: ZoneIndex { index },
        osm_id: format!("relation:{}", index),
        admin_level: level,
        zone_type: None,
        name: name.to_string(),
        label: String::new(),
        international_labels: Vec::new(),
        international_names: Vec::new(),
        footprint,
        parent: None,
        is_generated: false,
        country_code: country.map(|c| c.to_string()),
    }
}

fn idx(list: &[usize]) -> Vec<ZoneIndex> {
    list.iter().map(|i| ZoneIndex { index: *i }).collect()
}

fn french_rules() -> ZoneTyper {
    ZoneTyper::new(vec![CountryRules {
        country_code: "FR".to_string(),
        levels: vec![
            LevelRule { level: 2, zone_type: ZoneType::Country },
            LevelRule { level: 4, zone_type: ZoneType::State },
            LevelRule { level: 8, zone_type: ZoneType::City },
        ],
    }])
}

fn nested_zones() -> Vec<Zone> {
    vec![
        zone(0, "France", Some(2), Some(square(0, 100)), Some("FR")),
        zone(1, "Bretagne", Some(4), Some(square(10, 60)), None),
        zone(2, "Rennes", Some(8), Some(square(20, 30)), None),
    ]
}

fn nested_coverage() -> Coverage {
    Coverage {
        enclosing: vec![idx(&[]), idx(&[0]), idx(&[0, 1])],
        around_center: vec![idx(&[0]), idx(&[0, 1]), idx(&[0, 1, 2])],
    }
}

fn place(osm_id: &str, name: &str, lon: i32, lat: i32, covered_by: &[usize]) -> Place {
    Place {
        osm_id: osm_id.to_string(),
        name: name.to_string(),
        international_names: Vec::new(),
        position: Coord { lon, lat },
        covered_by: idx(covered_by),
    }
}

fn total(stats: &CosmogonyStats) -> usize {
    stats.zone_without_country
        + stats.zone_with_unkwown_country_rules.iter().map(|c| c.count).sum::<usize>()
        + stats.unhandled_admin_level.iter().map(|c| c.count).sum::<usize>()
}

#[test]
fn three_nested_relations_make_a_forest_of_three_levels() {
    let mut zones = nested_zones();
    let mut stats = CosmogonyStats::new();
    let found = create_ontology(
        &mut zones,
        &mut stats,
        None,
        true,
        &Vec::new(),
        &nested_coverage(),
        &french_rules(),
        &Vec::new(),
    )
    .unwrap();
    assert!(found.attributions.is_empty());
    assert_eq!(zones.len(), 3);
    assert_eq!(zones[0].zone_type, Some(ZoneType::Country));
    assert_eq!(zones[1].zone_type, Some(ZoneType::State));
    assert_eq!(zones[2].zone_type, Some(ZoneType::City));
    assert_eq!(zones[0].parent, None);
    assert_eq!(zones[1].parent, Some(ZoneIndex { index: 0 }));
    assert_eq!(zones[2].parent, Some(ZoneIndex { index: 1 }));
    assert_eq!(zones[0].country_code, Some("FR".to_string()));
    assert_eq!(zones[1].country_code, Some("FR".to_string()));
    assert_eq!(zones[2].country_code, Some("FR".to_string()));
    assert_eq!(zones[2].label, "Rennes, Bretagne, France");
    assert_eq!(zones[1].label, "Bretagne, France");
    assert_eq!(zones[0].label, "France");
    assert_eq!(total(&stats), 0);
}

#[test]
fn a_place_inside_a_city_becomes_a_zone_under_that_city() {
    let mut zones = nested_zones();
    let mut stats = CosmogonyStats::new();
    let places = vec![place("node:7", "Cleunay", 25, 26, &[0, 1, 2])];
    let found = create_ontology(
        &mut zones,
        &mut stats,
        None,
        false,
        &places,
        &nested_coverage(),
        &french_rules(),
        &Vec::new(),
    )
    .unwrap();
    assert_eq!(zones.len(), 4);
    assert_eq!(found.attributions.len(), 1);
    assert_eq!(found.attributions[0].place, 0);
    assert_eq!(found.attributions[0].zone, ZoneIndex { index: 3 });
    assert_eq!(found.attributions[0].parent, ZoneIndex { index: 2 });
    assert_eq!(found.attributions[0].cell, Some(ZoneIndex { index: 2 }));
    assert_eq!(found.seeds, idx(&[2]));
    let added = &zones[3];
    assert_eq!(added.id, ZoneIndex { index: 3 });
    assert_eq!(added.zone_type, Some(ZoneType::NonAdministrative));
    assert_eq!(added.parent, Some(ZoneIndex { index: 2 }));
    assert!(added.is_generated);
    assert_eq!(added.name, "Cleunay");
    assert_eq!(added.osm_id, "node:7");
    assert_eq!(added.admin_level, None);
    assert_eq!(added.country_code, Some("FR".to_string()));
    assert_eq!(added.label, "Cleunay, Rennes, Bretagne, France");
    assert_eq!(added.footprint.unwrap().center, Coord { lon: 25, lat: 26 });
    assert_eq!(added.footprint.unwrap().area, 0);
}

#[test]
fn a_place_in_a_gap_goes_under_the_tightest_zone_around_it() {
    let mut zones = nested_zones();
    let mut stats = CosmogonyStats::new();
    // inside the region, outside the city
    let places = vec![place("node:8", "Bruz", 50, 50, &[0, 1])];
    let found = create_ontology(
        &mut zones,
        &mut stats,
        None,
        false,
        &places,
        &nested_coverage(),
        &french_rules(),
        &Vec::new(),
    )
    .unwrap();
    assert_eq!(found.attributions.len(), 1);
    assert_eq!(found.attributions[0].parent, ZoneIndex { index: 1 });
    assert_eq!(found.attributions[0].cell, Some(ZoneIndex { index: 2 }));
    assert_eq!(zones[3].parent, Some(ZoneIndex { index: 1 }));
}

#[test]
fn places_outside_every_zone_without_a_name_or_already_known_are_skipped() {
    let mut zones = nested_zones();
    let mut stats = CosmogonyStats::new();
    let places = vec![
        place("node:1", "Nowhere", 500, 500, &[]),
        place("node:2", "", 25, 25, &[0, 1, 2]),
        place("relation:2", "Rennes", 25, 25, &[0, 1, 2]),
        // the box of the city does not hold the point: the claim is not believed
        place("node:3", "Elsewhere", 90, 90, &[2]),
    ];
    let found = create_ontology(
        &mut zones,
        &mut stats,
        None,
        false,
        &places,
        &nested_coverage(),
        &french_rules(),
        &Vec::new(),
    )
    .unwrap();
    assert!(found.attributions.is_empty());
    assert_eq!(zones.len(), 3);
}

#[test]
fn a_country_without_rules_is_counted_and_left_out() {
    let mut zones = vec![zone(0, "Atlantis", Some(2), Some(square(0, 100)), Some("XX"))];
    let mut stats = CosmogonyStats::new();
    let coverage = Coverage { enclosing: vec![idx(&[])], around_center: vec![idx(&[0])] };
    let found = create_ontology(
        &mut zones,
        &mut stats,
        None,
        false,
        &Vec::new(),
        &coverage,
        &french_rules(),
        &Vec::new(),
    )
    .unwrap();
    assert!(found.attributions.is_empty());
    assert!(zones.is_empty());
    assert_eq!(stats.zone_with_unkwown_country_rules.len(), 1);
    assert_eq!(stats.zone_with_unkwown_country_rules[0].country, "XX");
    assert_eq!(stats.zone_with_unkwown_country_rules[0].count, 1);
    assert!(stats.unhandled_admin_level.is_empty());
    assert_eq!(stats.zone_without_country, 0);
}

#[test]
fn disabling_places_adds_no_zone_and_leaves_the_counts_alone() {
    let places = vec![place("node:8", "Bruz", 50, 50, &[0, 1])];
    let mut with = nested_zones();
    with.push(zone(3, "Lost", Some(6), Some(square(200, 210)), None));
    let mut without = nested_zones();
    without.push(zone(3, "Lost", Some(6), Some(square(200, 210)), None));
    let mut coverage = nested_coverage();
    coverage.enclosing.push(idx(&[]));
    coverage.around_center.push(idx(&[]));
    let mut stats_with = CosmogonyStats::new();
    let mut stats_without = CosmogonyStats::new();
    let found_with = create_ontology(
        &mut with, &mut stats_with, None, false, &places, &coverage, &french_rules(), &Vec::new(),
    )
    .unwrap();
    let found_without = create_ontology(
        &mut without, &mut stats_without, None, true, &places, &coverage, &french_rules(), &Vec::new(),
    )
    .unwrap();
    assert_eq!(found_with.attributions.len(), 1);
    assert_eq!(found_with.seeds, idx(&[2]));
    assert!(found_without.attributions.is_empty());
    assert!(found_without.seeds.is_empty());
    assert_eq!(with.len(), 4);
    assert_eq!(without.len(), 3);
    assert!(without.iter().all(|z| !z.is_generated));
    assert_eq!(stats_with.zone_without_country, 1);
    assert_eq!(stats_without.zone_without_country, 1);
    assert_eq!(total(&stats_with), total(&stats_without));
}

#[test]
fn no_country_at_all_is_fatal_and_changes_nothing() {
    let mut zones = vec![
        zone(0, "Bretagne", Some(4), Some(square(10, 60)), None),
        zone(1, "Rennes", Some(8), Some(square(20, 30)), None),
    ];
    let mut stats = CosmogonyStats::new();
    let coverage = Coverage { enclosing: vec![idx(&[]), idx(&[0])], around_center: Vec::new() };
    let r = create_ontology(
        &mut zones, &mut stats, None, false, &Vec::new(), &coverage, &french_rules(), &Vec::new(),
    );
    assert_eq!(r.unwrap_err(), OntologyError::NoCountry);
    assert_eq!(zones.len(), 2);
    assert_eq!(zones[0].zone_type, None);
    assert_eq!(zones[1].parent, None);
    assert_eq!(total(&stats), 0);
}

#[test]
fn a_country_given_for_the_run_is_used_in_upper_case() {
    let mut zones = vec![
        zone(0, "Bretagne", Some(4), Some(square(10, 60)), None),
        zone(1, "Rennes", Some(8), Some(square(20, 30)), None),
        zone(2, "Canton", Some(7), Some(square(22, 24)), None),
        zone(3, "Unranked", None, Some(square(40, 41)), None),
    ];
    let mut stats = CosmogonyStats::new();
    let coverage = Coverage {
        enclosing: vec![idx(&[]), idx(&[0]), idx(&[1, 0]), idx(&[0])],
        around_center: Vec::new(),
    };
    create_ontology(
        &mut zones,
        &mut stats,
        Some("fr".to_string()),
        true,
        &Vec::new(),
        &coverage,
        &french_rules(),
        &Vec::new(),
    )
    .unwrap();
    // the zones of level 7 and without a level have no type and are left out
    assert_eq!(zones.len(), 2);
    assert_eq!(zones[0].zone_type, Some(ZoneType::State));
    assert_eq!(zones[0].country_code, Some("FR".to_string()));
    assert_eq!(zones[1].zone_type, Some(ZoneType::City));
    assert_eq!(zones[1].parent, Some(ZoneIndex { index: 0 }));
    assert_eq!(stats.unhandled_admin_level.len(), 2);
    assert_eq!(stats.unhandled_admin_level[0].country, "FR");
    assert_eq!(stats.unhandled_admin_level[0].level, 7);
    assert_eq!(stats.unhandled_admin_level[0].count, 1);
    assert_eq!(stats.unhandled_admin_level[1].level, 0);
    assert_eq!(stats.unhandled_admin_level[1].count, 1);
    assert!(stats.zone_with_unkwown_country_rules.is_empty());
}

#[test]
fn every_zone_that_enters_typing_is_counted_once() {
    let mut zones = vec![
        zone(0, "France", Some(2), Some(square(0, 100)), Some("FR")),
        zone(1, "Bretagne", Some(4), Some(square(10, 60)), None),
        zone(2, "Canton", Some(7), Some(square(20, 30)), None),
        zone(3, "Lost", Some(8), Some(square(200, 210)), None),
        zone(4, "Atlantis", Some(2), Some(square(300, 400)), Some("XX")),
        zone(5, "Atlantis city", Some(8), Some(square(310, 320)), None),
    ];
    let coverage = Coverage {
        enclosing: vec![idx(&[]), idx(&[0]), idx(&[0, 1]), idx(&[]), idx(&[]), idx(&[4])],
        around_center: vec![idx(&[0]), idx(&[0]), idx(&[0]), idx(&[]), idx(&[4]), idx(&[4])],
    };
    let entering = zones.len();
    let mut stats = CosmogonyStats::new();
    create_ontology(
        &mut zones, &mut stats, None, true, &Vec::new(), &coverage, &french_rules(), &Vec::new(),
    )
    .unwrap();
    let typed = zones.len();
    assert_eq!(typed, 2);
    assert_eq!(stats.zone_without_country, 1);
    assert_eq!(stats.zone_with_unkwown_country_rules.len(), 1);
    assert_eq!(stats.zone_with_unkwown_country_rules[0].count, 2);
    assert_eq!(stats.unknown_country_count(&"XX".to_string()), 2);
    assert_eq!(stats.unknown_country_count(&"FR".to_string()), 0);
    assert_eq!(stats.unhandled_level_count(&"FR".to_string(), 7), 1);
    assert_eq!(stats.unhandled_level_count(&"FR".to_string(), 8), 0);
    assert_eq!(stats.unhandled_admin_level.len(), 1);
    assert_eq!(stats.unhandled_admin_level[0].count, 1);
    assert_eq!(total(&stats) + typed, entering);
    assert!(zones.iter().all(|z| z.zone_type.is_some()));
}

#[test]
fn the_country_is_found_twice_the_same() {
    let run = || {
        let mut zones = nested_zones();
        let mut stats = CosmogonyStats::new();
        create_ontology(
            &mut zones, &mut stats, None, true, &Vec::new(), &nested_coverage(), &french_rules(),
            &Vec::new(),
        )
        .unwrap();
        zones.iter().map(|z| z.country_code.clone()).collect::<Vec<_>>()
    };
    assert_eq!(run(), run());
}

#[test]
fn labels_follow_the_languages_asked_for() {
    let mut zones = nested_zones();
    zones[0].international_names =
        vec![LocalizedText { lang: "br".to_string(), text: "Bro-C'hall".to_string() }];
    zones[1].international_names = vec![
        LocalizedText { lang: "br".to_string(), text: "Breizh".to_string() },
        LocalizedText { lang: "en".to_string(), text: "Brittany".to_string() },
    ];
    zones[2].international_names =
        vec![LocalizedText { lang: "br".to_string(), text: "Roazhon".to_string() }];
    let mut stats = CosmogonyStats::new();
    let langs = vec!["br".to_string(), "en".to_string()];
    create_ontology(
        &mut zones, &mut stats, None, true, &Vec::new(), &nested_coverage(), &french_rules(), &langs,
    )
    .unwrap();
    let city = &zones[2];
    assert_eq!(city.label, "Rennes, Bretagne, France");
    assert_eq!(city.international_labels.len(), 2);
    assert_eq!(city.international_labels[0].lang, "br");
    assert_eq!(city.international_labels[0].text, "Roazhon, Breizh, Bro-C'hall");
    assert_eq!(city.international_labels[1].lang, "en");
    assert_eq!(city.international_labels[1].text, "Rennes, Brittany, France");
}

#[test]
fn cleaning_keeps_the_typed_zones_in_order() {
    let mut zones = vec![
        zone(0, "a", None, None, None),
        zone(1, "b", None, None, None),
        zone(2, "c", None, None, None),
        zone(3, "d", None, None, None),
    ];
    zones[1].zone_type = Some(ZoneType::City);
    zones[3].zone_type = Some(ZoneType::NonAdministrative);
    clean_untagged_zones(&mut zones);
    assert_eq!(zones.len(), 2);
    assert_eq!(zones[0].name, "b");
    assert_eq!(zones[0].id, ZoneIndex { index: 1 });
    assert_eq!(zones[1].name, "d");
    let mut none: Vec<Zone> = Vec::new();
    clean_untagged_zones(&mut none);
    assert!(none.is_empty());
}

fn relation(id: i64, tags: &[(&str, &str)]) -> OsmObj {
    OsmObj::Relation(Relation {
        id,
        tags: tags.iter().map(|(k, v)| Tag { key: k.to_string(), value: v.to_string() }).collect(),
    })
}

#[test]
fn zones_are_read_from_administrative_relations_with_a_boundary() {
    let admin = [("boundary", "administrative"), ("admin_level", "8")];
    let candidates = vec![
        Candidate { object: relation(1, &admin), zone: Some(zone(9, "kept", Some(8), Some(square(0, 1)), None)) },
        Candidate { object: relation(2, &admin), zone: Some(zone(9, "no boundary", Some(8), None, None)) },
        Candidate { object: relation(3, &admin), zone: None },
        Candidate {
            object: relation(4, &[("boundary", "historic"), ("admin_level", "8")]),
            zone: Some(zone(9, "not administrative", Some(8), Some(square(0, 1)), None)),
        },
        Candidate { object: relation(5, &admin), zone: Some(zone(9, "kept too", Some(6), Some(square(0, 2)), None)) },
    ];
    let (zones, stats) = get_zones_and_stats(&candidates).unwrap();
    assert_eq!(zones.len(), 2);
    assert_eq!(zones[0].name, "kept");
    assert_eq!(zones[0].id, ZoneIndex { index: 0 });
    assert_eq!(zones[1].name, "kept too");
    assert_eq!(zones[1].id, ZoneIndex { index: 1 });
    assert_eq!(total(&stats), 0);
}

#[test]
fn a_cosmogony_holds_the_ontology_and_the_name_of_the_extract() {
    let admin2 = [("boundary", "administrative"), ("admin_level", "2")];
    let admin8 = [("boundary", "administrative"), ("admin_level", "8")];
    let candidates = vec![
        Candidate { object: relation(1, &admin2), zone: Some(zone(0, "France", Some(2), Some(square(0, 100)), Some("FR"))) },
        Candidate { object: relation(2, &admin8), zone: Some(zone(0, "Rennes", Some(8), Some(square(20, 30)), None)) },
    ];
    let coverage = Coverage { enclosing: vec![idx(&[]), idx(&[0])], around_center: vec![idx(&[0]), idx(&[0])] };
    let (cosmogony, found) = build_cosmogony(
        Some("france.osm.pbf".to_string()),
        &candidates,
        None,
        false,
        &Vec::new(),
        &coverage,
        &french_rules(),
        &Vec::new(),
    )
    .unwrap();
    assert!(found.attributions.is_empty());
    assert_eq!(cosmogony.meta.osm_filename, "france.osm.pbf");
    assert_eq!(cosmogony.zones.len(), 2);
    assert_eq!(cosmogony.zones[1].parent, Some(ZoneIndex { index: 0 }));
    assert_eq!(cosmogony.zones[1].zone_type, Some(ZoneType::City));
    assert_eq!(total(&cosmogony.meta.stats), 0);

    let (unnamed, _) = build_cosmogony(
        None, &candidates, None, true, &Vec::new(), &coverage, &french_rules(), &Vec::new(),
    )
    .unwrap();
    assert_eq!(unnamed.meta.osm_filename, "invalid file name");

    let nothing: Vec<Candidate> = Vec::new();
    let failed = build_cosmogony(
        None, &nothing, None, true, &Vec::new(), &coverage, &french_rules(), &Vec::new(),
    );
    assert_eq!(failed.unwrap_err(), OntologyError::NoCountry);
}
