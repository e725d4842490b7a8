use cosmogony_builder::country_finder::CountryFinder;
use cosmogony_builder::geometry_index::{GeometryIndex, IndexEntry};
use cosmogony_builder::hierarchy_builder::{build_hierarchy, find_inclusions, find_parents};
use cosmogony_builder::labels::{compute_labels, zone_label};
use cosmogony_builder::osm::{tag_value, Node, OsmObj, Relation, Tag, Way};
use cosmogony_builder::stats::CosmogonyStats;
use cosmogony_builder::typing::{apply_outcomes, get_country_code, zone_outcome, Outcome};
use cosmogony_builder::zone::{
    clone_texts, BoundingBox, Coord, Footprint, LocalizedText, Zone, ZoneIndex, ZoneType,
};
use cosmogony_builder::zone_typer::{CountryRules, LevelRule, ZoneTyper, ZoneTyperError};
use cosmogony_builder::{is_admin, is_place};

fn bbox(min_lon: i32, min_lat: i32, max_lon: i32, max_lat: i32) -> BoundingBox {
    BoundingBox { min: Coord { lon: min_lon, lat: min_lat }, max: Coord { lon: max_lon, lat: max_lat } }
}

fn footprint(min: i32, max: i32, area: u64) -> Footprint {
    Footprint { bbox: bbox(min, min, max, max), center: Coord { lon: (min + max) / 2, lat: (min + max) / 2 }, area }
}

fn zone(index: usize, name: &str, level: Option<u32>, footprint: Option<Footprint>) -> Zone {
    Zone {
        id: ZoneIndex { index },
        osm_id: format!("relation:{}", index),
        admin_level: level,
        zone_type: None,
        name: name.to_string(),
        label: String::new(),
        international_labels: Vec::new(),
        international_names: Vec::new(),
        footprint,
        parent: None,
        is_generated: false,
        country_code: None,
    }
}

fn idx(list: &[usize]) -> Vec<ZoneIndex> {
    list.iter().map(|i| ZoneIndex { index: *i }).collect()
}

fn tags(list: &[(&str, &str)]) -> Vec<Tag> {
    list.iter().map(|(k, v)| Tag { key: k.to_string(), value: v.to_string() }).collect()
}

fn node(list: &[(&str, &str)]) -> OsmObj {
    OsmObj::Node(Node { id: 1, tags: tags(list), decimicro_lat: 0, decimicro_lon: 0 })
}

#[test]
fn an_administrative_relation_has_both_tags() {
    let rel = |list: &[(&str, &str)]| OsmObj::Relation(Relation { id: 1, tags: tags(list) });
    assert!(is_admin(&rel(&[("boundary", "administrative"), ("admin_level", "4")])));
    assert!(is_admin(&rel(&[("name", "x"), ("admin_level", ""), ("boundary", "administrative")])));
    assert!(!is_admin(&rel(&[("boundary", "administrative")])));
    assert!(!is_admin(&rel(&[("admin_level", "4")])));
    assert!(!is_admin(&rel(&[("boundary", "political"), ("admin_level", "4")])));
    assert!(!is_admin(&rel(&[])));
    assert!(!is_admin(&node(&[("boundary", "administrative"), ("admin_level", "4")])));
    assert!(!is_admin(&OsmObj::Way(Way {
        id: 1,
        tags: tags(&[("boundary", "administrative"), ("admin_level", "4")]),
    })));
}

#[test]
fn a_place_is_a_node_that_names_a_city_or_a_suburb() {
    assert!(is_place(&node(&[("place", "city")])));
    assert!(is_place(&node(&[("place", "town")])));
    assert!(is_place(&node(&[("place", "village")])));
    assert!(is_place(&node(&[("place", "suburb")])));
    assert!(is_place(&node(&[("place", "quarter")])));
    assert!(is_place(&node(&[("name", "x"), ("place", "neighbourhood")])));
    assert!(!is_place(&node(&[("place", "state")])));
    assert!(!is_place(&node(&[("place", "country")])));
    assert!(!is_place(&node(&[("place", "hamlet")])));
    assert!(!is_place(&node(&[("place", "City")])));
    assert!(!is_place(&node(&[("name", "city")])));
    assert!(!is_place(&node(&[])));
    assert!(!is_place(&OsmObj::Relation(Relation { id: 1, tags: tags(&[("place", "city")]) })));
}

#[test]
fn the_first_tag_with_a_key_gives_its_value() {
    let t = tags(&[("a", "1"), ("b", "2"), ("a", "3")]);
    assert_eq!(tag_value(&t, "a"), Some(&"1".to_string()));
    assert_eq!(tag_value(&t, "b"), Some(&"2".to_string()));
    assert_eq!(tag_value(&t, "c"), None);
}

fn typer() -> ZoneTyper {
    ZoneTyper::new(vec![
        CountryRules {
            country_code: "FR".to_string(),
            levels: vec![
                LevelRule { level: 2, zone_type: ZoneType::Country },
                LevelRule { level: 8, zone_type: ZoneType::City },
                LevelRule { level: 8, zone_type: ZoneType::Suburb },
            ],
        },
        CountryRules {
            country_code: "DE".to_string(),
            levels: vec![LevelRule { level: 8, zone_type: ZoneType::CityDistrict }],
        },
        CountryRules {
            country_code: "FR".to_string(),
            levels: vec![LevelRule { level: 9, zone_type: ZoneType::Suburb }],
        },
    ])
}

#[test]
fn a_zone_is_typed_from_the_table_of_its_country() {
    let t = typer();
    let none: Vec<ZoneIndex> = Vec::new();
    let zones: Vec<Zone> = Vec::new();
    let fr = "FR".to_string();
    let de = "DE".to_string();
    let xx = "XX".to_string();
    let lower = "fr".to_string();
    let city = zone(0, "city", Some(8), None);
    assert!(matches!(t.get_zone_type(&city, &fr, &none, &zones), Ok(ZoneType::City)));
    assert!(matches!(t.get_zone_type(&city, &de, &none, &zones), Ok(ZoneType::CityDistrict)));
    match t.get_zone_type(&city, &xx, &none, &zones) {
        Err(ZoneTyperError::InvalidCountry(c)) => assert_eq!(c, "XX"),
        other => panic!("{:?}", other),
    }
    match t.get_zone_type(&city, &lower, &none, &zones) {
        Err(ZoneTyperError::InvalidCountry(c)) => assert_eq!(c, "fr"),
        other => panic!("{:?}", other),
    }
    // only the first table of a country counts
    match t.get_zone_type(&zone(0, "z", Some(9), None), &fr, &none, &zones) {
        Err(ZoneTyperError::UnkownLevel(l, c)) => {
            assert_eq!(l, Some(9));
            assert_eq!(c, "FR");
        },
        other => panic!("{:?}", other),
    }
    match t.get_zone_type(&zone(0, "z", None, None), &fr, &none, &zones) {
        Err(ZoneTyperError::UnkownLevel(l, c)) => {
            assert_eq!(l, None);
            assert_eq!(c, "FR");
        },
        other => panic!("{:?}", other),
    }
}

#[test]
fn the_index_leaves_empty_boxes_out_and_answers_in_order() {
    let items = vec![
        IndexEntry { bbox: bbox(0, 0, 10, 10), payload: 7 },
        IndexEntry { bbox: bbox(5, 5, 4, 6), payload: 8 },
        IndexEntry { bbox: bbox(10, 10, 20, 20), payload: 9 },
        IndexEntry { bbox: bbox(30, 30, 30, 30), payload: 3 },
    ];
    let index = GeometryIndex::new(&items);
    assert_eq!(index.len(), 3);
    assert_eq!(index.query(&bbox(0, 0, 100, 100)), vec![7, 9, 3]);
    assert_eq!(index.query(&bbox(10, 10, 10, 10)), vec![7, 9]);
    assert_eq!(index.query(&bbox(11, 0, 29, 9)), Vec::<usize>::new());
    assert_eq!(index.query(&bbox(21, 21, 30, 30)), vec![3]);
    assert_eq!(index.locate(Coord { lon: 10, lat: 10 }), vec![7, 9]);
    assert_eq!(index.locate(Coord { lon: 30, lat: 30 }), vec![3]);
    assert_eq!(index.locate(Coord { lon: 4, lat: 11 }), Vec::<usize>::new());
    assert_eq!(GeometryIndex::new(&Vec::new()).len(), 0);
}

#[test]
fn the_nearest_entry_is_the_earliest_of_the_closest() {
    let items = vec![
        IndexEntry { bbox: bbox(0, 0, 10, 10), payload: 1 },
        IndexEntry { bbox: bbox(20, 0, 30, 10), payload: 2 },
        IndexEntry { bbox: bbox(20, 0, 30, 10), payload: 3 },
    ];
    let index = GeometryIndex::new(&items);
    assert_eq!(index.nearest(Coord { lon: 5, lat: 5 }).unwrap().payload, 1);
    assert_eq!(index.nearest(Coord { lon: 14, lat: 5 }).unwrap().payload, 1);
    assert_eq!(index.nearest(Coord { lon: 15, lat: 5 }).unwrap().payload, 1);
    assert_eq!(index.nearest(Coord { lon: 16, lat: 5 }).unwrap().payload, 2);
    assert_eq!(index.nearest(Coord { lon: 25, lat: 500 }).unwrap().payload, 2);
    assert_eq!(GeometryIndex::new(&Vec::new()).nearest(Coord { lon: 0, lat: 0 }), None);
    let b = bbox(0, 0, 10, 10);
    assert_eq!(b.squared_distance(Coord { lon: 13, lat: 14 }), 25);
    assert_eq!(b.squared_distance(Coord { lon: -3, lat: 5 }), 9);
    assert_eq!(b.squared_distance(Coord { lon: 3, lat: 5 }), 0);
    let wide = bbox(i32::MIN, i32::MIN, i32::MIN, i32::MIN);
    let far = Coord { lon: i32::MAX, lat: i32::MAX };
    assert_eq!(wide.squared_distance(far), 2 * 4294967295u128 * 4294967295u128);
}

#[test]
fn enclosing_zones_come_smallest_first() {
    let zones = vec![
        zone(0, "country", Some(2), Some(footprint(0, 100, 10000))),
        zone(1, "region", Some(4), Some(footprint(10, 60, 2500))),
        zone(2, "city", Some(8), Some(footprint(20, 30, 100))),
        zone(3, "far", Some(8), Some(footprint(200, 210, 100))),
        zone(4, "no boundary", Some(8), None),
    ];
    let enclosing = vec![idx(&[]), idx(&[0]), idx(&[0, 1, 2, 3, 4, 9]), idx(&[0]), idx(&[0, 1])];
    let (inclusions, tree) = find_inclusions(&zones, &enclosing);
    assert_eq!(tree.len(), 4);
    assert_eq!(inclusions.len(), 5);
    assert_eq!(inclusions[0], idx(&[]));
    assert_eq!(inclusions[1], idx(&[0]));
    // itself, the zone whose box lies elsewhere and the unknown ones are left out
    assert_eq!(inclusions[2], idx(&[1, 0]));
    // the box of zone 0 does not meet the one of zone 3
    assert_eq!(inclusions[3], idx(&[]));
    assert_eq!(inclusions[4], idx(&[]));
    let short: Vec<Vec<ZoneIndex>> = Vec::new();
    let (none, _) = find_inclusions(&zones, &short);
    assert!(none.iter().all(|l| l.is_empty()));
}

#[test]
fn the_parent_is_the_tightest_zone_and_ties_are_broken() {
    let mut zones = vec![
        zone(0, "big", Some(2), Some(footprint(0, 100, 10000))),
        zone(1, "twin of level 6", Some(6), Some(footprint(10, 60, 2500))),
        zone(2, "twin of level 8", Some(8), Some(footprint(10, 60, 2500))),
        zone(3, "twin of level 8 again", Some(8), Some(footprint(10, 60, 2500))),
        zone(4, "small", Some(10), Some(footprint(20, 30, 100))),
        zone(5, "alone", Some(10), Some(footprint(20, 30, 100))),
    ];
    let inclusions = vec![
        idx(&[1, 4]),
        idx(&[0, 2, 3]),
        idx(&[3, 1, 0]),
        idx(&[0, 1, 2]),
        idx(&[0, 3, 1, 2, 4, 17]),
        idx(&[]),
    ];
    let parents = find_parents(&zones, &inclusions);
    build_hierarchy(&mut zones, &inclusions);
    // a smaller zone is never the parent of a larger one
    assert_eq!(zones[0].parent, None);
    // among twins only an earlier one can be the parent
    assert_eq!(zones[1].parent, Some(ZoneIndex { index: 0 }));
    assert_eq!(zones[2].parent, Some(ZoneIndex { index: 1 }));
    // of the two earlier twins the one of the higher level is preferred
    assert_eq!(zones[3].parent, Some(ZoneIndex { index: 2 }));
    // of the twins of the highest level the earliest is preferred
    assert_eq!(zones[4].parent, Some(ZoneIndex { index: 2 }));
    assert_eq!(zones[5].parent, None);
    assert_eq!(parents, zones.iter().map(|z| z.parent).collect::<Vec<_>>());
    // no way up comes back
    for start in 0..zones.len() {
        let mut cur = zones[start].parent;
        let mut steps = 0;
        while let Some(p) = cur {
            assert!(p.index != start);
            cur = zones[p.index].parent;
            steps += 1;
            assert!(steps <= zones.len());
        }
    }
}

#[test]
fn zones_without_a_line_keep_their_parent() {
    let mut zones = vec![zone(0, "a", None, None), zone(1, "b", None, None)];
    zones[1].parent = Some(ZoneIndex { index: 0 });
    zones[0].parent = Some(ZoneIndex { index: 1 });
    build_hierarchy(&mut zones, &vec![idx(&[1])]);
    assert_eq!(zones[0].parent, None);
    assert_eq!(zones[1].parent, Some(ZoneIndex { index: 0 }));
}

#[test]
fn a_label_leaves_out_a_name_that_repeats() {
    let mut zones = vec![
        zone(0, "Paris", None, None),
        zone(1, "Paris", None, None),
        zone(2, "Ile-de-France", None, None),
        zone(3, "France", None, None),
        zone(4, "Paris", None, None),
    ];
    zones[0].parent = Some(ZoneIndex { index: 1 });
    zones[1].parent = Some(ZoneIndex { index: 2 });
    zones[2].parent = Some(ZoneIndex { index: 3 });
    zones[3].parent = Some(ZoneIndex { index: 4 });
    zones[4].parent = Some(ZoneIndex { index: 17 });
    assert_eq!(zone_label(&zones, 0, None), "Paris, Ile-de-France, France, Paris");
    assert_eq!(zone_label(&zones, 4, None), "Paris");
    let en = "en".to_string();
    zones[1].international_names = vec![LocalizedText { lang: "en".to_string(), text: "City of Paris".to_string() }];
    assert_eq!(zone_label(&zones, 0, Some(&en)), "Paris, City of Paris, Ile-de-France, France, Paris");
    compute_labels(&mut zones, &vec![en]);
    assert_eq!(zones[0].label, "Paris, Ile-de-France, France, Paris");
    assert_eq!(zones[0].international_labels[0].text, "Paris, City of Paris, Ile-de-France, France, Paris");
    assert_eq!(zones[3].label, "France, Paris");
}

#[test]
fn a_label_ends_where_the_parents_go_round() {
    let mut zones = vec![zone(0, "a", None, None), zone(1, "b", None, None), zone(2, "c", None, None)];
    zones[0].parent = Some(ZoneIndex { index: 1 });
    zones[1].parent = Some(ZoneIndex { index: 0 });
    zones[2].parent = Some(ZoneIndex { index: 2 });
    assert_eq!(zone_label(&zones, 0, None), "a, b, a");
    assert_eq!(zone_label(&zones, 2, None), "c");
}

#[test]
fn a_copy_of_texts_holds_the_same_texts() {
    let texts = vec![
        LocalizedText { lang: "fr".to_string(), text: "Bretagne".to_string() },
        LocalizedText { lang: "br".to_string(), text: "Breizh".to_string() },
    ];
    let copy = clone_texts(&texts);
    assert_eq!(copy.len(), 2);
    assert_eq!(copy[1].lang, "br");
    assert_eq!(copy[1].text, "Breizh");
    let z = zone(3, "x", Some(4), Some(footprint(0, 1, 1)));
    let d = z.duplicate();
    assert_eq!(d.id, z.id);
    assert_eq!(d.name, "x");
    assert_eq!(d.footprint, z.footprint);
}

fn country(index: usize, code: &str, min: i32, max: i32) -> Zone {
    let mut z = zone(index, code, Some(2), Some(footprint(min, max, 1)));
    z.country_code = Some(code.to_string());
    z
}

#[test]
fn the_country_comes_from_the_enclosing_zones_or_from_the_center() {
    let mut zones = vec![
        country(0, "FR", 0, 100),
        country(1, "DE", 50, 150),
        zone(2, "inside", Some(8), Some(footprint(60, 70, 1))),
        zone(3, "no boundary", Some(8), None),
        zone(4, "typed", Some(4), Some(footprint(300, 400, 1))),
        zone(5, "no code", Some(2), Some(footprint(0, 100, 1))),
    ];
    zones[4].zone_type = Some(ZoneType::Country);
    zones[4].country_code = Some("IT".to_string());
    let t = ZoneTyper::new(Vec::new());
    let around = vec![idx(&[]), idx(&[]), idx(&[1, 0]), idx(&[0]), idx(&[]), idx(&[9, 4])];
    let finder = CountryFinder::init(&zones, &t, &around);
    assert!(!finder.is_empty());
    assert_eq!(finder.countries.len(), 3);
    // the first enclosing zone that is a country gives the code
    assert_eq!(finder.find_zone_country(&zones[2], &idx(&[5, 1, 0])), Some("DE".to_string()));
    assert_eq!(finder.find_zone_country(&zones[2], &idx(&[0, 1])), Some("FR".to_string()));
    // else the first country around the center does
    assert_eq!(finder.find_zone_country(&zones[2], &idx(&[])), Some("FR".to_string()));
    assert_eq!(finder.find_zone_country(&zones[3], &idx(&[])), None);
    assert_eq!(finder.find_zone_country(&zones[3], &idx(&[2, 4])), Some("IT".to_string()));
    // the box of zone 4 does not hold the center of zone 5
    assert_eq!(finder.find_zone_country(&zones[5], &idx(&[])), None);
    assert_eq!(finder.find_zone_country(&zones[0], &idx(&[])), None);
    let again = finder.find_zone_country(&zones[2], &idx(&[5, 1, 0]));
    assert_eq!(again, finder.find_zone_country(&zones[2], &idx(&[5, 1, 0])));

    let given = Some("de".to_string());
    assert_eq!(get_country_code(&finder, &zones[3], &given, &idx(&[])), Some("DE".to_string()));
    assert_eq!(get_country_code(&finder, &zones[2], &None, &idx(&[0])), Some("FR".to_string()));

    let empty = CountryFinder::init(&zones[2..4].to_vec_of_copies(), &t, &around);
    assert!(empty.is_empty());
}

trait Copies {
    fn to_vec_of_copies(&self) -> Vec<Zone>;
}

impl Copies for [Zone] {
    fn to_vec_of_copies(&self) -> Vec<Zone> {
        self.iter().map(|z| z.duplicate()).collect()
    }
}

#[test]
fn a_zone_is_a_country_by_the_rules_of_its_own_code() {
    let mut z = zone(0, "Schweiz", Some(3), Some(footprint(0, 10, 1)));
    z.country_code = Some("CH".to_string());
    let zones = vec![z];
    let around: Vec<Vec<ZoneIndex>> = Vec::new();
    let none = ZoneTyper::new(Vec::new());
    assert!(CountryFinder::init(&zones, &none, &around).is_empty());
    let swiss = ZoneTyper::new(vec![CountryRules {
        country_code: "CH".to_string(),
        levels: vec![LevelRule { level: 3, zone_type: ZoneType::Country }],
    }]);
    assert!(!CountryFinder::init(&zones, &swiss, &around).is_empty());
}

#[test]
fn outcomes_are_written_and_counted() {
    let mut zones = vec![
        zone(0, "a", Some(8), None),
        zone(1, "b", Some(8), None),
        zone(2, "c", Some(8), None),
        zone(3, "d", None, None),
        zone(4, "e", Some(5), None),
        zone(5, "f", Some(5), None),
    ];
    let outcomes: Vec<Outcome> = vec![
        None,
        Some(Ok(("FR".to_string(), ZoneType::City))),
        Some(Err(ZoneTyperError::InvalidCountry("XX".to_string()))),
        Some(Err(ZoneTyperError::UnkownLevel(None, "FR".to_string()))),
        Some(Err(ZoneTyperError::UnkownLevel(Some(5), "FR".to_string()))),
        Some(Err(ZoneTyperError::UnkownLevel(Some(5), "FR".to_string()))),
    ];
    let mut stats = CosmogonyStats::new();
    stats.add_unknown_country("XX".to_string());
    stats.add_unknown_country("YY".to_string());
    apply_outcomes(&mut zones, &mut stats, &outcomes);
    assert_eq!(zones[0].country_code, None);
    assert_eq!(zones[0].zone_type, None);
    assert_eq!(zones[1].country_code, Some("FR".to_string()));
    assert_eq!(zones[1].zone_type, Some(ZoneType::City));
    assert_eq!(zones[2].country_code, Some("XX".to_string()));
    assert_eq!(zones[2].zone_type, None);
    assert_eq!(zones[3].country_code, Some("FR".to_string()));
    assert_eq!(zones[4].zone_type, None);
    assert_eq!(stats.zone_without_country, 1);
    assert_eq!(stats.zone_with_unkwown_country_rules.len(), 2);
    assert_eq!(stats.zone_with_unkwown_country_rules[0].country, "XX");
    assert_eq!(stats.zone_with_unkwown_country_rules[0].count, 2);
    assert_eq!(stats.zone_with_unkwown_country_rules[1].count, 1);
    assert_eq!(stats.unhandled_admin_level.len(), 2);
    assert_eq!(stats.unhandled_admin_level[0].level, 0);
    assert_eq!(stats.unhandled_admin_level[0].count, 1);
    assert_eq!(stats.unhandled_admin_level[1].level, 5);
    assert_eq!(stats.unhandled_admin_level[1].count, 2);
}

#[test]
fn the_outcome_of_a_zone_reads_the_line_that_its_identity_names() {
    let zones = vec![country(0, "FR", 0, 100), zone(1, "city", Some(8), Some(footprint(10, 20, 1)))];
    let t = ZoneTyper::new(vec![CountryRules {
        country_code: "FR".to_string(),
        levels: vec![LevelRule { level: 8, zone_type: ZoneType::City }],
    }]);
    let around: Vec<Vec<ZoneIndex>> = Vec::new();
    let finder = CountryFinder::init(&zones, &t, &around);
    let inclusions = vec![idx(&[]), idx(&[0])];
    match zone_outcome(&finder, &t, &zones[1], &None, &inclusions, &zones) {
        Some(Ok((c, ty))) => {
            assert_eq!(c, "FR");
            assert_eq!(ty, ZoneType::City);
        },
        other => panic!("{:?}", other),
    }
    assert!(zone_outcome(&finder, &t, &zones[0], &None, &inclusions, &zones).is_none());
    match zone_outcome(&finder, &t, &zones[0], &Some("fr".to_string()), &inclusions, &zones) {
        Some(Err(ZoneTyperError::UnkownLevel(l, c))) => {
            assert_eq!(l, Some(2));
            assert_eq!(c, "FR");
        },
        other => panic!("{:?}", other),
    }
}

#[test]
fn the_nearest_neighbours_come_nearest_first() {
    let items = vec![
        IndexEntry { bbox: bbox(100, 0, 110, 10), payload: 10 },
        IndexEntry { bbox: bbox(0, 0, 10, 10), payload: 11 },
        IndexEntry { bbox: bbox(50, 0, 60, 10), payload: 12 },
        IndexEntry { bbox: bbox(9, 9, 8, 8), payload: 13 },
        IndexEntry { bbox: bbox(0, 0, 10, 10), payload: 14 },
        IndexEntry { bbox: bbox(20, 0, 30, 10), payload: 15 },
    ];
    let index = GeometryIndex::new(&items);
    let p = Coord { lon: 5, lat: 5 };
    let payloads = |k: usize| index.nearest_neighbors(p, k).iter().map(|e| e.payload).collect::<Vec<_>>();
    assert_eq!(payloads(0), Vec::<usize>::new());
    assert_eq!(payloads(1), vec![11]);
    assert_eq!(payloads(2), vec![11, 14]);
    assert_eq!(payloads(3), vec![11, 14, 15]);
    assert_eq!(payloads(5), vec![11, 14, 15, 12, 10]);
    assert_eq!(payloads(50), vec![11, 14, 15, 12, 10]);
    assert_eq!(index.nearest(p).unwrap().payload, payloads(1)[0]);
    assert!(GeometryIndex::new(&Vec::new()).nearest_neighbors(p, 3).is_empty());
}

#[test]
fn fresh_statistics_count_nothing() {
    let stats = CosmogonyStats::default();
    assert_eq!(stats.zone_without_country, 0);
    assert!(stats.zone_with_unkwown_country_rules.is_empty());
    assert!(stats.unhandled_admin_level.is_empty());
    assert_eq!(stats.unknown_country_count(&"FR".to_string()), 0);
    let mut stats = CosmogonyStats::new();
    stats.add_zone_without_country();
    stats.add_unhandled_level("FR".to_string(), 7);
    stats.add_unhandled_level("FR".to_string(), 7);
    stats.add_unhandled_level("DE".to_string(), 7);
    assert_eq!(stats.zone_without_country, 1);
    assert_eq!(stats.unhandled_level_count(&"FR".to_string(), 7), 2);
    assert_eq!(stats.unhandled_level_count(&"DE".to_string(), 7), 1);
    assert_eq!(stats.unhandled_level_count(&"DE".to_string(), 8), 0);
}
