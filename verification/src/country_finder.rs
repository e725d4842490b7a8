//! Finds the country of a zone: among the zones that enclose it, or else
//! among the countries around its representative point.

use crate::geometry_index::{entry_holds, entry_well_formed, payloads, GeometryIndex, IndexEntry};
use crate::zone::{rows, text_of, views, Zone, ZoneIndex, ZoneType, ZoneView};
use crate::zone_typer::{typing_of, CountryRulesView, TypingFailure, ZoneTyper};
use vstd::prelude::*;

verus! {

/// A zone that stands for a whole country, and the country's code.
#[derive(Debug)]
pub struct Country {
    pub zone: ZoneIndex,
    pub code: String,
}

/// The mathematical value of a [`Country`].
pub struct CountryView {
    pub zone: usize,
    pub code: Seq<char>,
}

impl View for Country {
    type V = CountryView;

    open spec fn view(&self) -> CountryView {
        CountryView { zone: self.zone.index, code: self.code@ }
    }
}

/// The views of a list of countries, in order.
pub open spec fn country_views(countries: Seq<Country>) -> Seq<CountryView> {
    Seq::new(countries.len(), |i: int| countries[i]@)
}

/// A zone stands for a whole country when it has a boundary and a country
/// code of its own, and is typed as a country, sits at the top
/// administrative level, or is a country by the rules of its own code.
pub open spec fn is_country(z: ZoneView, tables: Seq<CountryRulesView>) -> bool {
    &&& z.footprint is Some
    &&& z.country_code is Some
    &&& (z.zone_type == Some(ZoneType::Country) || z.admin_level == Some(2u32) || typing_of(
        tables,
        z.country_code.unwrap(),
        z.admin_level,
    ) == Ok::<ZoneType, TypingFailure>(ZoneType::Country))
}

/// Whether a zone stands for a whole country by `tables`.
pub open spec fn country_pred(tables: Seq<CountryRulesView>) -> spec_fn(ZoneView) -> bool {
    |z: ZoneView| is_country(z, tables)
}

/// The countries among `zones`, in their order.
pub open spec fn countries_among(zones: Seq<ZoneView>, tables: Seq<CountryRulesView>) -> Seq<
    CountryView,
> {
    let kept = zones.filter(country_pred(tables));
    Seq::new(kept.len(), |i: int| CountryView { zone: kept[i].id, code: kept[i].country_code.unwrap() })
}

/// The boxes of the countries among `zones`, each with the country's zone.
pub open spec fn country_entries(zones: Seq<ZoneView>, tables: Seq<CountryRulesView>) -> Seq<
    IndexEntry,
> {
    let kept = zones.filter(country_pred(tables));
    Seq::new(
        kept.len(),
        |i: int| IndexEntry { bbox: kept[i].footprint.unwrap().bbox, payload: kept[i].id },
    )
}

/// The code of the first country that stands on `zone`, looking from
/// position `from` on.
pub open spec fn code_of_from(countries: Seq<CountryView>, zone: usize, from: int) -> Option<
    Seq<char>,
>
    decreases countries.len() - from,
{
    if from < 0 || from >= countries.len() {
        None
    } else if countries[from].zone == zone {
        Some(countries[from].code)
    } else {
        code_of_from(countries, zone, from + 1)
    }
}

/// The code of the first zone of `list` that is a country, looking from
/// position `from` on.
pub open spec fn first_country_from(
    countries: Seq<CountryView>,
    list: Seq<ZoneIndex>,
    from: int,
) -> Option<Seq<char>>
    decreases list.len() - from,
{
    if from < 0 || from >= list.len() {
        None
    } else {
        match code_of_from(countries, list[from].index, 0) {
            Some(c) => Some(c),
            None => first_country_from(countries, list, from + 1),
        }
    }
}

/// The code of the first of `candidates` that is a country and stands in
/// `around`, looking from position `from` on.
pub open spec fn first_covering_from(
    countries: Seq<CountryView>,
    candidates: Seq<usize>,
    around: Seq<ZoneIndex>,
    from: int,
) -> Option<Seq<char>>
    decreases candidates.len() - from,
{
    if from < 0 || from >= candidates.len() {
        None
    } else if around.contains(ZoneIndex { index: candidates[from] }) {
        match code_of_from(countries, candidates[from], 0) {
            Some(c) => Some(c),
            None => first_covering_from(countries, candidates, around, from + 1),
        }
    } else {
        first_covering_from(countries, candidates, around, from + 1)
    }
}

/// The line of `table` for the zone at `index`; empty where the table has
/// none.
pub open spec fn row_of(table: Seq<Seq<ZoneIndex>>, index: usize) -> Seq<ZoneIndex> {
    if index < table.len() {
        table[index as int]
    } else {
        Seq::empty()
    }
}

/// The mathematical value of a [`CountryFinder`].
pub struct CountryFinderView {
    pub countries: Seq<CountryView>,
    pub boxes: Seq<IndexEntry>,
    pub around_center: Seq<Seq<ZoneIndex>>,
}

/// The finder that is built from `zones`.
pub open spec fn finder_of(
    zones: Seq<ZoneView>,
    tables: Seq<CountryRulesView>,
    around_center: Seq<Seq<ZoneIndex>>,
) -> CountryFinderView {
    CountryFinderView {
        countries: countries_among(zones, tables),
        boxes: country_entries(zones, tables).filter(entry_well_formed()),
        around_center,
    }
}

/// The country of a zone. It is the country of the first zone of
/// `inclusions` that is a country. Where there is none, it is the first
/// country whose box holds the zone's representative point and whose
/// boundary was found to cover that point.
pub open spec fn zone_country(
    finder: CountryFinderView,
    zone: ZoneView,
    inclusions: Seq<ZoneIndex>,
) -> Option<Seq<char>> {
    match first_country_from(finder.countries, inclusions, 0) {
        Some(c) => Some(c),
        None => match zone.footprint {
            None => None,
            Some(f) => first_covering_from(
                finder.countries,
                payloads(finder.boxes.filter(entry_holds(f.center))),
                row_of(finder.around_center, zone.id),
                0,
            ),
        },
    }
}

/// Whether `index` stands in `list`.
pub fn holds_index(list: &Vec<ZoneIndex>, index: usize) -> (r: bool)
    ensures
        r == list@.contains(ZoneIndex { index }),
{
    let mut i: usize = 0;
    while i < list.len()
        invariant
            i <= list.len(),
            forall|k: int| 0 <= k < i ==> list@[k] != (ZoneIndex { index }),
        decreases list.len() - i,
    {
        if list[i].index == index {
            assert(list@[i as int] == (ZoneIndex { index }));
            return true;
        }
        i += 1;
    }
    false
}

/// The countries of a collection of zones, indexed by their boxes.
/// `around_center[i]` names the zones whose boundary was found to cover the
/// representative point of zone `i`.
#[derive(Debug)]
pub struct CountryFinder<'a> {
    pub countries: Vec<Country>,
    pub tree: GeometryIndex,
    pub around_center: &'a Vec<Vec<ZoneIndex>>,
}

impl<'a> View for CountryFinder<'a> {
    type V = CountryFinderView;

    open spec fn view(&self) -> CountryFinderView {
        CountryFinderView {
            countries: country_views(self.countries@),
            boxes: self.tree@,
            around_center: rows(self.around_center@),
        }
    }
}

impl<'a> CountryFinder<'a> {
    /// The finder over the countries among `zones`.
    pub fn init(zones: &Vec<Zone>, typer: &ZoneTyper, around_center: &'a Vec<Vec<ZoneIndex>>) -> (r:
        CountryFinder<'a>)
        ensures
            r@ == finder_of(views(zones@), typer@, rows(around_center@)),
    {
        let ghost vs = views(zones@);
        let ghost pred = country_pred(typer@);
        let mut countries: Vec<Country> = Vec::new();
        let mut items: Vec<IndexEntry> = Vec::new();
        let no_zone: Vec<ZoneIndex> = Vec::new();
        let mut i: usize = 0;
        proof {
            reveal(Seq::filter);
            assert(vs.take(0) =~= Seq::<ZoneView>::empty());
            assert(country_views(countries@) =~= countries_among(vs.take(0), typer@));
            assert(items@ =~= country_entries(vs.take(0), typer@));
        }
        while i < zones.len()
            invariant
                i <= zones.len(),
                vs == views(zones@),
                pred == country_pred(typer@),
                country_views(countries@) == countries_among(vs.take(i as int), typer@),
                items@ == country_entries(vs.take(i as int), typer@),
            decreases zones.len() - i,
        {
            let z = &zones[i];
            proof {
                assert(vs.take(i + 1) =~= vs.take(i as int).push(z@));
                vs.take(i as int).lemma_filter_push(z@, pred);
            }
            let ghost before = countries@;
            let ghost items_before = items@;
            let mut keep = false;
            match (&z.footprint, &z.country_code) {
                (Some(f), Some(code)) => {
                    let typed_country = match z.zone_type {
                        Some(ZoneType::Country) => true,
                        _ => false,
                    };
                    let top_level = match z.admin_level {
                        Some(l) => l == 2,
                        None => false,
                    };
                    let by_rules = match typer.get_zone_type(z, code, &no_zone, zones) {
                        Ok(ZoneType::Country) => true,
                        _ => false,
                    };
                    if typed_country || top_level || by_rules {
                        keep = true;
                        countries.push(Country { zone: z.id, code: code.clone() });
                        items.push(IndexEntry { bbox: f.bbox, payload: z.id.index });
                    }
                },
                _ => {},
            }
            proof {
                assert(keep == is_country(z@, typer@));
                let kept = vs.take(i as int).filter(pred);
                if keep {
                    assert(vs.take(i + 1).filter(pred) == kept.push(z@));
                    assert(countries@ == before.push(countries@[before.len() as int]));
                    assert(country_views(countries@) =~= country_views(before).push(
                        CountryView { zone: z@.id, code: z@.country_code.unwrap() },
                    ));
                    assert(country_views(countries@) =~= countries_among(vs.take(i + 1), typer@));
                    assert(items@ =~= country_entries(vs.take(i + 1), typer@));
                } else {
                    assert(vs.take(i + 1).filter(pred) == kept);
                }
            }
            i += 1;
        }
        proof {
            assert(vs.take(zones.len() as int) =~= vs);
        }
        let tree = GeometryIndex::new(&items);
        CountryFinder { countries, tree, around_center }
    }

    /// Whether the finder knows no country at all.
    pub fn is_empty(&self) -> (r: bool)
        ensures
            r == (self@.countries.len() == 0),
    {
        self.countries.len() == 0
    }

    /// The code of the first country that stands on the zone at `zone`.
    fn code_of(&self, zone: usize) -> (r: Option<&String>)
        ensures
            match r {
                Some(c) => code_of_from(self@.countries, zone, 0) == Some(c@),
                None => code_of_from(self@.countries, zone, 0) is None,
            },
    {
        let mut i: usize = 0;
        while i < self.countries.len()
            invariant
                i <= self.countries.len(),
                code_of_from(self@.countries, zone, 0) == code_of_from(
                    self@.countries,
                    zone,
                    i as int,
                ),
            decreases self.countries.len() - i,
        {
            if self.countries[i].zone.index == zone {
                return Some(&self.countries[i].code);
            }
            i += 1;
        }
        None
    }

    /// The country of `zone`, which `inclusions` enclose, tightest first.
    pub fn find_zone_country(&self, zone: &Zone, inclusions: &Vec<ZoneIndex>) -> (r: Option<String>)
        ensures
            text_of(r) == zone_country(self@, zone@, inclusions@),
    {
        let mut i: usize = 0;
        while i < inclusions.len()
            invariant
                i <= inclusions.len(),
                first_country_from(self@.countries, inclusions@, 0) == first_country_from(
                    self@.countries,
                    inclusions@,
                    i as int,
                ),
            decreases inclusions.len() - i,
        {
            match self.code_of(inclusions[i].index) {
                Some(c) => {
                    return Some(c.clone());
                },
                None => {},
            }
            i += 1;
        }
        let center = match zone.footprint {
            Some(f) => f.center,
            None => {
                return None;
            },
        };
        let candidates = self.tree.locate(center);
        let no_zone: Vec<ZoneIndex> = Vec::new();
        let around: &Vec<ZoneIndex> = if zone.id.index < self.around_center.len() {
            &self.around_center[zone.id.index]
        } else {
            &no_zone
        };
        assert(around@ == row_of(self@.around_center, zone@.id));
        let mut k: usize = 0;
        while k < candidates.len()
            invariant
                k <= candidates.len(),
                first_country_from(self@.countries, inclusions@, 0) is None,
                zone.footprint is Some,
                candidates@ == payloads(self@.boxes.filter(entry_holds(zone.footprint.unwrap().center))),
                around@ == row_of(self@.around_center, zone@.id),
                first_covering_from(self@.countries, candidates@, around@, 0)
                    == first_covering_from(self@.countries, candidates@, around@, k as int),
            decreases candidates.len() - k,
        {
            if holds_index(around, candidates[k]) {
                match self.code_of(candidates[k]) {
                    Some(c) => {
                        return Some(c.clone());
                    },
                    None => {},
                }
            }
            k += 1;
        }
        None
    }
}

/// Finding the country of a zone reads its identity and its boundary, and
/// nothing that typing writes: asked again for the same zone and the same
/// enclosing zones, before or after the zone has got its country and its
/// type, the finder gives the same country.
pub proof fn lemma_country_is_settled(
    finder: CountryFinderView,
    before: ZoneView,
    after: ZoneView,
    inclusions: Seq<ZoneIndex>,
)
    requires
        after.id == before.id,
        after.footprint == before.footprint,
    ensures
        zone_country(finder, after, inclusions) == zone_country(finder, before, inclusions),
{
}

} // verus!
