//! Typing of a whole collection of zones: the outcome of every zone is worked
//! out first, from the zones as they stand, and the outcomes are then
//! written to the zones and counted, one after the other.

use crate::country_finder::{finder_of, zone_country, CountryFinder, CountryFinderView};
use crate::stats::CosmogonyStats;
use crate::zone::{rows, text_of, views, Zone, ZoneIndex, ZoneType, ZoneView};
use crate::zone_typer::{typing_of, CountryRulesView, TypingFailure, ZoneTyper, ZoneTyperError};
use rayon::iter::{IntoParallelRefIterator, ParallelIterator};
use vstd::prelude::*;

verus! {

/// What typing found for one zone: no country (`None`), a country and a
/// type, or a country and the reason why its rules gave no type.
pub type Outcome = Option<Result<(String, ZoneType), ZoneTyperError>>;

/// The mathematical value of an [`Outcome`].
pub type OutcomeView = Option<Result<(Seq<char>, ZoneType), TypingFailure>>;

/// The view of an outcome.
pub open spec fn outcome_view(o: Outcome) -> OutcomeView {
    match o {
        None => None,
        Some(Ok((c, t))) => Some(Ok((c@, t))),
        Some(Err(e)) => Some(Err(e@)),
    }
}

/// The views of a list of outcomes, in order.
pub open spec fn outcome_views(outcomes: Seq<Outcome>) -> Seq<OutcomeView> {
    Seq::new(outcomes.len(), |i: int| outcome_view(outcomes[i]))
}

/// The upper-case form of a text.
pub uninterp spec fn uppercase(s: Seq<char>) -> Seq<char>;

/// `str::to_uppercase` of the standard library: the result is the
/// upper-case form of the text, a function of the text alone.
#[verifier::external_body]
fn to_uppercase(s: &String) -> (r: String)
    ensures
        r@ == uppercase(s@),
{
    s.to_uppercase()
}

/// The country of a zone: the one given for the whole run, in upper case,
/// or else the one that the finder finds.
pub open spec fn country_code_of(
    finder: CountryFinderView,
    zone: ZoneView,
    country_code: Option<Seq<char>>,
    inclusions: Seq<ZoneIndex>,
) -> Option<Seq<char>> {
    match country_code {
        Some(c) => Some(uppercase(c)),
        None => zone_country(finder, zone, inclusions),
    }
}

/// The outcome of typing one zone.
pub open spec fn outcome_of(
    finder: CountryFinderView,
    tables: Seq<CountryRulesView>,
    zone: ZoneView,
    country_code: Option<Seq<char>>,
    inclusions: Seq<ZoneIndex>,
) -> OutcomeView {
    match country_code_of(finder, zone, country_code, inclusions) {
        None => None,
        Some(c) => Some(
            match typing_of(tables, c, zone.admin_level) {
                Ok(t) => Ok((c, t)),
                Err(e) => Err(e),
            },
        ),
    }
}

/// The outcomes of all the zones, each from the line of `inclusions` that
/// its identity names.
pub open spec fn outcomes_of(
    finder: CountryFinderView,
    tables: Seq<CountryRulesView>,
    zones: Seq<ZoneView>,
    country_code: Option<Seq<char>>,
    inclusions: Seq<Seq<ZoneIndex>>,
) -> Seq<OutcomeView> {
    Seq::new(
        zones.len(),
        |i: int| outcome_of(finder, tables, zones[i], country_code, inclusions[zones[i].id as int]),
    )
}

/// A zone once its outcome is written to it. A zone without a country is
/// left as it was; any other gets its country, and its type where it has
/// one.
pub open spec fn merged(z: ZoneView, o: OutcomeView) -> ZoneView {
    match o {
        None => z,
        Some(Ok((c, t))) => ZoneView { country_code: Some(c), zone_type: Some(t), ..z },
        Some(Err(TypingFailure::InvalidCountry(c))) => ZoneView { country_code: Some(c), ..z },
        Some(Err(TypingFailure::UnkownLevel(_, c))) => ZoneView { country_code: Some(c), ..z },
    }
}

/// The zone found no country.
pub open spec fn without_country() -> spec_fn(OutcomeView) -> bool {
    |o: OutcomeView| o is None
}

/// The zone was typed.
pub open spec fn typed() -> spec_fn(OutcomeView) -> bool {
    |o: OutcomeView| o matches Some(Ok(_))
}

/// The zone has a country, and its rules gave no type.
pub open spec fn unmapped() -> spec_fn(OutcomeView) -> bool {
    |o: OutcomeView| o matches Some(Err(_))
}

/// The zone is of `country`, for which there are no rules.
pub open spec fn without_rules(country: Seq<char>) -> spec_fn(OutcomeView) -> bool {
    |o: OutcomeView| o == Some(Err::<(Seq<char>, ZoneType), _>(TypingFailure::InvalidCountry(country)))
}

/// The level under which a zone without a line in its country's table is
/// counted: its own, or 0 where it has none.
pub open spec fn counted_level(level: Option<u32>) -> u32 {
    match level {
        Some(l) => l,
        None => 0,
    }
}

/// The zone is of `country`, whose rules have no line for `level`.
pub open spec fn without_level(country: Seq<char>, level: u32) -> spec_fn(OutcomeView) -> bool {
    |o: OutcomeView|
        match o {
            Some(Err(TypingFailure::UnkownLevel(l, c))) => c == country && counted_level(l) == level,
            _ => false,
        }
}

/// How many of `outcomes` meet `p`.
pub open spec fn count(outcomes: Seq<OutcomeView>, p: spec_fn(OutcomeView) -> bool) -> nat
    decreases outcomes.len(),
{
    if outcomes.len() == 0 {
        0
    } else {
        count(outcomes.drop_last(), p) + if p(outcomes.last()) {
            1nat
        } else {
            0nat
        }
    }
}

/// Every zone that enters typing is counted once: as one without a
/// country, as a typed one, or as one for which the rules had no answer.
/// The latter are those of a country without rules and those of a level
/// without a line.
pub proof fn lemma_outcomes_conserved(outcomes: Seq<OutcomeView>)
    ensures
        count(outcomes, without_country()) + count(outcomes, typed()) + count(outcomes, unmapped())
            == outcomes.len(),
    decreases outcomes.len(),
{
    if outcomes.len() > 0 {
        lemma_outcomes_conserved(outcomes.drop_last());
    }
}

/// The country of `zone`: the one given for the whole run, in upper case,
/// or else the one that the finder finds.
pub fn get_country_code(
    country_finder: &CountryFinder,
    zone: &Zone,
    country_code: &Option<String>,
    inclusions: &Vec<ZoneIndex>,
) -> (r: Option<String>)
    ensures
        text_of(r) == country_code_of(country_finder@, zone@, text_of(*country_code), inclusions@),
{
    match country_code {
        Some(c) => Some(to_uppercase(c)),
        None => country_finder.find_zone_country(zone, inclusions),
    }
}

/// The outcome of typing `zone`, from the zones as they stand.
pub fn zone_outcome(
    country_finder: &CountryFinder,
    zone_typer: &ZoneTyper,
    zone: &Zone,
    country_code: &Option<String>,
    inclusions: &Vec<Vec<ZoneIndex>>,
    zones: &Vec<Zone>,
) -> (r: Outcome)
    requires
        zone.id.index < inclusions.len(),
    ensures
        outcome_view(r) == outcome_of(
            country_finder@,
            zone_typer@,
            zone@,
            text_of(*country_code),
            inclusions[zone.id.index as int]@,
        ),
{
    let around = &inclusions[zone.id.index];
    match get_country_code(country_finder, zone, country_code, around) {
        None => None,
        Some(c) => match zone_typer.get_zone_type(zone, &c, around, zones) {
            Ok(t) => Some(Ok((c, t))),
            Err(e) => Some(Err(e)),
        },
    }
}

/// `par_iter`, `map` and `collect` of rayon: the outcome of every zone, in
/// the order of the zones. Each outcome is what `zone_outcome` gives for
/// that zone; rayon decides only on which thread it is worked out.
#[verifier::external_body]
fn par_zone_outcomes(
    country_finder: &CountryFinder,
    zone_typer: &ZoneTyper,
    zones: &Vec<Zone>,
    country_code: &Option<String>,
    inclusions: &Vec<Vec<ZoneIndex>>,
) -> (r: Vec<Outcome>)
    requires
        forall|i: int| 0 <= i < zones.len() ==> (#[trigger] zones[i]).id.index < inclusions.len(),
    ensures
        outcome_views(r@) == outcomes_of(
            country_finder@,
            zone_typer@,
            views(zones@),
            text_of(*country_code),
            rows(inclusions@),
        ),
{
    zones.par_iter().map(
        |z| zone_outcome(country_finder, zone_typer, z, country_code, inclusions, zones),
    ).collect()
}

/// Why no ontology can be built.
#[derive(Clone, Copy, Debug, PartialEq, Eq, Structural)]
pub enum OntologyError {
    /// No country was given for the run and no zone stands for a country,
    /// so that no zone can be typed.
    NoCountry,
}

/// Writes each outcome to its zone and counts it: a zone without a country
/// under `zone_without_country`, one of a country without rules under that
/// country, one of a level without a line under its country and that level.
pub fn apply_outcomes(zones: &mut Vec<Zone>, stats: &mut CosmogonyStats, outcomes: &Vec<Outcome>)
    requires
        outcomes.len() == old(zones).len(),
        old(stats).counted() + old(zones).len() <= usize::MAX,
    ensures
        views(final(zones)@) == Seq::new(
            old(zones)@.len(),
            |i: int| merged(old(zones)@[i]@, outcome_view(outcomes@[i])),
        ),
        final(stats).zone_without_country == old(stats).zone_without_country + count(
            outcome_views(outcomes@),
            without_country(),
        ),
        forall|c: Seq<char>|
            (#[trigger] final(stats).unknown_country(c)) == old(stats).unknown_country(c) + count(
                outcome_views(outcomes@),
                without_rules(c),
            ),
        forall|c: Seq<char>, l: u32|
            (#[trigger] final(stats).unhandled_level(c, l)) ==
                old(stats).unhandled_level(c, l) + count(
                outcome_views(outcomes@),
                without_level(c, l),
            ),
        final(stats).unmapped() == old(stats).unmapped() + count(
            outcome_views(outcomes@),
            unmapped(),
        ),
{
    let ghost outs = outcome_views(outcomes@);
    let n = zones.len();
    let mut i: usize = 0;
    proof {
        assert(outs.take(0) =~= Seq::<OutcomeView>::empty());
    }
    while i < n
        invariant
            i <= n,
            n == zones.len(),
            n == old(zones).len(),
            n == outcomes.len(),
            outs == outcome_views(outcomes@),
            old(stats).counted() + n <= usize::MAX,
            forall|j: int| 0 <= j < i ==> (#[trigger] zones@[j])@ == merged(old(zones)@[j]@, outs[j]),
            forall|j: int| i <= j < n ==> #[trigger] zones@[j] == old(zones)@[j],
            stats.zone_without_country == old(stats).zone_without_country + count(
                outs.take(i as int),
                without_country(),
            ),
            forall|c: Seq<char>|
                (#[trigger] stats.unknown_country(c)) == old(stats).unknown_country(c) + count(
                    outs.take(i as int),
                    without_rules(c),
                ),
            forall|c: Seq<char>, l: u32|
                (#[trigger] stats.unhandled_level(c, l)) ==
                    old(stats).unhandled_level(c, l) + count(
                    outs.take(i as int),
                    without_level(c, l),
                ),
            stats.unmapped() == old(stats).unmapped() + count(outs.take(i as int), unmapped()),
            count(outs.take(i as int), without_country()) + count(outs.take(i as int), unmapped())
                <= i,
        decreases n - i,
    {
        proof {
            assert(outs.take(i + 1).drop_last() =~= outs.take(i as int));
            assert(outs.take(i + 1).last() == outs[i as int]);
            assert forall|c: Seq<char>| #[trigger]
                count(outs.take(i + 1), without_rules(c)) == count(
                    outs.take(i as int),
                    without_rules(c),
                ) + if without_rules(c)(outs[i as int]) {
                    1nat
                } else {
                    0nat
                } by {}
            assert forall|c: Seq<char>, l: u32| #[trigger]
                count(outs.take(i + 1), without_level(c, l)) == count(
                    outs.take(i as int),
                    without_level(c, l),
                ) + if without_level(c, l)(outs[i as int]) {
                    1nat
                } else {
                    0nat
                } by {}
        }
        let ghost prev = *stats;
        match &outcomes[i] {
            None => {
                stats.add_zone_without_country();
            },
            Some(Ok((c, t))) => {
                zones[i].country_code = Some(c.clone());
                zones[i].zone_type = Some(*t);
            },
            Some(Err(ZoneTyperError::InvalidCountry(c))) => {
                zones[i].country_code = Some(c.clone());
                stats.add_unknown_country(c.clone());
            },
            Some(Err(ZoneTyperError::UnkownLevel(lvl, country))) => {
                zones[i].country_code = Some(country.clone());
                let level = match lvl {
                    Some(l) => *l,
                    None => 0,
                };
                stats.add_unhandled_level(country.clone(), level);
            },
        }
        proof {
            assert forall|c: Seq<char>|
                (#[trigger] stats.unknown_country(c)) == old(stats).unknown_country(c) + count(
                    outs.take(i + 1),
                    without_rules(c),
                ) by {
                assert(prev.unknown_country(c) == old(stats).unknown_country(c) + count(
                    outs.take(i as int),
                    without_rules(c),
                ));
            }
            assert forall|c: Seq<char>, l: u32|
                (#[trigger] stats.unhandled_level(c, l)) == old(stats).unhandled_level(c, l)
                    + count(outs.take(i + 1), without_level(c, l)) by {
                assert(prev.unhandled_level(c, l) == old(stats).unhandled_level(c, l) + count(
                    outs.take(i as int),
                    without_level(c, l),
                ));
            }
        }
        i += 1;
    }
    proof {
        assert(outs.take(n as int) =~= outs);
        assert(views(zones@) =~= Seq::new(
            old(zones)@.len(),
            |i: int| merged(old(zones)@[i]@, outcome_view(outcomes@[i])),
        ));
    }
}

/// Types every zone. The outcomes are all worked out from the zones as they
/// are handed in, and only then written to them.
///
/// Fails, and changes nothing, where no country is given for the run and no
/// zone stands for a country.
pub fn type_zones(
    zones: &mut Vec<Zone>,
    stats: &mut CosmogonyStats,
    country_code: Option<String>,
    inclusions: &Vec<Vec<ZoneIndex>>,
    zone_typer: &ZoneTyper,
    around_center: &Vec<Vec<ZoneIndex>>,
) -> (r: Result<(), OntologyError>)
    requires
        forall|i: int|
            0 <= i < old(zones).len() ==> (#[trigger] old(zones)[i]).id.index < inclusions.len(),
        old(stats).counted() + old(zones).len() <= usize::MAX,
    ensures
        r is Err <==> country_code is None && finder_of(
            views(old(zones)@),
            zone_typer@,
            rows(around_center@),
        ).countries.len() == 0,
        r is Err ==> *final(zones) == *old(zones) && *final(stats) == *old(stats),
        r is Ok ==> ({
            let outs = outcomes_of(
                finder_of(views(old(zones)@), zone_typer@, rows(around_center@)),
                zone_typer@,
                views(old(zones)@),
                text_of(country_code),
                rows(inclusions@),
            );
            &&& views(final(zones)@) == Seq::new(
                old(zones)@.len(),
                |i: int| merged(old(zones)@[i]@, outs[i]),
            )
            &&& final(stats).zone_without_country == old(stats).zone_without_country + count(
                outs,
                without_country(),
            )
            &&& forall|c: Seq<char>|
                (#[trigger] final(stats).unknown_country(c)) ==
                    old(stats).unknown_country(c) + count(
                    outs,
                    without_rules(c),
                )
            &&& forall|c: Seq<char>, l: u32|
                (#[trigger] final(stats).unhandled_level(c, l)) ==
                    old(stats).unhandled_level(c, l) + count(
                    outs,
                    without_level(c, l),
                )
            &&& final(stats).counted() + count(outs, typed()) == old(stats).counted() + old(
                zones,
            ).len()
        }),
{
    let country_finder = CountryFinder::init(zones, zone_typer, around_center);
    if country_code.is_none() && country_finder.is_empty() {
        return Err(OntologyError::NoCountry);
    }
    let outcomes = par_zone_outcomes(&country_finder, zone_typer, zones, &country_code, inclusions);
    proof {
        lemma_outcomes_conserved(outcome_views(outcomes@));
        assert(outcome_views(outcomes@).len() == zones.len());
    }
    apply_outcomes(zones, stats, &outcomes);
    proof {
        let outs = outcome_views(outcomes@);
        assert(views(zones@) =~= Seq::new(
            old(zones)@.len(),
            |i: int| merged(old(zones)@[i]@, outs[i]),
        ));
    }
    Ok(())
}

} // verus!
