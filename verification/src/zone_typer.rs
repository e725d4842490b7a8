//! Typing of zones from per-country tables of administrative levels.

use crate::zone::{Zone, ZoneIndex, ZoneType};
use vstd::prelude::*;

verus! {

/// One line of a country's table: zones of this administrative level are of
/// this type.
#[derive(Clone, Copy, Debug, PartialEq, Eq, Structural)]
pub struct LevelRule {
    pub level: u32,
    pub zone_type: ZoneType,
}

/// The table of one country.
#[derive(Debug)]
pub struct CountryRules {
    pub country_code: String,
    pub levels: Vec<LevelRule>,
}

/// The mathematical value of a [`CountryRules`].
pub struct CountryRulesView {
    pub country_code: Seq<char>,
    pub levels: Seq<LevelRule>,
}

impl View for CountryRules {
    type V = CountryRulesView;

    open spec fn view(&self) -> CountryRulesView {
        CountryRulesView { country_code: self.country_code@, levels: self.levels@ }
    }
}

/// Why a zone could not be typed.
#[derive(Debug)]
pub enum ZoneTyperError {
    /// No table is known for this country.
    InvalidCountry(String),
    /// The country's table has no line for this level.
    UnkownLevel(Option<u32>, String),
}

/// The mathematical value of a [`ZoneTyperError`].
pub enum TypingFailure {
    InvalidCountry(Seq<char>),
    UnkownLevel(Option<u32>, Seq<char>),
}

impl View for ZoneTyperError {
    type V = TypingFailure;

    open spec fn view(&self) -> TypingFailure {
        match *self {
            ZoneTyperError::InvalidCountry(c) => TypingFailure::InvalidCountry(c@),
            ZoneTyperError::UnkownLevel(l, c) => TypingFailure::UnkownLevel(l, c@),
        }
    }
}

/// The type that the first line for `level` gives, looking from position
/// `from` on.
pub open spec fn level_type_from(levels: Seq<LevelRule>, level: u32, from: int) -> Option<ZoneType>
    decreases levels.len() - from,
{
    if from < 0 || from >= levels.len() {
        None
    } else if levels[from].level == level {
        Some(levels[from].zone_type)
    } else {
        level_type_from(levels, level, from + 1)
    }
}

/// The lines of the first table for `country`, looking from position `from`
/// on.
pub open spec fn country_levels_from(
    tables: Seq<CountryRulesView>,
    country: Seq<char>,
    from: int,
) -> Option<Seq<LevelRule>>
    decreases tables.len() - from,
{
    if from < 0 || from >= tables.len() {
        None
    } else if tables[from].country_code == country {
        Some(tables[from].levels)
    } else {
        country_levels_from(tables, country, from + 1)
    }
}

/// What the tables say of a zone of `country` at `level`: its type, or the
/// reason why there is none.
pub open spec fn typing_of(
    tables: Seq<CountryRulesView>,
    country: Seq<char>,
    level: Option<u32>,
) -> Result<ZoneType, TypingFailure> {
    match country_levels_from(tables, country, 0) {
        None => Err(TypingFailure::InvalidCountry(country)),
        Some(levels) => match level {
            None => Err(TypingFailure::UnkownLevel(None, country)),
            Some(l) => match level_type_from(levels, l, 0) {
                Some(t) => Ok(t),
                None => Err(TypingFailure::UnkownLevel(Some(l), country)),
            },
        },
    }
}

/// The view of a typing result.
pub open spec fn typing_view(r: Result<ZoneType, ZoneTyperError>) -> Result<ZoneType, TypingFailure> {
    match r {
        Ok(t) => Ok(t),
        Err(e) => Err(e@),
    }
}

/// The tables of every country that can be typed.
#[derive(Debug)]
pub struct ZoneTyper {
    pub countries: Vec<CountryRules>,
}

impl View for ZoneTyper {
    type V = Seq<CountryRulesView>;

    open spec fn view(&self) -> Seq<CountryRulesView> {
        Seq::new(self.countries@.len(), |i: int| self.countries@[i]@)
    }
}

/// The type of the first line for `level` in `levels`.
fn find_level(levels: &Vec<LevelRule>, level: u32) -> (r: Option<ZoneType>)
    ensures
        r == level_type_from(levels@, level, 0),
{
    let mut i: usize = 0;
    while i < levels.len()
        invariant
            i <= levels.len(),
            level_type_from(levels@, level, 0) == level_type_from(levels@, level, i as int),
        decreases levels.len() - i,
    {
        if levels[i].level == level {
            return Some(levels[i].zone_type);
        }
        i += 1;
    }
    None
}

impl ZoneTyper {
    /// A typer over the given tables. Where two tables name one country, the
    /// first is the one that counts.
    pub fn new(countries: Vec<CountryRules>) -> (r: ZoneTyper)
        ensures
            r.countries == countries,
    {
        ZoneTyper { countries }
    }

    /// The position of the first table for `country_code`.
    fn find_country(&self, country_code: &String) -> (r: Option<usize>)
        ensures
            match r {
                Some(i) => i < self.countries.len() && country_levels_from(
                    self@,
                    country_code@,
                    0,
                ) == Some(self.countries[i as int].levels@),
                None => country_levels_from(self@, country_code@, 0) is None,
            },
    {
        let mut i: usize = 0;
        while i < self.countries.len()
            invariant
                i <= self.countries.len(),
                country_levels_from(self@, country_code@, 0) == country_levels_from(
                    self@,
                    country_code@,
                    i as int,
                ),
            decreases self.countries.len() - i,
        {
            if self.countries[i].country_code == *country_code {
                return Some(i);
            }
            i += 1;
        }
        None
    }

    /// Types `zone` as a zone of `country_code`. The answer is read from the
    /// country's table at the zone's administrative level, and from nothing
    /// else: neither the zones around it nor the other zones weigh in.
    pub fn get_zone_type(
        &self,
        zone: &Zone,
        country_code: &String,
        inclusions: &Vec<ZoneIndex>,
        all_zones: &Vec<Zone>,
    ) -> (r: Result<ZoneType, ZoneTyperError>)
        ensures
            typing_view(r) == typing_of(self@, country_code@, zone.admin_level),
    {
        match self.find_country(country_code) {
            None => Err(ZoneTyperError::InvalidCountry(country_code.clone())),
            Some(i) => match zone.admin_level {
                None => Err(ZoneTyperError::UnkownLevel(None, country_code.clone())),
                Some(level) => match find_level(&self.countries[i].levels, level) {
                    Some(t) => Ok(t),
                    None => Err(ZoneTyperError::UnkownLevel(Some(level), country_code.clone())),
                },
            },
        }
    }
}

} // verus!
