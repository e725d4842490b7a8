//! The objects of an OpenStreetMap extract, as far as the ontology reads
//! them: what kind of object each is and which tags it carries.

use crate::zone::ZoneType;
use vstd::prelude::*;
use vstd::string::StringExecFns;

verus! {

/// One tag of an object.
#[derive(Debug)]
pub struct Tag {
    pub key: String,
    pub value: String,
}

/// A point of the map.
#[derive(Debug)]
pub struct Node {
    pub id: i64,
    pub tags: Vec<Tag>,
    pub decimicro_lat: i32,
    pub decimicro_lon: i32,
}

/// A line of the map.
#[derive(Debug)]
pub struct Way {
    pub id: i64,
    pub tags: Vec<Tag>,
}

/// A group of objects of the map.
#[derive(Debug)]
pub struct Relation {
    pub id: i64,
    pub tags: Vec<Tag>,
}

/// An object of the map.
#[derive(Debug)]
pub enum OsmObj {
    Node(Node),
    Way(Way),
    Relation(Relation),
}

/// The value of the first tag of `tags` with the key `key`, looking from
/// position `from` on.
pub open spec fn value_from(tags: Seq<Tag>, key: Seq<char>, from: int) -> Option<Seq<char>>
    decreases tags.len() - from,
{
    if from < 0 || from >= tags.len() {
        None
    } else if tags[from].key@ == key {
        Some(tags[from].value@)
    } else {
        value_from(tags, key, from + 1)
    }
}

/// The kind of zone that a word names.
pub open spec fn zone_type_named(s: Seq<char>) -> Option<ZoneType> {
    if s == "suburb"@ || s == "quarter"@ || s == "neighbourhood"@ {
        Some(ZoneType::Suburb)
    } else if s == "city_district"@ {
        Some(ZoneType::CityDistrict)
    } else if s == "city"@ || s == "town"@ || s == "village"@ {
        Some(ZoneType::City)
    } else if s == "state_district"@ {
        Some(ZoneType::StateDistrict)
    } else if s == "state"@ {
        Some(ZoneType::State)
    } else if s == "country_region"@ {
        Some(ZoneType::CountryRegion)
    } else if s == "country"@ {
        Some(ZoneType::Country)
    } else if s == "non_administrative"@ {
        Some(ZoneType::NonAdministrative)
    } else {
        None
    }
}

/// `ZoneType::parse` of the crate cosmogony: the kind of zone that the
/// word names, among the words that the crate knows; `None` for any other
/// word.
#[verifier::external_body]
pub(crate) fn parse_zone_type(s: &str) -> (r: Option<ZoneType>)
    ensures
        r == zone_type_named(s@),
{
    match cosmogony::ZoneType::parse(s) {
        Some(cosmogony::ZoneType::Suburb) => Some(ZoneType::Suburb),
        Some(cosmogony::ZoneType::CityDistrict) => Some(ZoneType::CityDistrict),
        Some(cosmogony::ZoneType::City) => Some(ZoneType::City),
        Some(cosmogony::ZoneType::StateDistrict) => Some(ZoneType::StateDistrict),
        Some(cosmogony::ZoneType::State) => Some(ZoneType::State),
        Some(cosmogony::ZoneType::CountryRegion) => Some(ZoneType::CountryRegion),
        Some(cosmogony::ZoneType::Country) => Some(ZoneType::Country),
        Some(cosmogony::ZoneType::NonAdministrative) => Some(ZoneType::NonAdministrative),
        None => None,
    }
}

/// The value of the first tag of `tags` with the key `key`.
pub fn tag_value<'a>(tags: &'a Vec<Tag>, key: &str) -> (r: Option<&'a String>)
    ensures
        match r {
            Some(v) => value_from(tags@, key@, 0) == Some(v@),
            None => value_from(tags@, key@, 0) is None,
        },
{
    let wanted = String::from_str(key);
    let mut i: usize = 0;
    while i < tags.len()
        invariant
            i <= tags.len(),
            wanted@ == key@,
            value_from(tags@, key@, 0) == value_from(tags@, key@, i as int),
        decreases tags.len() - i,
    {
        if tags[i].key == wanted {
            return Some(&tags[i].value);
        }
        i += 1;
    }
    None
}

impl OsmObj {
    /// An administrative relation is a relation tagged as an administrative
    /// boundary that carries an administrative level.
    pub open spec fn is_admin_relation(&self) -> bool {
        match *self {
            OsmObj::Relation(rel) => value_from(rel.tags@, "boundary"@, 0) == Some(
                "administrative"@,
            ) && value_from(rel.tags@, "admin_level"@, 0) is Some,
            _ => false,
        }
    }

    /// A place is a node whose `place` tag names a city or a suburb.
    pub open spec fn is_place_node(&self) -> bool {
        match *self {
            OsmObj::Node(node) => match value_from(node.tags@, "place"@, 0) {
                Some(v) => zone_type_named(v) == Some(ZoneType::City) || zone_type_named(v) == Some(
                    ZoneType::Suburb,
                ),
                None => false,
            },
            _ => false,
        }
    }
}

} // verus!
