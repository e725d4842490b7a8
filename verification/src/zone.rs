//! The zones of the ontology and their mathematical views.

use vstd::prelude::*;

verus! {

/// What a zone is, from the most local kind to the widest.
#[derive(Clone, Copy, Debug, PartialEq, Eq, Structural)]
pub enum ZoneType {
    Suburb,
    CityDistrict,
    City,
    StateDistrict,
    State,
    CountryRegion,
    Country,
    NonAdministrative,
}

/// The position of a zone in the collection that holds it.
#[derive(Clone, Copy, Debug, PartialEq, Eq, Structural)]
pub struct ZoneIndex {
    pub index: usize,
}

/// A position, in units of 1e-7 degree.
#[derive(Clone, Copy, Debug, PartialEq, Eq, Structural)]
pub struct Coord {
    pub lon: i32,
    pub lat: i32,
}

/// An axis-aligned box; `min` is its lower left corner, `max` its upper right.
#[derive(Clone, Copy, Debug, PartialEq, Eq, Structural)]
pub struct BoundingBox {
    pub min: Coord,
    pub max: Coord,
}

/// What the ontology reads of a zone's boundary: the box around it, its
/// representative point and the surface it covers.
#[derive(Clone, Copy, Debug, PartialEq, Eq, Structural)]
pub struct Footprint {
    pub bbox: BoundingBox,
    pub center: Coord,
    pub area: u64,
}

/// A text in one language.
#[derive(Debug)]
pub struct LocalizedText {
    pub lang: String,
    pub text: String,
}

/// One zone of the ontology.
#[derive(Debug)]
pub struct Zone {
    pub id: ZoneIndex,
    pub osm_id: String,
    pub admin_level: Option<u32>,
    pub zone_type: Option<ZoneType>,
    pub name: String,
    pub label: String,
    pub international_labels: Vec<LocalizedText>,
    pub international_names: Vec<LocalizedText>,
    pub footprint: Option<Footprint>,
    pub parent: Option<ZoneIndex>,
    pub is_generated: bool,
    pub country_code: Option<String>,
}

/// The mathematical value of a [`Zone`].
pub struct ZoneView {
    pub id: usize,
    pub osm_id: Seq<char>,
    pub admin_level: Option<u32>,
    pub zone_type: Option<ZoneType>,
    pub name: Seq<char>,
    pub label: Seq<char>,
    pub international_labels: Seq<(Seq<char>, Seq<char>)>,
    pub international_names: Seq<(Seq<char>, Seq<char>)>,
    pub footprint: Option<Footprint>,
    pub parent: Option<usize>,
    pub is_generated: bool,
    pub country_code: Option<Seq<char>>,
}

impl View for LocalizedText {
    type V = (Seq<char>, Seq<char>);

    open spec fn view(&self) -> (Seq<char>, Seq<char>) {
        (self.lang@, self.text@)
    }
}

/// The characters of an optional text.
pub open spec fn text_of(t: Option<String>) -> Option<Seq<char>> {
    match t {
        Some(s) => Some(s@),
        None => None,
    }
}

/// The position that an optional zone index holds.
pub open spec fn index_of(i: Option<ZoneIndex>) -> Option<usize> {
    match i {
        Some(z) => Some(z.index),
        None => None,
    }
}

/// The views of a list of texts, in order.
pub open spec fn texts_of(l: Seq<LocalizedText>) -> Seq<(Seq<char>, Seq<char>)> {
    Seq::new(l.len(), |i: int| l[i]@)
}

impl View for Zone {
    type V = ZoneView;

    open spec fn view(&self) -> ZoneView {
        ZoneView {
            id: self.id.index,
            osm_id: self.osm_id@,
            admin_level: self.admin_level,
            zone_type: self.zone_type,
            name: self.name@,
            label: self.label@,
            international_labels: texts_of(self.international_labels@),
            international_names: texts_of(self.international_names@),
            footprint: self.footprint,
            parent: index_of(self.parent),
            is_generated: self.is_generated,
            country_code: text_of(self.country_code),
        }
    }
}

/// The views of a collection of zones, in order.
pub open spec fn views(zones: Seq<Zone>) -> Seq<ZoneView> {
    Seq::new(zones.len(), |i: int| zones[i]@)
}

impl ZoneView {
    /// An administrative zone has a type, and that type is not
    /// `NonAdministrative`.
    pub open spec fn is_admin(self) -> bool {
        self.zone_type is Some && self.zone_type != Some(ZoneType::NonAdministrative)
    }
}

impl Zone {
    /// Whether the zone is typed as an administrative one.
    pub fn is_admin(&self) -> (r: bool)
        ensures
            r == self@.is_admin(),
    {
        match self.zone_type {
            Some(t) => t != ZoneType::NonAdministrative,
            None => false,
        }
    }

    /// Sets the zone's parent and leaves the rest of it as it was.
    pub fn set_parent(&mut self, idx: Option<ZoneIndex>)
        ensures
            final(self)@ == (ZoneView { parent: index_of(idx), ..old(self)@ }),
    {
        self.parent = idx;
    }
}

/// A copy of a list of texts.
pub fn clone_texts(texts: &Vec<LocalizedText>) -> (r: Vec<LocalizedText>)
    ensures
        texts_of(r@) == texts_of(texts@),
{
    let mut copy: Vec<LocalizedText> = Vec::new();
    let mut i: usize = 0;
    while i < texts.len()
        invariant
            i <= texts.len(),
            copy.len() == i,
            forall|j: int| 0 <= j < i ==> (#[trigger] copy@[j])@ == texts@[j]@,
        decreases texts.len() - i,
    {
        copy.push(LocalizedText { lang: texts[i].lang.clone(), text: texts[i].text.clone() });
        i += 1;
    }
    proof {
        assert(texts_of(copy@) =~= texts_of(texts@));
    }
    copy
}

/// Every zone's identity is its position in the collection.
pub open spec fn well_indexed(zones: Seq<ZoneView>) -> bool {
    forall|i: int| 0 <= i < zones.len() ==> (#[trigger] zones[i]).id == i
}

/// The lines of a table of zone indices, as sequences.
pub open spec fn rows(table: Seq<Vec<ZoneIndex>>) -> Seq<Seq<ZoneIndex>> {
    Seq::new(table.len(), |i: int| table[i]@)
}

/// What was measured on the boundaries themselves, zone by zone.
/// `enclosing[i]` names the zones whose boundary covers the boundary of
/// zone `i`, and `around_center[i]` those whose boundary covers its
/// representative point. A zone for which a table has no line is covered
/// by none.
#[derive(Debug)]
pub struct Coverage {
    pub enclosing: Vec<Vec<ZoneIndex>>,
    pub around_center: Vec<Vec<ZoneIndex>>,
}

impl Zone {
    /// A copy of the zone.
    pub fn duplicate(&self) -> (r: Zone)
        ensures
            r@ == self@,
    {
        Zone {
            id: self.id,
            osm_id: self.osm_id.clone(),
            admin_level: self.admin_level,
            zone_type: self.zone_type,
            name: self.name.clone(),
            label: self.label.clone(),
            international_labels: clone_texts(&self.international_labels),
            international_names: clone_texts(&self.international_names),
            footprint: self.footprint,
            parent: self.parent,
            is_generated: self.is_generated,
            country_code: match &self.country_code {
                Some(c) => Some(c.clone()),
                None => None,
            },
        }
    }
}

} // verus!
