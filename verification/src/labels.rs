//! The label of a zone: its name, followed by the names of the zones above
//! it, in one language.

use crate::hierarchy_builder::{area_of, can_be_parent, climbing};
use crate::zone::{views, LocalizedText, Zone, ZoneView};
use vstd::prelude::*;
use vstd::string::StringExecFns;

verus! {

/// What stands between two names of a label.
pub open spec fn separator() -> Seq<char> {
    seq![',', ' ']
}

/// The first text of `names` in `lang`, looking from position `from` on.
pub open spec fn text_in_from(names: Seq<(Seq<char>, Seq<char>)>, lang: Seq<char>, from: int) -> Option<
    Seq<char>,
>
    decreases names.len() - from,
{
    if from < 0 || from >= names.len() {
        None
    } else if names[from].0 == lang {
        Some(names[from].1)
    } else {
        text_in_from(names, lang, from + 1)
    }
}

/// The name of a zone in `lang`: the one that its table of names has for
/// that language, or else its own name. Without a language it is its own
/// name.
pub open spec fn name_in(z: ZoneView, lang: Option<Seq<char>>) -> Seq<char> {
    match lang {
        None => z.name,
        Some(l) => match text_in_from(z.international_names, l, 0) {
            Some(t) => t,
            None => z.name,
        },
    }
}

/// The end of a label, from the zone `cur` upwards: the names of `cur` and
/// of the zones above it, each after a separator. A name that repeats the
/// one before it is left out. At most `fuel` zones are visited.
pub open spec fn label_tail(
    zones: Seq<ZoneView>,
    cur: Option<usize>,
    lang: Option<Seq<char>>,
    fuel: nat,
    previous: Seq<char>,
) -> Seq<char>
    decreases fuel,
{
    match cur {
        None => Seq::empty(),
        Some(c) => if fuel == 0 || c >= zones.len() {
            Seq::empty()
        } else {
            let own = name_in(zones[c as int], lang);
            let rest = label_tail(zones, zones[c as int].parent, lang, (fuel - 1) as nat, own);
            if own == previous {
                rest
            } else {
                separator() + own + rest
            }
        },
    }
}

/// The label of zone `i` in `lang`: its name, then the names of the zones
/// above it, nearest first. No more zones are visited than there are.
pub open spec fn label_of(zones: Seq<ZoneView>, i: int, lang: Option<Seq<char>>) -> Seq<char> {
    if 0 <= i < zones.len() {
        let own = name_in(zones[i], lang);
        own + label_tail(zones, zones[i].parent, lang, (zones.len() - 1) as nat, own)
    } else {
        Seq::empty()
    }
}

/// The labels of zone `i` in each of `langs`, in their order.
pub open spec fn labels_in(zones: Seq<ZoneView>, i: int, langs: Seq<String>) -> Seq<
    (Seq<char>, Seq<char>),
> {
    Seq::new(langs.len(), |k: int| (langs[k]@, label_of(zones, i, Some(langs[k]@))))
}

/// A zone once it is labelled.
pub open spec fn labelled(zones: Seq<ZoneView>, i: int, langs: Seq<String>) -> ZoneView {
    ZoneView {
        label: label_of(zones, i, None),
        international_labels: labels_in(zones, i, langs),
        ..zones[i]
    }
}

/// The zones once they are all labelled.
pub open spec fn with_labels(zones: Seq<ZoneView>, langs: Seq<String>) -> Seq<ZoneView> {
    Seq::new(zones.len(), |i: int| labelled(zones, i, langs))
}

/// A label reads names, tables of names and parents, and nothing else: two
/// collections that agree on these give the same labels. So the labels do
/// not depend on the order in which the zones are labelled.
pub proof fn lemma_label_reads_names(
    a: Seq<ZoneView>,
    b: Seq<ZoneView>,
    cur: Option<usize>,
    lang: Option<Seq<char>>,
    fuel: nat,
    previous: Seq<char>,
)
    requires
        a.len() == b.len(),
        forall|i: int|
            0 <= i < a.len() ==> (#[trigger] a[i]).name == b[i].name && a[i].international_names
                == b[i].international_names && a[i].parent == b[i].parent,
    ensures
        label_tail(a, cur, lang, fuel, previous) == label_tail(b, cur, lang, fuel, previous),
    decreases fuel,
{
    match cur {
        None => {},
        Some(c) => if fuel > 0 && c < a.len() {
            assert(a[c as int].name == b[c as int].name);
            lemma_label_reads_names(
                a,
                b,
                a[c as int].parent,
                lang,
                (fuel - 1) as nat,
                name_in(a[c as int], lang),
            );
        },
    }
}

/// The name of `zone` in `lang`.
fn zone_name<'a>(zone: &'a Zone, lang: Option<&String>) -> (r: &'a String)
    ensures
        r@ == name_in(
            zone@,
            match lang {
                Some(l) => Some(l@),
                None => None,
            },
        ),
{
    match lang {
        None => &zone.name,
        Some(l) => {
            let names = &zone.international_names;
            let mut k: usize = 0;
            while k < names.len()
                invariant
                    k <= names.len(),
                    names == &zone.international_names,
                    lang == Some(l),
                    text_in_from(zone@.international_names, l@, 0) == text_in_from(
                        zone@.international_names,
                        l@,
                        k as int,
                    ),
                decreases names.len() - k,
            {
                assert(zone@.international_names[k as int] == names@[k as int]@);
                if names[k].lang == *l {
                    return &names[k].text;
                }
                k += 1;
            }
            &zone.name
        },
    }
}

/// The label of the zone at `i` in `lang`.
pub fn zone_label(zones: &Vec<Zone>, i: usize, lang: Option<&String>) -> (r: String)
    requires
        i < zones.len(),
    ensures
        r@ == label_of(
            views(zones@),
            i as int,
            match lang {
                Some(l) => Some(l@),
                None => None,
            },
        ),
{
    let ghost vs = views(zones@);
    let ghost lang_view: Option<Seq<char>> = match lang {
        Some(l) => Some(l@),
        None => None,
    };
    let n = zones.len();
    let mut previous: &String = zone_name(&zones[i], lang);
    let mut label = previous.clone();
    let mut cur = zones[i].parent;
    let mut fuel: usize = n - 1;
    proof {
        reveal_strlit(", ");
        assert(", "@ =~= separator());
    }
    loop
        invariant
            n == zones.len(),
            vs == views(zones@),
            fuel < n,
            ", "@ == separator(),
            lang_view == match lang {
                Some(l) => Some(l@),
                None => None,
            },
            label@ + label_tail(
                vs,
                crate::zone::index_of(cur),
                lang_view,
                fuel as nat,
                previous@,
            ) == label_of(vs, i as int, lang_view),
        ensures
            cur is None || fuel == 0 || cur.unwrap().index >= n,
        decreases fuel,
    {
        let c = match cur {
            Some(c) => c.index,
            None => {
                break ;
            },
        };
        if fuel == 0 || c >= n {
            break ;
        }
        let own = zone_name(&zones[c], lang);
        let ghost rest = label_tail(vs, vs[c as int].parent, lang_view, (fuel - 1) as nat, own@);
        if *own != *previous {
            let ghost before = label@;
            label.append(", ");
            label.append(own.as_str());
            proof {
                assert(label@ + rest =~= before + (separator() + own@ + rest));
            }
        }
        previous = own;
        cur = zones[c].parent;
        fuel -= 1;
    }
    proof {
        assert(label_tail(vs, crate::zone::index_of(cur), lang_view, fuel as nat, previous@)
            =~= Seq::<char>::empty());
        assert(label@ + Seq::<char>::empty() =~= label@);
    }
    label
}

/// The labels of the zone at `i` in each of `filter_langs`.
pub fn zone_labels(zones: &Vec<Zone>, i: usize, filter_langs: &Vec<String>) -> (r: Vec<LocalizedText>)
    requires
        i < zones.len(),
    ensures
        crate::zone::texts_of(r@) == labels_in(views(zones@), i as int, filter_langs@),
{
    let mut labels: Vec<LocalizedText> = Vec::new();
    let mut k: usize = 0;
    while k < filter_langs.len()
        invariant
            k <= filter_langs.len(),
            i < zones.len(),
            labels.len() == k,
            forall|j: int|
                0 <= j < k ==> (#[trigger] labels@[j])@ == (
                    filter_langs@[j]@,
                    label_of(views(zones@), i as int, Some(filter_langs@[j]@)),
                ),
        decreases filter_langs.len() - k,
    {
        let text = zone_label(zones, i, Some(&filter_langs[k]));
        labels.push(LocalizedText { lang: filter_langs[k].clone(), text });
        k += 1;
    }
    proof {
        assert(crate::zone::texts_of(labels@) =~= labels_in(
            views(zones@),
            i as int,
            filter_langs@,
        ));
    }
    labels
}

/// Labels every zone, in its own name and in each of `filter_langs`. The
/// labels are all worked out from the zones as they are handed in; nothing
/// but the labels changes.
pub fn compute_labels(zones: &mut Vec<Zone>, filter_langs: &Vec<String>)
    ensures
        views(final(zones)@) == with_labels(views(old(zones)@), filter_langs@),
{
    let ghost vs = views(zones@);
    let nb_zones = zones.len();
    let mut i: usize = 0;
    while i < nb_zones
        invariant
            i <= nb_zones,
            nb_zones == zones.len(),
            vs == views(old(zones)@),
            vs.len() == nb_zones,
            forall|j: int| 0 <= j < i ==> (#[trigger] zones@[j])@ == labelled(vs, j, filter_langs@),
            forall|j: int| i <= j < nb_zones ==> #[trigger] zones@[j] == old(zones)@[j],
        decreases nb_zones - i,
    {
        let ghost now = views(zones@);
        proof {
            assert forall|q: int| 0 <= q < now.len() implies (#[trigger] now[q]).name == vs[q].name
                && now[q].international_names == vs[q].international_names && now[q].parent
                == vs[q].parent by {
                if q < i {
                    assert(zones@[q]@ == labelled(vs, q, filter_langs@));
                } else {
                    assert(zones@[q] == old(zones)@[q]);
                }
            }
            lemma_labels_agree(now, vs, i as int, filter_langs@);
        }
        let label = zone_label(zones, i, None);
        let international_labels = zone_labels(zones, i, filter_langs);
        zones[i].label = label;
        zones[i].international_labels = international_labels;
        i += 1;
    }
    proof {
        assert(views(zones@) =~= with_labels(vs, filter_langs@));
    }
}

/// Two collections that agree on names, tables of names and parents give
/// zone `i` the same labels.
pub proof fn lemma_labels_agree(a: Seq<ZoneView>, b: Seq<ZoneView>, i: int, langs: Seq<String>)
    requires
        a.len() == b.len(),
        0 <= i < a.len(),
        forall|q: int|
            0 <= q < a.len() ==> (#[trigger] a[q]).name == b[q].name && a[q].international_names
                == b[q].international_names && a[q].parent == b[q].parent,
    ensures
        label_of(a, i, None) == label_of(b, i, None),
        labels_in(a, i, langs) == labels_in(b, i, langs),
{
    assert(a[i].name == b[i].name);
    lemma_label_reads_names(a, b, a[i].parent, None, (a.len() - 1) as nat, name_in(a[i], None));
    assert forall|k: int| 0 <= k < langs.len() implies label_of(a, i, Some(langs[k]@)) == label_of(
        b,
        i,
        Some(langs[k]@),
    ) by {
        lemma_label_reads_names(
            a,
            b,
            a[i].parent,
            Some(langs[k]@),
            (a.len() - 1) as nat,
            name_in(a[i], Some(langs[k]@)),
        );
    }
    assert(labels_in(a, i, langs) =~= labels_in(b, i, langs));
}

/// Labelling keeps a forest a forest: it changes neither a parent nor a
/// boundary.
pub proof fn lemma_labels_keep_forest(zones: Seq<ZoneView>, langs: Seq<String>)
    requires
        climbing(zones),
    ensures
        climbing(with_labels(zones, langs)),
{
    let named = with_labels(zones, langs);
    assert forall|i: int| 0 <= i < named.len() implies match (#[trigger] named[i]).parent {
        Some(p) => can_be_parent(named, p as int, i),
        None => true,
    } by {
        match zones[i].parent {
            Some(p) => {
                assert(can_be_parent(zones, p as int, i));
                assert(area_of(named, p as int) == area_of(zones, p as int));
                assert(area_of(named, i) == area_of(zones, i));
            },
            None => {},
        }
    }
}

} // verus!
