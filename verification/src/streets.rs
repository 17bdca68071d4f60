//! Streets made from map objects: one street per relation that groups the
//! ways of a street, then one street per name and set of cities among the
//! other named ways.
use vstd::prelude::*;
use crate::labels::{find_city, format_street_label, label_text};
use crate::poi::city_weight;
use crate::order::{key_le, key_order, lemma_insert_sorted_by, lemma_key_total_ordering, seq_le, str_le, strings_le};
use vstd::relations::sorted_by;
use crate::osm::{find_way_index, get_way_index, OsmId, OsmObj, OsmObjects, Ref, Relation, Way};
use crate::places::{
    admins_country_codes, admins_zip_codes, copy_admins, copy_strings, find_country_codes,
    get_zip_codes_from_admins, same_admins, Admin, ZoneType,
};
use crate::text::{int_text, lookup, push_all, push_int, string_eq_str, strs};

verus! {

/// The kinds of map objects.
#[derive(Debug, Clone, Copy, PartialEq, Eq, Structural)]
pub enum Kind {
    Node,
    Way,
    Relation,
}

/// A map object is read for streets when it is a way with a non-empty
/// `highway` tag whose value is not excluded and a non-empty `name` tag, or
/// a relation of type `associatedStreet`.
pub open spec fn is_street_obj(o: OsmObj, excluded: Seq<Seq<char>>) -> bool {
    match o {
        OsmObj::Way(w) => (match lookup(w.tags.entries@, "highway"@) {
            Some(h) => h.len() > 0 && !excluded.contains(h),
            None => false,
        }) && (match lookup(w.tags.entries@, "name"@) {
            Some(n) => n.len() > 0,
            None => false,
        }),
        OsmObj::Relation(r) => lookup(r.tags.entries@, "type"@) == Some("associatedStreet"@),
        _ => false,
    }
}

/// Whether a map object is read for streets (see `is_street_obj`).
pub fn is_valid_obj(obj: &OsmObj, invalid_highways: &Vec<String>) -> (r: bool)
    ensures
        r == is_street_obj(*obj, strs(invalid_highways@)),
{
    match obj {
        OsmObj::Way(w) => {
            let h = match w.tags.get("highway") {
                Some(h) => !h.as_str().is_empty() && !crate::osm_reader::contains_string(invalid_highways, h),
                None => false,
            };
            let n = match w.tags.get("name") {
                Some(n) => !n.as_str().is_empty(),
                None => false,
            };
            h && n
        },
        OsmObj::Relation(rel) => match rel.tags.get("type") {
            Some(t) => string_eq_str(t, "associatedStreet"),
            None => false,
        },
        _ => false,
    }
}

/// A street, with a weight of the user's type.
#[derive(Debug, Clone)]
pub struct Street<W> {
    pub id: String,
    pub name: String,
    pub label: String,
    pub administrative_regions: Vec<Admin<W>>,
    pub weight: W,
    pub zip_codes: Vec<String>,
    pub country_codes: Vec<String>,
}

/// Two streets hold the same values.
pub open spec fn same_street<W>(a: Street<W>, b: Street<W>) -> bool {
    &&& a.id == b.id
    &&& a.name == b.name
    &&& a.label == b.label
    &&& same_admins(a.administrative_regions@, b.administrative_regions@)
    &&& a.weight == b.weight
    &&& a.zip_codes@ == b.zip_codes@
    &&& a.country_codes@ == b.country_codes@
}

impl<W: Copy> Street<W> {
    /// A copy of the street.
    pub fn copy(&self) -> (r: Street<W>)
        ensures
            same_street(r, *self),
    {
        Street {
            id: self.id.clone(),
            name: self.name.clone(),
            label: self.label.clone(),
            administrative_regions: copy_admins(&self.administrative_regions),
            weight: self.weight,
            zip_codes: copy_strings(&self.zip_codes),
            country_codes: copy_strings(&self.country_codes),
        }
    }
}

/// A street holds the given identifier and name, the given regions, and
/// what follows from them: its label, zip codes and country codes; its
/// weight is `weight`.
pub open spec fn street_made<W>(
    s: Street<W>,
    id: Seq<char>,
    name: Seq<char>,
    admins: Seq<Admin<W>>,
    weight: W,
) -> bool {
    &&& s.id@ == id
    &&& s.name@ == name
    &&& s.label@ == label_text(name, admins)
    &&& same_admins(s.administrative_regions@, admins)
    &&& s.weight == weight
    &&& strs(s.zip_codes@) == admins_zip_codes(admins)
    &&& strs(s.country_codes@) == admins_country_codes(admins)
}

/// Makes a street (see `street_made`).
fn make_street<W: Copy>(id: String, name: String, admins: &Vec<Admin<W>>, weight: W) -> (s: Street<W>)
    ensures
        street_made(s, id@, name@, admins@, weight),
{
    let country_codes = find_country_codes(admins);
    let label = format_street_label(name.as_str(), admins, &country_codes);
    Street {
        id,
        name,
        label,
        administrative_regions: copy_admins(admins),
        weight,
        zip_codes: get_zip_codes_from_admins(admins),
        country_codes,
    }
}

/// The way that gives a street to a relation, looked for among the members
/// from position `k` on: the first member that is a way with the role
/// `street`, is in the store, and has a name (the relation's, else its own).
/// The result is the way's position in the store and the street's name.
pub open spec fn relation_street_way(
    refs: Seq<Ref>,
    ways: Seq<Way>,
    rel_name: Option<Seq<char>>,
    k: int,
) -> Option<(int, Seq<char>)>
    decreases refs.len() - k,
{
    if k < 0 || k >= refs.len() {
        None
    } else {
        let next = relation_street_way(refs, ways, rel_name, k + 1);
        match refs[k].member {
            OsmId::Way(id) => if refs[k].role@ == "street"@ {
                match find_way_index(ways, id) {
                    Some(w) => match (match rel_name {
                        Some(n) => Some(n),
                        None => lookup(ways[w].tags.entries@, "name"@),
                    }) {
                        Some(n) => Some((w, n)),
                        None => next,
                    },
                    None => next,
                }
            } else {
                next
            },
            _ => next,
        }
    }
}

/// The streets of the relations, in order: (relation position, way
/// position in the store, name) for each relation that has one.
pub open spec fn relation_streets(rels: Seq<Relation>, ways: Seq<Way>) -> Seq<(int, int, Seq<char>)>
    decreases rels.len(),
{
    if rels.len() == 0 {
        seq![]
    } else {
        let p = relation_streets(rels.drop_last(), ways);
        let r = rels.last();
        match relation_street_way(r.refs@, ways, lookup(r.tags.entries@, "name"@), 0) {
            Some((w, n)) => p.push(((rels.len() - 1) as int, w, n)),
            None => p,
        }
    }
}

/// The identifier of the street of a relation.
pub open spec fn relation_street_id(id: i64) -> Seq<char> {
    "street:osm:relation:"@ + int_text(id as int)
}

/// The identifier of the street of a way.
pub open spec fn way_street_id(id: i64) -> Seq<char> {
    "street:osm:way:"@ + int_text(id as int)
}

/// The way that gives a street to a relation (see `relation_street_way`).
fn find_relation_street(rel: &Relation, objects: &OsmObjects) -> (r: Option<(usize, String)>)
    ensures
        match r {
            Some((w, n)) => relation_street_way(
                rel.refs@,
                objects.ways@,
                lookup(rel.tags.entries@, "name"@),
                0,
            ) == Some((w as int, n@)) && w < objects.ways.len(),
            None => relation_street_way(
                rel.refs@,
                objects.ways@,
                lookup(rel.tags.entries@, "name"@),
                0,
            ) is None,
        },
{
    let rel_name = rel.tags.get("name");
    let ghost rn = lookup(rel.tags.entries@, "name"@);
    let refs = &rel.refs;
    let mut k: usize = 0;
    while k < refs.len()
        invariant
            refs == rel.refs,
            rn == lookup(rel.tags.entries@, "name"@),
            rel_name matches Some(v) ==> rn == Some(v@),
            rel_name is None ==> rn is None,
            k <= refs.len(),
            relation_street_way(refs@, objects.ways@, rn, k as int) == relation_street_way(
                refs@,
                objects.ways@,
                rn,
                0,
            ),
        decreases refs.len() - k,
    {
        match refs[k].member {
            OsmId::Way(id) => {
                if string_eq_str(&refs[k].role, "street") {
                    match get_way_index(objects, id) {
                        Some(w) => {
                            proof {
                                crate::osm::lemma_find_way_index_bounds(objects.ways@, id);
                            }
                            let name: Option<String> = match rel_name {
                                Some(n) => Some(n.clone()),
                                None => match objects.ways[w].tags.get("name") {
                                    Some(n) => Some(n.clone()),
                                    None => None,
                                },
                            };
                            match name {
                                Some(n) => {
                                    return Some((w, n));
                                },
                                None => {},
                            }
                        },
                        None => {},
                    }
                }
            },
            _ => {},
        }
        k = k + 1;
    }
    None
}

/// Whether some relation has a way with this identifier among its members.
pub open spec fn in_relations(rels: Seq<Relation>, id: i64) -> bool {
    exists|i: int, k: int|
        0 <= i < rels.len() && 0 <= k < rels[i].refs.len() && #[trigger] rels[i].refs@[k].member
            == OsmId::Way(id)
}

/// The streets of the relations (see `relation_streets`), and the
/// identifiers of all the ways that are members of a relation.
fn relation_part<W: Copy>(
    rels: &Vec<Relation>,
    objects: &OsmObjects,
    way_admins: &Vec<Vec<Admin<W>>>,
    zero: W,
) -> (r: (Vec<Street<W>>, Vec<i64>))
    requires
        way_admins.len() == objects.ways.len(),
    ensures
        r.0.len() == relation_streets(rels@, objects.ways@).len(),
        forall|j: int|
            0 <= j < r.0.len() ==> {
                let e = #[trigger] relation_streets(rels@, objects.ways@)[j];
                &&& 0 <= e.0 < rels.len()
                &&& 0 <= e.1 < objects.ways.len()
                &&& street_made(
                    r.0@[j],
                    relation_street_id(rels@[e.0].id),
                    e.2,
                    way_admins@[e.1]@,
                    zero,
                )
            },
        forall|id: i64| r.1@.contains(id) <==> in_relations(rels@, id),
{
    let mut streets: Vec<Street<W>> = Vec::new();
    let mut members: Vec<i64> = Vec::new();
    let mut i: usize = 0;
    while i < rels.len()
        invariant
            way_admins.len() == objects.ways.len(),
            i <= rels.len(),
            streets.len() == relation_streets(rels@.take(i as int), objects.ways@).len(),
            forall|j: int|
                0 <= j < streets.len() ==> {
                    let e = #[trigger] relation_streets(rels@.take(i as int), objects.ways@)[j];
                    &&& 0 <= e.0 < i
                    &&& 0 <= e.1 < objects.ways.len()
                    &&& street_made(
                        streets@[j],
                        relation_street_id(rels@[e.0].id),
                        e.2,
                        way_admins@[e.1]@,
                        zero,
                    )
                },
            forall|id: i64|
                members@.contains(id) <==> exists|a: int, k: int|
                    0 <= a < i && 0 <= k < rels@[a].refs.len() && #[trigger] rels@[a].refs@[k].member
                        == OsmId::Way(id),
        decreases rels.len() - i,
    {
        let rel = &rels[i];
        let ghost before = relation_streets(rels@.take(i as int), objects.ways@);
        assert(rels@.take(i + 1).drop_last() =~= rels@.take(i as int));
        assert(rels@.take(i + 1).last() == rels@[i as int]);
        match find_relation_street(rel, objects) {
            Some((w, n)) => {
                let mut id = "street:osm:relation:".to_owned();
                push_int(&mut id, rel.id);
                let st = make_street(id, n, &way_admins[w], zero);
                streets.push(st);
                assert(relation_streets(rels@.take(i + 1), objects.ways@) == before.push(
                    (i as int, w as int, n@),
                ));
            },
            None => {},
        }
        let refs = &rel.refs;
        let mut k: usize = 0;
        while k < refs.len()
            invariant
                refs == rels@[i as int].refs,
                i < rels.len(),
                k <= refs.len(),
                forall|id: i64|
                    members@.contains(id) <==> (exists|a: int, k2: int|
                        0 <= a < i && 0 <= k2 < rels@[a].refs.len() && #[trigger] rels@[a].refs@[k2].member
                            == OsmId::Way(id)) || (exists|k2: int|
                        0 <= k2 < k && #[trigger] refs@[k2].member == OsmId::Way(id)),
            decreases refs.len() - k,
        {
            let ghost old_members = members@;
            match refs[k].member {
                OsmId::Way(id) => {
                    members.push(id);
                },
                _ => {},
            }
            assert forall|x: i64|
                members@.contains(x) <==> (exists|a: int, k2: int|
                    0 <= a < i && 0 <= k2 < rels@[a].refs.len() && #[trigger] rels@[a].refs@[k2].member
                        == OsmId::Way(x)) || (exists|k2: int|
                    0 <= k2 < k + 1 && #[trigger] refs@[k2].member == OsmId::Way(x)) by {
                let in_old = (exists|a: int, k2: int|
                    0 <= a < i && 0 <= k2 < rels@[a].refs.len() && #[trigger] rels@[a].refs@[k2].member
                        == OsmId::Way(x)) || (exists|k2: int|
                    0 <= k2 < k && #[trigger] refs@[k2].member == OsmId::Way(x));
                assert(old_members.contains(x) <==> in_old);
                if exists|k2: int| 0 <= k2 < k + 1 && #[trigger] refs@[k2].member == OsmId::Way(x) {
                    let k2 = choose|k2: int| 0 <= k2 < k + 1 && #[trigger] refs@[k2].member == OsmId::Way(x);
                    if k2 == k {
                        assert(members@[members@.len() - 1] == x);
                    }
                }
                if members@.contains(x) {
                    let t = choose|t: int| 0 <= t < members@.len() && members@[t] == x;
                    if t < old_members.len() {
                        assert(old_members[t] == x);
                    } else {
                        assert(refs@[k as int].member == OsmId::Way(x));
                    }
                }
                if old_members.contains(x) {
                    let t = choose|t: int| 0 <= t < old_members.len() && old_members[t] == x;
                    assert(members@[t] == x);
                }
            }
            k = k + 1;
        }
        assert forall|id: i64| members@.contains(id) <==> exists|a: int, k2: int|
            0 <= a < i + 1 && 0 <= k2 < rels@[a].refs.len() && #[trigger] rels@[a].refs@[k2].member
                == OsmId::Way(id) by {
            if exists|k2: int| 0 <= k2 < refs.len() && #[trigger] refs@[k2].member == OsmId::Way(id) {
                let k2 = choose|k2: int| 0 <= k2 < refs.len() && #[trigger] refs@[k2].member == OsmId::Way(id);
                assert(rels@[i as int].refs@[k2].member == OsmId::Way(id));
            }
            if exists|a: int, k2: int|
                0 <= a < i + 1 && 0 <= k2 < rels@[a].refs.len() && #[trigger] rels@[a].refs@[k2].member
                    == OsmId::Way(id) {
                let (a, k2) = choose|a: int, k2: int|
                    0 <= a < i + 1 && 0 <= k2 < rels@[a].refs.len() && #[trigger] rels@[a].refs@[k2].member
                        == OsmId::Way(id);
                if a == i {
                    assert(refs@[k2].member == OsmId::Way(id));
                }
            }
        }
        i = i + 1;
    }
    assert(rels@.take(rels.len() as int) =~= rels@);
    (streets, members)
}

/// The identifiers of the cities among the regions, in order.
pub open spec fn city_ids<W>(admins: Seq<Admin<W>>) -> Seq<Seq<char>>
    decreases admins.len(),
{
    if admins.len() == 0 {
        seq![]
    } else {
        let p = city_ids(admins.drop_last());
        if admins.last().zone_type == Some(ZoneType::City) {
            p.push(admins.last().id@)
        } else {
            p
        }
    }
}

/// The named ways that belong to no relation, in the order of the store,
/// each with its key (its name and the identifiers of its cities) and its
/// position in the store.
pub open spec fn way_entries<W>(
    ways: Seq<Way>,
    rels: Seq<Relation>,
    way_admins: Seq<Vec<Admin<W>>>,
) -> Seq<((Seq<char>, Seq<Seq<char>>), int)>
    decreases ways.len(),
{
    if ways.len() == 0 {
        seq![]
    } else {
        let p = way_entries(ways.drop_last(), rels, way_admins);
        let i = ways.len() - 1;
        if !in_relations(rels, ways[i].id) {
            match lookup(ways[i].tags.entries@, "name"@) {
                Some(n) => p.push(((n, city_ids(way_admins[i]@)), i)),
                None => p,
            }
        } else {
            p
        }
    }
}

/// The distinct keys of the entries, in the order they first appear.
pub open spec fn distinct_keys(e: Seq<((Seq<char>, Seq<Seq<char>>), int)>) -> Seq<(Seq<char>, Seq<Seq<char>>)>
    decreases e.len(),
{
    if e.len() == 0 {
        seq![]
    } else {
        let p = distinct_keys(e.drop_last());
        if p.contains(e.last().0) {
            p
        } else {
            p.push(e.last().0)
        }
    }
}

/// The smallest identifier of the ways of the entries with the key.
pub open spec fn min_way_id(
    e: Seq<((Seq<char>, Seq<Seq<char>>), int)>,
    ways: Seq<Way>,
    key: (Seq<char>, Seq<Seq<char>>),
) -> Option<i64>
    decreases e.len(),
{
    if e.len() == 0 {
        None
    } else {
        let p = min_way_id(e.drop_last(), ways, key);
        if e.last().0 == key {
            let id = ways[e.last().1].id;
            match p {
                Some(m) => Some(if id < m { id } else { m }),
                None => Some(id),
            }
        } else {
            p
        }
    }
}

/// The identifiers of the cities among the regions, in order.
fn city_ids_exec<W>(admins: &Vec<Admin<W>>) -> (r: Vec<String>)
    ensures
        strs(r@) == city_ids(admins@),
{
    let mut r: Vec<String> = Vec::new();
    let mut i: usize = 0;
    while i < admins.len()
        invariant
            i <= admins.len(),
            strs(r@) == city_ids(admins@.take(i as int)),
        decreases admins.len() - i,
    {
        assert(admins@.take(i + 1).drop_last() =~= admins@.take(i as int));
        assert(admins@.take(i + 1).last() == admins@[i as int]);
        if admins[i].is_city() {
            proof {
                crate::text::lemma_strs_push(r@, admins@[i as int].id);
            }
            r.push(admins[i].id.clone());
        }
        i = i + 1;
    }
    assert(admins@.take(admins.len() as int) =~= admins@);
    r
}

/// Whether two lists of strings are equal.
fn strings_eq(a: &Vec<String>, b: &Vec<String>) -> (r: bool)
    ensures
        r == (strs(a@) == strs(b@)),
{
    if a.len() != b.len() {
        assert(strs(a@).len() != strs(b@).len());
        return false;
    }
    let mut i: usize = 0;
    while i < a.len()
        invariant
            a.len() == b.len(),
            i <= a.len(),
            forall|j: int| 0 <= j < i ==> a@[j]@ == b@[j]@,
        decreases a.len() - i,
    {
        if a[i] != b[i] {
            assert(strs(a@)[i as int] != strs(b@)[i as int]);
            return false;
        }
        i = i + 1;
    }
    assert(strs(a@) =~= strs(b@));
    true
}

/// Whether a value occurs among identifiers.
fn contains_id(v: &Vec<i64>, x: i64) -> (r: bool)
    ensures
        r == v@.contains(x),
{
    let mut i: usize = 0;
    while i < v.len()
        invariant
            i <= v.len(),
            forall|j: int| 0 <= j < i ==> v@[j] != x,
        decreases v.len() - i,
    {
        if v[i] == x {
            return true;
        }
        i = i + 1;
    }
    false
}

/// The keys of the groups built so far.
pub open spec fn group_keys(names: Seq<String>, ids: Seq<Vec<String>>) -> Seq<(Seq<char>, Seq<Seq<char>>)> {
    Seq::new(names.len(), |j: int| (names[j]@, strs(ids[j]@)))
}

/// Groups the named ways that belong to no relation by key: the distinct
/// keys in order of first appearance, each with the smallest way identifier.
fn group_ways<W>(
    objects: &OsmObjects,
    rels: &Vec<Relation>,
    members: &Vec<i64>,
    way_admins: &Vec<Vec<Admin<W>>>,
) -> (r: (Vec<String>, Vec<Vec<String>>, Vec<i64>))
    requires
        way_admins.len() == objects.ways.len(),
        forall|id: i64| members@.contains(id) <==> in_relations(rels@, id),
    ensures
        r.0.len() == r.1.len(),
        r.0.len() == r.2.len(),
        group_keys(r.0@, r.1@) == distinct_keys(way_entries(objects.ways@, rels@, way_admins@)),
        forall|j: int|
            0 <= j < r.0.len() ==> min_way_id(
                way_entries(objects.ways@, rels@, way_admins@),
                objects.ways@,
                #[trigger] group_keys(r.0@, r.1@)[j],
            ) == Some(r.2@[j]),
{
    let ways = &objects.ways;
    let mut names: Vec<String> = Vec::new();
    let mut ids: Vec<Vec<String>> = Vec::new();
    let mut mins: Vec<i64> = Vec::new();
    let mut w: usize = 0;
    while w < ways.len()
        invariant
            ways == objects.ways,
            way_admins.len() == ways.len(),
            forall|id: i64| members@.contains(id) <==> in_relations(rels@, id),
            w <= ways.len(),
            names.len() == ids.len(),
            names.len() == mins.len(),
            group_keys(names@, ids@) == distinct_keys(way_entries(ways@.take(w as int), rels@, way_admins@)),
            forall|j: int|
                0 <= j < names.len() ==> min_way_id(
                    way_entries(ways@.take(w as int), rels@, way_admins@),
                    ways@,
                    #[trigger] group_keys(names@, ids@)[j],
                ) == Some(mins@[j]),
        decreases ways.len() - w,
    {
        let ghost e0 = way_entries(ways@.take(w as int), rels@, way_admins@);
        let ghost keys0 = group_keys(names@, ids@);
        assert(ways@.take(w + 1).drop_last() =~= ways@.take(w as int));
        assert(ways@.take(w + 1)[w as int] == ways@[w as int]);
        let way = &ways[w];
        if !contains_id(members, way.id) {
            match way.tags.get("name") {
                Some(n) => {
                    let cids = city_ids_exec(&way_admins[w]);
                    let ghost key = (n@, strs(cids@));
                    let ghost e1 = e0.push((key, w as int));
                    assert(way_entries(ways@.take(w + 1), rels@, way_admins@) == e1);
                    assert(e1.drop_last() =~= e0);
                    let mut j: usize = 0;
                    let mut found = false;
                    while j < names.len() && !found
                        invariant
                            names.len() == ids.len(),
                            j <= names.len(),
                            keys0 == group_keys(names@, ids@),
                            key == (n@, strs(cids@)),
                            found ==> j < names.len() && keys0[j as int] == key,
                            !found ==> forall|t: int| 0 <= t < j ==> keys0[t] != key,
                        decreases names.len() - j, (if found { 0int } else { 1int }),
                    {
                        assert(keys0[j as int] == (names@[j as int]@, strs(ids@[j as int]@)));
                        if names[j] == *n && strings_eq(&ids[j], &cids) {
                            found = true;
                        } else {
                            j = j + 1;
                        }
                    }
                    if found {
                        assert(keys0.contains(key));
                        let m = if way.id < mins[j] { way.id } else { mins[j] };
                        mins.set(j, m);
                        assert forall|t: int| 0 <= t < names.len() implies min_way_id(
                            e1,
                            ways@,
                            #[trigger] group_keys(names@, ids@)[t],
                        ) == Some(mins@[t]) by {
                            assert(group_keys(names@, ids@)[t] == keys0[t]);
                            if t != j {
                                assert(keys0[t] != keys0[j as int]) by {
                                    crate::streets::lemma_distinct_keys_unique(e0, t, j as int);
                                }
                            }
                        }
                    } else {
                        assert(!keys0.contains(key)) by {
                            if keys0.contains(key) {
                                let t = choose|t: int| 0 <= t < keys0.len() && keys0[t] == key;
                            }
                        }
                        proof {
                            lemma_min_way_id_absent(e0, ways@, key);
                        }
                        names.push(n.clone());
                        ids.push(cids);
                        mins.push(way.id);
                        assert(group_keys(names@, ids@) =~= keys0.push(key));
                        assert forall|t: int| 0 <= t < names.len() implies min_way_id(
                            e1,
                            ways@,
                            #[trigger] group_keys(names@, ids@)[t],
                        ) == Some(mins@[t]) by {
                            if t < keys0.len() {
                                assert(group_keys(names@, ids@)[t] == keys0[t]);
                            }
                        }
                    }
                },
                None => {
                    assert(way_entries(ways@.take(w + 1), rels@, way_admins@) == e0);
                },
            }
        } else {
            assert(way_entries(ways@.take(w + 1), rels@, way_admins@) == e0);
        }
        w = w + 1;
    }
    assert(ways@.take(ways.len() as int) =~= ways@);
    (names, ids, mins)
}

/// The distinct keys are distinct.
pub proof fn lemma_distinct_keys_unique(e: Seq<((Seq<char>, Seq<Seq<char>>), int)>, a: int, b: int)
    requires
        0 <= a < distinct_keys(e).len(),
        0 <= b < distinct_keys(e).len(),
        a != b,
    ensures
        distinct_keys(e)[a] != distinct_keys(e)[b],
    decreases e.len(),
{
    let p = distinct_keys(e.drop_last());
    if p.contains(e.last().0) {
        lemma_distinct_keys_unique(e.drop_last(), a, b);
    } else {
        if a < p.len() && b < p.len() {
            lemma_distinct_keys_unique(e.drop_last(), a, b);
        } else if a == p.len() {
            assert(distinct_keys(e)[b] == p[b]);
        } else {
            assert(distinct_keys(e)[a] == p[a]);
        }
    }
}

/// A key that no entry has has no smallest way.
proof fn lemma_min_way_id_absent(
    e: Seq<((Seq<char>, Seq<Seq<char>>), int)>,
    ways: Seq<Way>,
    key: (Seq<char>, Seq<Seq<char>>),
)
    requires
        !distinct_keys(e).contains(key),
    ensures
        min_way_id(e, ways, key) is None,
    decreases e.len(),
{
    if e.len() > 0 {
        let p = distinct_keys(e.drop_last());
        if p.contains(key) {
            let t = choose|t: int| 0 <= t < p.len() && p[t] == key;
            if p.contains(e.last().0) {
                assert(distinct_keys(e)[t] == key);
            } else {
                assert(distinct_keys(e)[t] == key);
            }
        }
        if e.last().0 == key {
            if p.contains(e.last().0) {
            } else {
                assert(distinct_keys(e)[p.len() as int] == key);
            }
        }
        lemma_min_way_id_absent(e.drop_last(), ways, key);
    }
}

/// Whether the key (`na`, `ia`) comes before (`nb`, `ib`), or equals it.
fn key_le_exec(na: &String, ia: &Vec<String>, nb: &String, ib: &Vec<String>) -> (r: bool)
    ensures
        r == key_le((na@, strs(ia@)), (nb@, strs(ib@))),
{
    if *na != *nb {
        str_le(na.as_str(), nb.as_str())
    } else {
        strings_le(ia, ib)
    }
}

/// The positions of the groups in the order of their keys.
fn sort_groups(names: &Vec<String>, ids: &Vec<Vec<String>>) -> (order: Vec<usize>)
    requires
        names.len() == ids.len(),
    ensures
        order.len() == names.len(),
        forall|t: int| 0 <= t < order.len() ==> #[trigger] order@[t] < names.len(),
        Seq::new(order.len() as nat, |t: int| group_keys(names@, ids@)[order@[t] as int])
            == group_keys(names@, ids@).sort_by(key_order()),
{
    broadcast use {vstd::seq_lib::group_to_multiset_ensures, vstd::multiset::group_multiset_axioms};
    let ghost keys = group_keys(names@, ids@);
    proof {
        lemma_key_total_ordering();
    }
    let mut order: Vec<usize> = Vec::new();
    let mut i: usize = 0;
    while i < names.len()
        invariant
            names.len() == ids.len(),
            keys == group_keys(names@, ids@),
            i <= names.len(),
            order.len() == i,
            forall|t: int| 0 <= t < order.len() ==> #[trigger] order@[t] < names.len(),
            sorted_by(Seq::new(order.len() as nat, |t: int| keys[order@[t] as int]), key_order()),
            Seq::new(order.len() as nat, |t: int| keys[order@[t] as int]).to_multiset()
                == keys.take(i as int).to_multiset(),
            vstd::relations::total_ordering(key_order()),
        decreases names.len() - i,
    {
        let ghost ks = Seq::new(order.len() as nat, |t: int| keys[order@[t] as int]);
        let mut pos: usize = 0;
        while pos < order.len() && key_le_exec(&names[order[pos]], &ids[order[pos]], &names[i], &ids[i])
            invariant
                names.len() == ids.len(),
                keys == group_keys(names@, ids@),
                i < names.len(),
                pos <= order.len(),
                forall|t: int| 0 <= t < order.len() ==> #[trigger] order@[t] < names.len(),
                ks == Seq::new(order.len() as nat, |t: int| keys[order@[t] as int]),
                forall|k: int| 0 <= k < pos ==> #[trigger] key_order()(ks[k], keys[i as int]),
            decreases order.len() - pos,
        {
            assert(ks[pos as int] == keys[order@[pos as int] as int]);
            assert(keys[order@[pos as int] as int] == (names@[order@[pos as int] as int]@, strs(ids@[order@[pos as int] as int]@)));
            assert(keys[i as int] == (names@[i as int]@, strs(ids@[i as int]@)));
            pos = pos + 1;
        }
        proof {
            if pos < order.len() {
                assert(keys[order@[pos as int] as int] == (names@[order@[pos as int] as int]@, strs(ids@[order@[pos as int] as int]@)));
                assert(keys[i as int] == (names@[i as int]@, strs(ids@[i as int]@)));
            }
            lemma_insert_sorted_by(ks, pos as int, keys[i as int], key_order());
            assert(keys.take(i + 1) =~= keys.take(i as int).push(keys[i as int]));
            vstd::seq_lib::to_multiset_insert(ks, pos as int, keys[i as int]);
            vstd::seq_lib::to_multiset_build(keys.take(i as int), keys[i as int]);
        }
        order.insert(pos, i);
        assert(Seq::new(order.len() as nat, |t: int| keys[order@[t] as int]) =~= ks.insert(pos as int, keys[i as int]));
        i = i + 1;
    }
    proof {
        let ks = Seq::new(order.len() as nat, |t: int| keys[order@[t] as int]);
        assert(keys.take(keys.len() as int) =~= keys);
        keys.lemma_sort_by_ensures(key_order());
        vstd::seq_lib::lemma_sorted_unique(ks, keys.sort_by(key_order()), key_order());
    }
    order
}

/// The streets of the groups of ways, in the order of the keys: for each
/// key, the way of the store with the smallest identifier of its group,
/// when the store has it and it has a name; (way position, name).
pub open spec fn way_streets(
    keys: Seq<(Seq<char>, Seq<Seq<char>>)>,
    e: Seq<((Seq<char>, Seq<Seq<char>>), int)>,
    ways: Seq<Way>,
) -> Seq<(int, Seq<char>)>
    decreases keys.len(),
{
    if keys.len() == 0 {
        seq![]
    } else {
        let p = way_streets(keys.drop_last(), e, ways);
        match min_way_id(e, ways, keys.last()) {
            Some(m) => match find_way_index(ways, m) {
                Some(w) => match lookup(ways[w].tags.entries@, "name"@) {
                    Some(n) => p.push((w, n)),
                    None => p,
                },
                None => p,
            },
            None => p,
        }
    }
}

/// The streets of the map: first, in the order of the relations, the street
/// of each relation that has one (see `relation_streets`); then one street
/// per group of named ways outside relations that share a name and a set
/// of cities, in the order of (name, cities), made from the way of the
/// group with the smallest identifier (see `way_streets`). `way_admins`
/// gives the regions of each way of the store, in the same order; the
/// weight of every street is `zero`.
pub fn streets<W: Copy>(
    relations: &Vec<Relation>,
    objects: &OsmObjects,
    way_admins: &Vec<Vec<Admin<W>>>,
    zero: W,
) -> (r: Vec<Street<W>>)
    requires
        way_admins.len() == objects.ways.len(),
    ensures
        ({
            let rs = relation_streets(relations@, objects.ways@);
            let e = way_entries(objects.ways@, relations@, way_admins@);
            let ws = way_streets(distinct_keys(e).sort_by(key_order()), e, objects.ways@);
            &&& r.len() == rs.len() + ws.len()
            &&& forall|j: int|
                0 <= j < rs.len() ==> {
                    let x = #[trigger] rs[j];
                    &&& 0 <= x.0 < relations.len()
                    &&& 0 <= x.1 < objects.ways.len()
                    &&& street_made(
                        r@[j],
                        relation_street_id(relations@[x.0].id),
                        x.2,
                        way_admins@[x.1]@,
                        zero,
                    )
                }
            &&& forall|j: int|
                0 <= j < ws.len() ==> {
                    let x = #[trigger] ws[j];
                    &&& 0 <= x.0 < objects.ways.len()
                    &&& street_made(
                        r@[rs.len() + j],
                        way_street_id(objects.ways@[x.0].id),
                        x.1,
                        way_admins@[x.0]@,
                        zero,
                    )
                }
        }),
{
    let ghost rs = relation_streets(relations@, objects.ways@);
    let ghost e = way_entries(objects.ways@, relations@, way_admins@);
    let (mut result, members) = relation_part(relations, objects, way_admins, zero);
    let (names, ids, mins) = group_ways(objects, relations, &members, way_admins);
    let order = sort_groups(&names, &ids);
    let ghost keys = group_keys(names@, ids@);
    let ghost sorted = distinct_keys(e).sort_by(key_order());
    assert(sorted == Seq::new(order.len() as nat, |t: int| keys[order@[t] as int]));
    let mut t: usize = 0;
    while t < order.len()
        invariant
            way_admins.len() == objects.ways.len(),
            names.len() == ids.len(),
            names.len() == mins.len(),
            order.len() == names.len(),
            forall|q: int| 0 <= q < order.len() ==> #[trigger] order@[q] < names.len(),
            keys == group_keys(names@, ids@),
            keys == distinct_keys(e),
            sorted == Seq::new(order.len() as nat, |q: int| keys[order@[q] as int]),
            forall|q: int| 0 <= q < names.len() ==> min_way_id(e, objects.ways@, #[trigger] keys[q]) == Some(mins@[q]),
            t <= order.len(),
            result.len() == rs.len() + way_streets(sorted.take(t as int), e, objects.ways@).len(),
            forall|j: int|
                0 <= j < rs.len() ==> {
                    let x = #[trigger] rs[j];
                    &&& 0 <= x.0 < relations.len()
                    &&& 0 <= x.1 < objects.ways.len()
                    &&& street_made(
                        result@[j],
                        relation_street_id(relations@[x.0].id),
                        x.2,
                        way_admins@[x.1]@,
                        zero,
                    )
                },
            forall|j: int|
                0 <= j < way_streets(sorted.take(t as int), e, objects.ways@).len() ==> {
                    let x = #[trigger] way_streets(sorted.take(t as int), e, objects.ways@)[j];
                    &&& 0 <= x.0 < objects.ways.len()
                    &&& street_made(
                        result@[rs.len() + j],
                        way_street_id(objects.ways@[x.0].id),
                        x.1,
                        way_admins@[x.0]@,
                        zero,
                    )
                },
        decreases order.len() - t,
    {
        let g = order[t];
        let ghost before = way_streets(sorted.take(t as int), e, objects.ways@);
        assert(sorted.take(t + 1).drop_last() =~= sorted.take(t as int));
        assert(sorted.take(t + 1).last() == keys[g as int]);
        assert(min_way_id(e, objects.ways@, keys[g as int]) == Some(mins@[g as int]));
        let m = mins[g];
        match get_way_index(objects, m) {
            Some(w) => {
                proof {
                    crate::osm::lemma_find_way_index_bounds(objects.ways@, m);
                }
                match objects.ways[w].tags.get("name") {
                    Some(n) => {
                        let mut id = "street:osm:way:".to_owned();
                        push_int(&mut id, objects.ways[w].id);
                        let st = make_street(id, n.clone(), &way_admins[w], zero);
                        result.push(st);
                        assert(way_streets(sorted.take(t + 1), e, objects.ways@) == before.push((w as int, n@)));
                    },
                    None => {
                        assert(way_streets(sorted.take(t + 1), e, objects.ways@) == before);
                    },
                }
            },
            None => {
                assert(way_streets(sorted.take(t + 1), e, objects.ways@) == before);
            },
        }
        t = t + 1;
    }
    assert(sorted.take(order.len() as int) =~= sorted);
    result
}

/// The street `b` is the street `a` with the weight `w`.
pub open spec fn reweighted<W>(a: Street<W>, b: Street<W>, w: W) -> bool {
    &&& b.id == a.id
    &&& b.name == a.name
    &&& b.label == a.label
    &&& b.administrative_regions == a.administrative_regions
    &&& b.zip_codes == a.zip_codes
    &&& b.country_codes == a.country_codes
    &&& b.weight == w
}

/// Gives each street the weight of its first city, when it has one.
pub fn compute_street_weight<W: Copy>(streets: &mut Vec<Street<W>>)
    ensures
        final(streets).len() == old(streets).len(),
        forall|i: int|
            0 <= i < old(streets).len() ==> reweighted(
                #[trigger] old(streets)@[i],
                final(streets)@[i],
                match city_weight(old(streets)@[i].administrative_regions@) {
                    Some(w) => w,
                    None => old(streets)@[i].weight,
                },
            ),
{
    let ghost orig = streets@;
    let mut i: usize = 0;
    while i < streets.len()
        invariant
            streets.len() == orig.len(),
            i <= streets.len(),
            forall|k: int|
                0 <= k < i ==> reweighted(
                    #[trigger] orig[k],
                    streets@[k],
                    match city_weight(orig[k].administrative_regions@) {
                        Some(w) => w,
                        None => orig[k].weight,
                    },
                ),
            forall|k: int| i <= k < streets.len() ==> #[trigger] streets@[k] == orig[k],
        decreases streets.len() - i,
    {
        match find_city(&streets[i].administrative_regions) {
            Some(c) => {
                let w = streets[i].administrative_regions[c].weight;
                let mut st = streets.remove(i);
                st.weight = w;
                streets.insert(i, st);
            },
            None => {},
        }
        i = i + 1;
    }
}

proof fn lemma_way_entries_outside<W>(ways: Seq<Way>, rels: Seq<Relation>, way_admins: Seq<Vec<Admin<W>>>)
    ensures
        forall|t: int|
            0 <= t < way_entries(ways, rels, way_admins).len() ==> {
                let x = #[trigger] way_entries(ways, rels, way_admins)[t];
                &&& 0 <= x.1 < ways.len()
                &&& !in_relations(rels, ways[x.1].id)
            },
    decreases ways.len(),
{
    if ways.len() > 0 {
        lemma_way_entries_outside(ways.drop_last(), rels, way_admins);
        let p = way_entries(ways.drop_last(), rels, way_admins);
        let e = way_entries(ways, rels, way_admins);
        assert forall|t: int| 0 <= t < e.len() implies {
            let x = #[trigger] e[t];
            &&& 0 <= x.1 < ways.len()
            &&& !in_relations(rels, ways[x.1].id)
        } by {
            if t < p.len() {
                assert(e[t] == p[t]);
                assert(ways.drop_last()[p[t].1] == ways[p[t].1]);
            }
        }
    }
}

proof fn lemma_min_way_id_of_entry(
    e: Seq<((Seq<char>, Seq<Seq<char>>), int)>,
    ways: Seq<Way>,
    key: (Seq<char>, Seq<Seq<char>>),
)
    ensures
        min_way_id(e, ways, key) matches Some(m) ==> exists|t: int|
            0 <= t < e.len() && #[trigger] ways[e[t].1].id == m,
    decreases e.len(),
{
    if e.len() > 0 {
        lemma_min_way_id_of_entry(e.drop_last(), ways, key);
        if min_way_id(e.drop_last(), ways, key) is Some {
            let m = min_way_id(e.drop_last(), ways, key)->0;
            let t = choose|t: int| 0 <= t < e.drop_last().len() && #[trigger] ways[e.drop_last()[t].1].id == m;
            assert(e[t] == e.drop_last()[t]);
        }
        if e.last().0 == key {
            assert(ways[e[e.len() - 1].1].id == ways[e.last().1].id);
        }
    }
}

proof fn lemma_way_streets_outside<W>(
    keys: Seq<(Seq<char>, Seq<Seq<char>>)>,
    ways: Seq<Way>,
    rels: Seq<Relation>,
    way_admins: Seq<Vec<Admin<W>>>,
)
    ensures
        forall|j: int|
            0 <= j < way_streets(keys, way_entries(ways, rels, way_admins), ways).len() ==> !in_relations(
                rels,
                ways[(#[trigger] way_streets(keys, way_entries(ways, rels, way_admins), ways)[j]).0].id,
            ),
    decreases keys.len(),
{
    let e = way_entries(ways, rels, way_admins);
    if keys.len() > 0 {
        lemma_way_streets_outside(keys.drop_last(), ways, rels, way_admins);
        lemma_way_entries_outside(ways, rels, way_admins);
        lemma_min_way_id_of_entry(e, ways, keys.last());
        let p = way_streets(keys.drop_last(), e, ways);
        let s = way_streets(keys, e, ways);
        if let Some(m) = min_way_id(e, ways, keys.last()) {
            crate::osm::lemma_find_way_index_bounds(ways, m);
            let t = choose|t: int| 0 <= t < e.len() && #[trigger] ways[e[t].1].id == m;
            assert(!in_relations(rels, ways[e[t].1].id));
        }
        assert forall|j: int| 0 <= j < s.len() implies !in_relations(rels, ways[(#[trigger] s[j]).0].id) by {
            if j < p.len() {
                assert(s[j] == p[j]);
            }
        }
    }
}

/// No street is made from a way that a relation lists: the ways of a
/// relation are indexed through the relation's street only, so that
/// autocompletion does not find them twice.
pub proof fn lemma_relation_ways_not_indexed_twice<W>(
    relations: Seq<Relation>,
    ways: Seq<Way>,
    way_admins: Seq<Vec<Admin<W>>>,
)
    ensures
        ({
            let e = way_entries(ways, relations, way_admins);
            let ws = way_streets(distinct_keys(e).sort_by(key_order()), e, ways);
            forall|j: int| 0 <= j < ws.len() ==> !in_relations(relations, ways[(#[trigger] ws[j]).0].id)
        }),
{
    let e = way_entries(ways, relations, way_admins);
    lemma_way_streets_outside(distinct_keys(e).sort_by(key_order()), ways, relations, way_admins);
}

proof fn lemma_min_way_id_from_key(
    e: Seq<((Seq<char>, Seq<Seq<char>>), int)>,
    ways: Seq<Way>,
    key: (Seq<char>, Seq<Seq<char>>),
)
    ensures
        min_way_id(e, ways, key) matches Some(m) ==> exists|t: int|
            0 <= t < e.len() && e[t].0 == key && #[trigger] ways[e[t].1].id == m,
    decreases e.len(),
{
    if e.len() > 0 {
        lemma_min_way_id_from_key(e.drop_last(), ways, key);
        let p = min_way_id(e.drop_last(), ways, key);
        if p is Some {
            let m = p->0;
            let t = choose|t: int| 0 <= t < e.drop_last().len() && e.drop_last()[t].0 == key && #[trigger] ways[e.drop_last()[t].1].id == m;
            assert(e[t] == e.drop_last()[t]);
        }
        if e.last().0 == key {
            assert(e[e.len() - 1] == e.last());
        }
    }
}

proof fn lemma_way_entries_keys<W>(ways: Seq<Way>, rels: Seq<Relation>, way_admins: Seq<Vec<Admin<W>>>)
    ensures
        forall|t: int|
            0 <= t < way_entries(ways, rels, way_admins).len() ==> {
                let x = #[trigger] way_entries(ways, rels, way_admins)[t];
                &&& 0 <= x.1 < ways.len()
                &&& lookup(ways[x.1].tags.entries@, "name"@) == Some(x.0.0)
                &&& x.0.1 == city_ids(way_admins[x.1]@)
            },
    decreases ways.len(),
{
    if ways.len() > 0 {
        lemma_way_entries_keys(ways.drop_last(), rels, way_admins);
        let p = way_entries(ways.drop_last(), rels, way_admins);
        let e = way_entries(ways, rels, way_admins);
        assert forall|t: int| 0 <= t < e.len() implies {
            let x = #[trigger] e[t];
            &&& 0 <= x.1 < ways.len()
            &&& lookup(ways[x.1].tags.entries@, "name"@) == Some(x.0.0)
            &&& x.0.1 == city_ids(way_admins[x.1]@)
        } by {
            if t < p.len() {
                assert(e[t] == p[t]);
                assert(ways.drop_last()[p[t].1] == ways[p[t].1]);
            }
        }
    }
}

/// The key of a street made from a way: its name and its cities.
pub open spec fn street_key<W>(x: (int, Seq<char>), way_admins: Seq<Vec<Admin<W>>>) -> (Seq<char>, Seq<Seq<char>>) {
    (x.1, city_ids(way_admins[x.0]@))
}

proof fn lemma_way_streets_keys<W>(
    keys: Seq<(Seq<char>, Seq<Seq<char>>)>,
    ways: Seq<Way>,
    rels: Seq<Relation>,
    way_admins: Seq<Vec<Admin<W>>>,
)
    requires
        forall|i: int, j: int| 0 <= i < j < ways.len() ==> ways[i].id != ways[j].id,
        keys.no_duplicates(),
    ensures
        ({
            let ws = way_streets(keys, way_entries(ways, rels, way_admins), ways);
            &&& forall|j: int| 0 <= j < ws.len() ==> keys.contains(#[trigger] street_key(ws[j], way_admins))
            &&& forall|a: int, b: int|
                0 <= a < b < ws.len() ==> #[trigger] street_key(ws[a], way_admins) != #[trigger] street_key(
                    ws[b],
                    way_admins,
                )
        }),
    decreases keys.len(),
{
    let e = way_entries(ways, rels, way_admins);
    if keys.len() > 0 {
        let k = keys.last();
        let pk = keys.drop_last();
        assert(pk.no_duplicates());
        lemma_way_streets_keys(pk, ways, rels, way_admins);
        let p = way_streets(pk, e, ways);
        let ws = way_streets(keys, e, ways);
        lemma_way_entries_keys(ways, rels, way_admins);
        lemma_min_way_id_from_key(e, ways, k);
        if ws.len() > p.len() {
            let m = min_way_id(e, ways, k)->0;
            let w = find_way_index(ways, m)->0;
            crate::osm::lemma_find_way_index_bounds(ways, m);
            let t = choose|t: int| 0 <= t < e.len() && e[t].0 == k && #[trigger] ways[e[t].1].id == m;
            assert(e[t].1 == w);
            assert(street_key(ws[p.len() as int], way_admins) == k);
            assert(!pk.contains(k)) by {
                if pk.contains(k) {
                    let i = choose|i: int| 0 <= i < pk.len() && pk[i] == k;
                    assert(keys[i] == keys[keys.len() - 1]);
                }
            }
        }
        assert forall|j: int| 0 <= j < ws.len() implies keys.contains(#[trigger] street_key(ws[j], way_admins)) by {
            if j < p.len() {
                assert(ws[j] == p[j]);
                let i = choose|i: int| 0 <= i < pk.len() && pk[i] == street_key(p[j], way_admins);
                assert(keys[i] == pk[i]);
            } else {
                assert(keys[keys.len() - 1] == k);
            }
        }
        assert forall|a: int, b: int| 0 <= a < b < ws.len() implies #[trigger] street_key(ws[a], way_admins) != #[trigger] street_key(ws[b], way_admins) by {
            assert(ws[a] == p[a]);
            if b < p.len() {
                assert(ws[b] == p[b]);
            } else {
                assert(pk.contains(street_key(p[a], way_admins)));
            }
        }
    }
}

/// Ways are merged by name and cities: when the store holds each way once,
/// no two streets made from ways have the same name and the same cities.
pub proof fn lemma_one_street_per_name_and_cities<W>(
    relations: Seq<Relation>,
    ways: Seq<Way>,
    way_admins: Seq<Vec<Admin<W>>>,
)
    requires
        forall|i: int, j: int| 0 <= i < j < ways.len() ==> ways[i].id != ways[j].id,
    ensures
        ({
            let e = way_entries(ways, relations, way_admins);
            let ws = way_streets(distinct_keys(e).sort_by(key_order()), e, ways);
            forall|a: int, b: int|
                0 <= a < b < ws.len() ==> (ws[a].1, city_ids(way_admins[ws[a].0]@)) != (ws[b].1, city_ids(
                    way_admins[ws[b].0]@,
                ))
        }),
{
    let e = way_entries(ways, relations, way_admins);
    let d = distinct_keys(e);
    let sorted = d.sort_by(key_order());
    assert(d.no_duplicates()) by {
        assert forall|i: int, j: int| 0 <= i < d.len() && 0 <= j < d.len() && i != j implies d[i] != d[j] by {
            lemma_distinct_keys_unique(e, i, j);
        }
    }
    lemma_key_total_ordering();
    d.lemma_sort_by_ensures(key_order());
    d.lemma_multiset_has_no_duplicates();
    sorted.lemma_multiset_has_no_duplicates_conv();
    lemma_way_streets_keys(sorted, ways, relations, way_admins);
    let ws = way_streets(sorted, e, ways);
    assert forall|a: int, b: int| 0 <= a < b < ws.len() implies (ws[a].1, city_ids(way_admins[ws[a].0]@)) != (ws[b].1, city_ids(way_admins[ws[b].0]@)) by {
        assert(street_key(ws[a], way_admins) != street_key(ws[b], way_admins));
    }
}

} // verus!
